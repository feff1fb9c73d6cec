//! Record types: an ordered load list, event overrides, and files that
//! merge only as a whole.
use crate::apply::{apply_spec, lemma_apply_diff_inverse};
use crate::chain::{ChainError, chain_spec, decode_spec, distinct, lemma_chain_round_trip, linked_map, list_from_map};
use crate::diff::diff_spec;
use crate::map::{DataMap, Patch};
use crate::path::{PathView, path_view};
use crate::value::{GameDataValue, ValueView, clone_string};
use vstd::prelude::*;

verus! {

/// An ordered list of names, merged as a chain of successor facts.
#[derive(Clone, Debug, Default, PartialEq, Eq)]
pub struct LoadOrder {
    pub load_order: Vec<String>,
}

impl LoadOrder {
    pub open spec fn view(&self) -> Seq<Seq<char>> {
        path_view(self.load_order@)
    }

    /// The list of names.
    pub fn list(&self) -> (r: &Vec<String>)
        ensures
            path_view(r@) == self@,
    {
        &self.load_order
    }

    /// Flattens the list to its canonical map.
    pub fn to_map(&self) -> (r: DataMap)
        ensures
            r.wf(),
            r@ == chain_spec(self@),
    {
        linked_map(&self.load_order)
    }

    /// Applies a patch to the list's canonical map and reads the list back;
    /// the list is unchanged where the patched map is not a chain.
    pub fn apply_patch(&mut self, patch: Patch) -> (r: Result<(), ChainError>)
        requires
            patch.wf(),
        ensures
            match decode_spec(apply_spec(chain_spec(old(self)@), patch@)) {
                Result::Ok(l) => r is Ok && final(self)@ == l,
                Result::Err(e) => r == Result::<(), ChainError>::Err(e) && final(self)@ == old(self)@,
            },
    {
        let mut m = self.to_map();
        m.apply_patch(patch);
        match list_from_map(&m) {
            Result::Ok(l) => {
                self.load_order = l;
                Result::Ok(())
            },
            Result::Err(e) => Result::Err(e),
        }
    }
}

/// Applying to a list the difference between its map and the map of
/// another list gives that other list, for lists without repeated names.
pub proof fn lemma_load_order_diff_apply(base: Seq<Seq<char>>, target: Seq<Seq<char>>)
    requires
        distinct(target),
    ensures
        decode_spec(apply_spec(chain_spec(base), diff_spec(chain_spec(base), chain_spec(target))))
            == Result::<Seq<Seq<char>>, ChainError>::Ok(target),
{
    lemma_apply_diff_inverse(chain_spec(base), chain_spec(target));
    lemma_chain_round_trip(target);
}

/// One audio event whose id is overridden.
#[derive(Clone, Debug, PartialEq, Eq)]
pub struct Override {
    pub event_id: String,
    pub guid_override: String,
}

/// The overrides of audio event ids.
#[derive(Clone, Debug, Default, PartialEq, Eq)]
pub struct EventGuidOverrides {
    pub event_guid_overrides: Vec<Override>,
}

/// The map of the first `k` overrides: each event id holds its override.
pub open spec fn overrides_prefix(s: Seq<Override>, k: nat) -> Map<PathView, ValueView>
    decreases k,
{
    if k == 0 {
        Map::empty()
    } else {
        overrides_prefix(s, (k - 1) as nat).insert(seq![s[k - 1].event_id@], ValueView::Str(s[k - 1].guid_override@))
    }
}

impl EventGuidOverrides {
    /// Flattens the overrides to their canonical map; of two overrides of
    /// one event the later wins.
    pub fn to_map(&self) -> (r: DataMap)
        ensures
            r.wf(),
            r@ == overrides_prefix(self.event_guid_overrides@, self.event_guid_overrides@.len()),
    {
        let mut m = DataMap::new();
        let mut i: usize = 0;
        while i < self.event_guid_overrides.len()
            invariant
                i <= self.event_guid_overrides@.len(),
                m.wf(),
                m@ == overrides_prefix(self.event_guid_overrides@, i as nat),
            decreases self.event_guid_overrides@.len() - i,
        {
            let o = &self.event_guid_overrides[i];
            let mut key: Vec<String> = Vec::new();
            key.push(clone_string(&o.event_id));
            assert(path_view(key@) =~= seq![o.event_id@]);
            m.insert(key, GameDataValue::String(clone_string(&o.guid_override)));
            i = i + 1;
        }
        m
    }
}

/// A file that is only ever replaced as a whole.
pub trait Binary {
    /// The path of the file.
    fn into_path(self) -> String;
}

/// A game data file outside the structured formats.
pub struct BinaryData(pub String);

/// An image of the activity log.
pub struct ActivityLogImage(pub String);

/// A bank of audio.
pub struct AudioBank(pub String);

/// A campaign data file.
pub struct CampaignData(pub String);

impl Binary for BinaryData {
    fn into_path(self) -> String {
        self.0
    }
}

impl Binary for ActivityLogImage {
    fn into_path(self) -> String {
        self.0
    }
}

impl Binary for AudioBank {
    fn into_path(self) -> String {
        self.0
    }
}

impl Binary for CampaignData {
    fn into_path(self) -> String {
        self.0
    }
}

} // verus!
