//! The game data files that take part in a merge, and the dispatch from a
//! structured file to the rules of its record type.
use crate::apply::apply_spec;
use crate::chain::{ChainError, chain_spec, decode_spec};
use crate::error::ApplyError;
use crate::localization::{StringsTable, locale_conflicts, locale_merged, table_apply, table_map_spec, entry_error};
use crate::map::{Conflicts, DataMap, Patch};
use crate::merge::{SourceChange, agreed_part, contributions_view, contributions_wf, disputed_part, grouped_spec, try_merge_patches};
use crate::path::{PathView, segment_equals};
use crate::records::LoadOrder;
use crate::skills::{skill_conflicts, skill_merged, try_merge_skill_patches};
use crate::value::{ChangeView, ValueView};
use vstd::prelude::*;

verus! {

/// The names of the parts of a hero's data.
pub open spec fn hero_field(s: Seq<char>) -> bool {
    ||| s == "resistances"@
    ||| s == "weapons"@
    ||| s == "armours"@
    ||| s == "skills"@
    ||| s == "riposte_skill"@
    ||| s == "move_skill"@
    ||| s == "tags"@
    ||| s == "extra_stack_limit"@
    ||| s == "deaths_door"@
    ||| s == "modes"@
    ||| s == "incompatible_party_member"@
    ||| s == "unparsed"@
    ||| s == "other"@
}

/// A path inside one of the parts of a hero's data.
pub open spec fn hero_path(p: PathView) -> bool {
    p.len() > 0 && hero_field(p[0])
}

/// Whether `s` names a part of a hero's data.
pub fn is_hero_field(s: &str) -> (r: bool)
    ensures
        r == hero_field(s@),
{
    segment_equals(s, "resistances") || segment_equals(s, "weapons") || segment_equals(s, "armours")
        || segment_equals(s, "skills") || segment_equals(s, "riposte_skill") || segment_equals(s, "move_skill")
        || segment_equals(s, "tags") || segment_equals(s, "extra_stack_limit") || segment_equals(s, "deaths_door")
        || segment_equals(s, "modes") || segment_equals(s, "incompatible_party_member")
        || segment_equals(s, "unparsed") || segment_equals(s, "other")
}

/// Whether every path of the patch lies inside a part of a hero's data.
fn hero_paths_known(patch: &Patch) -> (r: bool)
    ensures
        r == forall|p: PathView| #[trigger] patch@.contains_key(p) ==> hero_path(p),
{
    let ghost pv = patch.entries_view();
    let mut i: usize = 0;
    while i < patch.entries.len()
        invariant
            pv == patch.entries_view(),
            i <= pv.len(),
            forall|a: int| 0 <= a < i ==> hero_path(#[trigger] pv[a].0),
        decreases pv.len() - i,
    {
        let path = &patch.entries[i].0;
        assert(pv[i as int].0 == crate::path::path_view(path@));
        if path.len() == 0 || !is_hero_field(path[0].as_str()) {
            proof {
                crate::map::lemma_assoc_map_domain(pv, pv[i as int].0);
                assert(patch@.contains_key(pv[i as int].0));
                if path@.len() > 0 {
                    assert(pv[i as int].0[0] == path@[0]@);
                }
                assert(!hero_path(pv[i as int].0));
            }
            return false;
        }
        i = i + 1;
    }
    proof {
        assert forall|p: PathView| #[trigger] patch@.contains_key(p) implies hero_path(p) by {
            crate::map::lemma_assoc_map_domain(pv, p);
        }
    }
    true
}

/// What applying `patch` to `old` gives: the record `new` and the result
/// `r`. A hero's data takes only paths inside its parts, and is unchanged
/// when a path lies elsewhere.
pub open spec fn apply_relation(
    old: StructuredItem,
    patch: Map<PathView, ChangeView>,
    new: StructuredItem,
    r: Result<(), ApplyError>,
) -> bool {
    match old {
        StructuredItem::HeroInfo(m0) => (new matches StructuredItem::HeroInfo(m1)
            && (r is Ok <==> forall|p: PathView| #[trigger] patch.contains_key(p) ==> hero_path(p))
            && (r is Ok ==> m1@ == apply_spec(m0@, patch))
            && (r is Err ==> r == Result::<(), ApplyError>::Err(ApplyError::UnknownPath) && m1@ == m0@)),
        StructuredItem::StringsTable(t0) => (new matches StructuredItem::StringsTable(t1)
            && (r is Ok <==> forall|p: PathView| #[trigger] patch.contains_key(p) ==> entry_error(p, patch[p]) is None)
            && (r is Ok ==> t1@ == table_apply(t0@, patch))
            && (r is Err ==> t1@ == t0@)),
        StructuredItem::LoadOrder(l0) => (new matches StructuredItem::LoadOrder(l1)
            && match decode_spec(apply_spec(chain_spec(l0@), patch)) {
                Result::Ok(l) => r is Ok && l1@ == l,
                Result::Err(_) => r == Result::<(), ApplyError>::Err(ApplyError::Malformed) && l1@ == l0@,
            }),
    }
}

/// Applying a patch depends on the record's content alone.
pub proof fn lemma_apply_relation_content(
    a: StructuredItem,
    b: StructuredItem,
    patch: Map<PathView, ChangeView>,
    new: StructuredItem,
    r: Result<(), ApplyError>,
)
    requires
        a.same_content(b),
    ensures
        apply_relation(a, patch, new, r) == apply_relation(b, patch, new, r),
{
}

/// A structured file, of one of the record types that merge path by path.
pub enum StructuredItem {
    /// A hero's data, held as its canonical map.
    HeroInfo(DataMap),
    /// The localization table.
    StringsTable(StringsTable),
    /// An ordered load list.
    LoadOrder(LoadOrder),
}

impl StructuredItem {
    pub open spec fn wf(&self) -> bool {
        match self {
            StructuredItem::HeroInfo(m) => m.wf(),
            StructuredItem::StringsTable(t) => t.wf(),
            StructuredItem::LoadOrder(_) => true,
        }
    }

    /// The canonical map of the record.
    pub open spec fn map_view(&self) -> Map<PathView, ValueView> {
        match self {
            StructuredItem::HeroInfo(m) => m@,
            StructuredItem::StringsTable(t) => table_map_spec(t@),
            StructuredItem::LoadOrder(l) => chain_spec(l@),
        }
    }

    /// The merged patch and the conflict set of the record's type for a
    /// grouping of changes by path.
    pub open spec fn merge_rule(&self, g: Map<PathView, Seq<SourceChange>>) -> (Map<PathView, ChangeView>, Map<PathView, Seq<SourceChange>>) {
        match self {
            StructuredItem::HeroInfo(_) => (skill_merged(g), skill_conflicts(g)),
            StructuredItem::StringsTable(_) => (locale_merged(g), locale_conflicts(g)),
            StructuredItem::LoadOrder(_) => (agreed_part(g), disputed_part(g)),
        }
    }

    /// The same kind of record with the same content.
    pub open spec fn same_content(&self, other: StructuredItem) -> bool {
        match (*self, other) {
            (StructuredItem::HeroInfo(a), StructuredItem::HeroInfo(b)) => a@ == b@,
            (StructuredItem::StringsTable(a), StructuredItem::StringsTable(b)) => a@ == b@,
            (StructuredItem::LoadOrder(a), StructuredItem::LoadOrder(b)) => a@ == b@,
            _ => false,
        }
    }

    /// A copy of the record.
    pub fn duplicate(&self) -> (r: StructuredItem)
        requires
            self.wf(),
        ensures
            r.wf(),
            self.same_content(r),
    {
        match self {
            StructuredItem::HeroInfo(m) => StructuredItem::HeroInfo(crate::map::clone_data_map(m)),
            StructuredItem::StringsTable(t) => StructuredItem::StringsTable(t.duplicate()),
            StructuredItem::LoadOrder(l) => StructuredItem::LoadOrder(LoadOrder { load_order: crate::map::clone_path(&l.load_order) }),
        }
    }

    /// Flattens the record to its canonical map.
    pub fn to_map(&self) -> (r: DataMap)
        requires
            self.wf(),
        ensures
            r.wf(),
            r@ == self.map_view(),
    {
        match self {
            StructuredItem::HeroInfo(m) => crate::map::clone_data_map(m),
            StructuredItem::StringsTable(t) => t.to_map(),
            StructuredItem::LoadOrder(l) => l.to_map(),
        }
    }

    /// Merges the patches of several sources by the rule of the record's
    /// type.
    pub fn try_merge_patches(&self, contributions: &Vec<(String, Patch)>) -> (r: (Patch, Conflicts))
        requires
            contributions_wf(contributions@),
        ensures
            r.0.wf(),
            r.1.wf(),
            (r.0@, r.1@) == self.merge_rule(grouped_spec(contributions_view(contributions@))),
    {
        match self {
            StructuredItem::HeroInfo(_) => try_merge_skill_patches(contributions),
            StructuredItem::StringsTable(t) => t.try_merge_patches(contributions),
            StructuredItem::LoadOrder(_) => try_merge_patches(contributions),
        }
    }

    /// Applies a patch to the record.
    pub fn apply_patch(&mut self, patch: Patch) -> (r: Result<(), ApplyError>)
        requires
            old(self).wf(),
            patch.wf(),
        ensures
            final(self).wf(),
            apply_relation(*old(self), patch@, *final(self), r),
    {
        match self {
            StructuredItem::HeroInfo(m) => {
                if !hero_paths_known(&patch) {
                    return Result::Err(ApplyError::UnknownPath);
                }
                m.apply_patch(patch);
                Result::Ok(())
            },
            StructuredItem::StringsTable(t) => t.apply_patch(patch),
            StructuredItem::LoadOrder(l) => match l.apply_patch(patch) {
                Result::Ok(()) => Result::Ok(()),
                Result::Err(_) => Result::Err(ApplyError::Malformed),
            },
        }
    }
}

/// Where the merge of one file stands after the automatic step.
pub enum FileMerge {
    /// The sources agree: the patch to apply.
    Done(Patch),
    /// The merged part, and the conflicts that a resolver must answer.
    NeedsResolution(Patch, Conflicts),
}

impl StructuredItem {
    /// Merges the patches that several mods make to this file, by the rule
    /// of its record type; where conflicts remain, they go to a resolver,
    /// whose answer `merge_resolved` folds in.
    pub fn merge_file(&self, contributions: &Vec<(String, Patch)>) -> (r: FileMerge)
        requires
            contributions_wf(contributions@),
        ensures
            match r {
                FileMerge::Done(p) => p.wf()
                    && p@ == self.merge_rule(grouped_spec(contributions_view(contributions@))).0
                    && self.merge_rule(grouped_spec(contributions_view(contributions@))).1
                        == Map::<PathView, Seq<SourceChange>>::empty(),
                FileMerge::NeedsResolution(m, c) => m.wf() && c.wf()
                    && m@ == self.merge_rule(grouped_spec(contributions_view(contributions@))).0
                    && c@ == self.merge_rule(grouped_spec(contributions_view(contributions@))).1
                    && c@ != Map::<PathView, Seq<SourceChange>>::empty(),
            },
    {
        let (merged, conflicts) = self.try_merge_patches(contributions);
        if conflicts.entries.len() == 0 {
            assert(conflicts@ =~= Map::<PathView, Seq<SourceChange>>::empty());
            FileMerge::Done(merged)
        } else {
            proof {
                crate::map::lemma_assoc_map_index(conflicts.entries_view(), 0);
            }
            FileMerge::NeedsResolution(merged, conflicts)
        }
    }
}

/// A file of game data: one replaced as a whole, held by its path, or a
/// structured record.
pub enum GameDataItem {
    Binary(String),
    Structured(StructuredItem),
}

impl GameDataItem {
    pub open spec fn wf(&self) -> bool {
        match self {
            GameDataItem::Binary(_) => true,
            GameDataItem::Structured(s) => s.wf(),
        }
    }

    /// Flattens a structured file to its canonical map.
    pub fn to_map(&self) -> (r: DataMap)
        requires
            self is Structured,
            self.wf(),
        ensures
            r.wf(),
            r@ == self->Structured_0.map_view(),
    {
        match self {
            GameDataItem::Structured(s) => s.to_map(),
            GameDataItem::Binary(_) => DataMap::new(),
        }
    }
}

/// The game data of one installation: each file's relative path with its
/// content. A path is meant to occur once; lookups take its first file.
pub struct GameData {
    pub files: Vec<(String, GameDataItem)>,
}

/// The first file at path `p`.
pub open spec fn lookup_spec(files: Seq<(String, GameDataItem)>, p: Seq<char>) -> Option<GameDataItem>
    decreases files.len(),
{
    if files.len() == 0 {
        Option::None
    } else if files[0].0@ == p {
        Option::Some(files[0].1)
    } else {
        lookup_spec(files.drop_first(), p)
    }
}

proof fn lemma_lookup_skip(files: Seq<(String, GameDataItem)>, p: Seq<char>, i: int)
    requires
        0 <= i <= files.len(),
        forall|a: int| 0 <= a < i ==> (#[trigger] files[a]).0@ != p,
    ensures
        lookup_spec(files, p) == lookup_spec(files.skip(i), p),
    decreases i,
{
    if i > 0 {
        lemma_lookup_skip(files, p, i - 1);
        assert(files.skip(i - 1).drop_first() =~= files.skip(i));
        assert(files.skip(i - 1)[0] == files[i - 1]);
    } else {
        assert(files.skip(0) =~= files);
    }
}

impl GameData {
    /// Whether some file of the game data has the path `p`.
    pub open spec fn has_file(&self, p: Seq<char>) -> bool {
        exists|i: int| 0 <= i < self.files@.len() && (#[trigger] self.files@[i]).0@ == p
    }

    /// The first file at `path`, if any.
    pub fn get(&self, path: &String) -> (r: Option<&GameDataItem>)
        ensures
            r matches Option::Some(item) ==> exists|i: int| 0 <= i < self.files@.len()
                && (#[trigger] self.files@[i]).0@ == path@ && self.files@[i].1 == *item,
            r is None ==> forall|i: int| 0 <= i < self.files@.len() ==> (#[trigger] self.files@[i]).0@ != path@,
            match r {
                Option::Some(item) => lookup_spec(self.files@, path@) == Option::Some(*item),
                Option::None => lookup_spec(self.files@, path@) is None,
            },
    {
        let mut i: usize = 0;
        while i < self.files.len()
            invariant
                i <= self.files@.len(),
                forall|a: int| 0 <= a < i ==> (#[trigger] self.files@[a]).0@ != path@,
            decreases self.files@.len() - i,
        {
            if self.files[i].0 == *path {
                proof {
                    lemma_lookup_skip(self.files@, path@, i as int);
                    assert(self.files@.skip(i as int)[0] == self.files@[i as int]);
                }
                return Option::Some(&self.files[i].1);
            }
            i = i + 1;
        }
        proof {
            lemma_lookup_skip(self.files@, path@, i as int);
        }
        Option::None
    }
}

} // verus!
