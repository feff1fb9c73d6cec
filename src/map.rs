//! Canonical maps, patches and conflict sets: path-keyed tables kept in
//! strictly increasing path order.
use crate::path::{PathView, path_lt, path_view};
use crate::value::{ChangeView, GameDataValue, ItemChange, ValueView};
use vstd::prelude::*;

verus! {

/// Keys of an association list, in strictly increasing path order.
pub open spec fn keys_sorted<V>(s: Seq<(PathView, V)>) -> bool {
    forall|i: int, j: int| 0 <= i < j < s.len() ==> path_lt(#[trigger] s[i].0, #[trigger] s[j].0)
}

/// The map that an association list stands for; later entries win.
pub open spec fn assoc_map<V>(s: Seq<(PathView, V)>) -> Map<PathView, V>
    decreases s.len(),
{
    if s.len() == 0 {
        Map::empty()
    } else {
        assoc_map(s.drop_last()).insert(s.last().0, s.last().1)
    }
}

pub proof fn lemma_assoc_map_push<V>(s: Seq<(PathView, V)>, k: PathView, v: V)
    ensures
        assoc_map(s.push((k, v))) == assoc_map(s).insert(k, v),
{
    assert(s.push((k, v)).drop_last() =~= s);
}

pub proof fn lemma_assoc_map_finite<V>(s: Seq<(PathView, V)>)
    ensures
        assoc_map(s).dom().finite(),
    decreases s.len(),
{
    if s.len() > 0 {
        lemma_assoc_map_finite(s.drop_last());
    }
}

pub proof fn lemma_assoc_map_domain<V>(s: Seq<(PathView, V)>, k: PathView)
    ensures
        assoc_map(s).contains_key(k) <==> exists|i: int| 0 <= i < s.len() && #[trigger] s[i].0 == k,
    decreases s.len(),
{
    if s.len() > 0 {
        lemma_assoc_map_domain(s.drop_last(), k);
        if assoc_map(s).contains_key(k) && k != s.last().0 {
            let i = choose|i: int| 0 <= i < s.drop_last().len() && #[trigger] s.drop_last()[i].0 == k;
            assert(s[i].0 == k);
        }
        if exists|i: int| 0 <= i < s.len() && #[trigger] s[i].0 == k {
            let i = choose|i: int| 0 <= i < s.len() && #[trigger] s[i].0 == k;
            if i < s.len() - 1 {
                assert(s.drop_last()[i].0 == k);
            }
        }
    }
}

pub proof fn lemma_assoc_map_index<V>(s: Seq<(PathView, V)>, i: int)
    requires
        keys_sorted(s),
        0 <= i < s.len(),
    ensures
        assoc_map(s).contains_key(s[i].0),
        assoc_map(s)[s[i].0] == s[i].1,
    decreases s.len(),
{
    lemma_assoc_map_domain(s, s[i].0);
    if i < s.len() - 1 {
        lemma_assoc_map_index(s.drop_last(), i);
        assert(path_lt(s[i].0, s.last().0));
        crate::path::lemma_path_lt_irreflexive(s[i].0);
    }
}

/// A key smaller than every key of a sorted list is not in its map.
pub proof fn lemma_assoc_map_absent<V>(s: Seq<(PathView, V)>, k: PathView)
    requires
        forall|i: int| 0 <= i < s.len() ==> path_lt(k, #[trigger] s[i].0) || path_lt(s[i].0, k),
    ensures
        !assoc_map(s).contains_key(k),
{
    lemma_assoc_map_domain(s, k);
    if assoc_map(s).contains_key(k) {
        let i = choose|i: int| 0 <= i < s.len() && #[trigger] s[i].0 == k;
        crate::path::lemma_path_lt_irreflexive(k);
    }
}

pub open spec fn entry_view<V: View>(e: (Vec<String>, V)) -> (PathView, V::V) {
    (path_view(e.0@), e.1@)
}

/// A copy of a path.
pub fn clone_path(p: &Vec<String>) -> (r: Vec<String>)
    ensures
        path_view(r@) == path_view(p@),
{
    let mut r: Vec<String> = Vec::new();
    let mut i: usize = 0;
    while i < p.len()
        invariant
            i <= p.len(),
            path_view(r@) == path_view(p@.take(i as int)),
        decreases p.len() - i,
    {
        r.push(crate::value::clone_string(&p[i]));
        assert(path_view(p@.take(i + 1)) =~= path_view(p@.take(i as int)).push(p@[i as int]@));
        assert(path_view(r@) =~= path_view(p@.take(i + 1)));
        i = i + 1;
    }
    assert(p@.take(i as int) =~= p@);
    r
}

/// A copy of a canonical map.
pub fn clone_data_map(m: &DataMap) -> (r: DataMap)
    ensures
        r.entries_view() == m.entries_view(),
        r@ == m@,
        r.wf() == m.wf(),
{
    let mut out: Vec<(Vec<String>, GameDataValue)> = Vec::new();
    let mut i: usize = 0;
    while i < m.entries.len()
        invariant
            i <= m.entries@.len(),
            out@.len() == i,
            forall|a: int| 0 <= a < i ==> entry_view(#[trigger] out@[a]) == entry_view(m.entries@[a]),
        decreases m.entries@.len() - i,
    {
        out.push((clone_path(&m.entries[i].0), m.entries[i].1.duplicate()));
        i = i + 1;
    }
    let r = DataMap { entries: out };
    assert(r.entries_view() =~= m.entries_view()) by {
        assert forall|a: int| 0 <= a < i implies r.entries_view()[a] == m.entries_view()[a] by {
            assert(entry_view(out@[a]) == entry_view(m.entries@[a]));
        }
    }
    r
}

/// The canonical map of a record: each key path with its scalar value.
#[derive(Clone, Debug, PartialEq, Eq)]
pub struct DataMap {
    pub entries: Vec<(Vec<String>, GameDataValue)>,
}

/// A patch: each changed key path with its change.
#[derive(Clone, Debug, PartialEq, Eq)]
pub struct Patch {
    pub entries: Vec<(Vec<String>, ItemChange)>,
}

/// A conflict set: each disputed key path with the changes of every source
/// that touched it, in the order the sources were given.
#[derive(Clone, Debug, PartialEq, Eq)]
pub struct Conflicts {
    pub entries: Vec<(Vec<String>, Vec<(String, ItemChange)>)>,
}

pub open spec fn source_changes_view(s: Seq<(String, ItemChange)>) -> Seq<(Seq<char>, ChangeView)> {
    s.map_values(|e: (String, ItemChange)| (e.0@, e.1@))
}

impl DataMap {
    pub open spec fn entries_view(&self) -> Seq<(PathView, ValueView)> {
        self.entries@.map_values(|e: (Vec<String>, GameDataValue)| (path_view(e.0@), e.1@))
    }

    pub open spec fn wf(&self) -> bool {
        keys_sorted(self.entries_view())
    }

    pub open spec fn view(&self) -> Map<PathView, ValueView> {
        assoc_map(self.entries_view())
    }
}

impl Patch {
    pub open spec fn entries_view(&self) -> Seq<(PathView, ChangeView)> {
        self.entries@.map_values(|e: (Vec<String>, ItemChange)| (path_view(e.0@), e.1@))
    }

    pub open spec fn wf(&self) -> bool {
        keys_sorted(self.entries_view())
    }

    pub open spec fn view(&self) -> Map<PathView, ChangeView> {
        assoc_map(self.entries_view())
    }
}

impl Conflicts {
    pub open spec fn entries_view(&self) -> Seq<(PathView, Seq<(Seq<char>, ChangeView)>)> {
        self.entries@.map_values(
            |e: (Vec<String>, Vec<(String, ItemChange)>)|
                (path_view(e.0@), source_changes_view(e.1@)),
        )
    }

    pub open spec fn wf(&self) -> bool {
        keys_sorted(self.entries_view())
    }

    pub open spec fn view(&self) -> Map<PathView, Seq<(Seq<char>, ChangeView)>> {
        assoc_map(self.entries_view())
    }
}

} // verus!
