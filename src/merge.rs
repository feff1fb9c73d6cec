//! Merging the patches of several sources into one patch and a conflict set.
use crate::map::{Conflicts, Patch, assoc_map, clone_path, keys_sorted, lemma_assoc_map_absent, lemma_assoc_map_push, source_changes_view};
use crate::path::{PathView, cmp_path, lemma_path_lt_transitive, path_lt};
use crate::value::{ChangeView, ItemChange, clone_string};
use core::cmp::Ordering;
use vstd::prelude::*;

verus! {

/// The changes of one source at one path.
pub type SourceChange = (Seq<char>, ChangeView);

/// What a list of (source name, patch) pairs means to specifications.
pub type Contributions = Seq<(Seq<char>, Map<PathView, ChangeView>)>;

pub open spec fn contributions_view(cs: Seq<(String, Patch)>) -> Contributions {
    cs.map_values(|c: (String, Patch)| (c.0@, c.1@))
}

pub open spec fn contributions_wf(cs: Seq<(String, Patch)>) -> bool {
    forall|i: int| 0 <= i < cs.len() ==> (#[trigger] cs[i]).1.wf()
}

/// The changes that the sources make at `p`, in the order of the sources.
pub open spec fn changes_at(cs: Contributions, p: PathView) -> Seq<SourceChange>
    decreases cs.len(),
{
    if cs.len() == 0 {
        Seq::empty()
    } else if cs.last().1.contains_key(p) {
        changes_at(cs.drop_last(), p).push((cs.last().0, cs.last().1[p]))
    } else {
        changes_at(cs.drop_last(), p)
    }
}

/// All changes in the list are structurally equal.
pub open spec fn all_agree(s: Seq<SourceChange>) -> bool {
    forall|i: int| 0 <= i < s.len() ==> (#[trigger] s[i]).1 == s[0].1
}

/// Every touched path with the changes made there.
pub open spec fn grouped_spec(cs: Contributions) -> Map<PathView, Seq<SourceChange>> {
    Map::new(|p: PathView| changes_at(cs, p).len() > 0, |p: PathView| changes_at(cs, p))
}

/// The paths of a grouping whose changes all agree, with that change.
pub open spec fn agreed_part(g: Map<PathView, Seq<SourceChange>>) -> Map<PathView, ChangeView> {
    Map::new(|p: PathView| g.contains_key(p) && all_agree(g[p]), |p: PathView| g[p][0].1)
}

/// The paths of a grouping whose changes disagree, with all their changes.
pub open spec fn disputed_part(g: Map<PathView, Seq<SourceChange>>) -> Map<PathView, Seq<SourceChange>> {
    Map::new(|p: PathView| g.contains_key(p) && !all_agree(g[p]), |p: PathView| g[p])
}

/// The merged patch: each path that one source touches, or that several
/// sources change in the same way, with that change.
pub open spec fn merged_spec(cs: Contributions) -> Map<PathView, ChangeView> {
    agreed_part(grouped_spec(cs))
}

/// The conflict set: each path where the sources' changes differ, with the
/// change of every source that touched it.
pub open spec fn conflicts_spec(cs: Contributions) -> Map<PathView, Seq<SourceChange>> {
    disputed_part(grouped_spec(cs))
}

/// One more source added to a grouping.
pub open spec fn add_spec(
    g: Map<PathView, Seq<SourceChange>>,
    name: Seq<char>,
    patch: Map<PathView, ChangeView>,
) -> Map<PathView, Seq<SourceChange>> {
    Map::new(
        |p: PathView| g.contains_key(p) || patch.contains_key(p),
        |p: PathView|
            if g.contains_key(p) {
                if patch.contains_key(p) {
                    g[p].push((name, patch[p]))
                } else {
                    g[p]
                }
            } else {
                seq![(name, patch[p])]
            },
    )
}

proof fn lemma_add_keep(
    g: Map<PathView, Seq<SourceChange>>,
    name: Seq<char>,
    patch: Map<PathView, ChangeView>,
    k: PathView,
    s: Seq<SourceChange>,
)
    requires
        !g.contains_key(k),
        !patch.contains_key(k),
    ensures
        add_spec(g.insert(k, s), name, patch) == add_spec(g, name, patch).insert(k, s),
{
    assert(add_spec(g.insert(k, s), name, patch) =~= add_spec(g, name, patch).insert(k, s));
}

proof fn lemma_add_both(
    g: Map<PathView, Seq<SourceChange>>,
    name: Seq<char>,
    patch: Map<PathView, ChangeView>,
    k: PathView,
    s: Seq<SourceChange>,
    c: ChangeView,
)
    requires
        !g.contains_key(k),
        !patch.contains_key(k),
    ensures
        add_spec(g.insert(k, s), name, patch.insert(k, c)) == add_spec(g, name, patch).insert(
            k,
            s.push((name, c)),
        ),
{
    assert(add_spec(g.insert(k, s), name, patch.insert(k, c)) =~= add_spec(g, name, patch).insert(
        k,
        s.push((name, c)),
    ));
}

proof fn lemma_add_new(
    g: Map<PathView, Seq<SourceChange>>,
    name: Seq<char>,
    patch: Map<PathView, ChangeView>,
    k: PathView,
    c: ChangeView,
)
    requires
        !g.contains_key(k),
        !patch.contains_key(k),
    ensures
        add_spec(g, name, patch.insert(k, c)) == add_spec(g, name, patch).insert(k, seq![(name, c)]),
{
    assert(add_spec(g, name, patch.insert(k, c)) =~= add_spec(g, name, patch).insert(k, seq![(name, c)]));
}

proof fn lemma_grouped_push(cs: Contributions, name: Seq<char>, patch: Map<PathView, ChangeView>)
    ensures
        grouped_spec(cs.push((name, patch))) == add_spec(grouped_spec(cs), name, patch),
{
    assert(cs.push((name, patch)).drop_last() =~= cs);
    assert forall|p: PathView| #[trigger] changes_at(cs, p).len() == 0 && patch.contains_key(p) implies changes_at(cs.push((name, patch)), p) =~= seq![(name, patch[p])] by {
        assert(changes_at(cs, p) =~= Seq::<SourceChange>::empty());
    }
    assert(grouped_spec(cs.push((name, patch))) =~= add_spec(grouped_spec(cs), name, patch));
}

/// A copy of a list of source changes.
pub fn clone_changes(v: &Vec<(String, ItemChange)>) -> (r: Vec<(String, ItemChange)>)
    ensures
        source_changes_view(r@) == source_changes_view(v@),
{
    let mut r: Vec<(String, ItemChange)> = Vec::new();
    let mut i: usize = 0;
    while i < v.len()
        invariant
            i <= v.len(),
            source_changes_view(r@) == source_changes_view(v@.take(i as int)),
        decreases v.len() - i,
    {
        r.push((clone_string(&v[i].0), v[i].1.duplicate()));
        assert(source_changes_view(v@.take(i + 1)) =~= source_changes_view(v@.take(i as int)).push(
            (v@[i as int].0@, v@[i as int].1@),
        ));
        assert(source_changes_view(r@) =~= source_changes_view(v@.take(i + 1)));
        i = i + 1;
    }
    assert(v@.take(i as int) =~= v@);
    r
}

/// Adds the changes of the source `name` to a grouping of changes by path.
fn add_contribution(groups: &Conflicts, name: &String, patch: &Patch) -> (r: Conflicts)
    requires
        groups.wf(),
        patch.wf(),
    ensures
        r.wf(),
        r@ == add_spec(groups@, name@, patch@),
{
    let ghost gs = groups.entries_view();
    let ghost ps = patch.entries_view();
    let ge = &groups.entries;
    let pe = &patch.entries;
    let mut out = Conflicts { entries: Vec::new() };
    let mut i: usize = 0;
    let mut j: usize = 0;
    assert(gs.take(0) =~= Seq::<(PathView, Seq<SourceChange>)>::empty());
    assert(ps.take(0) =~= Seq::<(PathView, ChangeView)>::empty());
    assert(add_spec(Map::empty(), name@, Map::empty()) =~= Map::<PathView, Seq<SourceChange>>::empty());
    while i < ge.len() || j < pe.len()
        invariant
            gs == groups.entries_view(),
            ps == patch.entries_view(),
            ge == &groups.entries,
            pe == &patch.entries,
            keys_sorted(gs),
            keys_sorted(ps),
            i <= gs.len(),
            j <= ps.len(),
            forall|a: int, b: int| 0 <= a < i && j <= b < ps.len() ==> path_lt(#[trigger] gs[a].0, #[trigger] ps[b].0),
            forall|a: int, b: int| i <= a < gs.len() && 0 <= b < j ==> path_lt(#[trigger] ps[b].0, #[trigger] gs[a].0),
            keys_sorted(out.entries_view()),
            forall|e: int| 0 <= e < out.entries_view().len() ==> (i < gs.len() ==> path_lt(#[trigger] out.entries_view()[e].0, gs[i as int].0)),
            forall|e: int| 0 <= e < out.entries_view().len() ==> (j < ps.len() ==> path_lt(#[trigger] out.entries_view()[e].0, ps[j as int].0)),
            out@ == add_spec(assoc_map(gs.take(i as int)), name@, assoc_map(ps.take(j as int))),
        decreases gs.len() - i + ps.len() - j,
    {
        let ghost g_map = assoc_map(gs.take(i as int));
        let ghost p_map = assoc_map(ps.take(j as int));
        let ghost old_out = out.entries_view();
        let ord = if i >= ge.len() {
            Ordering::Greater
        } else if j >= pe.len() {
            Ordering::Less
        } else {
            cmp_path(&ge[i].0, &pe[j].0)
        };
        match ord {
            Ordering::Less => {
                let ghost k = gs[i as int].0;
                let ghost s = gs[i as int].1;
                proof {
                    assert(gs.take(i + 1) =~= gs.take(i as int).push(gs[i as int]));
                    lemma_assoc_map_push(gs.take(i as int), k, s);
                    assert forall|a: int| 0 <= a < gs.take(i as int).len() implies path_lt(k, #[trigger] gs.take(i as int)[a].0) || path_lt(gs.take(i as int)[a].0, k) by {
                        assert(path_lt(gs[a].0, k));
                    }
                    lemma_assoc_map_absent(gs.take(i as int), k);
                    assert forall|b: int| 0 <= b < ps.take(j as int).len() implies path_lt(k, #[trigger] ps.take(j as int)[b].0) || path_lt(ps.take(j as int)[b].0, k) by {
                        assert(path_lt(ps[b].0, k));
                    }
                    lemma_assoc_map_absent(ps.take(j as int), k);
                    lemma_add_keep(g_map, name@, p_map, k, s);
                    assert forall|a: int, b: int| 0 <= a < i + 1 && j <= b < ps.len() implies path_lt(#[trigger] gs[a].0, #[trigger] ps[b].0) by {
                        if a == i && b > j {
                            lemma_path_lt_transitive(k, ps[j as int].0, ps[b].0);
                        }
                    }
                }
                let p = clone_path(&ge[i].0);
                let v = clone_changes(&ge[i].1);
                out.entries.push((p, v));
                proof {
                    assert(out.entries_view() =~= old_out.push((k, s)));
                    lemma_assoc_map_push(old_out, k, s);
                    assert forall|e: int| 0 <= e < out.entries_view().len() && i + 1 < gs.len() implies path_lt(#[trigger] out.entries_view()[e].0, gs[i + 1].0) by {
                        if e < old_out.len() {
                            lemma_path_lt_transitive(out.entries_view()[e].0, k, gs[i + 1].0);
                        }
                    }
                }
                i = i + 1;
            },
            Ordering::Equal => {
                let ghost k = ps[j as int].0;
                let ghost c = ps[j as int].1;
                let ghost s = gs[i as int].1;
                proof {
                    assert(gs.take(i + 1) =~= gs.take(i as int).push(gs[i as int]));
                    assert(ps.take(j + 1) =~= ps.take(j as int).push(ps[j as int]));
                    lemma_assoc_map_push(gs.take(i as int), k, s);
                    lemma_assoc_map_push(ps.take(j as int), k, c);
                    assert forall|a: int| 0 <= a < gs.take(i as int).len() implies path_lt(k, #[trigger] gs.take(i as int)[a].0) || path_lt(gs.take(i as int)[a].0, k) by {
                        assert(path_lt(gs[a].0, k));
                    }
                    lemma_assoc_map_absent(gs.take(i as int), k);
                    assert forall|b: int| 0 <= b < ps.take(j as int).len() implies path_lt(k, #[trigger] ps.take(j as int)[b].0) || path_lt(ps.take(j as int)[b].0, k) by {
                        assert(path_lt(ps[b].0, k));
                    }
                    lemma_assoc_map_absent(ps.take(j as int), k);
                    lemma_add_both(g_map, name@, p_map, k, s, c);
                    assert forall|a: int, b: int| 0 <= a < i + 1 && j + 1 <= b < ps.len() implies path_lt(#[trigger] gs[a].0, #[trigger] ps[b].0) by {
                        if a < i {
                            lemma_path_lt_transitive(gs[a].0, k, ps[b].0);
                        }
                    }
                    assert forall|a: int, b: int| i + 1 <= a < gs.len() && 0 <= b < j + 1 implies path_lt(#[trigger] ps[b].0, #[trigger] gs[a].0) by {
                        if b == j {
                            assert(path_lt(gs[i as int].0, gs[a].0));
                        }
                    }
                }
                let p = clone_path(&ge[i].0);
                let mut v = clone_changes(&ge[i].1);
                v.push((clone_string(name), pe[j].1.duplicate()));
                assert(source_changes_view(v@) =~= s.push((name@, c)));
                out.entries.push((p, v));
                proof {
                    assert(out.entries_view() =~= old_out.push((k, s.push((name@, c)))));
                    lemma_assoc_map_push(old_out, k, s.push((name@, c)));
                    assert forall|e: int| 0 <= e < out.entries_view().len() && j + 1 < ps.len() implies path_lt(#[trigger] out.entries_view()[e].0, ps[j + 1].0) by {
                        if e < old_out.len() {
                            lemma_path_lt_transitive(out.entries_view()[e].0, k, ps[j + 1].0);
                        }
                    }
                    assert forall|e: int| 0 <= e < out.entries_view().len() && i + 1 < gs.len() implies path_lt(#[trigger] out.entries_view()[e].0, gs[i + 1].0) by {
                        if e < old_out.len() {
                            lemma_path_lt_transitive(out.entries_view()[e].0, k, gs[i + 1].0);
                        }
                    }
                }
                i = i + 1;
                j = j + 1;
            },
            Ordering::Greater => {
                let ghost k = ps[j as int].0;
                let ghost c = ps[j as int].1;
                proof {
                    assert(ps.take(j + 1) =~= ps.take(j as int).push(ps[j as int]));
                    lemma_assoc_map_push(ps.take(j as int), k, c);
                    assert forall|a: int| 0 <= a < gs.take(i as int).len() implies path_lt(k, #[trigger] gs.take(i as int)[a].0) || path_lt(gs.take(i as int)[a].0, k) by {
                        assert(path_lt(gs[a].0, k));
                    }
                    lemma_assoc_map_absent(gs.take(i as int), k);
                    assert forall|b: int| 0 <= b < ps.take(j as int).len() implies path_lt(k, #[trigger] ps.take(j as int)[b].0) || path_lt(ps.take(j as int)[b].0, k) by {
                        assert(path_lt(ps[b].0, k));
                    }
                    lemma_assoc_map_absent(ps.take(j as int), k);
                    lemma_add_new(g_map, name@, p_map, k, c);
                    assert forall|a: int, b: int| 0 <= a < i && j + 1 <= b < ps.len() implies path_lt(#[trigger] gs[a].0, #[trigger] ps[b].0) by {
                        lemma_path_lt_transitive(gs[a].0, k, ps[b].0);
                    }
                    assert forall|a: int, b: int| i <= a < gs.len() && 0 <= b < j + 1 implies path_lt(#[trigger] ps[b].0, #[trigger] gs[a].0) by {
                        if b == j && a > i {
                            lemma_path_lt_transitive(k, gs[i as int].0, gs[a].0);
                        }
                    }
                }
                let p = clone_path(&pe[j].0);
                let mut v: Vec<(String, ItemChange)> = Vec::new();
                v.push((clone_string(name), pe[j].1.duplicate()));
                assert(source_changes_view(v@) =~= seq![(name@, c)]);
                out.entries.push((p, v));
                proof {
                    assert(out.entries_view() =~= old_out.push((k, seq![(name@, c)])));
                    lemma_assoc_map_push(old_out, k, seq![(name@, c)]);
                    assert forall|e: int| 0 <= e < out.entries_view().len() && j + 1 < ps.len() implies path_lt(#[trigger] out.entries_view()[e].0, ps[j + 1].0) by {
                        if e < old_out.len() {
                            lemma_path_lt_transitive(out.entries_view()[e].0, k, ps[j + 1].0);
                        }
                    }
                }
                j = j + 1;
            },
        }
    }
    assert(gs.take(i as int) =~= gs);
    assert(ps.take(j as int) =~= ps);
    out
}

/// Groups the changes of all sources by path: each touched path with the
/// (source name, change) pairs made there, in the order of the sources.
pub fn regroup(contributions: &Vec<(String, Patch)>) -> (r: Conflicts)
    requires
        contributions_wf(contributions@),
    ensures
        r.wf(),
        r@ == grouped_spec(contributions_view(contributions@)),
{
    let ghost cs = contributions_view(contributions@);
    let mut groups = Conflicts { entries: Vec::new() };
    let mut c: usize = 0;
    assert(grouped_spec(cs.take(0)) =~= Map::<PathView, Seq<SourceChange>>::empty());
    assert(groups.entries_view() =~= Seq::<(PathView, Seq<SourceChange>)>::empty());
    while c < contributions.len()
        invariant
            cs == contributions_view(contributions@),
            contributions_wf(contributions@),
            c <= contributions.len(),
            groups.wf(),
            groups@ == grouped_spec(cs.take(c as int)),
        decreases contributions.len() - c,
    {
        assert(contributions@[c as int].1.wf());
        groups = add_contribution(&groups, &contributions[c].0, &contributions[c].1);
        proof {
            assert(cs.take(c + 1) =~= cs.take(c as int).push(cs[c as int]));
            lemma_grouped_push(cs.take(c as int), cs[c as int].0, cs[c as int].1);
        }
        c = c + 1;
    }
    assert(cs.take(c as int) =~= cs);
    groups
}

/// Whether every change in the list equals the first.
pub fn changes_agree(v: &Vec<(String, ItemChange)>) -> (r: bool)
    ensures
        r == all_agree(source_changes_view(v@)),
{
    let ghost s = source_changes_view(v@);
    let mut i: usize = 1;
    if v.len() == 0 {
        return true;
    }
    while i < v.len()
        invariant
            s == source_changes_view(v@),
            1 <= i <= v.len(),
            forall|a: int| 0 <= a < i ==> (#[trigger] s[a]).1 == s[0].1,
        decreases v.len() - i,
    {
        if !v[i].1.same_as(&v[0].1) {
            assert(s[i as int].1 != s[0].1);
            return false;
        }
        i = i + 1;
    }
    true
}

proof fn lemma_split_push(
    g: Map<PathView, Seq<SourceChange>>,
    k: PathView,
    s: Seq<SourceChange>,
)
    requires
        !g.contains_key(k),
    ensures
        all_agree(s) ==> agreed_part(g.insert(k, s)) == agreed_part(g).insert(k, s[0].1),
        all_agree(s) ==> disputed_part(g.insert(k, s)) == disputed_part(g),
        !all_agree(s) ==> agreed_part(g.insert(k, s)) == agreed_part(g),
        !all_agree(s) ==> disputed_part(g.insert(k, s)) == disputed_part(g).insert(k, s),
{
    if all_agree(s) {
        assert(agreed_part(g.insert(k, s)) =~= agreed_part(g).insert(k, s[0].1));
        assert(disputed_part(g.insert(k, s)) =~= disputed_part(g));
    } else {
        assert(agreed_part(g.insert(k, s)) =~= agreed_part(g));
        assert(disputed_part(g.insert(k, s)) =~= disputed_part(g).insert(k, s));
    }
}

/// Splits a grouping into the paths whose changes agree, with that change,
/// and the paths whose changes differ, with all of them.
pub fn split_agreed(groups: &Conflicts) -> (r: (Patch, Conflicts))
    requires
        groups.wf(),
        forall|p: PathView| #[trigger] groups@.contains_key(p) ==> groups@[p].len() > 0,
    ensures
        r.0.wf(),
        r.1.wf(),
        r.0@ == agreed_part(groups@),
        r.1@ == disputed_part(groups@),
{
    let ghost gs = groups.entries_view();
    let ge = &groups.entries;
    let mut merged = Patch { entries: Vec::new() };
    let mut unmerged = Conflicts { entries: Vec::new() };
    let mut i: usize = 0;
    assert(gs.take(0) =~= Seq::<(PathView, Seq<SourceChange>)>::empty());
    assert(agreed_part(Map::empty()) =~= Map::<PathView, ChangeView>::empty());
    assert(disputed_part(Map::empty()) =~= Map::<PathView, Seq<SourceChange>>::empty());
    while i < ge.len()
        invariant
            gs == groups.entries_view(),
            ge == &groups.entries,
            keys_sorted(gs),
            i <= gs.len(),
            forall|p: PathView| #[trigger] groups@.contains_key(p) ==> groups@[p].len() > 0,
            groups@ == assoc_map(gs),
            keys_sorted(merged.entries_view()),
            keys_sorted(unmerged.entries_view()),
            forall|e: int| 0 <= e < merged.entries_view().len() ==> (i < gs.len() ==> path_lt(#[trigger] merged.entries_view()[e].0, gs[i as int].0)),
            forall|e: int| 0 <= e < unmerged.entries_view().len() ==> (i < gs.len() ==> path_lt(#[trigger] unmerged.entries_view()[e].0, gs[i as int].0)),
            merged@ == agreed_part(assoc_map(gs.take(i as int))),
            unmerged@ == disputed_part(assoc_map(gs.take(i as int))),
        decreases gs.len() - i,
    {
        let ghost g_map = assoc_map(gs.take(i as int));
        let ghost k = gs[i as int].0;
        let ghost s = gs[i as int].1;
        let ghost old_m = merged.entries_view();
        let ghost old_u = unmerged.entries_view();
        proof {
            assert(gs.take(i + 1) =~= gs.take(i as int).push(gs[i as int]));
            lemma_assoc_map_push(gs.take(i as int), k, s);
            assert forall|a: int| 0 <= a < gs.take(i as int).len() implies path_lt(k, #[trigger] gs.take(i as int)[a].0) || path_lt(gs.take(i as int)[a].0, k) by {
                assert(path_lt(gs[a].0, k));
            }
            lemma_assoc_map_absent(gs.take(i as int), k);
            lemma_split_push(g_map, k, s);
            crate::map::lemma_assoc_map_index(gs, i as int);
        }
        if changes_agree(&ge[i].1) {
            let p = clone_path(&ge[i].0);
            let c = ge[i].1[0].1.duplicate();
            merged.entries.push((p, c));
            proof {
                assert(merged.entries_view() =~= old_m.push((k, s[0].1)));
                lemma_assoc_map_push(old_m, k, s[0].1);
            }
        } else {
            let p = clone_path(&ge[i].0);
            let v = clone_changes(&ge[i].1);
            unmerged.entries.push((p, v));
            proof {
                assert(unmerged.entries_view() =~= old_u.push((k, s)));
                lemma_assoc_map_push(old_u, k, s);
            }
        }
        proof {
            assert forall|e: int| 0 <= e < merged.entries_view().len() && i + 1 < gs.len() implies path_lt(#[trigger] merged.entries_view()[e].0, gs[i + 1].0) by {
                if e < old_m.len() {
                    lemma_path_lt_transitive(merged.entries_view()[e].0, k, gs[i + 1].0);
                }
            }
            assert forall|e: int| 0 <= e < unmerged.entries_view().len() && i + 1 < gs.len() implies path_lt(#[trigger] unmerged.entries_view()[e].0, gs[i + 1].0) by {
                if e < old_u.len() {
                    lemma_path_lt_transitive(unmerged.entries_view()[e].0, k, gs[i + 1].0);
                }
            }
        }
        i = i + 1;
    }
    assert(gs.take(i as int) =~= gs);
    (merged, unmerged)
}

/// Merges the patches of several sources to one record: a path touched by
/// one source, or changed identically by all that touch it, goes to the
/// merged patch; any other touched path goes to the conflict set.
pub fn try_merge_patches(contributions: &Vec<(String, Patch)>) -> (r: (Patch, Conflicts))
    requires
        contributions_wf(contributions@),
    ensures
        r.0.wf(),
        r.1.wf(),
        r.0@ == merged_spec(contributions_view(contributions@)),
        r.1@ == conflicts_spec(contributions_view(contributions@)),
{
    let groups = regroup(contributions);
    split_agreed(&groups)
}

/// Every change listed at `p` is the change of a source that touches `p`.
pub proof fn lemma_changes_at_sound(cs: Contributions, p: PathView)
    ensures
        forall|k: int| 0 <= k < changes_at(cs, p).len() ==> exists|i: int| 0 <= i < cs.len()
            && (#[trigger] cs[i]).1.contains_key(p) && #[trigger] changes_at(cs, p)[k] == (cs[i].0, cs[i].1[p]),
    decreases cs.len(),
{
    if cs.len() > 0 {
        let init = cs.drop_last();
        lemma_changes_at_sound(init, p);
        assert forall|k: int| 0 <= k < changes_at(cs, p).len() implies exists|i: int| 0 <= i < cs.len()
            && (#[trigger] cs[i]).1.contains_key(p) && #[trigger] changes_at(cs, p)[k] == (cs[i].0, cs[i].1[p]) by {
            if k < changes_at(init, p).len() {
                assert(changes_at(cs, p)[k] == changes_at(init, p)[k]);
                let i = choose|i: int| 0 <= i < init.len() && (#[trigger] init[i]).1.contains_key(p)
                    && #[trigger] changes_at(init, p)[k] == (init[i].0, init[i].1[p]);
                assert(cs[i] == init[i]);
                assert(cs[i].1.contains_key(p) && changes_at(cs, p)[k] == (cs[i].0, cs[i].1[p]));
            } else {
                let i = cs.len() - 1;
                assert(cs[i] == cs.last());
                assert(cs[i].1.contains_key(p) && changes_at(cs, p)[k] == (cs[i].0, cs[i].1[p]));
            }
        }
    } else {
        assert(changes_at(cs, p).len() == 0);
    }
}

/// Every source that touches `p` has its change listed at `p`.
pub proof fn lemma_changes_at_complete(cs: Contributions, p: PathView, i: int)
    requires
        0 <= i < cs.len(),
        cs[i].1.contains_key(p),
    ensures
        exists|k: int| 0 <= k < changes_at(cs, p).len() && #[trigger] changes_at(cs, p)[k] == (cs[i].0, cs[i].1[p]),
    decreases cs.len(),
{
    if i == cs.len() - 1 {
        let k = changes_at(cs, p).len() - 1;
        assert(changes_at(cs, p)[k] == (cs[i].0, cs[i].1[p]));
    } else {
        let init = cs.drop_last();
        assert(init[i] == cs[i]);
        lemma_changes_at_complete(init, p, i);
        let k = choose|k: int| 0 <= k < changes_at(init, p).len() && #[trigger] changes_at(init, p)[k] == (init[i].0, init[i].1[p]);
        assert(changes_at(cs, p)[k] == changes_at(init, p)[k]);
    }
}

/// Every list of the conflict set holds at least two changes, and they are
/// not all equal.
pub proof fn lemma_conflict_lists(cs: Contributions, p: PathView)
    requires
        conflicts_spec(cs).contains_key(p),
    ensures
        conflicts_spec(cs)[p].len() >= 2,
        !all_agree(conflicts_spec(cs)[p]),
{
    let s = changes_at(cs, p);
    if s.len() < 2 {
        assert forall|i: int| 0 <= i < s.len() implies (#[trigger] s[i]).1 == s[0].1 by {
            assert(i == 0);
        }
    }
}

/// Two sources that touch disjoint sets of paths never conflict, and their
/// merge is the union of their patches.
pub proof fn lemma_merge_disjoint(
    a: Seq<char>,
    pa: Map<PathView, ChangeView>,
    b: Seq<char>,
    pb: Map<PathView, ChangeView>,
)
    requires
        forall|p: PathView| !(#[trigger] pa.contains_key(p) && pb.contains_key(p)),
    ensures
        merged_spec(seq![(a, pa), (b, pb)]) == pa.union_prefer_right(pb),
        conflicts_spec(seq![(a, pa), (b, pb)]) == Map::<PathView, Seq<SourceChange>>::empty(),
{
    let cs = seq![(a, pa), (b, pb)];
    let c1 = cs.drop_last();
    let c0 = c1.drop_last();
    assert(c1 =~= seq![(a, pa)]);
    assert(c0 =~= Seq::<(Seq<char>, Map<PathView, ChangeView>)>::empty());
    assert(cs.last() == (b, pb));
    assert(c1.last() == (a, pa));
    assert forall|p: PathView| #[trigger] pa.contains_key(p) implies changes_at(cs, p) =~= seq![(a, pa[p])] by {
        assert(changes_at(c0, p) =~= Seq::<SourceChange>::empty());
        assert(changes_at(c1, p) =~= seq![(a, pa[p])]);
    }
    assert forall|p: PathView| #[trigger] pb.contains_key(p) implies changes_at(cs, p) =~= seq![(b, pb[p])] by {
        assert(changes_at(c0, p) =~= Seq::<SourceChange>::empty());
        assert(changes_at(c1, p) =~= Seq::<SourceChange>::empty());
    }
    assert forall|p: PathView| !pa.contains_key(p) && !pb.contains_key(p) implies #[trigger] changes_at(cs, p).len() == 0 by {
        assert(changes_at(c0, p) =~= Seq::<SourceChange>::empty());
        assert(changes_at(c1, p) =~= Seq::<SourceChange>::empty());
    }
    assert(merged_spec(cs) =~= pa.union_prefer_right(pb));
    assert(conflicts_spec(cs) =~= Map::<PathView, Seq<SourceChange>>::empty());
}

/// For two sources that touch disjoint sets of paths, the merge does not
/// depend on the order in which the sources are given.
pub proof fn lemma_merge_commutative(
    a: Seq<char>,
    pa: Map<PathView, ChangeView>,
    b: Seq<char>,
    pb: Map<PathView, ChangeView>,
)
    requires
        forall|p: PathView| !(#[trigger] pa.contains_key(p) && pb.contains_key(p)),
    ensures
        merged_spec(seq![(a, pa), (b, pb)]) == merged_spec(seq![(b, pb), (a, pa)]),
        conflicts_spec(seq![(a, pa), (b, pb)]) == conflicts_spec(seq![(b, pb), (a, pa)]),
{
    lemma_merge_disjoint(a, pa, b, pb);
    lemma_merge_disjoint(b, pb, a, pa);
    assert(pa.union_prefer_right(pb) =~= pb.union_prefer_right(pa));
}

/// Where every source that touches a path makes the same change there, the
/// path is not in the conflict set and the merged patch holds that change.
pub proof fn lemma_identical_changes_merge(cs: Contributions, p: PathView, i: int)
    requires
        0 <= i < cs.len(),
        cs[i].1.contains_key(p),
        forall|j: int| 0 <= j < cs.len() && (#[trigger] cs[j]).1.contains_key(p) ==> cs[j].1[p] == cs[i].1[p],
    ensures
        !conflicts_spec(cs).contains_key(p),
        merged_spec(cs).contains_key(p),
        merged_spec(cs)[p] == cs[i].1[p],
{
    lemma_changes_at_sound(cs, p);
    lemma_changes_at_complete(cs, p, i);
    let s = changes_at(cs, p);
    assert forall|k: int| 0 <= k < s.len() implies (#[trigger] s[k]).1 == s[0].1 by {
        assert(s[k].1 == cs[i].1[p]);
        assert(s[0].1 == cs[i].1[p]);
    }
}

/// A path where two sources make different changes is in the conflict set,
/// with the change of every source that touched it, and not in the merged
/// patch.
pub proof fn lemma_differing_changes_conflict(cs: Contributions, p: PathView, i: int, j: int)
    requires
        0 <= i < cs.len(),
        0 <= j < cs.len(),
        cs[i].1.contains_key(p),
        cs[j].1.contains_key(p),
        cs[i].1[p] != cs[j].1[p],
    ensures
        conflicts_spec(cs).contains_key(p),
        conflicts_spec(cs)[p] == changes_at(cs, p),
        !merged_spec(cs).contains_key(p),
{
    lemma_changes_at_complete(cs, p, i);
    lemma_changes_at_complete(cs, p, j);
    let s = changes_at(cs, p);
    let ki = choose|k: int| 0 <= k < s.len() && #[trigger] s[k] == (cs[i].0, cs[i].1[p]);
    let kj = choose|k: int| 0 <= k < s.len() && #[trigger] s[k] == (cs[j].0, cs[j].1[p]);
    if all_agree(s) {
        assert(s[ki].1 == s[0].1);
        assert(s[kj].1 == s[0].1);
    }
}

/// Merging the merged patch with a resolution that answers only conflicted
/// paths gives no conflict, and yields the merged patch extended by the
/// resolution.
pub proof fn lemma_resolution_merges_cleanly(
    cs: Contributions,
    merged_name: Seq<char>,
    resolved_name: Seq<char>,
    resolved: Map<PathView, ChangeView>,
)
    requires
        forall|p: PathView| #[trigger] resolved.contains_key(p) ==> conflicts_spec(cs).contains_key(p),
    ensures
        conflicts_spec(seq![(merged_name, merged_spec(cs)), (resolved_name, resolved)])
            == Map::<PathView, Seq<SourceChange>>::empty(),
        merged_spec(seq![(merged_name, merged_spec(cs)), (resolved_name, resolved)])
            == merged_spec(cs).union_prefer_right(resolved),
{
    lemma_merge_disjoint(merged_name, merged_spec(cs), resolved_name, resolved);
}

impl Patch {
    /// Whether the patch changes `path`.
    pub fn contains_path(&self, path: &Vec<String>) -> (r: bool)
        ensures
            r == self@.contains_key(crate::path::path_view(path@)),
    {
        let ghost pv = self.entries_view();
        let ghost k = crate::path::path_view(path@);
        let mut i: usize = 0;
        while i < self.entries.len()
            invariant
                pv == self.entries_view(),
                k == crate::path::path_view(path@),
                i <= pv.len(),
                forall|a: int| 0 <= a < i ==> (#[trigger] pv[a]).0 != k,
            decreases pv.len() - i,
        {
            let c = cmp_path(&self.entries[i].0, path);
            assert(pv[i as int].0 == crate::path::path_view(self.entries@[i as int].0@));
            if let Ordering::Equal = c {
                proof {
                    crate::map::lemma_assoc_map_domain(pv, k);
                }
                return true;
            }
            i = i + 1;
        }
        proof {
            crate::map::lemma_assoc_map_domain(pv, k);
        }
        false
    }
}

/// Why the answer of a resolver cannot be folded into a merge.
#[derive(Clone, Copy, Debug, PartialEq, Eq, Structural)]
pub enum ResolveError {
    /// A conflicted path has no answer.
    Unresolved,
    /// The answer disagrees with the merged patch.
    Disagreement,
}

/// The name under which the merged patch takes part in the final merge.
pub open spec fn auto_merged_name() -> Seq<char> {
    "auto-merged"@
}

/// The name under which the resolver's answer takes part in the final merge.
pub open spec fn resolved_name() -> Seq<char> {
    "resolved"@
}

/// The two pseudo-sources of the final merge.
pub open spec fn final_sources(merged: Map<PathView, ChangeView>, resolved: Map<PathView, ChangeView>) -> Contributions {
    seq![(auto_merged_name(), merged), (resolved_name(), resolved)]
}

/// Folds a resolver's answer into a merge: every conflicted path must be
/// answered; then the merged patch and the answer are merged once more as
/// two sources, which must not conflict.
pub fn merge_resolved(conflicts: &Conflicts, merged: Patch, resolved: Patch) -> (r: Result<Patch, ResolveError>)
    requires
        conflicts.wf(),
        merged.wf(),
        resolved.wf(),
    ensures
        r matches Result::Err(ResolveError::Unresolved) <==> exists|p: PathView|
            #[trigger] conflicts@.contains_key(p) && !resolved@.contains_key(p),
        r matches Result::Err(ResolveError::Disagreement) <==> (forall|p: PathView|
            #[trigger] conflicts@.contains_key(p) ==> resolved@.contains_key(p))
            && conflicts_spec(final_sources(merged@, resolved@)) != Map::<PathView, Seq<SourceChange>>::empty(),
        r matches Result::Ok(p) ==> p.wf() && p@ == merged_spec(final_sources(merged@, resolved@)),
{
    let ghost cv = conflicts.entries_view();
    let mut i: usize = 0;
    while i < conflicts.entries.len()
        invariant
            cv == conflicts.entries_view(),
            i <= cv.len(),
            forall|a: int| 0 <= a < i ==> resolved@.contains_key(#[trigger] cv[a].0),
        decreases cv.len() - i,
    {
        assert(cv[i as int].0 == crate::path::path_view(conflicts.entries@[i as int].0@));
        if !resolved.contains_path(&conflicts.entries[i].0) {
            proof {
                crate::map::lemma_assoc_map_domain(cv, cv[i as int].0);
                assert(conflicts@.contains_key(cv[i as int].0));
            }
            return Result::Err(ResolveError::Unresolved);
        }
        i = i + 1;
    }
    proof {
        assert forall|p: PathView| #[trigger] conflicts@.contains_key(p) implies resolved@.contains_key(p) by {
            crate::map::lemma_assoc_map_domain(cv, p);
        }
    }
    let mut merged_name = String::new();
    merged_name.append("auto-merged");
    let mut resolved_source = String::new();
    resolved_source.append("resolved");
    let mut sources: Vec<(String, Patch)> = Vec::new();
    sources.push((merged_name, merged));
    sources.push((resolved_source, resolved));
    assert(contributions_view(sources@) =~= final_sources(merged@, resolved@));
    let (out, left) = try_merge_patches(&sources);
    if left.entries.len() == 0 {
        assert(left@ =~= Map::<PathView, Seq<SourceChange>>::empty());
        Result::Ok(out)
    } else {
        proof {
            crate::map::lemma_assoc_map_index(left.entries_view(), 0);
        }
        Result::Err(ResolveError::Disagreement)
    }
}

} // verus!
