//! Differencing two canonical maps into a patch.
use crate::map::{DataMap, Patch, assoc_map, clone_path, keys_sorted, lemma_assoc_map_absent, lemma_assoc_map_index, lemma_assoc_map_push};
use crate::path::{PathView, cmp_path, lemma_path_lt_transitive, path_lt, path_view};
use crate::value::{ChangeView, ItemChange, ValueView};
use core::cmp::Ordering;
use vstd::prelude::*;

verus! {

/// Whether `p` differs between `original` and `modified`.
pub open spec fn changed_at(
    original: Map<PathView, ValueView>,
    modified: Map<PathView, ValueView>,
    p: PathView,
) -> bool {
    if modified.contains_key(p) {
        !(original.contains_key(p) && original[p] == modified[p])
    } else {
        original.contains_key(p)
    }
}

/// The minimal patch from `original` to `modified`: every added or changed
/// path is set to its new value, every dropped path is removed, and no
/// other path appears.
pub open spec fn diff_spec(
    original: Map<PathView, ValueView>,
    modified: Map<PathView, ValueView>,
) -> Map<PathView, ChangeView> {
    Map::new(
        |p: PathView| changed_at(original, modified, p),
        |p: PathView|
            if modified.contains_key(p) {
                ChangeView::SetTo(modified[p])
            } else {
                ChangeView::Removed
            },
    )
}

/// Differencing a map against itself gives the empty patch.
pub proof fn lemma_diff_self_empty(m: Map<PathView, ValueView>)
    ensures
        diff_spec(m, m) == Map::<PathView, ChangeView>::empty(),
{
    assert(diff_spec(m, m) =~= Map::<PathView, ChangeView>::empty());
}

proof fn lemma_diff_add_modified(
    o: Map<PathView, ValueView>,
    m: Map<PathView, ValueView>,
    k: PathView,
    v: ValueView,
)
    requires
        !o.contains_key(k),
        !m.contains_key(k),
    ensures
        diff_spec(o, m.insert(k, v)) == diff_spec(o, m).insert(k, ChangeView::SetTo(v)),
{
    assert(diff_spec(o, m.insert(k, v)) =~= diff_spec(o, m).insert(k, ChangeView::SetTo(v)));
}

proof fn lemma_diff_add_original(
    o: Map<PathView, ValueView>,
    m: Map<PathView, ValueView>,
    k: PathView,
    v: ValueView,
)
    requires
        !o.contains_key(k),
        !m.contains_key(k),
    ensures
        diff_spec(o.insert(k, v), m) == diff_spec(o, m).insert(k, ChangeView::Removed),
{
    assert(diff_spec(o.insert(k, v), m) =~= diff_spec(o, m).insert(k, ChangeView::Removed));
}

proof fn lemma_diff_add_both(
    o: Map<PathView, ValueView>,
    m: Map<PathView, ValueView>,
    k: PathView,
    ov: ValueView,
    mv: ValueView,
)
    requires
        !o.contains_key(k),
        !m.contains_key(k),
    ensures
        ov == mv ==> diff_spec(o.insert(k, ov), m.insert(k, mv)) == diff_spec(o, m),
        ov != mv ==> diff_spec(o.insert(k, ov), m.insert(k, mv)) == diff_spec(o, m).insert(
            k,
            ChangeView::SetTo(mv),
        ),
{
    if ov == mv {
        assert(diff_spec(o.insert(k, ov), m.insert(k, mv)) =~= diff_spec(o, m));
    } else {
        assert(diff_spec(o.insert(k, ov), m.insert(k, mv)) =~= diff_spec(o, m).insert(
            k,
            ChangeView::SetTo(mv),
        ));
    }
}

/// Computes the patch that turns `original` into `patched`, walking both
/// maps in path order at once.
pub fn diff(original: DataMap, patched: DataMap) -> (r: Patch)
    requires
        original.wf(),
        patched.wf(),
    ensures
        r.wf(),
        r@ == diff_spec(original@, patched@),
{
    let ghost os = original.entries_view();
    let ghost ms = patched.entries_view();
    let oe = &original.entries;
    let me = &patched.entries;
    let mut out = Patch { entries: Vec::new() };
    let mut i: usize = 0;
    let mut j: usize = 0;
    assert(os.take(0) =~= Seq::<(PathView, ValueView)>::empty());
    assert(ms.take(0) =~= Seq::<(PathView, ValueView)>::empty());
    assert(diff_spec(Map::empty(), Map::empty()) =~= Map::<PathView, ChangeView>::empty());
    while j < me.len()
        invariant
            os == original.entries_view(),
            ms == patched.entries_view(),
            oe == &original.entries,
            me == &patched.entries,
            keys_sorted(os),
            keys_sorted(ms),
            i <= os.len(),
            j <= ms.len(),
            forall|a: int, b: int| 0 <= a < i && j <= b < ms.len() ==> path_lt(#[trigger] os[a].0, #[trigger] ms[b].0),
            forall|a: int, b: int| i <= a < os.len() && 0 <= b < j ==> path_lt(#[trigger] ms[b].0, #[trigger] os[a].0),
            keys_sorted(out.entries_view()),
            forall|e: int| 0 <= e < out.entries_view().len() ==> (i < os.len() ==> path_lt(#[trigger] out.entries_view()[e].0, os[i as int].0)),
            forall|e: int| 0 <= e < out.entries_view().len() ==> (j < ms.len() ==> path_lt(#[trigger] out.entries_view()[e].0, ms[j as int].0)),
            out@ == diff_spec(assoc_map(os.take(i as int)), assoc_map(ms.take(j as int))),
        decreases ms.len() - j, os.len() - i,
    {
        let ghost o_map = assoc_map(os.take(i as int));
        let ghost m_map = assoc_map(ms.take(j as int));
        let ghost old_out = out.entries_view();
        let ghost k = ms[j as int].0;
        assert(ms.take(j + 1) =~= ms.take(j as int).push(ms[j as int]));
        proof {
            lemma_assoc_map_push(ms.take(j as int), k, ms[j as int].1);
            assert forall|b: int| 0 <= b < ms.take(j as int).len() implies path_lt(k, #[trigger] ms.take(j as int)[b].0) || path_lt(ms.take(j as int)[b].0, k) by {
                assert(path_lt(ms[b].0, k));
            }
            lemma_assoc_map_absent(ms.take(j as int), k);
        }
        let ord = if i < oe.len() {
            cmp_path(&oe[i].0, &me[j].0)
        } else {
            Ordering::Greater
        };
        match ord {
            Ordering::Greater => {
                proof {
                    assert forall|a: int| 0 <= a < os.take(i as int).len() implies path_lt(k, #[trigger] os.take(i as int)[a].0) || path_lt(os.take(i as int)[a].0, k) by {
                        assert(path_lt(os[a].0, ms[j as int].0));
                    }
                    lemma_assoc_map_absent(os.take(i as int), k);
                    lemma_diff_add_modified(o_map, m_map, k, ms[j as int].1);
                    assert forall|a: int, b: int| 0 <= a < i && j + 1 <= b < ms.len() implies path_lt(#[trigger] os[a].0, #[trigger] ms[b].0) by {
                        lemma_path_lt_transitive(os[a].0, ms[j as int].0, ms[b].0);
                    }
                    assert forall|a: int, b: int| i <= a < os.len() && 0 <= b < j + 1 implies path_lt(#[trigger] ms[b].0, #[trigger] os[a].0) by {
                        if b == j && a > i {
                            lemma_path_lt_transitive(ms[b].0, os[i as int].0, os[a].0);
                        }
                    }
                }
                let p = clone_path(&me[j].0);
                let v = me[j].1.duplicate();
                out.entries.push((p, ItemChange::SetTo(v)));
                proof {
                    assert(out.entries_view() =~= old_out.push((k, ChangeView::SetTo(ms[j as int].1))));
                    lemma_assoc_map_push(old_out, k, ChangeView::SetTo(ms[j as int].1));
                    assert forall|e: int| 0 <= e < out.entries_view().len() && j + 1 < ms.len() implies path_lt(#[trigger] out.entries_view()[e].0, ms[j + 1].0) by {
                        if e < old_out.len() {
                            lemma_path_lt_transitive(out.entries_view()[e].0, k, ms[j + 1].0);
                        }
                    }
                }
                j = j + 1;
            },
            Ordering::Equal => {
                let ghost ov = os[i as int].1;
                proof {
                    assert(os.take(i + 1) =~= os.take(i as int).push(os[i as int]));
                    lemma_assoc_map_push(os.take(i as int), k, ov);
                    assert forall|a: int| 0 <= a < os.take(i as int).len() implies path_lt(k, #[trigger] os.take(i as int)[a].0) || path_lt(os.take(i as int)[a].0, k) by {
                        assert(path_lt(os[a].0, ms[j as int].0));
                    }
                    lemma_assoc_map_absent(os.take(i as int), k);
                    lemma_diff_add_both(o_map, m_map, k, ov, ms[j as int].1);
                    assert forall|a: int, b: int| 0 <= a < i + 1 && j + 1 <= b < ms.len() implies path_lt(#[trigger] os[a].0, #[trigger] ms[b].0) by {
                        if a < i {
                            lemma_path_lt_transitive(os[a].0, ms[j as int].0, ms[b].0);
                        }
                    }
                    assert forall|a: int, b: int| i + 1 <= a < os.len() && 0 <= b < j + 1 implies path_lt(#[trigger] ms[b].0, #[trigger] os[a].0) by {
                        if b == j {
                            assert(path_lt(os[i as int].0, os[a].0));
                        }
                    }
                }
                if !oe[i].1.same_as(&me[j].1) {
                    let p = clone_path(&me[j].0);
                    let v = me[j].1.duplicate();
                    out.entries.push((p, ItemChange::SetTo(v)));
                    proof {
                        assert(out.entries_view() =~= old_out.push((k, ChangeView::SetTo(ms[j as int].1))));
                        lemma_assoc_map_push(old_out, k, ChangeView::SetTo(ms[j as int].1));
                    }
                }
                proof {
                    assert forall|e: int| 0 <= e < out.entries_view().len() && j + 1 < ms.len() implies path_lt(#[trigger] out.entries_view()[e].0, ms[j + 1].0) by {
                        if e < old_out.len() {
                            lemma_path_lt_transitive(out.entries_view()[e].0, k, ms[j + 1].0);
                        }
                    }
                    assert forall|e: int| 0 <= e < out.entries_view().len() && i + 1 < os.len() implies path_lt(#[trigger] out.entries_view()[e].0, os[i + 1].0) by {
                        if e < old_out.len() {
                            lemma_path_lt_transitive(out.entries_view()[e].0, k, os[i + 1].0);
                        }
                    }
                }
                i = i + 1;
                j = j + 1;
            },
            Ordering::Less => {
                let ghost ok = os[i as int].0;
                let ghost ov = os[i as int].1;
                proof {
                    assert(os.take(i + 1) =~= os.take(i as int).push(os[i as int]));
                    lemma_assoc_map_push(os.take(i as int), ok, ov);
                    assert forall|a: int| 0 <= a < os.take(i as int).len() implies path_lt(ok, #[trigger] os.take(i as int)[a].0) || path_lt(os.take(i as int)[a].0, ok) by {
                        assert(path_lt(os[a].0, ok));
                    }
                    lemma_assoc_map_absent(os.take(i as int), ok);
                    assert forall|b: int| 0 <= b < ms.take(j as int).len() implies path_lt(ok, #[trigger] ms.take(j as int)[b].0) || path_lt(ms.take(j as int)[b].0, ok) by {
                        assert(path_lt(ms[b].0, ok));
                    }
                    lemma_assoc_map_absent(ms.take(j as int), ok);
                    lemma_diff_add_original(o_map, m_map, ok, ov);
                    assert forall|a: int, b: int| 0 <= a < i + 1 && j <= b < ms.len() implies path_lt(#[trigger] os[a].0, #[trigger] ms[b].0) by {
                        if a == i && b > j {
                            lemma_path_lt_transitive(ok, k, ms[b].0);
                        }
                    }
                }
                let p = clone_path(&oe[i].0);
                out.entries.push((p, ItemChange::Removed));
                proof {
                    assert(out.entries_view() =~= old_out.push((ok, ChangeView::Removed)));
                    lemma_assoc_map_push(old_out, ok, ChangeView::Removed);
                    assert forall|e: int| 0 <= e < out.entries_view().len() && i + 1 < os.len() implies path_lt(#[trigger] out.entries_view()[e].0, os[i + 1].0) by {
                        if e < old_out.len() {
                            lemma_path_lt_transitive(out.entries_view()[e].0, ok, os[i + 1].0);
                        }
                    }
                }
                i = i + 1;
            },
        }
    }
    while i < oe.len()
        invariant
            os == original.entries_view(),
            ms == patched.entries_view(),
            oe == &original.entries,
            keys_sorted(os),
            keys_sorted(ms),
            i <= os.len(),
            j == ms.len(),
            forall|a: int, b: int| i <= a < os.len() && 0 <= b < j ==> path_lt(#[trigger] ms[b].0, #[trigger] os[a].0),
            keys_sorted(out.entries_view()),
            forall|e: int| 0 <= e < out.entries_view().len() ==> (i < os.len() ==> path_lt(#[trigger] out.entries_view()[e].0, os[i as int].0)),
            out@ == diff_spec(assoc_map(os.take(i as int)), assoc_map(ms.take(j as int))),
        decreases os.len() - i,
    {
        let ghost o_map = assoc_map(os.take(i as int));
        let ghost m_map = assoc_map(ms.take(j as int));
        let ghost old_out = out.entries_view();
        let ghost ok = os[i as int].0;
        let ghost ov = os[i as int].1;
        proof {
            assert(os.take(i + 1) =~= os.take(i as int).push(os[i as int]));
            lemma_assoc_map_push(os.take(i as int), ok, ov);
            assert forall|a: int| 0 <= a < os.take(i as int).len() implies path_lt(ok, #[trigger] os.take(i as int)[a].0) || path_lt(os.take(i as int)[a].0, ok) by {
                assert(path_lt(os[a].0, ok));
            }
            lemma_assoc_map_absent(os.take(i as int), ok);
            assert forall|b: int| 0 <= b < ms.take(j as int).len() implies path_lt(ok, #[trigger] ms.take(j as int)[b].0) || path_lt(ms.take(j as int)[b].0, ok) by {
                assert(path_lt(ms[b].0, ok));
            }
            lemma_assoc_map_absent(ms.take(j as int), ok);
            lemma_diff_add_original(o_map, m_map, ok, ov);
        }
        let p = clone_path(&oe[i].0);
        out.entries.push((p, ItemChange::Removed));
        proof {
            assert(out.entries_view() =~= old_out.push((ok, ChangeView::Removed)));
            lemma_assoc_map_push(old_out, ok, ChangeView::Removed);
            assert forall|e: int| 0 <= e < out.entries_view().len() && i + 1 < os.len() implies path_lt(#[trigger] out.entries_view()[e].0, os[i + 1].0) by {
                if e < old_out.len() {
                    lemma_path_lt_transitive(out.entries_view()[e].0, ok, os[i + 1].0);
                }
            }
        }
        i = i + 1;
    }
    assert(os.take(i as int) =~= os);
    assert(ms.take(j as int) =~= ms);
    out
}

} // verus!
