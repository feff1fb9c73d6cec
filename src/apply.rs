//! Applying a patch to a canonical map.
use crate::diff::diff_spec;
use crate::map::{DataMap, Patch, assoc_map, clone_path, keys_sorted, lemma_assoc_map_absent, lemma_assoc_map_push};
use crate::path::{PathView, cmp_path, lemma_path_lt_transitive, path_lt};
use crate::value::{ChangeView, ItemChange, ValueView};
use core::cmp::Ordering;
use vstd::prelude::*;

verus! {

/// The map after `patch`: a set path takes its new value, a removed path
/// disappears, every other path keeps its value.
pub open spec fn apply_spec(
    base: Map<PathView, ValueView>,
    patch: Map<PathView, ChangeView>,
) -> Map<PathView, ValueView> {
    Map::new(
        |p: PathView|
            if patch.contains_key(p) {
                patch[p] is SetTo
            } else {
                base.contains_key(p)
            },
        |p: PathView|
            if patch.contains_key(p) && patch[p] is SetTo {
                patch[p]->SetTo_0
            } else {
                base[p]
            },
    )
}

/// Applying the difference of two maps to the first yields the second.
pub proof fn lemma_apply_diff_inverse(base: Map<PathView, ValueView>, target: Map<PathView, ValueView>)
    ensures
        apply_spec(base, diff_spec(base, target)) == target,
{
    assert(apply_spec(base, diff_spec(base, target)) =~= target);
}

/// Applying the empty patch changes nothing.
pub proof fn lemma_apply_empty(base: Map<PathView, ValueView>)
    ensures
        apply_spec(base, Map::empty()) == base,
{
    assert(apply_spec(base, Map::empty()) =~= base);
}

proof fn lemma_apply_add_base(
    b: Map<PathView, ValueView>,
    p: Map<PathView, ChangeView>,
    k: PathView,
    v: ValueView,
)
    requires
        !b.contains_key(k),
        !p.contains_key(k),
    ensures
        apply_spec(b.insert(k, v), p) == apply_spec(b, p).insert(k, v),
{
    assert(apply_spec(b.insert(k, v), p) =~= apply_spec(b, p).insert(k, v));
}

proof fn lemma_apply_add_patch(
    b: Map<PathView, ValueView>,
    p: Map<PathView, ChangeView>,
    k: PathView,
    c: ChangeView,
)
    requires
        !p.contains_key(k),
    ensures
        c is SetTo ==> apply_spec(b, p.insert(k, c)) == apply_spec(b.remove(k), p).insert(k, c->SetTo_0),
        c is Removed ==> apply_spec(b, p.insert(k, c)) == apply_spec(b.remove(k), p),
{
    if c is SetTo {
        assert(apply_spec(b, p.insert(k, c)) =~= apply_spec(b.remove(k), p).insert(k, c->SetTo_0));
    } else {
        assert(apply_spec(b, p.insert(k, c)) =~= apply_spec(b.remove(k), p));
    }
}

impl DataMap {
    /// Applies `patch` to this map.
    pub fn apply_patch(&mut self, patch: Patch)
        requires
            old(self).wf(),
            patch.wf(),
        ensures
            final(self).wf(),
            final(self)@ == apply_spec(old(self)@, patch@),
    {
        let ghost bs = self.entries_view();
        let ghost ps = patch.entries_view();
        let be = &self.entries;
        let pe = &patch.entries;
        let mut out = DataMap { entries: Vec::new() };
        let mut i: usize = 0;
        let mut j: usize = 0;
        assert(bs.take(0) =~= Seq::<(PathView, ValueView)>::empty());
        assert(ps.take(0) =~= Seq::<(PathView, ChangeView)>::empty());
        assert(apply_spec(Map::empty(), Map::empty()) =~= Map::<PathView, ValueView>::empty());
        while i < be.len() || j < pe.len()
            invariant
                bs == self.entries_view(),
                ps == patch.entries_view(),
                be == &self.entries,
                pe == &patch.entries,
                keys_sorted(bs),
                keys_sorted(ps),
                i <= bs.len(),
                j <= ps.len(),
                forall|a: int, b: int| 0 <= a < i && j <= b < ps.len() ==> path_lt(#[trigger] bs[a].0, #[trigger] ps[b].0),
                forall|a: int, b: int| i <= a < bs.len() && 0 <= b < j ==> path_lt(#[trigger] ps[b].0, #[trigger] bs[a].0),
                keys_sorted(out.entries_view()),
                forall|e: int| 0 <= e < out.entries_view().len() ==> (i < bs.len() ==> path_lt(#[trigger] out.entries_view()[e].0, bs[i as int].0)),
                forall|e: int| 0 <= e < out.entries_view().len() ==> (j < ps.len() ==> path_lt(#[trigger] out.entries_view()[e].0, ps[j as int].0)),
                out@ == apply_spec(assoc_map(bs.take(i as int)), assoc_map(ps.take(j as int))),
            decreases bs.len() - i + ps.len() - j,
        {
            let ghost b_map = assoc_map(bs.take(i as int));
            let ghost p_map = assoc_map(ps.take(j as int));
            let ghost old_out = out.entries_view();
            let ord = if i >= be.len() {
                Ordering::Greater
            } else if j >= pe.len() {
                Ordering::Less
            } else {
                cmp_path(&be[i].0, &pe[j].0)
            };
            match ord {
                Ordering::Less => {
                    let ghost k = bs[i as int].0;
                    let ghost gv = bs[i as int].1;
                    proof {
                        assert(bs.take(i + 1) =~= bs.take(i as int).push(bs[i as int]));
                        lemma_assoc_map_push(bs.take(i as int), k, gv);
                        assert forall|a: int| 0 <= a < bs.take(i as int).len() implies path_lt(k, #[trigger] bs.take(i as int)[a].0) || path_lt(bs.take(i as int)[a].0, k) by {
                            assert(path_lt(bs[a].0, k));
                        }
                        lemma_assoc_map_absent(bs.take(i as int), k);
                        assert forall|b: int| 0 <= b < ps.take(j as int).len() implies path_lt(k, #[trigger] ps.take(j as int)[b].0) || path_lt(ps.take(j as int)[b].0, k) by {
                            assert(path_lt(ps[b].0, k));
                        }
                        lemma_assoc_map_absent(ps.take(j as int), k);
                        lemma_apply_add_base(b_map, p_map, k, gv);
                        assert forall|a: int, b: int| 0 <= a < i + 1 && j <= b < ps.len() implies path_lt(#[trigger] bs[a].0, #[trigger] ps[b].0) by {
                            if a == i && b > j {
                                lemma_path_lt_transitive(k, ps[j as int].0, ps[b].0);
                            }
                        }
                    }
                    let p = clone_path(&be[i].0);
                    let v = be[i].1.duplicate();
                    out.entries.push((p, v));
                    proof {
                        assert(out.entries_view() =~= old_out.push((k, gv)));
                        lemma_assoc_map_push(old_out, k, gv);
                        assert forall|e: int| 0 <= e < out.entries_view().len() && i + 1 < bs.len() implies path_lt(#[trigger] out.entries_view()[e].0, bs[i + 1].0) by {
                            if e < old_out.len() {
                                lemma_path_lt_transitive(out.entries_view()[e].0, k, bs[i + 1].0);
                            }
                        }
                    }
                    i = i + 1;
                },
                Ordering::Equal => {
                    let ghost k = ps[j as int].0;
                    let ghost c = ps[j as int].1;
                    proof {
                        assert(bs.take(i + 1) =~= bs.take(i as int).push(bs[i as int]));
                        assert(ps.take(j + 1) =~= ps.take(j as int).push(ps[j as int]));
                        lemma_assoc_map_push(bs.take(i as int), k, bs[i as int].1);
                        lemma_assoc_map_push(ps.take(j as int), k, c);
                        assert forall|a: int| 0 <= a < bs.take(i as int).len() implies path_lt(k, #[trigger] bs.take(i as int)[a].0) || path_lt(bs.take(i as int)[a].0, k) by {
                            assert(path_lt(bs[a].0, k));
                        }
                        lemma_assoc_map_absent(bs.take(i as int), k);
                        assert forall|b: int| 0 <= b < ps.take(j as int).len() implies path_lt(k, #[trigger] ps.take(j as int)[b].0) || path_lt(ps.take(j as int)[b].0, k) by {
                            assert(path_lt(ps[b].0, k));
                        }
                        lemma_assoc_map_absent(ps.take(j as int), k);
                        lemma_apply_add_patch(b_map.insert(k, bs[i as int].1), p_map, k, c);
                        assert(b_map.insert(k, bs[i as int].1).remove(k) =~= b_map);
                        assert forall|a: int, b: int| 0 <= a < i + 1 && j + 1 <= b < ps.len() implies path_lt(#[trigger] bs[a].0, #[trigger] ps[b].0) by {
                            if a < i {
                                lemma_path_lt_transitive(bs[a].0, k, ps[b].0);
                            }
                        }
                        assert forall|a: int, b: int| i + 1 <= a < bs.len() && 0 <= b < j + 1 implies path_lt(#[trigger] ps[b].0, #[trigger] bs[a].0) by {
                            if b == j {
                                assert(path_lt(bs[i as int].0, bs[a].0));
                            }
                        }
                    }
                    match &pe[j].1 {
                        ItemChange::SetTo(v) => {
                            let p = clone_path(&pe[j].0);
                            let v = v.duplicate();
                            out.entries.push((p, v));
                            proof {
                                assert(out.entries_view() =~= old_out.push((k, c->SetTo_0)));
                                lemma_assoc_map_push(old_out, k, c->SetTo_0);
                            }
                        },
                        ItemChange::Removed => {},
                    }
                    proof {
                        assert forall|e: int| 0 <= e < out.entries_view().len() && j + 1 < ps.len() implies path_lt(#[trigger] out.entries_view()[e].0, ps[j + 1].0) by {
                            if e < old_out.len() {
                                lemma_path_lt_transitive(out.entries_view()[e].0, k, ps[j + 1].0);
                            }
                        }
                        assert forall|e: int| 0 <= e < out.entries_view().len() && i + 1 < bs.len() implies path_lt(#[trigger] out.entries_view()[e].0, bs[i + 1].0) by {
                            if e < old_out.len() {
                                lemma_path_lt_transitive(out.entries_view()[e].0, k, bs[i + 1].0);
                            }
                        }
                    }
                    i = i + 1;
                    j = j + 1;
                },
                Ordering::Greater => {
                    let ghost k = ps[j as int].0;
                    let ghost c = ps[j as int].1;
                    proof {
                        assert(ps.take(j + 1) =~= ps.take(j as int).push(ps[j as int]));
                        lemma_assoc_map_push(ps.take(j as int), k, c);
                        assert forall|a: int| 0 <= a < bs.take(i as int).len() implies path_lt(k, #[trigger] bs.take(i as int)[a].0) || path_lt(bs.take(i as int)[a].0, k) by {
                            assert(path_lt(bs[a].0, k));
                        }
                        lemma_assoc_map_absent(bs.take(i as int), k);
                        assert forall|b: int| 0 <= b < ps.take(j as int).len() implies path_lt(k, #[trigger] ps.take(j as int)[b].0) || path_lt(ps.take(j as int)[b].0, k) by {
                            assert(path_lt(ps[b].0, k));
                        }
                        lemma_assoc_map_absent(ps.take(j as int), k);
                        lemma_apply_add_patch(b_map, p_map, k, c);
                        assert(b_map.remove(k) =~= b_map);
                        assert forall|a: int, b: int| 0 <= a < i && j + 1 <= b < ps.len() implies path_lt(#[trigger] bs[a].0, #[trigger] ps[b].0) by {
                            lemma_path_lt_transitive(bs[a].0, k, ps[b].0);
                        }
                        assert forall|a: int, b: int| i <= a < bs.len() && 0 <= b < j + 1 implies path_lt(#[trigger] ps[b].0, #[trigger] bs[a].0) by {
                            if b == j && a > i {
                                lemma_path_lt_transitive(k, bs[i as int].0, bs[a].0);
                            }
                        }
                    }
                    match &pe[j].1 {
                        ItemChange::SetTo(v) => {
                            let p = clone_path(&pe[j].0);
                            let v = v.duplicate();
                            out.entries.push((p, v));
                            proof {
                                assert(out.entries_view() =~= old_out.push((k, c->SetTo_0)));
                                lemma_assoc_map_push(old_out, k, c->SetTo_0);
                            }
                        },
                        ItemChange::Removed => {},
                    }
                    proof {
                        assert forall|e: int| 0 <= e < out.entries_view().len() && j + 1 < ps.len() implies path_lt(#[trigger] out.entries_view()[e].0, ps[j + 1].0) by {
                            if e < old_out.len() {
                                lemma_path_lt_transitive(out.entries_view()[e].0, k, ps[j + 1].0);
                            }
                        }
                    }
                    j = j + 1;
                },
            }
        }
        assert(bs.take(i as int) =~= bs);
        assert(ps.take(j as int) =~= ps);
        *self = out;
    }
}

} // verus!
