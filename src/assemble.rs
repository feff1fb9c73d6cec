//! Putting together the files of the bundle: binaries replace, added records
//! are adopted, patched records are the game's records after their patch.
use crate::error::ApplyError;
use crate::game_data::{GameData, GameDataItem, StructuredItem, apply_relation, lemma_apply_relation_content, lookup_spec};
use crate::map::Patch;
use crate::value::clone_string;
use vstd::prelude::*;

verus! {

/// The file of one binary path: the source whose copy is taken, or `None`
/// where several differing sources leave the choice to the resolver. A
/// single source, or sources whose contents are all equal, give the first
/// source.
pub fn decide_binary(candidates: &Vec<(String, String)>, contents_equal: bool) -> (r: Option<String>)
    requires
        candidates@.len() > 0,
    ensures
        (candidates@.len() == 1 || contents_equal) ==> (r matches Option::Some(s) && s@ == candidates@[0].1@),
        !(candidates@.len() == 1 || contents_equal) ==> r is None,
{
    if candidates.len() == 1 || contents_equal {
        Option::Some(clone_string(&candidates[0].1))
    } else {
        Option::None
    }
}

/// A binary file copied from `src`.
pub open spec fn is_binary_of(item: GameDataItem, src: Seq<char>) -> bool {
    item matches GameDataItem::Binary(s) && s@ == src
}

/// The patched file at `path`: the game's record there after `patch`.
pub open spec fn patched_ok(base: Seq<(String, GameDataItem)>, path: Seq<char>, patch: Map<crate::path::PathView, crate::value::ChangeView>, item: GameDataItem) -> bool {
    lookup_spec(base, path) matches Option::Some(GameDataItem::Structured(o))
        && item matches GameDataItem::Structured(n)
        && apply_relation(o, patch, n, Result::Ok(()))
}

/// Why the patch of `path` fails: the game has no structured record there,
/// or its record refuses the patch.
pub open spec fn patched_err(base: Seq<(String, GameDataItem)>, path: Seq<char>, patch: Map<crate::path::PathView, crate::value::ChangeView>, e: ApplyError) -> bool {
    match lookup_spec(base, path) {
        Option::Some(GameDataItem::Structured(o)) => exists|n: StructuredItem| apply_relation(o, patch, n, Result::Err(e)),
        _ => e == ApplyError::UnknownPath,
    }
}

/// `item` at `path` is the result of one of the patches.
pub open spec fn file_from_patch(base: Seq<(String, GameDataItem)>, patches: Seq<(String, Patch)>, path: Seq<char>, item: GameDataItem) -> bool {
    exists|q: int| 0 <= q < patches.len() && (#[trigger] patches[q]).0@ == path && patched_ok(base, path, patches[q].1@, item)
}

/// `e` at `path` is why one of the patches failed.
pub open spec fn error_from_patch(base: Seq<(String, GameDataItem)>, patches: Seq<(String, Patch)>, path: Seq<char>, e: ApplyError) -> bool {
    exists|q: int| 0 <= q < patches.len() && (#[trigger] patches[q]).0@ == path && patched_err(base, path, patches[q].1@, e)
}

/// `path` has a file from position `from` on, or an error.
pub open spec fn path_listed(files: Seq<(String, GameDataItem)>, from: int, errors: Seq<(String, ApplyError)>, path: Seq<char>) -> bool {
    (exists|f: int| from <= f < files.len() && (#[trigger] files[f]).0@ == path)
        || (exists|e: int| 0 <= e < errors.len() && (#[trigger] errors[e]).0@ == path)
}

/// Assembles the bundle's files: each binary path with its source, each
/// added record as it is, and each patched path with the game's record after
/// its patch. A patch that fails, or whose path the game lacks or holds as a
/// binary, is listed with its error instead; other files go on.
pub fn assemble_files(
    base: &GameData,
    binaries: Vec<(String, String)>,
    added: Vec<(String, StructuredItem)>,
    patches: Vec<(String, Patch)>,
) -> (r: (GameData, Vec<(String, ApplyError)>))
    requires
        forall|i: int| 0 <= i < base.files@.len() ==> (#[trigger] base.files@[i]).1.wf(),
        forall|j: int| 0 <= j < patches@.len() ==> (#[trigger] patches@[j]).1.wf(),
    ensures
        r.0.files@.len() >= binaries@.len() + added@.len(),
        r.0.files@.len() - binaries@.len() - added@.len() + r.1@.len() == patches@.len(),
        forall|i: int| 0 <= i < binaries@.len() ==> (#[trigger] r.0.files@[i]).0@ == binaries@[i].0@
            && is_binary_of(r.0.files@[i].1, binaries@[i].1@),
        forall|i: int| 0 <= i < added@.len() ==> #[trigger] r.0.files@[binaries@.len() + i].0@ == added@[i].0@
            && r.0.files@[binaries@.len() + i].1 == GameDataItem::Structured(added@[i].1),
        forall|f: int| binaries@.len() + added@.len() <= f < r.0.files@.len()
            ==> file_from_patch(base.files@, patches@, (#[trigger] r.0.files@[f]).0@, r.0.files@[f].1),
        forall|e: int| 0 <= e < r.1@.len() ==> error_from_patch(base.files@, patches@, (#[trigger] r.1@[e]).0@, r.1@[e].1),
        forall|j: int| 0 <= j < patches@.len() ==> path_listed(r.0.files@, (binaries@.len() + added@.len()) as int, r.1@, (#[trigger] patches@[j]).0@),
{
    let ghost nb = binaries@.len();
    let ghost na = added@.len();
    let ghost pall = patches@;
    let mut files: Vec<(String, GameDataItem)> = Vec::new();
    let mut i: usize = 0;
    while i < binaries.len()
        invariant
            nb == binaries@.len(),
            i <= nb,
            files@.len() == i,
            forall|a: int| 0 <= a < i ==> (#[trigger] files@[a]).0@ == binaries@[a].0@
                && is_binary_of(files@[a].1, binaries@[a].1@),
        decreases nb - i,
    {
        files.push((clone_string(&binaries[i].0), GameDataItem::Binary(clone_string(&binaries[i].1))));
        i = i + 1;
    }
    let ghost aall = added@;
    let mut rest = added;
    let mut k: usize = 0;
    let n_added = rest.len();
    assert(rest@ =~= aall.skip(0));
    while k < n_added
        invariant
            nb == binaries@.len(),
            na == aall.len(),
            n_added == na,
            k <= na,
            rest@ == aall.skip(k as int),
            files@.len() == nb + k,
            forall|a: int| 0 <= a < nb ==> (#[trigger] files@[a]).0@ == binaries@[a].0@
                && is_binary_of(files@[a].1, binaries@[a].1@),
            forall|a: int| 0 <= a < k ==> #[trigger] files@[nb + a].0@ == aall[a].0@
                && files@[nb + a].1 == GameDataItem::Structured(aall[a].1),
        decreases na - k,
    {
        let (path, item) = rest.remove(0);
        proof {
            assert(aall.skip(k as int)[0] == aall[k as int]);
            assert(rest@ =~= aall.skip(k + 1));
        }
        files.push((path, GameDataItem::Structured(item)));
        k = k + 1;
    }
    let ghost start = files@;
    let mut errors: Vec<(String, ApplyError)> = Vec::new();
    let mut todo = patches;
    let n_patches = todo.len();
    let mut j: usize = 0;
    assert(todo@ =~= pall.skip(0));
    while j < n_patches
        invariant
            nb == binaries@.len(),
            na == aall.len(),
            n_patches == pall.len(),
            j <= n_patches,
            todo@ == pall.skip(j as int),
            forall|q: int| 0 <= q < pall.len() ==> (#[trigger] pall[q]).1.wf(),
            forall|a: int| 0 <= a < base.files@.len() ==> (#[trigger] base.files@[a]).1.wf(),
            start.len() == nb + na,
            forall|a: int| 0 <= a < nb ==> (#[trigger] start[a]).0@ == binaries@[a].0@
                && is_binary_of(start[a].1, binaries@[a].1@),
            forall|a: int| 0 <= a < na ==> #[trigger] start[nb + a].0@ == aall[a].0@
                && start[nb + a].1 == GameDataItem::Structured(aall[a].1),
            files@.len() >= nb + na,
            files@.subrange(0, (nb + na) as int) == start,
            files@.len() - nb - na + errors@.len() == j,
            forall|q: int| 0 <= q < j ==> path_listed(files@, (nb + na) as int, errors@, (#[trigger] pall[q]).0@),
            forall|f: int| nb + na <= f < files@.len() ==> exists|q: int| 0 <= q < j
                && (#[trigger] files@[f]).0@ == (#[trigger] pall[q]).0@
                && patched_ok(base.files@, pall[q].0@, pall[q].1@, files@[f].1),
            forall|e: int| 0 <= e < errors@.len() ==> exists|q: int| 0 <= q < j
                && (#[trigger] errors@[e]).0@ == (#[trigger] pall[q]).0@
                && patched_err(base.files@, pall[q].0@, pall[q].1@, errors@[e].1),
        decreases n_patches - j,
    {
        let (path, patch) = todo.remove(0);
        proof {
            assert(pall.skip(j as int)[0] == pall[j as int]);
            assert(todo@ =~= pall.skip(j + 1));
            assert(path == pall[j as int].0 && patch == pall[j as int].1);
        }
        let ghost old_files = files@;
        let ghost old_errors = errors@;
        match base.get(&path) {
            Option::Some(GameDataItem::Structured(o)) => {
                proof {
                    let a = choose|a: int| 0 <= a < base.files@.len() && (#[trigger] base.files@[a]).0@ == path@ && base.files@[a].1 == GameDataItem::Structured(*o);
                    assert(base.files@[a].1.wf());
                }
                let mut item = o.duplicate();
                let ghost dup = item;
                let ghost pv = patch@;
                let outcome = item.apply_patch(patch);
                proof {
                    lemma_apply_relation_content(*o, dup, pv, item, outcome);
                }
                match outcome {
                    Result::Ok(()) => {
                        files.push((path, GameDataItem::Structured(item)));
                        proof {
                            assert(patched_ok(base.files@, pall[j as int].0@, pall[j as int].1@, files@[files@.len() - 1].1));
                        }
                    },
                    Result::Err(e) => {
                        errors.push((path, e));
                        proof {
                            assert(apply_relation(*o, pv, item, Result::Err(e)));
                            assert(patched_err(base.files@, pall[j as int].0@, pall[j as int].1@, e));
                        }
                    },
                }
            },
            _ => {
                errors.push((path, ApplyError::UnknownPath));
                assert(patched_err(base.files@, pall[j as int].0@, pall[j as int].1@, ApplyError::UnknownPath));
            },
        }
        proof {
            assert forall|q: int| 0 <= q < j + 1 implies path_listed(files@, (nb + na) as int, errors@, (#[trigger] pall[q]).0@) by {
                if q < j {
                    if exists|f: int| nb + na <= f < old_files.len() && (#[trigger] old_files[f]).0@ == pall[q].0@ {
                        let f = choose|f: int| nb + na <= f < old_files.len() && (#[trigger] old_files[f]).0@ == pall[q].0@;
                        assert(files@[f] == old_files[f]);
                    } else {
                        let e = choose|e: int| 0 <= e < old_errors.len() && (#[trigger] old_errors[e]).0@ == pall[q].0@;
                        assert(errors@[e] == old_errors[e]);
                    }
                } else if files@.len() > old_files.len() {
                    assert(files@[files@.len() - 1].0@ == pall[q].0@);
                } else {
                    assert(errors@[errors@.len() - 1].0@ == pall[q].0@);
                }
            }
            assert(files@.subrange(0, (nb + na) as int) =~= start) by {
                assert forall|a: int| 0 <= a < nb + na implies files@[a] == old_files[a] by {}
            }
            assert forall|f: int| nb + na <= f < files@.len() implies exists|q: int| 0 <= q < j + 1
                && (#[trigger] files@[f]).0@ == (#[trigger] pall[q]).0@
                && patched_ok(base.files@, pall[q].0@, pall[q].1@, files@[f].1) by {
                if f < old_files.len() {
                    assert(files@[f] == old_files[f]);
                    let q = choose|q: int| 0 <= q < j && (#[trigger] old_files[f]).0@ == (#[trigger] pall[q]).0@
                        && patched_ok(base.files@, pall[q].0@, pall[q].1@, old_files[f].1);
                    assert(files@[f].0@ == pall[q].0@);
                } else {
                    assert(files@[f].0@ == pall[j as int].0@);
                }
            }
            assert forall|e: int| 0 <= e < errors@.len() implies exists|q: int| 0 <= q < j + 1
                && (#[trigger] errors@[e]).0@ == (#[trigger] pall[q]).0@
                && patched_err(base.files@, pall[q].0@, pall[q].1@, errors@[e].1) by {
                if e < old_errors.len() {
                    assert(errors@[e] == old_errors[e]);
                    let q = choose|q: int| 0 <= q < j && (#[trigger] old_errors[e]).0@ == (#[trigger] pall[q]).0@
                        && patched_err(base.files@, pall[q].0@, pall[q].1@, old_errors[e].1);
                    assert(errors@[e].0@ == pall[q].0@);
                } else {
                    assert(errors@[e].0@ == pall[j as int].0@);
                }
            }
        }
        j = j + 1;
    }
    proof {
        assert(pall == patches@);
        assert(aall == added@);
        assert(j == pall.len());
        assert forall|a: int| 0 <= a < nb + na implies files@[a] == start[a] by {
            assert(files@.subrange(0, (nb + na) as int)[a] == files@[a]);
        }
        assert forall|a: int| 0 <= a < nb implies (#[trigger] files@[a]).0@ == binaries@[a].0@
            && is_binary_of(files@[a].1, binaries@[a].1@) by {
            assert(files@[a] == start[a]);
        }
        assert forall|f: int| nb + na <= f < files@.len() implies file_from_patch(base.files@, patches@, (#[trigger] files@[f]).0@, files@[f].1) by {
            let q = choose|q: int| 0 <= q < j && (#[trigger] files@[f]).0@ == (#[trigger] pall[q]).0@
                && patched_ok(base.files@, pall[q].0@, pall[q].1@, files@[f].1);
            assert(patches@[q] == pall[q]);
        }
        assert forall|e: int| 0 <= e < errors@.len() implies error_from_patch(base.files@, patches@, (#[trigger] errors@[e]).0@, errors@[e].1) by {
            let q = choose|q: int| 0 <= q < j && (#[trigger] errors@[e]).0@ == (#[trigger] pall[q]).0@
                && patched_err(base.files@, pall[q].0@, pall[q].1@, errors@[e].1);
            assert(patches@[q] == pall[q]);
        }
        assert forall|q: int| 0 <= q < patches@.len() implies path_listed(files@, (nb + na) as int, errors@, (#[trigger] patches@[q]).0@) by {
            assert(patches@[q] == pall[q]);
        }
        assert forall|a: int| 0 <= a < na implies #[trigger] files@[nb + a].0@ == aall[a].0@
            && files@[nb + a].1 == GameDataItem::Structured(aall[a].1) by {
            assert(files@[nb + a] == start[nb + a]);
        }
    }
    (GameData { files }, errors)
}

} // verus!
