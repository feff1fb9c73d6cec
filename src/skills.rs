//! Merging hero data, where the changes to one field of one skill are
//! decided together over all the skill's levels.
use crate::map::{Conflicts, Patch, assoc_map, clone_path, keys_sorted, lemma_assoc_map_absent, lemma_assoc_map_push};
use vstd::string::*;
use crate::merge::{SourceChange, all_agree, changes_agree, clone_changes, contributions_view, contributions_wf, grouped_spec, regroup};
use crate::path::{PathView, segment_equals, lemma_path_lt_transitive, path_lt, path_view};
use crate::value::{ChangeView, GameDataValue, ItemChange, ValueView, clone_string, opt_str_view};
use core::cmp::Ordering;
use vstd::prelude::*;

verus! {

/// Two paths name the same field of the same skill, at any levels: both
/// are `skills / <skill> / <level> / <field...>` with equal skill and field.
pub open spec fn same_skill_field(p: PathView, q: PathView) -> bool {
    &&& p.len() >= 3
    &&& q.len() >= 3
    &&& p[0] == "skills"@
    &&& q[0] == "skills"@
    &&& p[1] == q[1]
    &&& p.skip(3) == q.skip(3)
}

/// Some level of the skill field of `p` has changes that disagree.
pub open spec fn skill_field_disputed(g: Map<PathView, Seq<SourceChange>>, p: PathView) -> bool {
    exists|q: PathView| #[trigger] g.contains_key(q) && same_skill_field(p, q) && !all_agree(g[q])
}

/// A path goes to the conflict set where its own changes disagree, or
/// where those of its skill field disagree at another level.
pub open spec fn skill_pulled(g: Map<PathView, Seq<SourceChange>>, p: PathView) -> bool {
    !all_agree(g[p]) || skill_field_disputed(g, p)
}

pub open spec fn skill_merged(g: Map<PathView, Seq<SourceChange>>) -> Map<PathView, ChangeView> {
    Map::new(|p: PathView| g.contains_key(p) && !skill_pulled(g, p), |p: PathView| g[p][0].1)
}

pub open spec fn skill_conflicts(g: Map<PathView, Seq<SourceChange>>) -> Map<PathView, Seq<SourceChange>> {
    Map::new(|p: PathView| g.contains_key(p) && skill_pulled(g, p), |p: PathView| g[p])
}

/// Whether two paths name the same field of the same skill.
pub fn same_skill_field_exec(p: &Vec<String>, q: &Vec<String>) -> (r: bool)
    ensures
        r == same_skill_field(path_view(p@), path_view(q@)),
{
    let ghost pv = path_view(p@);
    let ghost qv = path_view(q@);
    if p.len() < 3 || q.len() < 3 || p.len() != q.len() {
        if p.len() >= 3 && q.len() >= 3 {
            assert(pv.skip(3).len() != qv.skip(3).len());
        }
        return false;
    }
    if !segment_equals(p[0].as_str(), "skills") || !segment_equals(q[0].as_str(), "skills") || p[1] != q[1] {
        return false;
    }
    let mut i: usize = 3;
    while i < p.len()
        invariant
            pv == path_view(p@),
            qv == path_view(q@),
            p@.len() == q@.len(),
            3 <= i <= p@.len(),
            forall|a: int| 3 <= a < i ==> pv[a] == qv[a],
        decreases p.len() - i,
    {
        if p[i] != q[i] {
            assert(pv.skip(3)[i - 3] != qv.skip(3)[i - 3]);
            return false;
        }
        i = i + 1;
    }
    assert(pv.skip(3) =~= qv.skip(3));
    true
}

fn field_disputed(groups: &Conflicts, i: usize) -> (r: bool)
    requires
        groups.wf(),
        i < groups.entries@.len(),
    ensures
        r == skill_field_disputed(groups@, groups.entries_view()[i as int].0),
{
    let ghost gs = groups.entries_view();
    let ghost p = gs[i as int].0;
    let mut j: usize = 0;
    while j < groups.entries.len()
        invariant
            gs == groups.entries_view(),
            keys_sorted(gs),
            i < gs.len(),
            p == gs[i as int].0,
            j <= gs.len(),
            forall|a: int| 0 <= a < j ==> !(same_skill_field(p, (#[trigger] gs[a]).0) && !all_agree(gs[a].1)),
        decreases gs.len() - j,
    {
        if same_skill_field_exec(&groups.entries[i].0, &groups.entries[j].0) && !changes_agree(&groups.entries[j].1) {
            proof {
                crate::map::lemma_assoc_map_index(gs, j as int);
            }
            return true;
        }
        j = j + 1;
    }
    proof {
        if skill_field_disputed(groups@, p) {
            let q = choose|q: PathView| #[trigger] groups@.contains_key(q) && same_skill_field(p, q) && !all_agree(groups@[q]);
            crate::map::lemma_assoc_map_domain(gs, q);
            let a = choose|a: int| 0 <= a < gs.len() && #[trigger] gs[a].0 == q;
            crate::map::lemma_assoc_map_index(gs, a);
        }
    }
    false
}

proof fn lemma_skill_split_push(
    g: Map<PathView, Seq<SourceChange>>,
    pre: Map<PathView, Seq<SourceChange>>,
    k: PathView,
)
    requires
        g.contains_key(k),
        !pre.contains_key(k),
    ensures
        !skill_pulled(g, k) ==> Map::new(|p: PathView| pre.insert(k, g[k]).contains_key(p) && !skill_pulled(g, p), |p: PathView| pre.insert(k, g[k])[p][0].1)
            == Map::new(|p: PathView| pre.contains_key(p) && !skill_pulled(g, p), |p: PathView| pre[p][0].1).insert(k, g[k][0].1),
        skill_pulled(g, k) ==> Map::new(|p: PathView| pre.insert(k, g[k]).contains_key(p) && !skill_pulled(g, p), |p: PathView| pre.insert(k, g[k])[p][0].1)
            == Map::new(|p: PathView| pre.contains_key(p) && !skill_pulled(g, p), |p: PathView| pre[p][0].1),
        skill_pulled(g, k) ==> Map::new(|p: PathView| pre.insert(k, g[k]).contains_key(p) && skill_pulled(g, p), |p: PathView| pre.insert(k, g[k])[p])
            == Map::new(|p: PathView| pre.contains_key(p) && skill_pulled(g, p), |p: PathView| pre[p]).insert(k, g[k]),
        !skill_pulled(g, k) ==> Map::new(|p: PathView| pre.insert(k, g[k]).contains_key(p) && skill_pulled(g, p), |p: PathView| pre.insert(k, g[k])[p])
            == Map::new(|p: PathView| pre.contains_key(p) && skill_pulled(g, p), |p: PathView| pre[p]),
{
    let post = pre.insert(k, g[k]);
    assert(Map::new(|p: PathView| post.contains_key(p) && !skill_pulled(g, p), |p: PathView| post[p][0].1)
        =~= if !skill_pulled(g, k) {
            Map::new(|p: PathView| pre.contains_key(p) && !skill_pulled(g, p), |p: PathView| pre[p][0].1).insert(k, g[k][0].1)
        } else {
            Map::new(|p: PathView| pre.contains_key(p) && !skill_pulled(g, p), |p: PathView| pre[p][0].1)
        });
    assert(Map::new(|p: PathView| post.contains_key(p) && skill_pulled(g, p), |p: PathView| post[p])
        =~= if skill_pulled(g, k) {
            Map::new(|p: PathView| pre.contains_key(p) && skill_pulled(g, p), |p: PathView| pre[p]).insert(k, g[k])
        } else {
            Map::new(|p: PathView| pre.contains_key(p) && skill_pulled(g, p), |p: PathView| pre[p])
        });
}

/// Merges the patches of several sources to a hero's data. Paths merge one
/// by one, except that where the changes to a skill field disagree at one
/// level, every level of that field goes to the conflict set, to be
/// resolved as one decision.
pub fn try_merge_skill_patches(contributions: &Vec<(String, Patch)>) -> (r: (Patch, Conflicts))
    requires
        contributions_wf(contributions@),
    ensures
        r.0.wf(),
        r.1.wf(),
        r.0@ == skill_merged(grouped_spec(contributions_view(contributions@))),
        r.1@ == skill_conflicts(grouped_spec(contributions_view(contributions@))),
{
    let groups = regroup(contributions);
    let ghost g = groups@;
    let ghost gs = groups.entries_view();
    let ge = &groups.entries;
    let mut merged = Patch { entries: Vec::new() };
    let mut unmerged = Conflicts { entries: Vec::new() };
    let mut i: usize = 0;
    assert(gs.take(0) =~= Seq::<(PathView, Seq<SourceChange>)>::empty());
    assert(Map::new(|p: PathView| assoc_map(gs.take(0)).contains_key(p) && !skill_pulled(g, p), |p: PathView| assoc_map(gs.take(0))[p][0].1) =~= Map::<PathView, ChangeView>::empty());
    assert(Map::new(|p: PathView| assoc_map(gs.take(0)).contains_key(p) && skill_pulled(g, p), |p: PathView| assoc_map(gs.take(0))[p]) =~= Map::<PathView, Seq<SourceChange>>::empty());
    while i < ge.len()
        invariant
            gs == groups.entries_view(),
            g == groups@,
            ge == &groups.entries,
            groups.wf(),
            keys_sorted(gs),
            i <= gs.len(),
            g == grouped_spec(contributions_view(contributions@)),
            g == assoc_map(gs),
            keys_sorted(merged.entries_view()),
            keys_sorted(unmerged.entries_view()),
            forall|e: int| 0 <= e < merged.entries_view().len() ==> (i < gs.len() ==> path_lt(#[trigger] merged.entries_view()[e].0, gs[i as int].0)),
            forall|e: int| 0 <= e < unmerged.entries_view().len() ==> (i < gs.len() ==> path_lt(#[trigger] unmerged.entries_view()[e].0, gs[i as int].0)),
            merged@ == Map::new(|p: PathView| assoc_map(gs.take(i as int)).contains_key(p) && !skill_pulled(g, p), |p: PathView| assoc_map(gs.take(i as int))[p][0].1),
            unmerged@ == Map::new(|p: PathView| assoc_map(gs.take(i as int)).contains_key(p) && skill_pulled(g, p), |p: PathView| assoc_map(gs.take(i as int))[p]),
        decreases gs.len() - i,
    {
        let ghost pre = assoc_map(gs.take(i as int));
        let ghost k = gs[i as int].0;
        let ghost s = gs[i as int].1;
        let ghost old_m = merged.entries_view();
        let ghost old_u = unmerged.entries_view();
        proof {
            assert(gs.take(i + 1) =~= gs.take(i as int).push(gs[i as int]));
            lemma_assoc_map_push(gs.take(i as int), k, s);
            assert forall|a: int| 0 <= a < gs.take(i as int).len() implies path_lt(k, #[trigger] gs.take(i as int)[a].0) || path_lt(gs.take(i as int)[a].0, k) by {
                assert(path_lt(gs[a].0, k));
            }
            lemma_assoc_map_absent(gs.take(i as int), k);
            crate::map::lemma_assoc_map_index(gs, i as int);
            lemma_skill_split_push(g, pre, k);
        }
        let pulled = !changes_agree(&ge[i].1) || field_disputed(&groups, i);
        if !pulled {
            let p = clone_path(&ge[i].0);
            let c = ge[i].1[0].1.duplicate();
            merged.entries.push((p, c));
            proof {
                assert(merged.entries_view() =~= old_m.push((k, s[0].1)));
                lemma_assoc_map_push(old_m, k, s[0].1);
            }
        } else {
            let p = clone_path(&ge[i].0);
            let v = clone_changes(&ge[i].1);
            unmerged.entries.push((p, v));
            proof {
                assert(unmerged.entries_view() =~= old_u.push((k, s)));
                lemma_assoc_map_push(old_u, k, s);
            }
        }
        proof {
            assert forall|e: int| 0 <= e < merged.entries_view().len() && i + 1 < gs.len() implies path_lt(#[trigger] merged.entries_view()[e].0, gs[i + 1].0) by {
                if e < old_m.len() {
                    lemma_path_lt_transitive(merged.entries_view()[e].0, k, gs[i + 1].0);
                }
            }
            assert forall|e: int| 0 <= e < unmerged.entries_view().len() && i + 1 < gs.len() implies path_lt(#[trigger] unmerged.entries_view()[e].0, gs[i + 1].0) by {
                if e < old_u.len() {
                    lemma_path_lt_transitive(unmerged.entries_view()[e].0, k, gs[i + 1].0);
                }
            }
        }
        i = i + 1;
    }
    assert(gs.take(i as int) =~= gs);
    assert(merged@ =~= skill_merged(g));
    assert(unmerged@ =~= skill_conflicts(g));
    (merged, unmerged)
}

/// `p` is `skills / <skill> / <level> / <field...>` for some level.
pub open spec fn in_skill_field(p: PathView, skill: Seq<char>, field: PathView) -> bool {
    &&& p.len() >= 3
    &&& p[0] == "skills"@
    &&& p[1] == skill
    &&& p.skip(3) == field
}

/// The value that an answer chose for `level`: the first pair naming it.
pub open spec fn chosen_for(answer: Seq<(Seq<char>, Seq<char>)>, level: Seq<char>) -> Option<Seq<char>>
    decreases answer.len(),
{
    if answer.len() == 0 {
        Option::None
    } else if answer[0].0 == level {
        Option::Some(answer[0].1)
    } else {
        chosen_for(answer.drop_first(), level)
    }
}

/// The resolution of a skill field: every conflicted path of the field, at
/// any level, is set to the value chosen for its level, or removed where
/// the answer names no value for that level or removes the field.
pub open spec fn field_resolution(
    conflicts: Map<PathView, Seq<SourceChange>>,
    skill: Seq<char>,
    field: PathView,
    answer: Option<Seq<(Seq<char>, Seq<char>)>>,
) -> Map<PathView, ChangeView> {
    Map::new(
        |p: PathView| conflicts.contains_key(p) && in_skill_field(p, skill, field),
        |p: PathView|
            match answer {
                Option::Some(a) => match chosen_for(a, p[2]) {
                    Option::Some(v) => ChangeView::SetTo(ValueView::Str(v)),
                    Option::None => ChangeView::Removed,
                },
                Option::None => ChangeView::Removed,
            },
    )
}

pub open spec fn answer_view(a: Seq<(String, String)>) -> Seq<(Seq<char>, Seq<char>)> {
    a.map_values(|e: (String, String)| (e.0@, e.1@))
}

pub open spec fn opt_answer_view(a: Option<Vec<(String, String)>>) -> Option<Seq<(Seq<char>, Seq<char>)>> {
    match a {
        Option::Some(v) => Option::Some(answer_view(v@)),
        Option::None => Option::None,
    }
}

fn chosen_value(answer: &Vec<(String, String)>, level: &String) -> (r: Option<String>)
    ensures
        opt_str_view(r) == chosen_for(answer_view(answer@), level@),
{
    let ghost av = answer_view(answer@);
    let mut i: usize = 0;
    assert(av.skip(0) =~= av);
    while i < answer.len()
        invariant
            av == answer_view(answer@),
            i <= av.len(),
            chosen_for(av, level@) == chosen_for(av.skip(i as int), level@),
        decreases av.len() - i,
    {
        assert(av.skip(i as int)[0] == av[i as int]);
        if answer[i].0 == *level {
            return Option::Some(clone_string(&answer[i].1));
        }
        assert(av.skip(i as int).drop_first() =~= av.skip(i + 1));
        i = i + 1;
    }
    Option::None
}

fn in_skill_field_exec(p: &Vec<String>, skill: &String, field: &Vec<String>) -> (r: bool)
    ensures
        r == in_skill_field(path_view(p@), skill@, path_view(field@)),
{
    let ghost pv = path_view(p@);
    let ghost fv = path_view(field@);
    if p.len() < 3 || p.len() - 3 != field.len() {
        if p.len() >= 3 {
            assert(pv.skip(3).len() != fv.len());
        }
        return false;
    }
    if !segment_equals(p[0].as_str(), "skills") || p[1] != *skill {
        return false;
    }
    let mut i: usize = 3;
    while i < p.len()
        invariant
            pv == path_view(p@),
            fv == path_view(field@),
            p@.len() == field@.len() + 3,
            3 <= i <= p@.len(),
            forall|a: int| 3 <= a < i ==> pv[a] == fv[a - 3],
        decreases p.len() - i,
    {
        if p[i] != field[i - 3] {
            assert(pv.skip(3)[i - 3] != fv[i - 3]);
            return false;
        }
        i = i + 1;
    }
    assert(pv.skip(3) =~= fv);
    true
}

/// Turns a resolver's answer for a skill field into a patch that answers
/// every conflicted path of the field, per `field_resolution`: the answer
/// names a value per level, or is `None` to remove the field.
pub fn resolve_skill_field(
    conflicts: &Conflicts,
    skill: &String,
    field: &Vec<String>,
    answer: Option<Vec<(String, String)>>,
) -> (r: Patch)
    requires
        conflicts.wf(),
    ensures
        r.wf(),
        r@ == field_resolution(conflicts@, skill@, path_view(field@), opt_answer_view(answer)),
{
    let ghost cs = conflicts.entries_view();
    let ghost sk = skill@;
    let ghost fv = path_view(field@);
    let ghost av = opt_answer_view(answer);
    let mut out = Patch { entries: Vec::new() };
    let mut i: usize = 0;
    assert(cs.take(0) =~= Seq::<(PathView, Seq<SourceChange>)>::empty());
    assert(field_resolution(Map::empty(), sk, fv, av) =~= Map::<PathView, ChangeView>::empty());
    assert(out.entries_view() =~= Seq::<(PathView, ChangeView)>::empty());
    while i < conflicts.entries.len()
        invariant
            cs == conflicts.entries_view(),
            keys_sorted(cs),
            sk == skill@,
            fv == path_view(field@),
            av == opt_answer_view(answer),
            i <= cs.len(),
            keys_sorted(out.entries_view()),
            forall|e: int| 0 <= e < out.entries_view().len() ==> (i < cs.len() ==> path_lt(#[trigger] out.entries_view()[e].0, cs[i as int].0)),
            out@ == field_resolution(assoc_map(cs.take(i as int)), sk, fv, av),
        decreases cs.len() - i,
    {
        let ghost k = cs[i as int].0;
        let ghost v = cs[i as int].1;
        let ghost old_out = out.entries_view();
        proof {
            assert(cs.take(i + 1) =~= cs.take(i as int).push(cs[i as int]));
            lemma_assoc_map_push(cs.take(i as int), k, v);
        }
        let path = &conflicts.entries[i].0;
        assert(k == path_view(path@));
        if in_skill_field_exec(path, skill, field) {
            assert(path_view(path@)[2] == path@[2]@);
            let change = match &answer {
                Option::Some(a) => match chosen_value(a, &path[2]) {
                    Option::Some(text) => ItemChange::SetTo(GameDataValue::String(text)),
                    Option::None => ItemChange::Removed,
                },
                Option::None => ItemChange::Removed,
            };
            let ghost c = change@;
            let p = clone_path(path);
            out.entries.push((p, change));
            proof {
                assert(out.entries_view() =~= old_out.push((k, c)));
                lemma_assoc_map_push(old_out, k, c);
                assert(field_resolution(assoc_map(cs.take(i + 1)), sk, fv, av) =~= field_resolution(assoc_map(cs.take(i as int)), sk, fv, av).insert(k, c));
            }
        } else {
            assert(field_resolution(assoc_map(cs.take(i + 1)), sk, fv, av) =~= field_resolution(assoc_map(cs.take(i as int)), sk, fv, av));
        }
        proof {
            assert forall|e: int| 0 <= e < out.entries_view().len() && i + 1 < cs.len() implies path_lt(#[trigger] out.entries_view()[e].0, cs[i + 1].0) by {
                if e < old_out.len() {
                    lemma_path_lt_transitive(out.entries_view()[e].0, k, cs[i + 1].0);
                }
            }
        }
        i = i + 1;
    }
    assert(cs.take(i as int) =~= cs);
    out
}

/// A path under the skills of a hero.
pub open spec fn is_skill_path(p: PathView) -> bool {
    p.len() >= 3 && p[0] == "skills"@
}

pub open spec fn fields_view(r: Seq<(String, Vec<String>)>) -> Seq<(Seq<char>, PathView)> {
    r.map_values(|e: (String, Vec<String>)| (e.0@, path_view(e.1@)))
}

/// Some (skill, field) of the list holds `p`.
pub open spec fn field_listed(fields: Seq<(Seq<char>, PathView)>, p: PathView) -> bool {
    exists|k: int| 0 <= k < fields.len() && in_skill_field(p, (#[trigger] fields[k]).0, fields[k].1)
}

/// Some conflicted skill path lies in the skill field `f`.
pub open spec fn field_conflicted(conflicts: Map<PathView, Seq<SourceChange>>, f: (Seq<char>, PathView)) -> bool {
    exists|p: PathView| #[trigger] conflicts.contains_key(p) && is_skill_path(p) && in_skill_field(p, f.0, f.1)
}

/// The (skill, field) pairs of the conflicted skill paths, each once: the
/// units that a resolver is asked about, one answer covering all levels.
pub fn skill_fields(conflicts: &Conflicts) -> (r: Vec<(String, Vec<String>)>)
    requires
        conflicts.wf(),
    ensures
        forall|k: int| 0 <= k < r@.len() ==> field_conflicted(conflicts@, #[trigger] fields_view(r@)[k]),
        forall|p: PathView| #[trigger] conflicts@.contains_key(p) && is_skill_path(p) ==> field_listed(fields_view(r@), p),
        forall|a: int, b: int| 0 <= a < r@.len() && 0 <= b < r@.len() && a != b
            ==> #[trigger] fields_view(r@)[a] != #[trigger] fields_view(r@)[b],
{
    let ghost cs = conflicts.entries_view();
    let mut out: Vec<(String, Vec<String>)> = Vec::new();
    let mut i: usize = 0;
    while i < conflicts.entries.len()
        invariant
            cs == conflicts.entries_view(),
            conflicts@ == crate::map::assoc_map(cs),
            i <= cs.len(),
            forall|a: int| 0 <= a < i && is_skill_path((#[trigger] cs[a]).0) ==> field_listed(fields_view(out@), cs[a].0),
            forall|k: int| 0 <= k < out@.len() ==> field_conflicted(conflicts@, #[trigger] fields_view(out@)[k]),
            forall|a: int, b: int| 0 <= a < out@.len() && 0 <= b < out@.len() && a != b
                ==> #[trigger] fields_view(out@)[a] != #[trigger] fields_view(out@)[b],
        decreases cs.len() - i,
    {
        let path = &conflicts.entries[i].0;
        let ghost pv = cs[i as int].0;
        assert(pv == path_view(path@));
        proof {
            crate::map::lemma_assoc_map_domain(cs, pv);
        }
        if path.len() >= 3 && segment_equals(path[0].as_str(), "skills") {
            assert(is_skill_path(pv));
            let mut k: usize = 0;
            let mut found = false;
            while k < out.len()
                invariant
                    k <= out@.len(),
                    pv == path_view(path@),
                    !found ==> forall|b: int| 0 <= b < k ==> !in_skill_field(pv, (#[trigger] fields_view(out@)[b]).0, fields_view(out@)[b].1),
                    found ==> field_listed(fields_view(out@), pv),
                decreases out@.len() - k,
            {
                if !found && in_skill_field_exec(path, &out[k].0, &out[k].1) {
                    found = true;
                    assert(in_skill_field(pv, fields_view(out@)[k as int].0, fields_view(out@)[k as int].1));
                }
                k = k + 1;
            }
            if !found {
                let ghost old_out = fields_view(out@);
                let mut field: Vec<String> = Vec::new();
                let mut j: usize = 3;
                while j < path.len()
                    invariant
                        3 <= j <= path@.len(),
                        pv == path_view(path@),
                        path_view(field@) == pv.subrange(3, j as int),
                    decreases path@.len() - j,
                {
                    let ghost before = path_view(field@);
                    field.push(clone_string(&path[j]));
                    assert(path_view(field@) =~= before.push(pv[j as int]));
                    assert(pv.subrange(3, j + 1) =~= pv.subrange(3, j as int).push(pv[j as int]));
                    j = j + 1;
                }
                assert(pv.subrange(3, j as int) =~= pv.skip(3));
                out.push((clone_string(&path[1]), field));
                proof {
                    let nv = fields_view(out@);
                    assert(nv =~= old_out.push((pv[1], pv.skip(3))));
                    assert(in_skill_field(pv, nv[nv.len() - 1].0, nv[nv.len() - 1].1));
                    assert forall|a: int| 0 <= a < i + 1 && is_skill_path((#[trigger] cs[a]).0) implies field_listed(nv, cs[a].0) by {
                        if a < i {
                            let k = choose|k: int| 0 <= k < old_out.len() && in_skill_field(cs[a].0, (#[trigger] old_out[k]).0, old_out[k].1);
                            assert(nv[k] == old_out[k]);
                        }
                    }
                    assert forall|k: int| 0 <= k < nv.len() implies field_conflicted(conflicts@, #[trigger] nv[k]) by {
                        if k < old_out.len() {
                            assert(nv[k] == old_out[k]);
                        } else {
                            assert(conflicts@.contains_key(pv));
                        }
                    }
                    assert forall|a: int, b: int| 0 <= a < nv.len() && 0 <= b < nv.len() && a != b
                        implies #[trigger] nv[a] != #[trigger] nv[b] by {
                        if a < old_out.len() && b < old_out.len() {
                            assert(nv[a] == old_out[a] && nv[b] == old_out[b]);
                        } else if a < old_out.len() {
                            assert(nv[a] == old_out[a]);
                            if nv[a] == nv[b] {
                                assert(in_skill_field(pv, old_out[a].0, old_out[a].1));
                            }
                        } else {
                            assert(nv[b] == old_out[b]);
                            if nv[a] == nv[b] {
                                assert(in_skill_field(pv, old_out[b].0, old_out[b].1));
                            }
                        }
                    }
                }
            }
        } else {
            proof {
                if path@.len() >= 3 {
                    assert(pv[0] == path@[0]@);
                }
            }
            assert(!is_skill_path(pv));
        }
        i = i + 1;
    }
    proof {
        assert forall|p: PathView| #[trigger] conflicts@.contains_key(p) && is_skill_path(p) implies field_listed(fields_view(out@), p) by {
            crate::map::lemma_assoc_map_domain(cs, p);
            let a = choose|a: int| 0 <= a < cs.len() && #[trigger] cs[a].0 == p;
        }
    }
    out
}

} // verus!
