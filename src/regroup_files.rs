//! Grouping the files of several mods by path.
use vstd::prelude::*;

verus! {

/// The files of one mod at path `p`, each with the mod's name, in order.
pub open spec fn entries_for<T>(name: Seq<char>, files: Seq<(String, T)>, p: Seq<char>) -> Seq<(Seq<char>, T)>
    decreases files.len(),
{
    if files.len() == 0 {
        Seq::empty()
    } else if files.last().0@ == p {
        entries_for(name, files.drop_last(), p).push((name, files.last().1))
    } else {
        entries_for(name, files.drop_last(), p)
    }
}

/// The files of all mods at path `p`, each with its mod's name, in the
/// order of the mods.
pub open spec fn files_at<T>(mods: Seq<(String, Vec<(String, T)>)>, p: Seq<char>) -> Seq<(Seq<char>, T)>
    decreases mods.len(),
{
    if mods.len() == 0 {
        Seq::empty()
    } else {
        files_at(mods.drop_last(), p) + entries_for(mods.last().0@, mods.last().1@, p)
    }
}

/// No path occurs twice.
pub open spec fn groups_wf<T>(g: Seq<(String, Vec<(String, T)>)>) -> bool {
    forall|i: int, j: int| 0 <= i < g.len() && 0 <= j < g.len() && i != j ==> (#[trigger] g[i]).0@ != (#[trigger] g[j]).0@
}

pub open spec fn group_items<T>(v: Seq<(String, T)>) -> Seq<(Seq<char>, T)> {
    v.map_values(|e: (String, T)| (e.0@, e.1))
}

/// Each path of a grouping with its files.
pub open spec fn groups_view<T>(g: Seq<(String, Vec<(String, T)>)>) -> Map<Seq<char>, Seq<(Seq<char>, T)>> {
    Map::new(
        |p: Seq<char>| exists|i: int| 0 <= i < g.len() && (#[trigger] g[i]).0@ == p,
        |p: Seq<char>| group_items(g[choose|i: int| 0 <= i < g.len() && (#[trigger] g[i]).0@ == p].1@),
    )
}

proof fn lemma_groups_view_at<T>(g: Seq<(String, Vec<(String, T)>)>, i: int)
    requires
        groups_wf(g),
        0 <= i < g.len(),
    ensures
        groups_view(g).contains_key(g[i].0@),
        groups_view(g)[g[i].0@] == group_items(g[i].1@),
{
    assert(groups_view(g).contains_key(g[i].0@));
    let j = choose|j: int| 0 <= j < g.len() && (#[trigger] g[j]).0@ == g[i].0@;
    assert(j == i);
}

/// The grouping with one more file.
pub open spec fn add_file<T>(m: Map<Seq<char>, Seq<(Seq<char>, T)>>, name: Seq<char>, p: Seq<char>, t: T) -> Map<Seq<char>, Seq<(Seq<char>, T)>> {
    if m.contains_key(p) {
        m.insert(p, m[p].push((name, t)))
    } else {
        m.insert(p, seq![(name, t)])
    }
}

fn add_to_groups<T>(groups: &mut Vec<(String, Vec<(String, T)>)>, name: &String, path: String, item: T)
    requires
        groups_wf(old(groups)@),
    ensures
        groups_wf(final(groups)@),
        groups_view(final(groups)@) == add_file(groups_view(old(groups)@), name@, path@, item),
{
    let ghost g0 = groups@;
    let ghost m0 = groups_view(g0);
    let mut i: usize = 0;
    while i < groups.len()
        invariant
            groups@ == g0,
            g0 == old(groups)@,
            groups_wf(g0),
            m0 == groups_view(g0),
            i <= g0.len(),
            forall|a: int| 0 <= a < i ==> (#[trigger] g0[a]).0@ != path@,
        decreases g0.len() - i,
    {
        if groups[i].0 == path {
            proof {
                lemma_groups_view_at(g0, i as int);
            }
            let (key, mut list) = groups.remove(i);
            assert(key == g0[i as int].0 && list == g0[i as int].1);
            let ghost old_items = list@;
            list.push((crate::value::clone_string(name), item));
            assert(group_items(list@) =~= group_items(old_items).push((name@, item)));
            groups.insert(i, (key, list));
            proof {
                let g1 = groups@;
                assert(g1 =~= g0.update(i as int, g1[i as int]));
                assert(groups_wf(g1)) by {
                    assert forall|a: int, b: int| 0 <= a < g1.len() && 0 <= b < g1.len() && a != b
                        implies (#[trigger] g1[a]).0@ != (#[trigger] g1[b]).0@ by {
                        assert(g1[a].0@ == g0[a].0@ && g1[b].0@ == g0[b].0@);
                    }
                }
                let target = add_file(m0, name@, path@, item);
                assert forall|q: Seq<char>| #[trigger] groups_view(g1).contains_key(q) == target.contains_key(q) by {
                    if m0.contains_key(q) {
                        let a = choose|a: int| 0 <= a < g0.len() && (#[trigger] g0[a]).0@ == q;
                        assert(g1[a].0@ == q);
                    }
                    if groups_view(g1).contains_key(q) {
                        let a = choose|a: int| 0 <= a < g1.len() && (#[trigger] g1[a]).0@ == q;
                        assert(g0[a].0@ == q);
                    }
                }
                assert forall|q: Seq<char>| #[trigger] groups_view(g1).contains_key(q) implies groups_view(g1)[q] == target[q] by {
                    let a = choose|a: int| 0 <= a < g1.len() && (#[trigger] g1[a]).0@ == q;
                    lemma_groups_view_at(g1, a);
                    if a != i {
                        assert(g1[a] == g0[a]);
                        lemma_groups_view_at(g0, a);
                    }
                }
                assert(groups_view(g1) =~= target);
            }
            return;
        }
        i = i + 1;
    }
    let mut list: Vec<(String, T)> = Vec::new();
    list.push((crate::value::clone_string(name), item));
    assert(group_items(list@) =~= seq![(name@, item)]);
    groups.push((path, list));
    proof {
        let g1 = groups@;
        let n = g0.len() as int;
        assert forall|a: int| 0 <= a < n implies (#[trigger] g1[a]) == g0[a] by {}
        assert(!m0.contains_key(path@)) by {
            if m0.contains_key(path@) {
                let a = choose|a: int| 0 <= a < g0.len() && (#[trigger] g0[a]).0@ == path@;
            }
        }
        assert(groups_wf(g1)) by {
            assert forall|a: int, b: int| 0 <= a < g1.len() && 0 <= b < g1.len() && a != b
                implies (#[trigger] g1[a]).0@ != (#[trigger] g1[b]).0@ by {
                if a < n && b < n {
                    assert(g1[a] == g0[a] && g1[b] == g0[b]);
                } else if a < n {
                    assert(g1[a] == g0[a]);
                } else {
                    assert(g1[b] == g0[b]);
                }
            }
        }
        let target = add_file(m0, name@, path@, item);
        assert forall|q: Seq<char>| #[trigger] groups_view(g1).contains_key(q) == target.contains_key(q) by {
            if m0.contains_key(q) {
                let a = choose|a: int| 0 <= a < g0.len() && (#[trigger] g0[a]).0@ == q;
                assert(g1[a].0@ == q);
            }
            if groups_view(g1).contains_key(q) {
                let a = choose|a: int| 0 <= a < g1.len() && (#[trigger] g1[a]).0@ == q;
                if a < n {
                    assert(g0[a].0@ == q);
                }
            }
            assert(g1[n].0@ == path@);
        }
        assert forall|q: Seq<char>| #[trigger] groups_view(g1).contains_key(q) implies groups_view(g1)[q] == target[q] by {
            let a = choose|a: int| 0 <= a < g1.len() && (#[trigger] g1[a]).0@ == q;
            lemma_groups_view_at(g1, a);
            if a < n {
                lemma_groups_view_at(g0, a);
            }
        }
        assert(groups_view(g1) =~= target);
    }
}

/// The grouping of every file that the mods give, by path.
pub open spec fn regroup_files_spec<T>(mods: Seq<(String, Vec<(String, T)>)>) -> Map<Seq<char>, Seq<(Seq<char>, T)>> {
    Map::new(|p: Seq<char>| files_at(mods, p).len() > 0, |p: Seq<char>| files_at(mods, p))
}

/// Groups the files of several mods by path: each path that some mod has,
/// with the (mod name, file) pairs there, in the order of the mods.
pub fn regroup_files<T>(mods: Vec<(String, Vec<(String, T)>)>) -> (r: Vec<(String, Vec<(String, T)>)>)
    ensures
        groups_wf(r@),
        groups_view(r@) == regroup_files_spec(mods@),
{
    let ghost all = mods@;
    let mut rest = mods;
    let mut groups: Vec<(String, Vec<(String, T)>)> = Vec::new();
    let mut i: usize = 0;
    let n = rest.len();
    assert(groups_view(groups@) =~= regroup_files_spec(all.take(0)));
    assert(rest@ =~= all.skip(0));
    while i < n
        invariant
            n == all.len(),
            i <= n,
            rest@ == all.skip(i as int),
            groups_wf(groups@),
            groups_view(groups@) == regroup_files_spec(all.take(i as int)),
        decreases n - i,
    {
        let (name, files) = rest.remove(0);
        proof {
            assert(all.skip(i as int)[0] == all[i as int]);
            assert(rest@ =~= all.skip(i + 1));
        }
        let ghost fs = files@;
        let ghost before = all.take(i as int);
        let mut left = files;
        let m = left.len();
        let mut k: usize = 0;
        assert(left@ =~= fs.skip(0));
        assert forall|p: Seq<char>| entries_for(name@, fs.take(0), p) =~= Seq::<(Seq<char>, T)>::empty() by {}
        assert(groups_view(groups@) =~= Map::new(
            |p: Seq<char>| (files_at(before, p) + entries_for(name@, fs.take(0), p)).len() > 0,
            |p: Seq<char>| files_at(before, p) + entries_for(name@, fs.take(0), p),
        )) by {
            assert forall|p: Seq<char>| files_at(before, p) + entries_for(name@, fs.take(0), p) =~= files_at(before, p) by {}
        }
        while k < m
            invariant
                m == fs.len(),
                k <= m,
                left@ == fs.skip(k as int),
                groups_wf(groups@),
                groups_view(groups@) == Map::new(
                    |p: Seq<char>| (files_at(before, p) + entries_for(name@, fs.take(k as int), p)).len() > 0,
                    |p: Seq<char>| files_at(before, p) + entries_for(name@, fs.take(k as int), p),
                ),
            decreases m - k,
        {
            let (path, item) = left.remove(0);
            proof {
                assert(fs.skip(k as int)[0] == fs[k as int]);
                assert(path == fs[k as int].0 && item == fs[k as int].1);
                assert(left@ =~= fs.skip(k + 1));
            }
            let ghost g_before = groups_view(groups@);
            add_to_groups(&mut groups, &name, path, item);
            proof {
                assert(fs.take(k + 1).drop_last() =~= fs.take(k as int));
                assert(fs.take(k + 1).last() == fs[k as int]);
                let next = Map::new(
                    |p: Seq<char>| (files_at(before, p) + entries_for(name@, fs.take(k + 1), p)).len() > 0,
                    |p: Seq<char>| files_at(before, p) + entries_for(name@, fs.take(k + 1), p),
                );
                let added = add_file(g_before, name@, path@, item);
                assert forall|p: Seq<char>| #![trigger added.dom().contains(p)] #![trigger next.dom().contains(p)]
                    added.dom().contains(p) == next.dom().contains(p) && (added.dom().contains(p) ==> added[p] == next[p]) by {
                    assert(files_at(before, p) + entries_for(name@, fs.take(k + 1), p) =~= if p == path@ {
                        (files_at(before, p) + entries_for(name@, fs.take(k as int), p)).push((name@, item))
                    } else {
                        files_at(before, p) + entries_for(name@, fs.take(k as int), p)
                    });
                    if p == path@ && !g_before.contains_key(p) {
                        assert(files_at(before, p) + entries_for(name@, fs.take(k as int), p) =~= Seq::<(Seq<char>, T)>::empty());
                    }
                }
                assert(added =~= next);
            }
            k = k + 1;
        }
        proof {
            assert(fs.take(m as int) =~= fs);
            assert(all.take(i + 1).drop_last() =~= before);
            assert(all.take(i + 1).last() == all[i as int]);
            assert(all[i as int].1@ == fs);
            assert(groups_view(groups@) =~= regroup_files_spec(all.take(i + 1)));
        }
        i = i + 1;
    }
    assert(all.take(n as int) =~= all);
    groups
}

} // verus!
