//! Ordered lists encoded as predecessor-to-successor facts, and the
//! lookup and insertion on canonical maps that the encoding needs.
use crate::map::{DataMap, assoc_map, clone_path, keys_sorted, lemma_assoc_map_absent, lemma_assoc_map_index};
use crate::path::{PathView, cmp_path, lemma_path_lt_transitive, path_lt, path_view};
use crate::value::{GameDataValue, ValueView, clone_string, opt_str_view};
use crate::apply::apply_spec;
use crate::diff::diff_spec;
use crate::merge::{SourceChange, conflicts_spec, lemma_merge_disjoint, merged_spec};
use crate::value::ChangeView;
use core::cmp::Ordering;
use vstd::prelude::*;

verus! {

proof fn lemma_sorted_insert_map<V>(s: Seq<(PathView, V)>, pos: int, k: PathView, v: V)
    requires
        keys_sorted(s),
        0 <= pos <= s.len(),
        forall|a: int| 0 <= a < pos ==> path_lt(#[trigger] s[a].0, k),
        forall|a: int| pos <= a < s.len() ==> path_lt(k, #[trigger] s[a].0),
    ensures
        keys_sorted(s.insert(pos, (k, v))),
        assoc_map(s.insert(pos, (k, v))) == assoc_map(s).insert(k, v),
{
    let t = s.insert(pos, (k, v));
    assert forall|i: int, j: int| 0 <= i < j < t.len() implies path_lt(#[trigger] t[i].0, #[trigger] t[j].0) by {
        if j < pos {
        } else if i < pos && j == pos {
        } else if i < pos && j > pos {
            assert(t[j] == s[j - 1]);
        } else if i == pos {
            assert(t[j] == s[j - 1]);
        } else {
            assert(t[i] == s[i - 1] && t[j] == s[j - 1]);
        }
    }
    assert(t[pos].0 == k);
    assert forall|p: PathView| #[trigger] assoc_map(t).contains_key(p) == assoc_map(s).insert(k, v).contains_key(p) by {
        crate::map::lemma_assoc_map_domain(t, p);
        crate::map::lemma_assoc_map_domain(s, p);
        if exists|i: int| 0 <= i < s.len() && #[trigger] s[i].0 == p {
            let i = choose|i: int| 0 <= i < s.len() && #[trigger] s[i].0 == p;
            if i < pos {
                assert(t[i].0 == p);
            } else {
                assert(t[i + 1].0 == p);
            }
        }
        if exists|i: int| 0 <= i < t.len() && #[trigger] t[i].0 == p {
            let i = choose|i: int| 0 <= i < t.len() && #[trigger] t[i].0 == p;
            if i < pos {
                assert(s[i].0 == p);
            } else if i > pos {
                assert(s[i - 1].0 == p);
            }
        }
    }
    assert forall|p: PathView| #[trigger] assoc_map(t).contains_key(p) implies assoc_map(t)[p] == assoc_map(s).insert(k, v)[p] by {
        crate::map::lemma_assoc_map_domain(t, p);
        let i = choose|i: int| 0 <= i < t.len() && #[trigger] t[i].0 == p;
        lemma_assoc_map_index(t, i);
        if i < pos {
            assert(t[i] == s[i]);
            lemma_assoc_map_index(s, i);
            crate::path::lemma_path_lt_irreflexive(k);
        } else if i > pos {
            assert(t[i] == s[i - 1]);
            lemma_assoc_map_index(s, i - 1);
            crate::path::lemma_path_lt_irreflexive(k);
        }
    }
    assert(assoc_map(t) =~= assoc_map(s).insert(k, v));
}

impl DataMap {
    /// The empty map.
    pub fn new() -> (r: DataMap)
        ensures
            r.wf(),
            r@ == Map::<PathView, ValueView>::empty(),
    {
        let r = DataMap { entries: Vec::new() };
        assert(r.entries_view() =~= Seq::<(PathView, ValueView)>::empty());
        r
    }

    /// The number of paths in the map.
    pub fn len(&self) -> (r: usize)
        requires
            self.wf(),
        ensures
            r == self@.len(),
    {
        proof {
            lemma_sorted_map_len(self.entries_view());
        }
        self.entries.len()
    }

    /// The value at `path`, if the map has one.
    pub fn get(&self, path: &Vec<String>) -> (r: Option<&GameDataValue>)
        requires
            self.wf(),
        ensures
            r is None <==> !self@.contains_key(path_view(path@)),
            r matches Option::Some(v) ==> self@[path_view(path@)] == v@,
    {
        let ghost s = self.entries_view();
        let ghost k = path_view(path@);
        let mut i: usize = 0;
        while i < self.entries.len()
            invariant
                s == self.entries_view(),
                keys_sorted(s),
                i <= s.len(),
                k == path_view(path@),
                forall|a: int| 0 <= a < i ==> path_lt(#[trigger] s[a].0, k),
            decreases s.len() - i,
        {
            let c = cmp_path(&self.entries[i].0, path);
            assert(s[i as int].0 == path_view(self.entries@[i as int].0@));
            assert(c == Ordering::Less ==> path_lt(s[i as int].0, k));
            assert(c == Ordering::Greater ==> path_lt(k, s[i as int].0));
            match c {
                Ordering::Equal => {
                    proof {
                        lemma_assoc_map_index(s, i as int);
                    }
                    return Option::Some(&self.entries[i].1);
                },
                Ordering::Greater => {
                    proof {
                        assert forall|a: int| 0 <= a < s.len() implies path_lt(k, #[trigger] s[a].0) || path_lt(s[a].0, k) by {
                            if a > i {
                                lemma_path_lt_transitive(k, s[i as int].0, s[a].0);
                            }
                        }
                        lemma_assoc_map_absent(s, k);
                    }
                    return Option::None;
                },
                Ordering::Less => {},
            }
            i = i + 1;
        }
        proof {
            lemma_assoc_map_absent(s, k);
        }
        Option::None
    }

    /// Sets the value at `path`, adding the path if it is new.
    pub fn insert(&mut self, path: Vec<String>, value: GameDataValue)
        requires
            old(self).wf(),
        ensures
            final(self).wf(),
            final(self)@ == old(self)@.insert(path_view(path@), value@),
    {
        let ghost s = self.entries_view();
        let ghost k = path_view(path@);
        let mut i: usize = 0;
        while i < self.entries.len()
            invariant
                s == self.entries_view(),
                keys_sorted(s),
                i <= s.len(),
                k == path_view(path@),
                s == old(self).entries_view(),
                forall|a: int| 0 <= a < i ==> path_lt(#[trigger] s[a].0, k),
            decreases s.len() - i,
        {
            let c = cmp_path(&self.entries[i].0, &path);
            assert(s[i as int].0 == path_view(self.entries@[i as int].0@));
            assert(c == Ordering::Less ==> path_lt(s[i as int].0, k));
            assert(c == Ordering::Greater ==> path_lt(k, s[i as int].0));
            assert(c == Ordering::Equal ==> s[i as int].0 == k);
            match c {
                Ordering::Equal => {
                    let ghost old_map = self@;
                    proof {
                        lemma_assoc_map_index(s, i as int);
                    }
                    self.entries.set(i, (path, value));
                    proof {
                        let t = self.entries_view();
                        assert(t =~= s.update(i as int, (k, value@)));
                        assert(keys_sorted(t)) by {
                            assert forall|a: int, b: int| 0 <= a < b < t.len() implies path_lt(#[trigger] t[a].0, #[trigger] t[b].0) by {
                                assert(t[a].0 == s[a].0 && t[b].0 == s[b].0);
                            }
                        }
                        assert forall|p: PathView| #[trigger] self@.contains_key(p) == old_map.insert(k, value@).contains_key(p) by {
                            crate::map::lemma_assoc_map_domain(t, p);
                            crate::map::lemma_assoc_map_domain(s, p);
                            if exists|a: int| 0 <= a < s.len() && #[trigger] s[a].0 == p {
                                let a = choose|a: int| 0 <= a < s.len() && #[trigger] s[a].0 == p;
                                assert(t[a].0 == p);
                            }
                            if exists|a: int| 0 <= a < t.len() && #[trigger] t[a].0 == p {
                                let a = choose|a: int| 0 <= a < t.len() && #[trigger] t[a].0 == p;
                                assert(s[a].0 == p);
                            }
                        }
                        assert forall|p: PathView| #[trigger] self@.contains_key(p) implies self@[p] == old_map.insert(k, value@)[p] by {
                            crate::map::lemma_assoc_map_domain(t, p);
                            let a = choose|a: int| 0 <= a < t.len() && #[trigger] t[a].0 == p;
                            lemma_assoc_map_index(t, a);
                            if a != i {
                                lemma_assoc_map_index(s, a);
                            }
                        }
                        assert(self@ =~= old_map.insert(k, value@));
                    }
                    return;
                },
                Ordering::Greater => {
                    proof {
                        assert forall|a: int| i <= a < s.len() implies path_lt(k, #[trigger] s[a].0) by {
                            if a > i {
                                lemma_path_lt_transitive(k, s[i as int].0, s[a].0);
                            }
                        }
                        lemma_sorted_insert_map(s, i as int, k, value@);
                    }
                    self.entries.insert(i, (path, value));
                    assert(self.entries_view() =~= s.insert(i as int, (k, value@)));
                    return;
                },
                Ordering::Less => {},
            }
            i = i + 1;
        }
        proof {
            lemma_sorted_insert_map(s, i as int, k, value@);
        }
        self.entries.push((path, value));
        assert(self.entries_view() =~= s.insert(i as int, (k, value@)));
    }
}

/// A sorted list has as many entries as its map has keys.
pub proof fn lemma_sorted_map_len<V>(s: Seq<(PathView, V)>)
    requires
        keys_sorted(s),
    ensures
        assoc_map(s).len() == s.len(),
    decreases s.len(),
{
    if s.len() > 0 {
        let init = s.drop_last();
        assert(keys_sorted(init)) by {
            assert forall|i: int, j: int| 0 <= i < j < init.len() implies path_lt(#[trigger] init[i].0, #[trigger] init[j].0) by {
                assert(init[i] == s[i] && init[j] == s[j]);
            }
        }
        lemma_sorted_map_len(init);
        assert forall|a: int| 0 <= a < init.len() implies path_lt(s.last().0, #[trigger] init[a].0) || path_lt(init[a].0, s.last().0) by {
            assert(init[a] == s[a]);
        }
        lemma_assoc_map_absent(init, s.last().0);
        crate::map::lemma_assoc_map_finite(init);
    }
}

/// The element after position `i` of a list, if any.
pub open spec fn next_of(l: Seq<Seq<char>>, i: int) -> Option<Seq<char>> {
    if i + 1 < l.len() {
        Option::Some(l[i + 1])
    } else {
        Option::None
    }
}

/// The first element of a list, if any.
pub open spec fn head_of(l: Seq<Seq<char>>) -> Option<Seq<char>> {
    if l.len() > 0 {
        Option::Some(l[0])
    } else {
        Option::None
    }
}

/// The facts for the first `k` elements of a list: the empty path names the
/// head, and the path of each element names its successor.
pub open spec fn chain_prefix(l: Seq<Seq<char>>, k: nat) -> Map<PathView, ValueView>
    decreases k,
{
    if k == 0 {
        Map::<PathView, ValueView>::empty().insert(Seq::empty(), ValueView::Next(head_of(l)))
    } else {
        chain_prefix(l, (k - 1) as nat).insert(seq![l[k - 1]], ValueView::Next(next_of(l, k - 1)))
    }
}

/// The canonical map of an ordered list.
pub open spec fn chain_spec(l: Seq<Seq<char>>) -> Map<PathView, ValueView> {
    chain_prefix(l, l.len())
}

/// A list with no element twice.
pub open spec fn distinct(l: Seq<Seq<char>>) -> bool {
    forall|i: int, j: int| 0 <= i < l.len() && 0 <= j < l.len() && i != j ==> l[i] != l[j]
}

/// Encodes an ordered list as predecessor-to-successor facts.
pub fn linked_map(list: &Vec<String>) -> (r: DataMap)
    ensures
        r.wf(),
        r@ == chain_spec(path_view(list@)),
{
    let ghost l = path_view(list@);
    let mut m = DataMap::new();
    let head = if list.len() > 0 {
        Option::Some(clone_string(&list[0]))
    } else {
        Option::None
    };
    m.insert(Vec::new(), GameDataValue::Next(head));
    proof {
        assert(path_view(Seq::<String>::empty()) =~= Seq::<Seq<char>>::empty());
        assert(m@ =~= chain_prefix(l, 0));
    }
    let mut i: usize = 0;
    while i < list.len()
        invariant
            l == path_view(list@),
            i <= list.len(),
            m.wf(),
            m@ == chain_prefix(l, i as nat),
        decreases list.len() - i,
    {
        let next = if i + 1 < list.len() {
            Option::Some(clone_string(&list[i + 1]))
        } else {
            Option::None
        };
        let mut key: Vec<String> = Vec::new();
        key.push(clone_string(&list[i]));
        assert(path_view(key@) =~= seq![l[i as int]]);
        assert(opt_str_view(next) == next_of(l, i as int));
        m.insert(key, GameDataValue::Next(next));
        i = i + 1;
    }
    m
}

/// Why a canonical map is not the encoding of a list.
#[derive(Clone, Copy, Debug, PartialEq, Eq, Structural)]
pub enum ChainError {
    /// A link leads to a path that the map does not hold (or there is no head).
    MissingLink,
    /// A path holds a value that is not a link.
    NotALink,
    /// Following the links comes back to an element already visited.
    Cycle,
    /// Some paths are not reached from the head.
    Unreachable,
}

/// A list result with `pre` put in front of a successful one.
pub open spec fn prefixed(pre: Seq<Seq<char>>, r: Result<Seq<Seq<char>>, ChainError>) -> Result<Seq<Seq<char>>, ChainError> {
    match r {
        Result::Ok(l) => Result::Ok(pre + l),
        Result::Err(e) => Result::Err(e),
    }
}

/// The list read by following links from `key`, at most `fuel` times.
pub open spec fn walk(m: Map<PathView, ValueView>, key: PathView, fuel: nat) -> Result<Seq<Seq<char>>, ChainError>
    decreases fuel,
{
    if !m.contains_key(key) {
        Result::Err(ChainError::MissingLink)
    } else {
        match m[key] {
            ValueView::Next(Option::None) => Result::Ok(Seq::empty()),
            ValueView::Next(Option::Some(x)) => if fuel == 0 {
                Result::Err(ChainError::Cycle)
            } else {
                prefixed(seq![x], walk(m, seq![x], (fuel - 1) as nat))
            },
            _ => Result::Err(ChainError::NotALink),
        }
    }
}

/// The list that a canonical map encodes: the links followed from the head
/// must end, and must reach every path of the map.
pub open spec fn decode_spec(m: Map<PathView, ValueView>) -> Result<Seq<Seq<char>>, ChainError> {
    match walk(m, Seq::empty(), m.len()) {
        Result::Ok(l) => if l.len() + 1 == m.len() {
            Result::Ok(l)
        } else {
            Result::Err(ChainError::Unreachable)
        },
        Result::Err(e) => Result::Err(e),
    }
}

/// Decodes an ordered list from its predecessor-to-successor facts.
pub fn list_from_map(map: &DataMap) -> (r: Result<Vec<String>, ChainError>)
    requires
        map.wf(),
    ensures
        match r {
            Result::Ok(v) => decode_spec(map@) == Result::<Seq<Seq<char>>, ChainError>::Ok(path_view(v@)),
            Result::Err(e) => decode_spec(map@) == Result::<Seq<Seq<char>>, ChainError>::Err(e),
        },
{
    let ghost m = map@;
    let n = map.len();
    let mut out: Vec<String> = Vec::new();
    let mut key: Vec<String> = Vec::new();
    let mut fuel: usize = n;
    assert(path_view(out@) =~= Seq::<Seq<char>>::empty());
    assert(path_view(key@) =~= Seq::<Seq<char>>::empty());
    proof {
        let w = walk(m, Seq::empty(), n as nat);
        assert(prefixed(Seq::empty(), w) == w) by {
            if let Result::Ok(l) = w {
                assert(Seq::<Seq<char>>::empty() + l =~= l);
            }
        }
    }
    loop
        invariant
            m == map@,
            map.wf(),
            n == m.len(),
            out@.len() + fuel == n,
            walk(m, Seq::empty(), n as nat) == prefixed(path_view(out@), walk(m, path_view(key@), fuel as nat)),
        ensures
            out@.len() <= n,
            walk(m, Seq::empty(), n as nat) == Result::<Seq<Seq<char>>, ChainError>::Ok(path_view(out@)),
        decreases fuel,
    {
        match map.get(&key) {
            Option::None => {
                return Result::Err(ChainError::MissingLink);
            },
            Option::Some(GameDataValue::Next(Option::None)) => {
                assert(path_view(out@) + Seq::<Seq<char>>::empty() =~= path_view(out@));
                assert(walk(m, path_view(key@), fuel as nat) == Result::<Seq<Seq<char>>, ChainError>::Ok(Seq::empty()));
                break;
            },
            Option::Some(GameDataValue::Next(Option::Some(x))) => {
                if fuel == 0 {
                    return Result::Err(ChainError::Cycle);
                }
                let ghost pre = path_view(out@);
                let ghost w = walk(m, seq![x@], (fuel - 1) as nat);
                out.push(clone_string(x));
                let mut k2: Vec<String> = Vec::new();
                k2.push(clone_string(x));
                key = k2;
                proof {
                    assert(path_view(key@) =~= seq![x@]);
                    assert(path_view(out@) =~= pre.push(x@));
                    assert(prefixed(pre, prefixed(seq![x@], w)) == prefixed(pre.push(x@), w)) by {
                        if let Result::Ok(l) = w {
                            assert(pre + (seq![x@] + l) =~= pre.push(x@) + l);
                        }
                    }
                }
                fuel = fuel - 1;
            },
            Option::Some(_) => {
                return Result::Err(ChainError::NotALink);
            },
        }
    }
    if n > 0 && out.len() == n - 1 {
        Result::Ok(out)
    } else {
        Result::Err(ChainError::Unreachable)
    }
}

proof fn lemma_chain_prefix_facts(l: Seq<Seq<char>>, k: nat)
    requires
        distinct(l),
        k <= l.len(),
    ensures
        chain_prefix(l, k).dom().finite(),
        chain_prefix(l, k).len() == k + 1,
        chain_prefix(l, k).contains_key(Seq::empty()),
        chain_prefix(l, k)[Seq::empty()] == ValueView::Next(head_of(l)),
        forall|i: int| 0 <= i < k ==> #[trigger] chain_prefix(l, k).contains_key(seq![l[i]])
            && chain_prefix(l, k)[seq![l[i]]] == ValueView::Next(next_of(l, i)),
    decreases k,
{
    if k > 0 {
        let prev = chain_prefix(l, (k - 1) as nat);
        lemma_chain_prefix_facts(l, (k - 1) as nat);
        let key = seq![l[k - 1]];
        assert(key != Seq::<Seq<char>>::empty()) by {
            assert(key.len() == 1);
        }
        assert forall|i: int| 0 <= i < k - 1 implies seq![l[i]] != key by {
            assert(seq![l[i]][0] == l[i]);
            assert(key[0] == l[k - 1]);
        }
        if prev.contains_key(key) {
            assert forall|p: PathView| #[trigger] prev.contains_key(p) implies p == Seq::<Seq<char>>::empty()
                || exists|i: int| 0 <= i < k - 1 && p == seq![l[i]] by {
                lemma_chain_prefix_domain(l, (k - 1) as nat, p);
            }
        }
    } else {
        assert(chain_prefix(l, 0).dom() =~= Set::empty().insert(Seq::<Seq<char>>::empty()));
    }
}

proof fn lemma_chain_prefix_domain(l: Seq<Seq<char>>, k: nat, p: PathView)
    requires
        k <= l.len(),
        chain_prefix(l, k).contains_key(p),
    ensures
        p == Seq::<Seq<char>>::empty() || exists|i: int| 0 <= i < k && p == seq![l[i]],
    decreases k,
{
    if k > 0 && p != seq![l[k - 1]] {
        lemma_chain_prefix_domain(l, (k - 1) as nat, p);
    }
}

proof fn lemma_walk_chain(l: Seq<Seq<char>>, j: int, fuel: nat)
    requires
        distinct(l),
        0 <= j <= l.len(),
        fuel >= l.len() - j,
    ensures
        walk(chain_spec(l), if j == 0 { Seq::empty() } else { seq![l[j - 1]] }, fuel)
            == Result::<Seq<Seq<char>>, ChainError>::Ok(l.skip(j)),
    decreases l.len() - j,
{
    let m = chain_spec(l);
    lemma_chain_prefix_facts(l, l.len());
    let key = if j == 0 { Seq::<Seq<char>>::empty() } else { seq![l[j - 1]] };
    assert(m.contains_key(key));
    if j == l.len() {
        assert(l.skip(j) =~= Seq::<Seq<char>>::empty());
    } else {
        assert(m[key] == ValueView::Next(Option::Some(l[j])));
        lemma_walk_chain(l, j + 1, (fuel - 1) as nat);
        assert(seq![l[j]] + l.skip(j + 1) =~= l.skip(j));
    }
}

/// Decoding the encoding of a list without repeated elements gives the list
/// back.
pub proof fn lemma_chain_round_trip(l: Seq<Seq<char>>)
    requires
        distinct(l),
    ensures
        decode_spec(chain_spec(l)) == Result::<Seq<Seq<char>>, ChainError>::Ok(l),
{
    lemma_chain_prefix_facts(l, l.len());
    lemma_walk_chain(l, 0, chain_spec(l).len());
    assert(l.skip(0) =~= l);
}

/// The position of `x` in `l`.
pub open spec fn pos_of(l: Seq<Seq<char>>, x: Seq<char>) -> int {
    choose|i: int| 0 <= i < l.len() && l[i] == x
}

/// The canonical map of a list without repeated elements, fact by fact.
pub open spec fn chain_map(l: Seq<Seq<char>>) -> Map<PathView, ValueView> {
    Map::new(
        |k: PathView| k == Seq::<Seq<char>>::empty() || (k.len() == 1 && l.contains(k[0])),
        |k: PathView|
            if k.len() == 0 {
                ValueView::Next(head_of(l))
            } else {
                ValueView::Next(next_of(l, pos_of(l, k[0])))
            },
    )
}

pub proof fn lemma_chain_spec_facts(l: Seq<Seq<char>>)
    requires
        distinct(l),
    ensures
        chain_spec(l) == chain_map(l),
{
    lemma_chain_prefix_facts(l, l.len());
    let m = chain_spec(l);
    assert forall|k: PathView| #[trigger] m.contains_key(k) == chain_map(l).contains_key(k) by {
        if m.contains_key(k) {
            lemma_chain_prefix_domain(l, l.len(), k);
            if k != Seq::<Seq<char>>::empty() {
                let i = choose|i: int| 0 <= i < l.len() && k == seq![l[i]];
                assert(k[0] == l[i]);
            }
        }
        if chain_map(l).contains_key(k) && k != Seq::<Seq<char>>::empty() {
            let i = choose|i: int| 0 <= i < l.len() && l[i] == k[0];
            assert(k =~= seq![l[i]]);
        }
    }
    assert forall|k: PathView| #[trigger] m.contains_key(k) implies m[k] == chain_map(l)[k] by {
        lemma_chain_prefix_domain(l, l.len(), k);
        if k != Seq::<Seq<char>>::empty() {
            let i = choose|i: int| 0 <= i < l.len() && k == seq![l[i]];
            assert(k[0] == l[i]);
            assert(l.contains(k[0]));
            let j = pos_of(l, k[0]);
            assert(l[j] == l[i]);
            assert(j == i);
        }
    }
    assert(m =~= chain_map(l));
}

/// Inserting a new element after position `a` of a list changes its
/// canonical map in two facts: the element at `a` is followed by the new
/// one, which is followed by the old successor.
pub proof fn lemma_chain_insert(l: Seq<Seq<char>>, a: int, x: Seq<char>)
    requires
        distinct(l),
        0 <= a < l.len(),
        !l.contains(x),
    ensures
        distinct(l.insert(a + 1, x)),
        chain_spec(l.insert(a + 1, x)) == chain_spec(l).insert(seq![l[a]], ValueView::Next(Option::Some(x))).insert(
            seq![x],
            ValueView::Next(next_of(l, a)),
        ),
{
    let l1 = l.insert(a + 1, x);
    assert forall|i: int| 0 <= i < l1.len() implies #[trigger] l1[i] == (if i <= a { l[i] } else if i == a + 1 { x } else { l[i - 1] }) by {}
    assert(distinct(l1)) by {
        assert forall|i: int, j: int| 0 <= i < l1.len() && 0 <= j < l1.len() && i != j implies l1[i] != l1[j] by {
            if i == a + 1 {
                if j <= a { assert(l.contains(l[j])); } else { assert(l.contains(l[j - 1])); }
            } else if j == a + 1 {
                if i <= a { assert(l.contains(l[i])); } else { assert(l.contains(l[i - 1])); }
            }
        }
    }
    lemma_chain_spec_facts(l);
    lemma_chain_spec_facts(l1);
    let target = chain_map(l).insert(seq![l[a]], ValueView::Next(Option::Some(x))).insert(seq![x], ValueView::Next(next_of(l, a)));
    assert forall|k: PathView| #[trigger] chain_map(l1).contains_key(k) == target.contains_key(k) by {
        if k.len() == 1 {
            if l1.contains(k[0]) {
                let i = choose|i: int| 0 <= i < l1.len() && l1[i] == k[0];
                if i <= a {
                    assert(l.contains(k[0]));
                } else if i > a + 1 {
                    assert(l[i - 1] == k[0]);
                    assert(l.contains(k[0]));
                } else {
                    assert(k =~= seq![x]);
                }
            }
            if l.contains(k[0]) {
                let i = choose|i: int| 0 <= i < l.len() && l[i] == k[0];
                if i <= a {
                    assert(l1[i] == k[0]);
                } else {
                    assert(l1[i + 1] == k[0]);
                }
            }
            if k == seq![x] {
                assert(l1[a + 1] == x);
            }
            if k == seq![l[a]] {
                assert(l.contains(l[a]));
            }
        }
    }
    assert forall|k: PathView| #[trigger] chain_map(l1).contains_key(k) implies chain_map(l1)[k] == target[k] by {
        if k.len() == 1 {
            let y = k[0];
            let j = pos_of(l1, y);
            if y == x {
                assert(l1[a + 1] == x);
                assert(j == a + 1);
                assert(k =~= seq![x]);
            } else {
                assert(k != seq![x]);
                let i = pos_of(l, y);
                if y == l[a] {
                    assert(l1[a] == y);
                    assert(j == a);
                    assert(k =~= seq![l[a]]);
                } else {
                    assert(l.contains(y)) by {
                        if j <= a { assert(l[j] == y); } else { assert(l[j - 1] == y); }
                    }
                    assert(k != seq![l[a]]) by {
                        if k == seq![l[a]] { assert(seq![l[a]][0] == l[a]); }
                    }
                    assert(l[i] == y);
                    if i < a {
                        assert(l1[i] == y);
                        assert(j == i);
                    } else {
                        assert(i != a);
                        assert(l1[i + 1] == y);
                        assert(j == i + 1);
                    }
                }
            }
        } else {
            assert(k =~= Seq::<Seq<char>>::empty());
            assert(k != seq![x]);
            assert(k != seq![l[a]]);
        }
    }
    assert(chain_map(l1) =~= target);
}

/// A list with `x` inserted after position `a` and `y` after position `b`.
pub open spec fn insert_both(l: Seq<Seq<char>>, a: int, x: Seq<char>, b: int, y: Seq<char>) -> Seq<Seq<char>> {
    if a < b {
        l.insert(b + 1, y).insert(a + 1, x)
    } else {
        l.insert(a + 1, x).insert(b + 1, y)
    }
}

proof fn lemma_insert_diff(l: Seq<Seq<char>>, a: int, x: Seq<char>)
    requires
        distinct(l),
        0 <= a < l.len(),
        !l.contains(x),
    ensures
        diff_spec(chain_spec(l), chain_spec(l.insert(a + 1, x))) == map![
            seq![l[a]] => ChangeView::SetTo(ValueView::Next(Option::Some(x))),
            seq![x] => ChangeView::SetTo(ValueView::Next(next_of(l, a))),
        ],
{
    lemma_chain_insert(l, a, x);
    lemma_chain_spec_facts(l);
    let base = chain_spec(l);
    assert(l.contains(l[a]));
    assert(pos_of(l, l[a]) == a);
    assert(seq![l[a]][0] == l[a]);
    assert(seq![x][0] == x);
    assert(seq![l[a]] != seq![x]);
    assert(!base.contains_key(seq![x]));
    assert(base[seq![l[a]]] == ValueView::Next(next_of(l, a)));
    if next_of(l, a) == Option::Some(x) {
        assert(l.contains(l[a + 1]));
    }
    assert(diff_spec(base, chain_spec(l.insert(a + 1, x))) =~= map![
        seq![l[a]] => ChangeView::SetTo(ValueView::Next(Option::Some(x))),
        seq![x] => ChangeView::SetTo(ValueView::Next(next_of(l, a))),
    ]);
}

/// Two sources that insert different new elements after different elements
/// of a list merge without conflict, into the list that holds both
/// insertions.
pub proof fn lemma_independent_insertions_merge(
    l: Seq<Seq<char>>,
    a: int,
    x: Seq<char>,
    b: int,
    y: Seq<char>,
    first: Seq<char>,
    second: Seq<char>,
)
    requires
        distinct(l),
        0 <= a < l.len(),
        0 <= b < l.len(),
        a != b,
        !l.contains(x),
        !l.contains(y),
        x != y,
    ensures
        conflicts_spec(seq![
            (first, diff_spec(chain_spec(l), chain_spec(l.insert(a + 1, x)))),
            (second, diff_spec(chain_spec(l), chain_spec(l.insert(b + 1, y)))),
        ]) == Map::<PathView, Seq<SourceChange>>::empty(),
        decode_spec(apply_spec(chain_spec(l), merged_spec(seq![
            (first, diff_spec(chain_spec(l), chain_spec(l.insert(a + 1, x)))),
            (second, diff_spec(chain_spec(l), chain_spec(l.insert(b + 1, y)))),
        ]))) == Result::<Seq<Seq<char>>, ChainError>::Ok(insert_both(l, a, x, b, y)),
{
    let base = chain_spec(l);
    lemma_insert_diff(l, a, x);
    lemma_insert_diff(l, b, y);
    let d1 = diff_spec(base, chain_spec(l.insert(a + 1, x)));
    let d2 = diff_spec(base, chain_spec(l.insert(b + 1, y)));
    let ka = seq![l[a]];
    let kx = seq![x];
    let kb = seq![l[b]];
    let ky = seq![y];
    assert(ka[0] == l[a] && kx[0] == x && kb[0] == l[b] && ky[0] == y);
    assert(l.contains(l[a]) && l.contains(l[b]));
    assert(ka != kb && ka != ky && kx != kb && kx != ky);
    assert forall|p: PathView| !(#[trigger] d1.contains_key(p) && d2.contains_key(p)) by {}
    lemma_merge_disjoint(first, d1, second, d2);
    let sa = next_of(l, a);
    let sb = next_of(l, b);
    let applied = base.insert(ka, ValueView::Next(Option::Some(x))).insert(kx, ValueView::Next(sa))
        .insert(kb, ValueView::Next(Option::Some(y))).insert(ky, ValueView::Next(sb));
    assert(apply_spec(base, d1.union_prefer_right(d2)) =~= applied);
    let both = insert_both(l, a, x, b, y);
    if a < b {
        let l2 = l.insert(b + 1, y);
        lemma_chain_insert(l, b, y);
        assert(l2[a] == l[a]);
        assert(a + 1 < l.len());
        assert(l2[a + 1] == l[a + 1]);
        assert(!l2.contains(x)) by {
            if l2.contains(x) {
                let i = choose|i: int| 0 <= i < l2.len() && l2[i] == x;
                if i <= b { assert(l[i] == x); assert(l.contains(x)); } else if i > b + 1 { assert(l[i - 1] == x); assert(l.contains(x)); }
            }
        }
        lemma_chain_insert(l2, a, x);
        assert(chain_spec(both) =~= applied);
        lemma_chain_round_trip(both);
    } else {
        let l1 = l.insert(a + 1, x);
        lemma_chain_insert(l, a, x);
        assert(l1[b] == l[b]);
        assert(b + 1 < l.len());
        assert(l1[b + 1] == l[b + 1]);
        assert(!l1.contains(y)) by {
            if l1.contains(y) {
                let i = choose|i: int| 0 <= i < l1.len() && l1[i] == y;
                if i <= a { assert(l[i] == y); assert(l.contains(y)); } else if i > a + 1 { assert(l[i - 1] == y); assert(l.contains(y)); }
            }
        }
        lemma_chain_insert(l1, b, y);
        assert(chain_spec(both) =~= applied);
        lemma_chain_round_trip(both);
    }
}

} // verus!
