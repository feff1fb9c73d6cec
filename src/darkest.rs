//! One entry of a key/subkey/value file: each subkey with its values.
use crate::path::path_view;
use vstd::prelude::*;

verus! {

/// The subkeys of one entry with their values; no subkey occurs twice.
#[derive(Clone, Debug, Default)]
pub struct DarkestEntry {
    pub items: Vec<(String, Vec<String>)>,
}

pub open spec fn items_wf(s: Seq<(String, Vec<String>)>) -> bool {
    forall|i: int, j: int| 0 <= i < s.len() && 0 <= j < s.len() && i != j ==> (#[trigger] s[i]).0@ != (#[trigger] s[j]).0@
}

pub open spec fn items_view(s: Seq<(String, Vec<String>)>) -> Map<Seq<char>, Seq<Seq<char>>> {
    Map::new(
        |k: Seq<char>| exists|i: int| 0 <= i < s.len() && (#[trigger] s[i]).0@ == k,
        |k: Seq<char>| path_view(s[choose|i: int| 0 <= i < s.len() && (#[trigger] s[i]).0@ == k].1@),
    )
}

proof fn lemma_items_view_at(s: Seq<(String, Vec<String>)>, i: int)
    requires
        items_wf(s),
        0 <= i < s.len(),
    ensures
        items_view(s).contains_key(s[i].0@),
        items_view(s)[s[i].0@] == path_view(s[i].1@),
{
    assert(items_view(s).contains_key(s[i].0@));
    let j = choose|j: int| 0 <= j < s.len() && (#[trigger] s[j]).0@ == s[i].0@;
    assert(j == i);
}

impl DarkestEntry {
    pub open spec fn wf(&self) -> bool {
        items_wf(self.items@)
    }

    pub open spec fn view(&self) -> Map<Seq<char>, Seq<Seq<char>>> {
        items_view(self.items@)
    }

    fn position(&self, key: &str) -> (r: Option<usize>)
        requires
            self.wf(),
        ensures
            r matches Option::Some(i) ==> i < self.items@.len() && self.items@[i as int].0@ == key@,
            r is None ==> !self@.contains_key(key@),
    {
        let mut i: usize = 0;
        while i < self.items.len()
            invariant
                i <= self.items@.len(),
                forall|j: int| 0 <= j < i ==> (#[trigger] self.items@[j]).0@ != key@,
            decreases self.items@.len() - i,
        {
            if crate::path::segment_equals(self.items[i].0.as_str(), key) {
                return Option::Some(i);
            }
            i = i + 1;
        }
        Option::None
    }

    /// The values of the subkey `key`, if the entry has it.
    pub fn get(&self, key: &str) -> (r: Option<&Vec<String>>)
        requires
            self.wf(),
        ensures
            r is None <==> !self@.contains_key(key@),
            r matches Option::Some(v) ==> self@[key@] == path_view(v@),
    {
        match self.position(key) {
            Option::Some(i) => {
                proof {
                    lemma_items_view_at(self.items@, i as int);
                }
                Option::Some(&self.items[i].1)
            },
            Option::None => Option::None,
        }
    }

    /// Takes the subkey `key` out of the entry, with its values.
    pub fn remove(&mut self, key: &str) -> (r: Option<Vec<String>>)
        requires
            old(self).wf(),
        ensures
            final(self).wf(),
            final(self)@ == old(self)@.remove(key@),
            r is None <==> !old(self)@.contains_key(key@),
            r matches Option::Some(v) ==> old(self)@[key@] == path_view(v@),
    {
        let ghost old_view = self@;
        let ghost old_items = self.items@;
        match self.position(key) {
            Option::Some(i) => {
                proof {
                    lemma_items_view_at(old_items, i as int);
                }
                let (_, values) = self.items.remove(i);
                proof {
                    let k = key@;
                    let t = self.items@;
                    assert(t =~= old_items.remove(i as int));
                    assert forall|a: int| 0 <= a < t.len() implies #[trigger] t[a] == old_items[if a < i { a } else { a + 1 }] by {}
                    assert(self.wf()) by {
                        assert forall|a: int, b: int| 0 <= a < t.len() && 0 <= b < t.len() && a != b
                            implies (#[trigger] t[a]).0@ != (#[trigger] t[b]).0@ by {
                            let oa = if a < i { a } else { a + 1 };
                            let ob = if b < i { b } else { b + 1 };
                            assert(t[a] == old_items[oa] && t[b] == old_items[ob]);
                        }
                    }
                    assert forall|q: Seq<char>| #[trigger] self@.contains_key(q) == old_view.remove(k).contains_key(q) by {
                        if old_view.contains_key(q) && q != k {
                            let a = choose|a: int| 0 <= a < old_items.len() && (#[trigger] old_items[a]).0@ == q;
                            let na = if a < i { a } else { a - 1 };
                            assert(t[na] == old_items[a]);
                        }
                        if self@.contains_key(q) {
                            let a = choose|a: int| 0 <= a < t.len() && (#[trigger] t[a]).0@ == q;
                            let oa = if a < i { a } else { a + 1 };
                            assert(t[a] == old_items[oa]);
                            assert(old_items[oa].0@ == q);
                            assert(oa != i);
                        }
                    }
                    assert forall|q: Seq<char>| #[trigger] self@.contains_key(q) implies self@[q] == old_view.remove(k)[q] by {
                        let a = choose|a: int| 0 <= a < t.len() && (#[trigger] t[a]).0@ == q;
                        let oa = if a < i { a } else { a + 1 };
                        assert(t[a] == old_items[oa]);
                        lemma_items_view_at(t, a);
                        lemma_items_view_at(old_items, oa);
                    }
                    assert(self@ =~= old_view.remove(k));
                }
                Option::Some(values)
            },
            Option::None => {
                assert(self@ =~= old_view.remove(key@));
                Option::None
            },
        }
    }
}

} // verus!
