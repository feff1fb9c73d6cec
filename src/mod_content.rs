//! What one mod contributes: files it replaces, structured files it adds,
//! and patches to structured files of the game.
use crate::diff::{diff, diff_spec};
use crate::game_data::{GameData, GameDataItem, StructuredItem, lookup_spec};
use crate::path::PathView;
use crate::value::{ChangeView, clone_string};
use crate::map::Patch;
use vstd::prelude::*;

verus! {

/// Binary files: relative path in the game with the path of the mod's file.
pub type ModBinaries = Vec<(String, String)>;

/// Structured files that the game does not have: relative path with record.
pub type ModAddedTexts = Vec<(String, StructuredItem)>;

/// Patches to the game's structured files: relative path with patch.
pub type ModModifiedTexts = Vec<(String, Patch)>;

/// The contribution of one mod.
pub struct ModContent {
    binary: ModBinaries,
    text_added: ModAddedTexts,
    text_modified: ModModifiedTexts,
}

impl ModContent {
    pub closed spec fn binary_view(&self) -> ModBinaries {
        self.binary
    }

    pub closed spec fn text_added_view(&self) -> ModAddedTexts {
        self.text_added
    }

    pub closed spec fn text_modified_view(&self) -> ModModifiedTexts {
        self.text_modified
    }

    pub fn build(binary: ModBinaries, text_added: ModAddedTexts, text_modified: ModModifiedTexts) -> (r: ModContent)
        ensures
            r.binary_view() == binary,
            r.text_added_view() == text_added,
            r.text_modified_view() == text_modified,
    {
        ModContent { binary, text_added, text_modified }
    }

    pub fn binary_ref(&self) -> (r: &ModBinaries)
        ensures
            *r == self.binary_view(),
    {
        &self.binary
    }

    pub fn text_added_ref(&self) -> (r: &ModAddedTexts)
        ensures
            *r == self.text_added_view(),
    {
        &self.text_added
    }

    pub fn text_modified_ref(&self) -> (r: &ModModifiedTexts)
        ensures
            *r == self.text_modified_view(),
    {
        &self.text_modified
    }

    pub fn binary_mut(&mut self) -> (r: &mut ModBinaries)
        ensures
            *r == old(self).binary_view(),
            final(self).binary_view() == *final(r),
            final(self).text_added_view() == old(self).text_added_view(),
            final(self).text_modified_view() == old(self).text_modified_view(),
    {
        &mut self.binary
    }

    pub fn text_added_mut(&mut self) -> (r: &mut ModAddedTexts)
        ensures
            *r == old(self).text_added_view(),
            final(self).text_added_view() == *final(r),
            final(self).binary_view() == old(self).binary_view(),
            final(self).text_modified_view() == old(self).text_modified_view(),
    {
        &mut self.text_added
    }

    pub fn text_modified_mut(&mut self) -> (r: &mut ModModifiedTexts)
        ensures
            *r == old(self).text_modified_view(),
            final(self).text_modified_view() == *final(r),
            final(self).binary_view() == old(self).binary_view(),
            final(self).text_added_view() == old(self).text_added_view(),
    {
        &mut self.text_modified
    }

    /// Turns each added structured file into a patch against the game's file
    /// of the same path (its first file there, per `lookup_spec`), which the
    /// base must hold as a structured record.
    pub fn added_to_modified(&mut self, base: &GameData)
        requires
            forall|j: int| 0 <= j < old(self).text_added_view()@.len() ==> (#[trigger] old(self).text_added_view()@[j]).1.wf(),
            forall|i: int| 0 <= i < base.files@.len() ==> (#[trigger] base.files@[i]).1.wf(),
            forall|j: int| 0 <= j < old(self).text_added_view()@.len() ==> base.has_file((#[trigger] old(self).text_added_view()@[j]).0@),
            forall|i: int, j: int| 0 <= i < base.files@.len() && 0 <= j < old(self).text_added_view()@.len()
                && (#[trigger] base.files@[i]).0@ == (#[trigger] old(self).text_added_view()@[j]).0@ ==> base.files@[i].1 is Structured,
        ensures
            final(self).text_added_view()@.len() == 0,
            final(self).binary_view() == old(self).binary_view(),
            final(self).text_modified_view()@.len() == old(self).text_modified_view()@.len() + old(self).text_added_view()@.len(),
            forall|a: int| 0 <= a < old(self).text_modified_view()@.len() ==> #[trigger] final(self).text_modified_view()@[a] == old(self).text_modified_view()@[a],
            forall|j: int| 0 <= j < old(self).text_added_view()@.len() ==> {
                let e = #[trigger] final(self).text_modified_view()@[old(self).text_modified_view()@.len() + j];
                &&& e.0@ == old(self).text_added_view()@[j].0@
                &&& e.1.wf()
                &&& lookup_spec(base.files@, e.0@) matches Option::Some(GameDataItem::Structured(o))
                    && e.1@ == diff_spec(o.map_view(), old(self).text_added_view()@[j].1.map_view())
            },
    {
        let ghost n0 = self.text_modified@.len();
        let ghost added = self.text_added@;
        let mut j: usize = 0;
        assert(added == old(self).text_added_view()@);
        assert forall|a: int| 0 <= a < added.len() implies (#[trigger] added[a]).1.wf() by {
            assert(old(self).text_added_view()@[a] == added[a]);
        }
        assert forall|a: int| 0 <= a < added.len() implies base.has_file((#[trigger] added[a]).0@) by {
            assert(old(self).text_added_view()@[a] == added[a]);
        }
        while j < self.text_added.len()
            invariant
                added == self.text_added@,
                self.binary == old(self).binary,
                j <= added.len(),
                self.text_modified@.len() == n0 + j,
                n0 == old(self).text_modified@.len(),
                added == old(self).text_added@,
                forall|a: int| 0 <= a < n0 ==> #[trigger] self.text_modified@[a] == old(self).text_modified@[a],
                forall|a: int| 0 <= a < added.len() ==> (#[trigger] added[a]).1.wf(),
                forall|i: int| 0 <= i < base.files@.len() ==> (#[trigger] base.files@[i]).1.wf(),
                forall|a: int| 0 <= a < added.len() ==> base.has_file((#[trigger] added[a]).0@),
                forall|i: int, a: int| 0 <= i < base.files@.len() && 0 <= a < added.len()
                    && (#[trigger] base.files@[i]).0@ == (#[trigger] added[a]).0@ ==> base.files@[i].1 is Structured,
                forall|a: int| 0 <= a < j ==> {
                    let e = #[trigger] self.text_modified@[n0 + a];
                    &&& e.0@ == added[a].0@
                    &&& e.1.wf()
                    &&& lookup_spec(base.files@, e.0@) matches Option::Some(GameDataItem::Structured(o))
                        && e.1@ == diff_spec(o.map_view(), added[a].1.map_view())
                },
            decreases added.len() - j,
        {
            let path = &self.text_added[j].0;
            let item = &self.text_added[j].1;
            assert(base.has_file(added[j as int].0@));
            let found = base.get(path);
            let base_item = match found {
                Option::Some(b) => b,
                Option::None => {
                    proof {
                        let i = choose|i: int| 0 <= i < base.files@.len() && (#[trigger] base.files@[i]).0@ == added[j as int].0@;
                        assert(base.files@[i].0@ != path@);
                    }
                    return;
                },
            };
            let ghost bi = choose|i: int| 0 <= i < base.files@.len() && (#[trigger] base.files@[i]).0@ == path@ && base.files@[i].1 == *base_item;
            assert(base.files@[bi].1 is Structured);
            let patch = diff(base_item.to_map(), item.to_map());
            let p = crate::value::clone_string(path);
            let ghost before = self.text_modified@;
            self.text_modified.push((p, patch));
            proof {
                assert forall|a: int| 0 <= a < n0 implies #[trigger] self.text_modified@[a] == old(self).text_modified@[a] by {
                    assert(self.text_modified@[a] == before[a]);
                }
                assert forall|a: int| 0 <= a < j + 1 implies {
                    let e = #[trigger] self.text_modified@[n0 + a];
                    &&& e.0@ == added[a].0@
                    &&& e.1.wf()
                    &&& lookup_spec(base.files@, e.0@) matches Option::Some(GameDataItem::Structured(o))
                        && e.1@ == diff_spec(o.map_view(), added[a].1.map_view())
                } by {
                    if a < j {
                        assert(self.text_modified@[n0 + a] == before[n0 + a]);
                    } else {
                        assert(self.text_modified@[n0 + a].0@ == path@);
                    }
                }
            }
            j = j + 1;
        }
        self.text_added = Vec::new();
    }
}

/// What a mod's files contribute, as specifications see it: binary
/// replacements (path, source), added records, patches against the game's
/// records, and the paths whose kind differs from the game's file.
pub struct ContributionView {
    pub binaries: Seq<(Seq<char>, Seq<char>)>,
    pub added: Seq<(Seq<char>, StructuredItem)>,
    pub modified: Seq<(Seq<char>, Map<PathView, ChangeView>)>,
    pub mismatched: Seq<Seq<char>>,
}

/// Sorts each file of a mod by how it relates to the game's file of the
/// same path: a binary file replaces; a structured file that the game has
/// becomes the patch from the game's record to the mod's; a new structured
/// file is added; a file whose kind differs from the game's is set apart.
pub open spec fn classify_spec(base: Seq<(String, GameDataItem)>, content: Seq<(String, GameDataItem)>) -> ContributionView
    decreases content.len(),
{
    if content.len() == 0 {
        ContributionView { binaries: Seq::empty(), added: Seq::empty(), modified: Seq::empty(), mismatched: Seq::empty() }
    } else {
        let c = classify_spec(base, content.drop_last());
        let p = content.last().0@;
        match content.last().1 {
            GameDataItem::Binary(src) => match lookup_spec(base, p) {
                Option::Some(GameDataItem::Structured(_)) => ContributionView { mismatched: c.mismatched.push(p), ..c },
                _ => ContributionView { binaries: c.binaries.push((p, src@)), ..c },
            },
            GameDataItem::Structured(m) => match lookup_spec(base, p) {
                Option::Some(GameDataItem::Structured(o)) => ContributionView {
                    modified: c.modified.push((p, crate::diff::diff_spec(o.map_view(), m.map_view()))),
                    ..c
                },
                Option::Some(GameDataItem::Binary(_)) => ContributionView { mismatched: c.mismatched.push(p), ..c },
                Option::None => ContributionView { added: c.added.push((p, m)), ..c },
            },
        }
    }
}

pub open spec fn binaries_view(v: Seq<(String, String)>) -> Seq<(Seq<char>, Seq<char>)> {
    v.map_values(|e: (String, String)| (e.0@, e.1@))
}

pub open spec fn added_view(v: Seq<(String, StructuredItem)>) -> Seq<(Seq<char>, StructuredItem)> {
    v.map_values(|e: (String, StructuredItem)| (e.0@, e.1))
}

pub open spec fn modified_view(v: Seq<(String, Patch)>) -> Seq<(Seq<char>, Map<PathView, ChangeView>)> {
    v.map_values(|e: (String, Patch)| (e.0@, e.1@))
}

pub open spec fn strings_view(v: Seq<String>) -> Seq<Seq<char>> {
    v.map_values(|s: String| s@)
}

/// Sorts a mod's files against the game's, per `classify_spec`. The paths
/// whose kind differs from the game's file come back apart, so that only
/// those files fail.
pub fn classify(base: &GameData, content: GameData) -> (r: (ModContent, Vec<String>))
    requires
        forall|i: int| 0 <= i < base.files@.len() ==> (#[trigger] base.files@[i]).1.wf(),
        forall|i: int| 0 <= i < content.files@.len() ==> (#[trigger] content.files@[i]).1.wf(),
    ensures
        binaries_view(r.0.binary_view()@) == classify_spec(base.files@, content.files@).binaries,
        added_view(r.0.text_added_view()@) == classify_spec(base.files@, content.files@).added,
        modified_view(r.0.text_modified_view()@) == classify_spec(base.files@, content.files@).modified,
        forall|i: int| 0 <= i < r.0.text_modified_view()@.len() ==> (#[trigger] r.0.text_modified_view()@[i]).1.wf(),
        strings_view(r.1@) == classify_spec(base.files@, content.files@).mismatched,
{
    let ghost all = content.files@;
    let mut rest = content.files;
    let mut binary: ModBinaries = Vec::new();
    let mut text_added: ModAddedTexts = Vec::new();
    let mut text_modified: ModModifiedTexts = Vec::new();
    let mut mismatched: Vec<String> = Vec::new();
    let mut j: usize = 0;
    let n = rest.len();
    assert(all.take(0) =~= Seq::<(String, GameDataItem)>::empty());
    assert(binaries_view(binary@) =~= Seq::<(Seq<char>, Seq<char>)>::empty());
    assert(added_view(text_added@) =~= Seq::<(Seq<char>, StructuredItem)>::empty());
    assert(modified_view(text_modified@) =~= Seq::<(Seq<char>, Map<PathView, ChangeView>)>::empty());
    assert(strings_view(mismatched@) =~= Seq::<Seq<char>>::empty());
    assert(rest@ =~= all.skip(0));
    while j < n
        invariant
            n == all.len(),
            j <= n,
            rest@ == all.skip(j as int),
            forall|i: int| 0 <= i < base.files@.len() ==> (#[trigger] base.files@[i]).1.wf(),
            forall|i: int| 0 <= i < all.len() ==> (#[trigger] all[i]).1.wf(),
            binaries_view(binary@) == classify_spec(base.files@, all.take(j as int)).binaries,
            added_view(text_added@) == classify_spec(base.files@, all.take(j as int)).added,
            modified_view(text_modified@) == classify_spec(base.files@, all.take(j as int)).modified,
            forall|i: int| 0 <= i < text_modified@.len() ==> (#[trigger] text_modified@[i]).1.wf(),
            strings_view(mismatched@) == classify_spec(base.files@, all.take(j as int)).mismatched,
        decreases n - j,
    {
        let (path, item) = rest.remove(0);
        let ghost pre = all.take(j as int);
        proof {
            assert(all.skip(j as int)[0] == all[j as int]);
            assert(all.take(j + 1).drop_last() =~= pre);
            assert(all.take(j + 1).last() == all[j as int]);
            assert(rest@ =~= all.skip(j + 1));
        }
        let found = base.get(&path);
        match item {
            GameDataItem::Binary(src) => {
                let structured_there = match found {
                    Option::Some(GameDataItem::Structured(_)) => true,
                    _ => false,
                };
                if structured_there {
                    let ghost before = mismatched@;
                    mismatched.push(path);
                    assert(strings_view(mismatched@) =~= strings_view(before).push(all[j as int].0@));
                } else {
                    let ghost before = binary@;
                    binary.push((path, src));
                    assert(binaries_view(binary@) =~= binaries_view(before).push((all[j as int].0@, src@)));
                }
            },
            GameDataItem::Structured(m) => {
                match found {
                    Option::Some(GameDataItem::Structured(o)) => {
                        proof {
                            let i = choose|i: int| 0 <= i < base.files@.len() && (#[trigger] base.files@[i]).0@ == path@ && base.files@[i].1 == GameDataItem::Structured(*o);
                            assert(base.files@[i].1.wf());
                        }
                        let patch = crate::diff::diff(o.to_map(), m.to_map());
                        let ghost before = text_modified@;
                        text_modified.push((path, patch));
                        assert(modified_view(text_modified@) =~= modified_view(before).push((all[j as int].0@, patch@)));
                    },
                    Option::Some(GameDataItem::Binary(_)) => {
                        let ghost before = mismatched@;
                        mismatched.push(path);
                        assert(strings_view(mismatched@) =~= strings_view(before).push(all[j as int].0@));
                    },
                    Option::None => {
                        let ghost before = text_added@;
                        text_added.push((path, m));
                        assert(added_view(text_added@) =~= added_view(before).push((all[j as int].0@, all[j as int].1->Structured_0)));
                    },
                }
            },
        }
        j = j + 1;
    }
    assert(all.take(n as int) =~= all);
    (ModContent::build(binary, text_added, text_modified), mismatched)
}

} // verus!
