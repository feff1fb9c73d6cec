//! The localization table: per language, each entry id with its texts.
use crate::error::ApplyError;
use crate::map::{Conflicts, DataMap, Patch, assoc_map, clone_path, keys_sorted, lemma_assoc_map_absent, lemma_assoc_map_push};
use crate::merge::{SourceChange, all_agree, changes_agree, clone_changes, contributions_view, contributions_wf, grouped_spec, regroup};
use crate::path::{lemma_path_lt_transitive, path_lt};
use crate::map::source_changes_view;
use crate::path::{PathView, path_view};
use crate::value::{ChangeView, GameDataValue, ItemChange, ValueView, clone_string};
use vstd::prelude::*;
use vstd::string::*;

verus! {

/// Whether a text holds a character that is markup in XML.
pub open spec fn has_markup(t: Seq<char>) -> bool {
    t.contains('<') || t.contains('>') || t.contains('&')
}

/// A text as it stands inside an XML element: wrapped in a CDATA section
/// where it holds markup.
pub open spec fn format_text_spec(t: Seq<char>) -> Seq<char> {
    if has_markup(t) {
        "<![CDATA["@ + t + "]]>"@
    } else {
        t
    }
}

/// The `entry` elements for a list of texts.
pub open spec fn entries_body(es: Seq<Seq<char>>) -> Seq<char>
    decreases es.len(),
{
    if es.len() == 0 {
        Seq::empty()
    } else {
        entries_body(es.drop_last()) + "\n<entry>"@ + format_text_spec(es.last()) + "</entry>"@
    }
}

/// The XML document that holds a list of texts as `entry` elements of a
/// `root` element.
pub open spec fn format_entries_spec(es: Seq<Seq<char>>) -> Seq<char> {
    "<?xml version=\"1.0\" encoding=\"UTF-8\"?>"@ + "\n<root>"@ + entries_body(es) + "\n</root>"@
}

fn text_has_markup(t: &str) -> (r: bool)
    ensures
        r == has_markup(t@),
{
    let n = t.unicode_len();
    let mut i: usize = 0;
    while i < n
        invariant
            n == t@.len(),
            i <= n,
            forall|j: int| 0 <= j < i ==> t@[j] != '<' && t@[j] != '>' && t@[j] != '&',
        decreases n - i,
    {
        let c = t.get_char(i);
        if c == '<' || c == '>' || c == '&' {
            assert(t@[i as int] == c);
            return true;
        }
        i = i + 1;
    }
    false
}

/// A text ready to stand inside an XML element.
pub fn format_text(text: &str) -> (r: String)
    ensures
        r@ == format_text_spec(text@),
{
    let mut out = String::new();
    if text_has_markup(text) {
        out.append("<![CDATA[");
        out.append(text);
        out.append("]]>");
    } else {
        out.append(text);
    }
    out
}

/// The XML document that holds `entries` as `entry` elements.
pub fn format_entries(entries: Vec<String>) -> (r: String)
    ensures
        r@ == format_entries_spec(path_view(entries@)),
{
    let ghost es = path_view(entries@);
    let mut out = String::new();
    out.append("<?xml version=\"1.0\" encoding=\"UTF-8\"?>");
    out.append("\n<root>");
    let ghost start = out@;
    let mut i: usize = 0;
    assert(es.take(0) =~= Seq::<Seq<char>>::empty());
    assert(out@ =~= start + entries_body(es.take(0)));
    while i < entries.len()
        invariant
            es == path_view(entries@),
            i <= entries.len(),
            out@ == start + entries_body(es.take(i as int)),
        decreases entries.len() - i,
    {
        out.append("\n<entry>");
        let t = format_text(entries[i].as_str());
        out.append(t.as_str());
        out.append("</entry>");
        assert(es.take(i + 1).drop_last() =~= es.take(i as int));
        assert(out@ =~= start + entries_body(es.take(i + 1)));
        i = i + 1;
    }
    out.append("\n</root>");
    assert(es.take(i as int) =~= es);
    assert(out@ =~= format_entries_spec(es));
    out
}

/// An entry's language and id.
pub type EntryKey = (Seq<char>, Seq<char>);

/// The localization table of the game: each (language, entry id) with the
/// texts of that entry.
#[derive(Clone, Debug, Default, PartialEq, Eq)]
pub struct StringsTable {
    pub entries: Vec<(String, String, Vec<String>)>,
}

pub open spec fn entry_key(e: (String, String, Vec<String>)) -> EntryKey {
    (e.0@, e.1@)
}

/// No (language, id) occurs twice.
pub open spec fn table_wf(s: Seq<(String, String, Vec<String>)>) -> bool {
    forall|i: int, j: int|
        0 <= i < s.len() && 0 <= j < s.len() && i != j ==> entry_key(#[trigger] s[i]) != entry_key(#[trigger] s[j])
}

pub open spec fn table_view(s: Seq<(String, String, Vec<String>)>) -> Map<EntryKey, Seq<Seq<char>>> {
    Map::new(
        |k: EntryKey| exists|i: int| 0 <= i < s.len() && entry_key(#[trigger] s[i]) == k,
        |k: EntryKey| path_view(s[choose|i: int| 0 <= i < s.len() && entry_key(#[trigger] s[i]) == k].2@),
    )
}

pub proof fn lemma_table_view_at(s: Seq<(String, String, Vec<String>)>, i: int)
    requires
        table_wf(s),
        0 <= i < s.len(),
    ensures
        table_view(s).contains_key(entry_key(s[i])),
        table_view(s)[entry_key(s[i])] == path_view(s[i].2@),
{
    let k = entry_key(s[i]);
    assert(table_view(s).contains_key(k));
    let j = choose|j: int| 0 <= j < s.len() && entry_key(#[trigger] s[j]) == k;
    assert(j == i);
}

impl StringsTable {
    pub open spec fn wf(&self) -> bool {
        table_wf(self.entries@)
    }

    pub open spec fn view(&self) -> Map<EntryKey, Seq<Seq<char>>> {
        table_view(self.entries@)
    }

    /// The empty table.
    pub fn new() -> (r: StringsTable)
        ensures
            r.wf(),
            r@ == Map::<EntryKey, Seq<Seq<char>>>::empty(),
    {
        let r = StringsTable { entries: Vec::new() };
        assert(r@ =~= Map::<EntryKey, Seq<Seq<char>>>::empty());
        r
    }

    fn find(&self, language: &String, id: &String) -> (r: Option<usize>)
        requires
            self.wf(),
        ensures
            r matches Option::Some(i) ==> i < self.entries@.len() && entry_key(self.entries@[i as int]) == (language@, id@),
            r is None ==> !self@.contains_key((language@, id@)),
    {
        let mut i: usize = 0;
        while i < self.entries.len()
            invariant
                i <= self.entries@.len(),
                forall|j: int| 0 <= j < i ==> entry_key(#[trigger] self.entries@[j]) != (language@, id@),
            decreases self.entries@.len() - i,
        {
            if self.entries[i].0 == *language && self.entries[i].1 == *id {
                return Option::Some(i);
            }
            i = i + 1;
        }
        Option::None
    }

    /// Sets the texts of an entry, adding the entry if it is new.
    pub fn set_texts(&mut self, language: String, id: String, texts: Vec<String>)
        requires
            old(self).wf(),
        ensures
            final(self).wf(),
            final(self)@ == old(self)@.insert((language@, id@), path_view(texts@)),
    {
        let ghost k = (language@, id@);
        let ghost v = path_view(texts@);
        let ghost old_view = self@;
        let ghost old_entries = self.entries@;
        match self.find(&language, &id) {
            Option::Some(i) => {
                self.entries.set(i, (language, id, texts));
                proof {
                    assert(self.wf()) by {
                        assert forall|a: int, b: int| 0 <= a < self.entries@.len() && 0 <= b < self.entries@.len() && a != b
                            implies entry_key(#[trigger] self.entries@[a]) != entry_key(#[trigger] self.entries@[b]) by {
                            if a != i && b != i {
                                assert(self.entries@[a] == old_entries[a] && self.entries@[b] == old_entries[b]);
                            } else if a != i {
                                assert(self.entries@[a] == old_entries[a]);
                                assert(entry_key(old_entries[a]) != entry_key(old_entries[i as int]));
                            } else {
                                assert(self.entries@[b] == old_entries[b]);
                                assert(entry_key(old_entries[b]) != entry_key(old_entries[i as int]));
                            }
                        }
                    }
                    assert forall|a: int| 0 <= a < self.entries@.len() && a != i implies self.entries@[a] == old_entries[a] by {}
                    assert forall|q: EntryKey| #[trigger] self@.contains_key(q) == old_view.insert(k, v).contains_key(q) by {
                        if old_view.contains_key(q) {
                            let a = choose|a: int| 0 <= a < old_entries.len() && entry_key(#[trigger] old_entries[a]) == q;
                            if a != i {
                                assert(entry_key(self.entries@[a]) == q);
                            }
                        }
                        if self@.contains_key(q) {
                            let a = choose|a: int| 0 <= a < self.entries@.len() && entry_key(#[trigger] self.entries@[a]) == q;
                            if a != i {
                                assert(entry_key(old_entries[a]) == q);
                            }
                        }
                        assert(entry_key(self.entries@[i as int]) == k);
                    }
                    assert forall|q: EntryKey| #[trigger] self@.contains_key(q) implies self@[q] == old_view.insert(k, v)[q] by {
                        let a = choose|a: int| 0 <= a < self.entries@.len() && entry_key(#[trigger] self.entries@[a]) == q;
                        lemma_table_view_at(self.entries@, a);
                        if a != i {
                            assert(old_entries[a] == self.entries@[a]);
                            assert(entry_key(old_entries[a]) != entry_key(old_entries[i as int]));
                            lemma_table_view_at(old_entries, a);
                        }
                    }
                    assert(self@ =~= old_view.insert(k, v));
                }
            },
            Option::None => {
                self.entries.push((language, id, texts));
                proof {
                    let n = old_entries.len() as int;
                    assert forall|a: int| 0 <= a < n implies entry_key(#[trigger] old_entries[a]) != k by {
                        if entry_key(old_entries[a]) == k {
                            assert(old_view.contains_key(k));
                        }
                    }
                    assert(self.wf()) by {
                        assert forall|a: int, b: int| 0 <= a < self.entries@.len() && 0 <= b < self.entries@.len() && a != b
                            implies entry_key(#[trigger] self.entries@[a]) != entry_key(#[trigger] self.entries@[b]) by {
                            if a < n && b < n {
                                assert(self.entries@[a] == old_entries[a] && self.entries@[b] == old_entries[b]);
                            } else if a < n {
                                assert(self.entries@[a] == old_entries[a]);
                            } else {
                                assert(self.entries@[b] == old_entries[b]);
                            }
                        }
                    }
                    assert forall|q: EntryKey| #[trigger] self@.contains_key(q) == old_view.insert(k, v).contains_key(q) by {
                        if old_view.contains_key(q) {
                            let a = choose|a: int| 0 <= a < old_entries.len() && entry_key(#[trigger] old_entries[a]) == q;
                            assert(entry_key(self.entries@[a]) == q);
                        }
                        if self@.contains_key(q) {
                            let a = choose|a: int| 0 <= a < self.entries@.len() && entry_key(#[trigger] self.entries@[a]) == q;
                            if a < n {
                                assert(entry_key(old_entries[a]) == q);
                            }
                        }
                        assert(entry_key(self.entries@[n]) == k);
                    }
                    assert forall|q: EntryKey| #[trigger] self@.contains_key(q) implies self@[q] == old_view.insert(k, v)[q] by {
                        let a = choose|a: int| 0 <= a < self.entries@.len() && entry_key(#[trigger] self.entries@[a]) == q;
                        lemma_table_view_at(self.entries@, a);
                        if a < n {
                            assert(old_entries[a] == self.entries@[a]);
                            lemma_table_view_at(old_entries, a);
                        }
                    }
                    assert(self@ =~= old_view.insert(k, v));
                }
            },
        }
    }
}

impl StringsTable {
    /// Drops an entry, if the table has it.
    pub fn remove_texts(&mut self, language: &String, id: &String)
        requires
            old(self).wf(),
        ensures
            final(self).wf(),
            final(self)@ == old(self)@.remove((language@, id@)),
    {
        let ghost k = (language@, id@);
        let ghost old_view = self@;
        let ghost old_entries = self.entries@;
        match self.find(language, id) {
            Option::Some(i) => {
                self.entries.remove(i);
                proof {
                    let t = self.entries@;
                    assert(t =~= old_entries.remove(i as int));
                    assert forall|a: int| 0 <= a < t.len() implies #[trigger] t[a] == old_entries[if a < i { a } else { a + 1 }] by {}
                    assert(self.wf()) by {
                        assert forall|a: int, b: int| 0 <= a < t.len() && 0 <= b < t.len() && a != b
                            implies entry_key(#[trigger] t[a]) != entry_key(#[trigger] t[b]) by {
                            let oa = if a < i { a } else { a + 1 };
                            let ob = if b < i { b } else { b + 1 };
                            assert(t[a] == old_entries[oa] && t[b] == old_entries[ob]);
                        }
                    }
                    assert forall|q: EntryKey| #[trigger] self@.contains_key(q) == old_view.remove(k).contains_key(q) by {
                        if old_view.contains_key(q) && q != k {
                            let a = choose|a: int| 0 <= a < old_entries.len() && entry_key(#[trigger] old_entries[a]) == q;
                            assert(a != i);
                            let na = if a < i { a } else { a - 1 };
                            assert(t[na] == old_entries[a]);
                        }
                        if self@.contains_key(q) {
                            let a = choose|a: int| 0 <= a < t.len() && entry_key(#[trigger] t[a]) == q;
                            let oa = if a < i { a } else { a + 1 };
                            assert(t[a] == old_entries[oa]);
                            assert(entry_key(old_entries[oa]) == q);
                            assert(oa != i);
                        }
                    }
                    assert forall|q: EntryKey| #[trigger] self@.contains_key(q) implies self@[q] == old_view.remove(k)[q] by {
                        let a = choose|a: int| 0 <= a < t.len() && entry_key(#[trigger] t[a]) == q;
                        let oa = if a < i { a } else { a + 1 };
                        assert(t[a] == old_entries[oa]);
                        lemma_table_view_at(t, a);
                        lemma_table_view_at(old_entries, oa);
                    }
                    assert(self@ =~= old_view.remove(k));
                }
            },
            Option::None => {
                assert(self@ =~= old_view.remove(k));
            },
        }
    }
}

/// The canonical map of a localization table: the path (language, id) of
/// each entry holds the XML document of its texts.
pub open spec fn table_map_spec(t: Map<EntryKey, Seq<Seq<char>>>) -> Map<PathView, ValueView> {
    Map::new(
        |p: PathView| p.len() == 2 && t.contains_key((p[0], p[1])),
        |p: PathView| ValueView::Str(format_entries_spec(t[(p[0], p[1])])),
    )
}

/// A copy of a list of texts.
pub fn clone_texts(v: &Vec<String>) -> (r: Vec<String>)
    ensures
        path_view(r@) == path_view(v@),
{
    crate::map::clone_path(v)
}

impl StringsTable {
    /// A copy of the table.
    pub fn duplicate(&self) -> (r: StringsTable)
        requires
            self.wf(),
        ensures
            r.wf(),
            r@ == self@,
    {
        let ghost s = self.entries@;
        let mut out: Vec<(String, String, Vec<String>)> = Vec::new();
        let mut i: usize = 0;
        while i < self.entries.len()
            invariant
                s == self.entries@,
                i <= s.len(),
                out@.len() == i,
                forall|a: int| 0 <= a < i ==> entry_key(#[trigger] out@[a]) == entry_key(s[a])
                    && path_view(out@[a].2@) == path_view(s[a].2@),
            decreases s.len() - i,
        {
            let e = &self.entries[i];
            out.push((clone_string(&e.0), clone_string(&e.1), clone_texts(&e.2)));
            i = i + 1;
        }
        let r = StringsTable { entries: out };
        let ghost t = r.entries@;
        assert(table_wf(t)) by {
            assert forall|a: int, b: int| 0 <= a < t.len() && 0 <= b < t.len() && a != b
                implies entry_key(#[trigger] t[a]) != entry_key(#[trigger] t[b]) by {
                assert(entry_key(t[a]) == entry_key(s[a]) && entry_key(t[b]) == entry_key(s[b]));
            }
        }
        assert forall|k: EntryKey| #[trigger] table_view(t).contains_key(k) == table_view(s).contains_key(k) by {
            if table_view(s).contains_key(k) {
                let a = choose|a: int| 0 <= a < s.len() && entry_key(#[trigger] s[a]) == k;
                assert(entry_key(t[a]) == k);
            }
            if table_view(t).contains_key(k) {
                let a = choose|a: int| 0 <= a < t.len() && entry_key(#[trigger] t[a]) == k;
                assert(entry_key(s[a]) == k);
            }
        }
        assert forall|k: EntryKey| #[trigger] table_view(t).contains_key(k) implies table_view(t)[k] == table_view(s)[k] by {
            let a = choose|a: int| 0 <= a < t.len() && entry_key(#[trigger] t[a]) == k;
            lemma_table_view_at(t, a);
            lemma_table_view_at(s, a);
        }
        assert(table_view(t) =~= table_view(s));
        r
    }

    /// Flattens the table to its canonical map.
    pub fn to_map(&self) -> (r: DataMap)
        requires
            self.wf(),
        ensures
            r.wf(),
            r@ == table_map_spec(self@),
    {
        let ghost s = self.entries@;
        let mut m = DataMap::new();
        let mut i: usize = 0;
        assert(table_map_spec(table_view(s.take(0))) =~= Map::<PathView, ValueView>::empty());
        while i < self.entries.len()
            invariant
                s == self.entries@,
                table_wf(s),
                i <= s.len(),
                m.wf(),
                m@ == table_map_spec(table_view(s.take(i as int))),
            decreases s.len() - i,
        {
            let e = &self.entries[i];
            let mut key: Vec<String> = Vec::new();
            key.push(clone_string(&e.0));
            key.push(clone_string(&e.1));
            let text = format_entries(clone_texts(&e.2));
            let ghost before = m@;
            m.insert(key, GameDataValue::String(text));
            proof {
                let pre = s.take(i as int);
                let post = s.take(i + 1);
                assert(post =~= pre.push(s[i as int]));
                assert(table_wf(post)) by {
                    assert forall|a: int, b: int| 0 <= a < post.len() && 0 <= b < post.len() && a != b
                        implies entry_key(#[trigger] post[a]) != entry_key(#[trigger] post[b]) by {
                        assert(post[a] == s[a] && post[b] == s[b]);
                    }
                }
                assert(table_wf(pre)) by {
                    assert forall|a: int, b: int| 0 <= a < pre.len() && 0 <= b < pre.len() && a != b
                        implies entry_key(#[trigger] pre[a]) != entry_key(#[trigger] pre[b]) by {
                        assert(pre[a] == s[a] && pre[b] == s[b]);
                    }
                }
                let k = entry_key(s[i as int]);
                assert(path_view(key@) =~= seq![k.0, k.1]);
                assert forall|q: EntryKey| #[trigger] table_view(post).contains_key(q) == (table_view(pre).contains_key(q) || q == k) by {
                    if table_view(pre).contains_key(q) {
                        let a = choose|a: int| 0 <= a < pre.len() && entry_key(#[trigger] pre[a]) == q;
                        assert(post[a] == pre[a]);
                    }
                    if table_view(post).contains_key(q) {
                        let a = choose|a: int| 0 <= a < post.len() && entry_key(#[trigger] post[a]) == q;
                        if a < i {
                            assert(pre[a] == post[a]);
                        }
                    }
                    assert(entry_key(post[i as int]) == k);
                }
                assert forall|q: EntryKey| #[trigger] table_view(post).contains_key(q) implies table_view(post)[q] == (if q == k { path_view(s[i as int].2@) } else { table_view(pre)[q] }) by {
                    let a = choose|a: int| 0 <= a < post.len() && entry_key(#[trigger] post[a]) == q;
                    lemma_table_view_at(post, a);
                    if a < i {
                        assert(pre[a] == post[a]);
                        lemma_table_view_at(pre, a);
                    }
                }
                assert forall|p: PathView| #[trigger] m@.contains_key(p) == table_map_spec(table_view(post)).contains_key(p) by {
                    if p.len() == 2 && (p[0], p[1]) == k {
                        assert(p =~= seq![k.0, k.1]);
                    }
                }
                assert forall|p: PathView| #[trigger] m@.contains_key(p) implies m@[p] == table_map_spec(table_view(post))[p] by {
                    if p.len() == 2 && (p[0], p[1]) == k {
                        assert(p =~= seq![k.0, k.1]);
                    }
                }
                assert(m@ =~= table_map_spec(table_view(post)));
            }
            i = i + 1;
        }
        assert(s.take(i as int) =~= s);
        m
    }
}

/// One child node of an XML document's root element: whether it is an
/// element, its tag name, and its text.
pub type XmlChild = (bool, Seq<char>, Option<Seq<char>>);

/// The child nodes of the root element of the XML document `s`, as roxmltree
/// reads them, or `None` where roxmltree does not accept the document.
pub uninterp spec fn xml_root_children(s: Seq<char>) -> Option<Seq<XmlChild>>;

pub open spec fn children_view(r: Option<Vec<(bool, String, Option<String>)>>) -> Option<Seq<XmlChild>> {
    match r {
        Option::Some(v) => Option::Some(
            v@.map_values(|c: (bool, String, Option<String>)| (c.0, c.1@, crate::value::opt_str_view(c.2))),
        ),
        Option::None => Option::None,
    }
}

/// Relies on roxmltree's `Document::parse`, `Document::root_element` and,
/// for each child node of the root element, `Node::is_element`,
/// `Node::tag_name` and `Node::text`.
#[verifier::external_body]
fn root_children(xml: &str) -> (r: Option<Vec<(bool, String, Option<String>)>>)
    ensures
        children_view(r) == xml_root_children(xml@),
{
    let document = roxmltree::Document::parse(xml).ok()?;
    let children = document
        .root_element()
        .children()
        .map(|node| (node.is_element(), node.tag_name().name().to_string(), node.text().map(String::from)))
        .collect();
    Option::Some(children)
}

/// The texts of the `entry` elements among the root's children; `None`
/// where an element of another tag stands there.
pub open spec fn texts_of_children(ch: Seq<XmlChild>) -> Option<Seq<Seq<char>>>
    decreases ch.len(),
{
    if ch.len() == 0 {
        Option::Some(Seq::empty())
    } else {
        match texts_of_children(ch.drop_last()) {
            Option::None => Option::None,
            Option::Some(t) => {
                let c = ch.last();
                if !c.0 {
                    Option::Some(t)
                } else if c.1 == "entry"@ {
                    Option::Some(
                        t.push(
                            match c.2 {
                                Option::Some(x) => x,
                                Option::None => Seq::empty(),
                            },
                        ),
                    )
                } else {
                    Option::None
                }
            },
        }
    }
}

pub open spec fn opt_texts_view(o: Option<Vec<String>>) -> Option<Seq<Seq<char>>> {
    match o {
        Option::Some(v) => Option::Some(path_view(v@)),
        Option::None => Option::None,
    }
}

proof fn lemma_texts_none_extends(ch: Seq<XmlChild>, a: int, b: int)
    requires
        0 <= a <= b <= ch.len(),
        texts_of_children(ch.take(a)) is None,
    ensures
        texts_of_children(ch.take(b)) is None,
    decreases b - a,
{
    if b > a {
        lemma_texts_none_extends(ch, a, b - 1);
        assert(ch.take(b).drop_last() =~= ch.take(b - 1));
    }
}

/// Reads the texts of the `entry` elements from the root's child nodes.
pub fn entry_texts(children: &Vec<(bool, String, Option<String>)>) -> (r: Option<Vec<String>>)
    ensures
        opt_texts_view(r) == texts_of_children(children_view(Option::Some(*children))->Some_0),
{
    let ghost ch = children_view(Option::Some(*children))->Some_0;
    let mut out: Vec<String> = Vec::new();
    let mut i: usize = 0;
    assert(ch.take(0) =~= Seq::<XmlChild>::empty());
    assert(path_view(out@) =~= Seq::<Seq<char>>::empty());
    while i < children.len()
        invariant
            ch == children_view(Option::Some(*children))->Some_0,
            i <= children.len(),
            texts_of_children(ch.take(i as int)) == Option::Some(path_view(out@)),
        decreases children.len() - i,
    {
        let c = &children[i];
        assert(ch.take(i + 1).drop_last() =~= ch.take(i as int));
        assert(ch.take(i + 1).last() == ch[i as int]);
        if c.0 {
            if crate::path::segment_equals(c.1.as_str(), "entry") {
                let text = match &c.2 {
                    Option::Some(t) => clone_string(t),
                    Option::None => String::new(),
                };
                let ghost before = path_view(out@);
                out.push(text);
                assert(path_view(out@) =~= before.push(text@));
            } else {
                proof {
                    lemma_texts_none_extends(ch, i + 1, ch.len() as int);
                    assert(ch.take(ch.len() as int) =~= ch);
                }
                return Option::None;
            }
        }
        i = i + 1;
    }
    assert(ch.take(i as int) =~= ch);
    Option::Some(out)
}

/// What a change asks of a localization entry: `Ok(None)` to drop it,
/// `Ok(Some(texts))` to set its texts.
pub open spec fn change_texts(c: ChangeView) -> Result<Option<Seq<Seq<char>>>, ApplyError> {
    match c {
        ChangeView::Removed => Result::Ok(Option::None),
        ChangeView::SetTo(ValueView::Str(x)) => match xml_root_children(x) {
            Option::None => Result::Err(ApplyError::Malformed),
            Option::Some(ch) => match texts_of_children(ch) {
                Option::None => Result::Err(ApplyError::Malformed),
                Option::Some(t) => Result::Ok(Option::Some(t)),
            },
        },
        ChangeView::SetTo(_) => Result::Err(ApplyError::WrongKind),
    }
}

/// Why the change `c` at `p` cannot be applied to a localization table.
pub open spec fn entry_error(p: PathView, c: ChangeView) -> Option<ApplyError> {
    if p.len() != 2 {
        Option::Some(ApplyError::UnknownPath)
    } else {
        match change_texts(c) {
            Result::Err(e) => Option::Some(e),
            Result::Ok(_) => Option::None,
        }
    }
}

/// The table after a patch whose every change applies.
pub open spec fn table_apply(
    t: Map<EntryKey, Seq<Seq<char>>>,
    patch: Map<PathView, ChangeView>,
) -> Map<EntryKey, Seq<Seq<char>>> {
    Map::new(
        |k: EntryKey|
            if patch.contains_key(seq![k.0, k.1]) {
                change_texts(patch[seq![k.0, k.1]]) matches Result::Ok(Option::Some(_))
            } else {
                t.contains_key(k)
            },
        |k: EntryKey|
            if patch.contains_key(seq![k.0, k.1]) && change_texts(patch[seq![k.0, k.1]]) matches Result::Ok(Option::Some(v)) {
                change_texts(patch[seq![k.0, k.1]])->Ok_0->Some_0
            } else {
                t[k]
            },
    )
}

proof fn lemma_table_apply_step(
    t: Map<EntryKey, Seq<Seq<char>>>,
    m: Map<PathView, ChangeView>,
    p: PathView,
    c: ChangeView,
)
    requires
        !m.contains_key(p),
        p.len() == 2,
        change_texts(c) is Ok,
    ensures
        change_texts(c) matches Result::Ok(Option::Some(v)) ==> table_apply(t, m.insert(p, c)) == table_apply(t, m).insert((p[0], p[1]), v),
        change_texts(c) matches Result::Ok(Option::None) ==> table_apply(t, m.insert(p, c)) == table_apply(t, m).remove((p[0], p[1])),
{
    let k0 = (p[0], p[1]);
    assert(seq![k0.0, k0.1] =~= p);
    assert forall|k: EntryKey| k != k0 implies #[trigger] seq![k.0, k.1] != p by {
        if seq![k.0, k.1] == p {
            assert(seq![k.0, k.1][0] == k.0 && seq![k.0, k.1][1] == k.1);
        }
    }
    if let Result::Ok(Option::Some(v)) = change_texts(c) {
        assert(table_apply(t, m.insert(p, c)) =~= table_apply(t, m).insert(k0, v));
    } else {
        assert(table_apply(t, m.insert(p, c)) =~= table_apply(t, m).remove(k0));
    }
}

impl StringsTable {
    /// Applies a patch of localization entries: each path is a language and
    /// an entry id; a set value is the XML document of the entry's texts.
    /// Nothing changes unless every change applies.
    pub fn apply_patch(&mut self, patch: Patch) -> (r: Result<(), ApplyError>)
        requires
            old(self).wf(),
            patch.wf(),
        ensures
            final(self).wf(),
            r is Ok <==> forall|p: PathView| #[trigger] patch@.contains_key(p) ==> entry_error(p, patch@[p]) is None,
            r is Ok ==> final(self)@ == table_apply(old(self)@, patch@),
            r matches Result::Err(e) ==> final(self)@ == old(self)@ && exists|p: PathView|
                #[trigger] patch@.contains_key(p) && entry_error(p, patch@[p]) == Option::Some(e),
    {
        let ghost pv = patch.entries_view();
        let pe = &patch.entries;
        let mut ops: Vec<Option<Vec<String>>> = Vec::new();
        let mut i: usize = 0;
        while i < pe.len()
            invariant
                pv == patch.entries_view(),
                pe == &patch.entries,
                keys_sorted(pv),
                i <= pv.len(),
                ops@.len() == i,
                self.wf(),
                self@ == old(self)@,
                forall|a: int| 0 <= a < i ==> (#[trigger] pv[a]).0.len() == 2
                    && change_texts(pv[a].1) == Result::<Option<Seq<Seq<char>>>, ApplyError>::Ok(opt_texts_view(ops@[a])),
            decreases pv.len() - i,
        {
            proof {
                crate::map::lemma_assoc_map_index(pv, i as int);
            }
            if pe[i].0.len() != 2 {
                assert(entry_error(pv[i as int].0, pv[i as int].1) == Option::Some(ApplyError::UnknownPath));
                return Result::Err(ApplyError::UnknownPath);
            }
            let op = match &pe[i].1 {
                ItemChange::Removed => Option::None,
                ItemChange::SetTo(GameDataValue::String(xml)) => {
                    match root_children(xml.as_str()) {
                        Option::None => {
                            return Result::Err(ApplyError::Malformed);
                        },
                        Option::Some(children) => match entry_texts(&children) {
                            Option::None => {
                                return Result::Err(ApplyError::Malformed);
                            },
                            Option::Some(texts) => Option::Some(texts),
                        },
                    }
                },
                ItemChange::SetTo(_) => {
                    return Result::Err(ApplyError::WrongKind);
                },
            };
            ops.push(op);
            i = i + 1;
        }
        proof {
            assert forall|p: PathView| #[trigger] patch@.contains_key(p) implies entry_error(p, patch@[p]) is None by {
                crate::map::lemma_assoc_map_domain(pv, p);
                let a = choose|a: int| 0 <= a < pv.len() && #[trigger] pv[a].0 == p;
                crate::map::lemma_assoc_map_index(pv, a);
            }
        }
        let ghost old_view = self@;
        let mut j: usize = 0;
        assert(pv.take(0) =~= Seq::<(PathView, ChangeView)>::empty());
        assert(table_apply(old_view, Map::empty()) =~= old_view);
        while j < pe.len()
            invariant
                pv == patch.entries_view(),
                pe == &patch.entries,
                keys_sorted(pv),
                j <= pv.len(),
                ops@.len() == pv.len(),
                forall|a: int| 0 <= a < pv.len() ==> (#[trigger] pv[a]).0.len() == 2
                    && change_texts(pv[a].1) == Result::<Option<Seq<Seq<char>>>, ApplyError>::Ok(opt_texts_view(ops@[a])),
                self.wf(),
                self@ == table_apply(old_view, assoc_map(pv.take(j as int))),
            decreases pv.len() - j,
        {
            let ghost p = pv[j as int].0;
            let ghost c = pv[j as int].1;
            proof {
                assert(pv.take(j + 1) =~= pv.take(j as int).push(pv[j as int]));
                crate::map::lemma_assoc_map_push(pv.take(j as int), p, c);
                assert forall|a: int| 0 <= a < pv.take(j as int).len() implies crate::path::path_lt(p, #[trigger] pv.take(j as int)[a].0) || crate::path::path_lt(pv.take(j as int)[a].0, p) by {
                    assert(crate::path::path_lt(pv[a].0, p));
                }
                crate::map::lemma_assoc_map_absent(pv.take(j as int), p);
                lemma_table_apply_step(old_view, assoc_map(pv.take(j as int)), p, c);
            }
            let path = &pe[j].0;
            assert(path_view(path@)[0] == path@[0]@ && path_view(path@)[1] == path@[1]@);
            match &ops[j] {
                Option::Some(texts) => {
                    self.set_texts(clone_string(&path[0]), clone_string(&path[1]), clone_texts(texts));
                },
                Option::None => {
                    self.remove_texts(&path[0], &path[1]);
                },
            }
            j = j + 1;
        }
        assert(pv.take(j as int) =~= pv);
        Result::Ok(())
    }
}

/// How many of the changes set a value.
pub open spec fn count_sets(s: Seq<SourceChange>) -> nat
    decreases s.len(),
{
    if s.len() == 0 {
        0
    } else {
        count_sets(s.drop_last()) + if s.last().1 is SetTo { 1nat } else { 0nat }
    }
}

/// The first change that sets a value, if any.
pub open spec fn first_set(s: Seq<SourceChange>) -> Option<ChangeView>
    decreases s.len(),
{
    if s.len() == 0 {
        Option::None
    } else {
        match first_set(s.drop_last()) {
            Option::Some(c) => Option::Some(c),
            Option::None => if s.last().1 is SetTo {
                Option::Some(s.last().1)
            } else {
                Option::None
            },
        }
    }
}

/// The change merged at one localization entry: the common change where
/// all agree; else the value that every setting source sets, where those
/// sources are more than half of all that touch the entry; else none, and
/// the entry is in conflict. A removal thus never wins over a set, and a
/// lone set against removals is still a conflict.
///
/// Design choice: where every source removes the entry, the changes agree and
/// the removal merges; it is not raised as a conflict.
pub open spec fn locale_decision(s: Seq<SourceChange>) -> Option<ChangeView> {
    if all_agree(s) {
        Option::Some(s[0].1)
    } else {
        match first_set(s) {
            Option::Some(c) => if (forall|i: int| 0 <= i < s.len() && (#[trigger] s[i]).1 is SetTo ==> s[i].1 == c)
                && 2 * count_sets(s) > s.len() {
                Option::Some(c)
            } else {
                Option::None
            },
            Option::None => Option::None,
        }
    }
}

pub open spec fn locale_merged(g: Map<PathView, Seq<SourceChange>>) -> Map<PathView, ChangeView> {
    Map::new(|p: PathView| g.contains_key(p) && locale_decision(g[p]) is Some, |p: PathView| locale_decision(g[p])->Some_0)
}

pub open spec fn locale_conflicts(g: Map<PathView, Seq<SourceChange>>) -> Map<PathView, Seq<SourceChange>> {
    Map::new(|p: PathView| g.contains_key(p) && locale_decision(g[p]) is None, |p: PathView| g[p])
}

/// The change merged at one localization entry, per `locale_decision`.
pub fn locale_decide(v: &Vec<(String, ItemChange)>) -> (r: Option<ItemChange>)
    requires
        v@.len() > 0,
    ensures
        match r {
            Option::Some(c) => locale_decision(source_changes_view(v@)) == Option::Some(c@),
            Option::None => locale_decision(source_changes_view(v@)) is None,
        },
{
    let ghost s = source_changes_view(v@);
    if changes_agree(v) {
        return Option::Some(v[0].1.duplicate());
    }
    let mut count: usize = 0;
    let mut first: Option<usize> = Option::None;
    let mut consistent = true;
    let mut i: usize = 0;
    assert(s.take(0) =~= Seq::<SourceChange>::empty());
    while i < v.len()
        invariant
            s == source_changes_view(v@),
            i <= v.len(),
            count <= i,
            count == count_sets(s.take(i as int)),
            match first {
                Option::Some(f) => f < i && first_set(s.take(i as int)) == Option::Some(s[f as int].1),
                Option::None => first_set(s.take(i as int)) is None,
            },
            first is None ==> forall|a: int| 0 <= a < i ==> !((#[trigger] s[a]).1 is SetTo),
            consistent == (first matches Option::Some(f) ==> forall|a: int| 0 <= a < i && (#[trigger] s[a]).1 is SetTo ==> s[a].1 == s[f as int].1),
        decreases v.len() - i,
    {
        assert(s.take(i + 1).drop_last() =~= s.take(i as int));
        assert(s.take(i + 1).last() == s[i as int]);
        if let ItemChange::SetTo(_) = &v[i].1 {
            count = count + 1;
            match first {
                Option::None => {
                    first = Option::Some(i);
                },
                Option::Some(f) => {
                    if !v[i].1.same_as(&v[f].1) {
                        consistent = false;
                    }
                },
            }
        }
        i = i + 1;
    }
    assert(s.take(i as int) =~= s);
    match first {
        Option::Some(f) => {
            if consistent && count > v.len() - count {
                Option::Some(v[f].1.duplicate())
            } else {
                Option::None
            }
        },
        Option::None => Option::None,
    }
}

proof fn lemma_locale_split_push(g: Map<PathView, Seq<SourceChange>>, k: PathView, s: Seq<SourceChange>)
    requires
        !g.contains_key(k),
    ensures
        locale_decision(s) matches Option::Some(c) ==> locale_merged(g.insert(k, s)) == locale_merged(g).insert(k, c)
            && locale_conflicts(g.insert(k, s)) == locale_conflicts(g),
        locale_decision(s) is None ==> locale_merged(g.insert(k, s)) == locale_merged(g)
            && locale_conflicts(g.insert(k, s)) == locale_conflicts(g).insert(k, s),
{
    if let Option::Some(c) = locale_decision(s) {
        assert(locale_merged(g.insert(k, s)) =~= locale_merged(g).insert(k, c));
        assert(locale_conflicts(g.insert(k, s)) =~= locale_conflicts(g));
    } else {
        assert(locale_merged(g.insert(k, s)) =~= locale_merged(g));
        assert(locale_conflicts(g.insert(k, s)) =~= locale_conflicts(g).insert(k, s));
    }
}

impl StringsTable {
    /// Merges the patches of several sources to a localization table by the
    /// rule of `locale_decision`.
    pub fn try_merge_patches(&self, contributions: &Vec<(String, Patch)>) -> (r: (Patch, Conflicts))
        requires
            contributions_wf(contributions@),
        ensures
            r.0.wf(),
            r.1.wf(),
            r.0@ == locale_merged(grouped_spec(contributions_view(contributions@))),
            r.1@ == locale_conflicts(grouped_spec(contributions_view(contributions@))),
    {
        let groups = regroup(contributions);
        let ghost gs = groups.entries_view();
        let ge = &groups.entries;
        let mut merged = Patch { entries: Vec::new() };
        let mut unmerged = Conflicts { entries: Vec::new() };
        let mut i: usize = 0;
        assert(gs.take(0) =~= Seq::<(PathView, Seq<SourceChange>)>::empty());
        assert(locale_merged(Map::empty()) =~= Map::<PathView, ChangeView>::empty());
        assert(locale_conflicts(Map::empty()) =~= Map::<PathView, Seq<SourceChange>>::empty());
        while i < ge.len()
            invariant
                gs == groups.entries_view(),
                ge == &groups.entries,
                keys_sorted(gs),
                i <= gs.len(),
                groups@ == grouped_spec(contributions_view(contributions@)),
                groups@ == assoc_map(gs),
                keys_sorted(merged.entries_view()),
                keys_sorted(unmerged.entries_view()),
                forall|e: int| 0 <= e < merged.entries_view().len() ==> (i < gs.len() ==> path_lt(#[trigger] merged.entries_view()[e].0, gs[i as int].0)),
                forall|e: int| 0 <= e < unmerged.entries_view().len() ==> (i < gs.len() ==> path_lt(#[trigger] unmerged.entries_view()[e].0, gs[i as int].0)),
                merged@ == locale_merged(assoc_map(gs.take(i as int))),
                unmerged@ == locale_conflicts(assoc_map(gs.take(i as int))),
            decreases gs.len() - i,
        {
            let ghost g_map = assoc_map(gs.take(i as int));
            let ghost k = gs[i as int].0;
            let ghost s = gs[i as int].1;
            let ghost old_m = merged.entries_view();
            let ghost old_u = unmerged.entries_view();
            proof {
                assert(gs.take(i + 1) =~= gs.take(i as int).push(gs[i as int]));
                lemma_assoc_map_push(gs.take(i as int), k, s);
                assert forall|a: int| 0 <= a < gs.take(i as int).len() implies path_lt(k, #[trigger] gs.take(i as int)[a].0) || path_lt(gs.take(i as int)[a].0, k) by {
                    assert(path_lt(gs[a].0, k));
                }
                lemma_assoc_map_absent(gs.take(i as int), k);
                lemma_locale_split_push(g_map, k, s);
                crate::map::lemma_assoc_map_index(gs, i as int);
            }
            match locale_decide(&ge[i].1) {
                Option::Some(c) => {
                    let p = clone_path(&ge[i].0);
                    let ghost cv = c@;
                    merged.entries.push((p, c));
                    proof {
                        assert(merged.entries_view() =~= old_m.push((k, cv)));
                        lemma_assoc_map_push(old_m, k, cv);
                    }
                },
                Option::None => {
                    let p = clone_path(&ge[i].0);
                    let v = clone_changes(&ge[i].1);
                    unmerged.entries.push((p, v));
                    proof {
                        assert(unmerged.entries_view() =~= old_u.push((k, s)));
                        lemma_assoc_map_push(old_u, k, s);
                    }
                },
            }
            proof {
                assert forall|e: int| 0 <= e < merged.entries_view().len() && i + 1 < gs.len() implies path_lt(#[trigger] merged.entries_view()[e].0, gs[i + 1].0) by {
                    if e < old_m.len() {
                        lemma_path_lt_transitive(merged.entries_view()[e].0, k, gs[i + 1].0);
                    }
                }
                assert forall|e: int| 0 <= e < unmerged.entries_view().len() && i + 1 < gs.len() implies path_lt(#[trigger] unmerged.entries_view()[e].0, gs[i + 1].0) by {
                    if e < old_u.len() {
                        lemma_path_lt_transitive(unmerged.entries_view()[e].0, k, gs[i + 1].0);
                    }
                }
            }
            i = i + 1;
        }
        assert(gs.take(i as int) =~= gs);
        (merged, unmerged)
    }
}

} // verus!
