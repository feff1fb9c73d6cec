//! Mods, their descriptions, and the paths of a game installation.
use vstd::prelude::*;
use vstd::string::*;

verus! {

/// The description of a mod.
#[derive(Clone, Debug, Default)]
pub struct Project {
    pub title: String,
}

/// A mod found in the installation.
#[derive(Clone, Debug, Default)]
pub struct Mod {
    /// Installed in the game's own mods directory, not by the workshop.
    pub local: bool,
    pub selected: bool,
    pub path: String,
    pub project: Project,
}

impl Mod {
    /// A mod at `path` with the description `project`.
    pub fn new(local: bool, path: String, project: Project) -> (r: Mod)
        ensures
            r.local == local,
            !r.selected,
            r.path@ == path@,
            r.name_view() == project.title@,
    {
        Mod { local, selected: false, path, project }
    }

    pub open spec fn name_view(&self) -> Seq<char> {
        self.project.title@
    }

    /// The mod's title.
    pub fn name(&self) -> (r: &str)
        ensures
            r@ == self.name_view(),
    {
        self.project.title.as_str()
    }
}

/// The installation's base path and the mods found there.
pub struct GlobalData {
    pub base_path: String,
    pub mods: Vec<Mod>,
}

/// `rel` appended to `base` as a path component.
pub open spec fn join_spec(base: Seq<char>, rel: Seq<char>) -> Seq<char> {
    if base.len() == 0 || base.last() == '/' {
        base + rel
    } else {
        base + seq!['/'] + rel
    }
}

/// Appends the relative path `rel` to `base`.
pub fn join_path(base: &str, rel: &str) -> (r: String)
    ensures
        r@ == join_spec(base@, rel@),
{
    let mut out = String::new();
    out.append(base);
    let n = base.unicode_len();
    if n > 0 && base.get_char(n - 1) != '/' {
        out.append("/");
        proof {
            reveal_strlit("/");
        }
        assert(out@ =~= base@ + seq!['/']);
    }
    out.append(rel);
    out
}

/// The directory where the workshop keeps the game's mods.
pub fn workshop(base: &str) -> (r: String)
    ensures
        r@ == join_spec(base@, "steamapps/workshop/content/262060"@),
{
    join_path(base, "steamapps/workshop/content/262060")
}

/// The game's installation directory.
pub fn game(base: &str) -> (r: String)
    ensures
        r@ == join_spec(base@, "steamapps/common/DarkestDungeon"@),
{
    join_path(base, "steamapps/common/DarkestDungeon")
}

/// The game's directory of local mods.
pub fn mods(base: &str) -> (r: String)
    ensures
        r@ == join_spec(join_spec(base@, "steamapps/common/DarkestDungeon"@), "mods"@),
{
    let g = game(base);
    join_path(g.as_str(), "mods")
}

/// Whether `text` ends with `tail`.
pub open spec fn ends_with_spec(text: Seq<char>, tail: Seq<char>) -> bool {
    tail.len() <= text.len() && text.skip(text.len() - tail.len()) == tail
}

/// Whether the path `path` ends with `tail`.
pub fn ends_with(path: &str, tail: &str) -> (r: bool)
    ensures
        r == ends_with_spec(path@, tail@),
{
    let n = path.unicode_len();
    let m = tail.unicode_len();
    if m > n {
        return false;
    }
    let mut i: usize = 0;
    while i < m
        invariant
            n == path@.len(),
            m == tail@.len(),
            m <= n,
            i <= m,
            forall|j: int| 0 <= j < i ==> path@[n - m + j] == tail@[j],
        decreases m - i,
    {
        if path.get_char(n - m + i) != tail.get_char(i) {
            assert(path@.skip(n - m)[i as int] != tail@[i as int]);
            return false;
        }
        i = i + 1;
    }
    assert(path@.skip(n - m) =~= tail@);
    true
}

/// `path` relative to `base`: what follows `base` and a separator.
pub open spec fn rel_path_spec(base: Seq<char>, path: Seq<char>) -> Option<Seq<char>> {
    if base.len() <= path.len() && path.take(base.len() as int) == base {
        let rest = path.skip(base.len() as int);
        if rest.len() == 0 || base.len() == 0 || base.last() == '/' {
            Option::Some(rest)
        } else if rest[0] == '/' {
            Option::Some(rest.drop_first())
        } else {
            Option::None
        }
    } else {
        Option::None
    }
}

/// The path `path` relative to `base`; `None` where `path` is not inside
/// `base`.
pub fn rel_path(base: &str, path: &str) -> (r: Option<String>)
    ensures
        match r {
            Option::Some(s) => rel_path_spec(base@, path@) == Option::Some(s@),
            Option::None => rel_path_spec(base@, path@) is None,
        },
{
    let n = path.unicode_len();
    let m = base.unicode_len();
    if m > n {
        return Option::None;
    }
    let mut i: usize = 0;
    while i < m
        invariant
            n == path@.len(),
            m == base@.len(),
            m <= n,
            i <= m,
            forall|j: int| 0 <= j < i ==> path@[j] == base@[j],
        decreases m - i,
    {
        if path.get_char(i) != base.get_char(i) {
            assert(path@.take(m as int)[i as int] != base@[i as int]);
            return Option::None;
        }
        i = i + 1;
    }
    assert(path@.take(m as int) =~= base@);
    let rest = path.substring_char(m, n);
    if n == m || m == 0 || base.get_char(m - 1) == '/' {
        let mut out = String::new();
        out.append(rest);
        Option::Some(out)
    } else if path.get_char(m) == '/' {
        let tail = path.substring_char(m + 1, n);
        assert(tail@ =~= rest@.drop_first());
        let mut out = String::new();
        out.append(tail);
        Option::Some(out)
    } else {
        Option::None
    }
}

} // verus!
