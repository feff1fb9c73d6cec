//! Key paths and their total order.
use core::cmp::Ordering;
use vstd::prelude::*;
use vstd::string::*;

verus! {

/// A key path as seen by specifications: one character sequence per segment.
pub type PathView = Seq<Seq<char>>;

/// Lexicographic order on character sequences, by code point.
pub open spec fn seg_lt(a: Seq<char>, b: Seq<char>) -> bool
    decreases a.len(),
{
    if a.len() == 0 {
        b.len() > 0
    } else if b.len() == 0 {
        false
    } else if a[0] != b[0] {
        (a[0] as int) < (b[0] as int)
    } else {
        seg_lt(a.drop_first(), b.drop_first())
    }
}

/// Lexicographic order on paths, segment by segment.
pub open spec fn path_lt(a: PathView, b: PathView) -> bool
    decreases a.len(),
{
    if a.len() == 0 {
        b.len() > 0
    } else if b.len() == 0 {
        false
    } else if a[0] != b[0] {
        seg_lt(a[0], b[0])
    } else {
        path_lt(a.drop_first(), b.drop_first())
    }
}

pub proof fn lemma_seg_lt_irreflexive(a: Seq<char>)
    ensures
        !seg_lt(a, a),
    decreases a.len(),
{
    if a.len() > 0 {
        lemma_seg_lt_irreflexive(a.drop_first());
    }
}

pub proof fn lemma_seg_lt_total(a: Seq<char>, b: Seq<char>)
    ensures
        a == b || seg_lt(a, b) || seg_lt(b, a),
        !(seg_lt(a, b) && seg_lt(b, a)),
    decreases a.len(),
{
    if a.len() == 0 && b.len() == 0 {
        assert(a =~= b);
    }
    if a.len() > 0 && b.len() > 0 {
        if a[0] != b[0] {
            assert((a[0] as int) != (b[0] as int));
        } else {
            lemma_seg_lt_total(a.drop_first(), b.drop_first());
            if a.drop_first() == b.drop_first() {
                assert(a =~= seq![a[0]] + a.drop_first());
                assert(b =~= seq![b[0]] + b.drop_first());
            }
        }
    }
}

pub proof fn lemma_seg_lt_transitive(a: Seq<char>, b: Seq<char>, c: Seq<char>)
    requires
        seg_lt(a, b),
        seg_lt(b, c),
    ensures
        seg_lt(a, c),
    decreases a.len(),
{
    if a.len() > 0 && a[0] == b[0] && b[0] == c[0] {
        lemma_seg_lt_transitive(a.drop_first(), b.drop_first(), c.drop_first());
    }
}


/// The specification view of an executable path.
pub open spec fn path_view(p: Seq<String>) -> PathView {
    p.map_values(|s: String| s@)
}

pub proof fn lemma_path_lt_irreflexive(a: PathView)
    ensures
        !path_lt(a, a),
    decreases a.len(),
{
    if a.len() > 0 {
        lemma_path_lt_irreflexive(a.drop_first());
    }
}

pub proof fn lemma_path_lt_total(a: PathView, b: PathView)
    ensures
        a == b || path_lt(a, b) || path_lt(b, a),
        !(path_lt(a, b) && path_lt(b, a)),
    decreases a.len(),
{
    if a.len() == 0 && b.len() == 0 {
        assert(a =~= b);
    }
    if a.len() > 0 && b.len() > 0 {
        if a[0] != b[0] {
            lemma_seg_lt_total(a[0], b[0]);
        } else {
            lemma_path_lt_total(a.drop_first(), b.drop_first());
            if a.drop_first() == b.drop_first() {
                assert(a =~= seq![a[0]] + a.drop_first());
                assert(b =~= seq![b[0]] + b.drop_first());
            }
        }
    }
}

pub proof fn lemma_path_lt_transitive(a: PathView, b: PathView, c: PathView)
    requires
        path_lt(a, b),
        path_lt(b, c),
    ensures
        path_lt(a, c),
    decreases a.len(),
{
    if a.len() > 0 && c.len() > 0 {
        if a[0] == b[0] && b[0] == c[0] {
            lemma_path_lt_transitive(a.drop_first(), b.drop_first(), c.drop_first());
        } else if a[0] == b[0] {
            lemma_seg_lt_total(a[0], c[0]);
        } else if b[0] == c[0] {
            lemma_seg_lt_total(a[0], c[0]);
        } else {
            lemma_seg_lt_transitive(a[0], b[0], c[0]);
            lemma_seg_lt_total(a[0], c[0]);
        }
    }
}

/// Compares two path segments in the order `seg_lt`.
pub fn cmp_segment(a: &str, b: &str) -> (r: Ordering)
    ensures
        (r == Ordering::Less) == seg_lt(a@, b@),
        (r == Ordering::Equal) == (a@ == b@),
        (r == Ordering::Greater) == seg_lt(b@, a@),
{
    proof {
        lemma_seg_lt_total(a@, b@);
        lemma_seg_lt_irreflexive(a@);
    }
    let la = a.unicode_len();
    let lb = b.unicode_len();
    let mut i: usize = 0;
    assert(a@.skip(0) =~= a@ && b@.skip(0) =~= b@);
    while i < la && i < lb
        invariant
            i <= la,
            i <= lb,
            la == a@.len(),
            lb == b@.len(),
            seg_lt(a@, b@) == seg_lt(a@.skip(i as int), b@.skip(i as int)),
            seg_lt(b@, a@) == seg_lt(b@.skip(i as int), a@.skip(i as int)),
            a@.take(i as int) == b@.take(i as int),
        decreases la - i,
    {
        let ca = a.get_char(i);
        let cb = b.get_char(i);
        if ca != cb {
            assert(a@.skip(i as int)[0] == ca && b@.skip(i as int)[0] == cb);
            assert((ca as int) != (cb as int));
            if (ca as u32) < (cb as u32) {
                return Ordering::Less;
            } else {
                return Ordering::Greater;
            }
        }
        assert(a@.skip(i as int).drop_first() =~= a@.skip(i + 1));
        assert(b@.skip(i as int).drop_first() =~= b@.skip(i + 1));
        assert(a@.take(i + 1) =~= a@.take(i as int).push(ca));
        assert(b@.take(i + 1) =~= b@.take(i as int).push(cb));
        i = i + 1;
    }
    if la == lb {
        assert(a@ =~= a@.take(i as int));
        assert(b@ =~= b@.take(i as int));
        Ordering::Equal
    } else if la < lb {
        Ordering::Less
    } else {
        Ordering::Greater
    }
}

/// Compares two paths in the order `path_lt`.
pub fn cmp_path(a: &Vec<String>, b: &Vec<String>) -> (r: Ordering)
    ensures
        (r == Ordering::Less) == path_lt(path_view(a@), path_view(b@)),
        (r == Ordering::Equal) == (path_view(a@) == path_view(b@)),
        (r == Ordering::Greater) == path_lt(path_view(b@), path_view(a@)),
{
    let ghost pa = path_view(a@);
    let ghost pb = path_view(b@);
    proof {
        lemma_path_lt_total(pa, pb);
        lemma_path_lt_irreflexive(pa);
    }
    let la = a.len();
    let lb = b.len();
    let mut i: usize = 0;
    assert(pa.skip(0) =~= pa && pb.skip(0) =~= pb);
    while i < la && i < lb
        invariant
            i <= la,
            i <= lb,
            la == a@.len(),
            lb == b@.len(),
            pa == path_view(a@),
            pb == path_view(b@),
            path_lt(pa, pb) == path_lt(pa.skip(i as int), pb.skip(i as int)),
            path_lt(pb, pa) == path_lt(pb.skip(i as int), pa.skip(i as int)),
            pa.take(i as int) == pb.take(i as int),
        decreases la - i,
    {
        let c = cmp_segment(a[i].as_str(), b[i].as_str());
        assert(pa.skip(i as int)[0] == a@[i as int]@ && pb.skip(i as int)[0] == b@[i as int]@);
        match c {
            Ordering::Less => {
                return Ordering::Less;
            },
            Ordering::Greater => {
                return Ordering::Greater;
            },
            Ordering::Equal => {},
        }
        assert(pa.skip(i as int).drop_first() =~= pa.skip(i + 1));
        assert(pb.skip(i as int).drop_first() =~= pb.skip(i + 1));
        assert(pa.take(i + 1) =~= pa.take(i as int).push(a@[i as int]@));
        assert(pb.take(i + 1) =~= pb.take(i as int).push(b@[i as int]@));
        i = i + 1;
    }
    if la == lb {
        assert(pa =~= pa.take(i as int));
        assert(pb =~= pb.take(i as int));
        Ordering::Equal
    } else if la < lb {
        Ordering::Less
    } else {
        Ordering::Greater
    }
}

/// Whether a segment equals `word`.
pub fn segment_equals(s: &str, word: &str) -> (r: bool)
    ensures
        r == (s@ == word@),
{
    match cmp_segment(s, word) {
        Ordering::Equal => true,
        _ => false,
    }
}

} // verus!
