//! Root-relative paths as sequences of segments, and the text of a path
//! reference split at its slashes.
use vstd::prelude::*;
use vstd::string::*;

verus! {

/// A path below the tree root, one name per segment; the root itself is empty.
pub type TreePath = Vec<String>;

/// The segments of a path, as character sequences.
pub open spec fn segs(p: &TreePath) -> Seq<Seq<char>> {
    p.deep_view()
}

/// The pieces of `s` between its slashes, in order; a text without a slash is
/// one piece, and an empty text is one empty piece.
pub open spec fn pieces(s: Seq<char>) -> Seq<Seq<char>>
    decreases s.len(),
{
    if s.len() == 0 {
        seq![Seq::empty()]
    } else {
        let p = pieces(s.drop_last());
        if s.last() == '/' {
            p.push(Seq::empty())
        } else {
            p.update(p.len() - 1, p.last().push(s.last()))
        }
    }
}

pub proof fn lemma_pieces_nonempty(s: Seq<char>)
    ensures
        pieces(s).len() >= 1,
    decreases s.len(),
{
    if s.len() > 0 {
        lemma_pieces_nonempty(s.drop_last());
    }
}

/// The key under which a path is filed: each segment preceded by a slash.
pub open spec fn key_of(p: Seq<Seq<char>>) -> Seq<char>
    decreases p.len(),
{
    if p.len() == 0 {
        Seq::empty()
    } else {
        key_of(p.drop_last()) + seq!['/'] + p.last()
    }
}

/// `inner` lies at or below `outer`.
pub open spec fn within(inner: Seq<Seq<char>>, outer: Seq<Seq<char>>) -> bool {
    outer.is_prefix_of(inner)
}

/// Splits the text of a reference at its slashes.
pub fn split_pieces(text: &str) -> (r: Vec<String>)
    ensures
        r.deep_view() == pieces(text@),
{
    let n = text.unicode_len();
    let mut out: Vec<String> = Vec::new();
    let mut start: usize = 0;
    let mut i: usize = 0;
    proof {
        assert(text@.take(0) == Seq::<char>::empty());
        assert(out.deep_view().push(text@.subrange(0, 0)) =~= seq![Seq::<char>::empty()]);
    }
    while i < n
        invariant
            n == text@.len(),
            start <= i <= n,
            out.deep_view().push(text@.subrange(start as int, i as int)) == pieces(
                text@.take(i as int),
            ),
        decreases n - i,
    {
        let c = text.get_char(i);
        proof {
            let t = text@.take(i as int + 1);
            assert(t.drop_last() == text@.take(i as int));
            assert(t.last() == c);
            lemma_pieces_nonempty(text@.take(i as int));
        }
        if c == '/' {
            let piece = String::from_str(text.substring_char(start, i));
            let ghost before = out.deep_view();
            out.push(piece);
            assert(out.deep_view() == before.push(piece@));
            start = i + 1;
            assert(text@.subrange(start as int, i as int + 1) == Seq::<char>::empty());
        } else {
            assert(text@.subrange(start as int, i as int + 1) == text@.subrange(
                start as int,
                i as int,
            ).push(c));
        }
        i = i + 1;
    }
    let piece = String::from_str(text.substring_char(start, n));
    let ghost before = out.deep_view();
    out.push(piece);
    assert(out.deep_view() == before.push(piece@));
    assert(text@.take(n as int) == text@);
    out
}

/// Whether two paths name the same place.
pub fn same_path(a: &TreePath, b: &TreePath) -> (r: bool)
    ensures
        r == (segs(a) == segs(b)),
{
    if a.len() != b.len() {
        assert(segs(a).len() != segs(b).len());
        return false;
    }
    let mut i: usize = 0;
    while i < a.len()
        invariant
            a@.len() == b@.len(),
            i <= a@.len(),
            forall|k: int| 0 <= k < i ==> segs(a)[k] == segs(b)[k],
        decreases a@.len() - i,
    {
        if a[i] != b[i] {
            assert(segs(a)[i as int] != segs(b)[i as int]);
            return false;
        }
        i = i + 1;
    }
    assert(segs(a) =~= segs(b));
    true
}

/// Whether `inner` lies at or below `outer`.
pub fn is_within(inner: &TreePath, outer: &TreePath) -> (r: bool)
    ensures
        r == within(segs(inner), segs(outer)),
{
    if outer.len() > inner.len() {
        return false;
    }
    let mut i: usize = 0;
    while i < outer.len()
        invariant
            outer@.len() <= inner@.len(),
            i <= outer@.len(),
            forall|k: int| 0 <= k < i ==> segs(outer)[k] == segs(inner)[k],
        decreases outer@.len() - i,
    {
        if outer[i] != inner[i] {
            assert(segs(inner).subrange(0, outer@.len() as int)[i as int] != segs(outer)[i as int]);
            return false;
        }
        i = i + 1;
    }
    assert(segs(outer) =~= segs(inner).subrange(0, outer@.len() as int));
    true
}

/// The key under which `p` is filed.
pub fn path_key(p: &TreePath) -> (r: String)
    ensures
        r@ == key_of(segs(p)),
{
    let mut key = String::new();
    let mut i: usize = 0;
    while i < p.len()
        invariant
            i <= p@.len(),
            key@ == key_of(segs(p).take(i as int)),
        decreases p@.len() - i,
    {
        proof {
            reveal_strlit("/");
            assert(segs(p).take(i as int + 1).drop_last() == segs(p).take(i as int));
        }
        key.append("/");
        key.append(p[i].as_str());
        i = i + 1;
    }
    assert(segs(p).take(i as int) == segs(p));
    key
}

/// A copy of `p`.
pub fn copy_path(p: &TreePath) -> (r: TreePath)
    ensures
        segs(&r) == segs(p),
{
    let mut r: TreePath = Vec::new();
    let mut i: usize = 0;
    while i < p.len()
        invariant
            i <= p@.len(),
            segs(&r) == segs(p).take(i as int),
        decreases p@.len() - i,
    {
        let s = p[i].clone();
        let ghost before = segs(&r);
        r.push(s);
        assert(segs(&r) == before.push(s@));
        assert(segs(p).take(i as int + 1) == segs(p).take(i as int).push(p@[i as int]@));
        i = i + 1;
    }
    assert(segs(p).take(i as int) == segs(p));
    r
}

} // verus!
