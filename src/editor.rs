//! Removal of a declaration from the children of an attribute set, keeping
//! the surrounding layout.
use vstd::prelude::*;
use vstd::string::*;
use crate::syntax::{SyntaxTree, TOKEN_WHITESPACE, TOKEN_COMMENT};

verus! {

pub open spec fn is_tok(t: &SyntaxTree, c: usize, kind: u16) -> bool {
    t.is_token@[c as int] && t.kinds@[c as int] == kind
}

pub open spec fn has_newline(t: &SyntaxTree, c: usize) -> bool {
    t.texts@[c as int]@.contains('\n')
}

/// Scans back from child `index` of the children `ks`: how far the
/// whitespace without a line break and the comments before it reach, and
/// whether a comment was met.
pub open spec fn scan_back(t: &SyntaxTree, ks: Seq<usize>, index: int, off: int, comment: bool) -> (int, bool)
    decreases index - off + 1,
{
    if off > index || off < 1 {
        (off, comment)
    } else {
        let c = ks[index - off];
        if is_tok(t, c, TOKEN_WHITESPACE) && !has_newline(t, c) {
            scan_back(t, ks, index, off + 1, comment)
        } else if is_tok(t, c, TOKEN_COMMENT) {
            scan_back(t, ks, index, off + 1, true)
        } else {
            (off, comment)
        }
    }
}

/// The same scan forward from child `index`.
pub open spec fn scan_fwd(t: &SyntaxTree, ks: Seq<usize>, index: int, off: int, comment: bool) -> (int, bool)
    decreases ks.len() - index - off,
{
    if index + off >= ks.len() || off < 1 {
        (off, comment)
    } else {
        let c = ks[index + off];
        if is_tok(t, c, TOKEN_WHITESPACE) && !has_newline(t, c) {
            scan_fwd(t, ks, index, off + 1, comment)
        } else if is_tok(t, c, TOKEN_COMMENT) {
            scan_fwd(t, ks, index, off + 1, true)
        } else {
            (off, comment)
        }
    }
}

/// How a removal is made.
#[derive(PartialEq, Eq, Structural, Clone, Copy, Debug)]
pub enum Removal {
    /// A comment is adjacent: the entry becomes a comment saying it moved.
    Placeholder,
    /// Children `lo..=hi`, the entry with the whitespace on both sides, become
    /// one whitespace token.
    Merge { lo: usize, hi: usize },
    /// The entry alone is dropped.
    Drop,
}

pub open spec fn plan(t: &SyntaxTree, ks: Seq<usize>, index: int) -> Removal {
    let (p, c1) = scan_back(t, ks, index, 1, false);
    let (q, c2) = scan_fwd(t, ks, index, 1, c1);
    if c2 {
        Removal::Placeholder
    } else if p <= index && is_tok(t, ks[index - p], TOKEN_WHITESPACE) && index + q < ks.len()
        && is_tok(t, ks[index + q], TOKEN_WHITESPACE) {
        Removal::Merge { lo: (index - p) as usize, hi: (index + q) as usize }
    } else {
        Removal::Drop
    }
}

/// `s` without the spaces at its end.
pub open spec fn trim_spaces_end(s: Seq<char>) -> Seq<char>
    decreases s.len(),
{
    if s.len() > 0 && s.last() == ' ' {
        trim_spaces_end(s.drop_last())
    } else {
        s
    }
}

/// The number of line breaks at the end of `s`.
pub open spec fn newlines_end(s: Seq<char>) -> nat
    decreases s.len(),
{
    if s.len() > 0 && s.last() == '\n' {
        newlines_end(s.drop_last()) + 1
    } else {
        0
    }
}

/// `s` without the spaces at its start.
pub open spec fn trim_spaces_start(s: Seq<char>) -> Seq<char>
    decreases s.len(),
{
    if s.len() > 0 && s[0] == ' ' {
        trim_spaces_start(s.drop_first())
    } else {
        s
    }
}

/// The number of line breaks at the start of `s`.
pub open spec fn newlines_start(s: Seq<char>) -> nat
    decreases s.len(),
{
    if s.len() > 0 && s[0] == '\n' {
        newlines_start(s.drop_first()) + 1
    } else {
        0
    }
}

pub open spec fn newlines(n: nat) -> Seq<char> {
    Seq::new(n, |_i: int| '\n')
}

/// The whitespace that replaces `before`, an entry, and `after`: what
/// precedes the spaces and line breaks at the end of `before`, as many line
/// breaks as the larger of the two runs, and what follows the spaces and line
/// breaks at the start of `after`.
pub open spec fn merged(before: Seq<char>, after: Seq<char>) -> Seq<char> {
    let b = trim_spaces_end(before);
    let a = trim_spaces_start(after);
    let nb = newlines_end(b);
    let na = newlines_start(a);
    b.subrange(0, b.len() - nb) + newlines(if nb >= na { nb } else { na }) + a.subrange(na as int, a.len() as int)
}

/// The comment that stands where `attr` was declared.
pub open spec fn placeholder(attr: Seq<char>) -> Seq<char> {
    "/* "@ + attr + " = <moved> */"@
}

/// The children of `set` after the removal of child `index`, where `new`
/// is the position of the token the removal adds.
pub open spec fn kids_after(t: &SyntaxTree, set: int, index: int, new: usize) -> Seq<usize> {
    let ks = t.kids(set);
    match plan(t, ks, index) {
        Removal::Placeholder => ks.update(index, new),
        Removal::Merge { lo, hi } => ks.subrange(0, lo as int).push(new) + ks.subrange(hi + 1, ks.len() as int),
        Removal::Drop => ks.remove(index),
    }
}

/// Element `e` is the same in both trees.
pub open spec fn same_elem(t1: &SyntaxTree, t2: &SyntaxTree, e: int) -> bool {
    &&& t2.kinds@[e] == t1.kinds@[e]
    &&& t2.starts@[e] == t1.starts@[e]
    &&& t2.is_token@[e] == t1.is_token@[e]
    &&& t2.texts@[e]@ == t1.texts@[e]@
    &&& t2.kids(e) == t1.kids(e)
}

/// `t2` is `t1` after child `index` of `set`, the declaration of `attr`, was
/// removed.
pub open spec fn removal_applied(t1: &SyntaxTree, t2: &SyntaxTree, set: int, index: int, attr: Seq<char>) -> bool {
    let n = t1.len();
    let p = plan(t1, t1.kids(set), index);
    &&& t2.wf()
    &&& forall|e: int| 0 <= e < n && e != set ==> #[trigger] same_elem(t1, t2, e)
    &&& t2.kinds@[set] == t1.kinds@[set]
    &&& t2.is_token@[set] == t1.is_token@[set]
    &&& t2.starts@[set] == t1.starts@[set]
    &&& t2.texts@[set]@ == t1.texts@[set]@
    &&& t2.kids(set) == kids_after(t1, set, index, n as usize)
    &&& match p {
        Removal::Drop => t2.len() == n,
        Removal::Placeholder => {
            &&& t2.len() == n + 1
            &&& is_tok(t2, n as usize, TOKEN_COMMENT)
            &&& t2.texts@[n]@ == placeholder(attr)
            &&& t2.kids(n).len() == 0
        },
        Removal::Merge { lo, hi } => {
            &&& t2.len() == n + 1
            &&& is_tok(t2, n as usize, TOKEN_WHITESPACE)
            &&& t2.texts@[n]@ == merged(
                t1.texts@[t1.kids(set)[lo as int] as int]@,
                t1.texts@[t1.kids(set)[hi as int] as int]@,
            )
            &&& t2.kids(n).len() == 0
        },
    }
}


fn text_has_newline(s: &String) -> (r: bool)
    ensures
        r == s@.contains('\n'),
{
    let n = s.as_str().unicode_len();
    let mut i: usize = 0;
    while i < n
        invariant
            n == s@.len(),
            i <= n,
            forall|j: int| 0 <= j < i ==> s@[j] != '\n',
        decreases n - i,
    {
        if s.as_str().get_char(i) == '\n' {
            return true;
        }
        i = i + 1;
    }
    false
}

proof fn lemma_trim_end_step(s: Seq<char>, e: int)
    requires
        0 < e <= s.len(),
        s[e - 1] == ' ',
    ensures
        trim_spaces_end(s.subrange(0, e)) == trim_spaces_end(s.subrange(0, e - 1)),
{
    assert(s.subrange(0, e).drop_last() == s.subrange(0, e - 1));
}

proof fn lemma_nl_end_step(s: Seq<char>, e: int)
    requires
        0 < e <= s.len(),
        s[e - 1] == '\n',
    ensures
        newlines_end(s.subrange(0, e)) == newlines_end(s.subrange(0, e - 1)) + 1,
{
    assert(s.subrange(0, e).drop_last() == s.subrange(0, e - 1));
}

proof fn lemma_trim_start_step(s: Seq<char>, b: int)
    requires
        0 <= b < s.len(),
        s[b] == ' ',
    ensures
        trim_spaces_start(s.subrange(b, s.len() as int)) == trim_spaces_start(s.subrange(b + 1, s.len() as int)),
{
    assert(s.subrange(b, s.len() as int).drop_first() == s.subrange(b + 1, s.len() as int));
}

proof fn lemma_nl_start_step(s: Seq<char>, b: int)
    requires
        0 <= b < s.len(),
        s[b] == '\n',
    ensures
        newlines_start(s.subrange(b, s.len() as int)) == newlines_start(s.subrange(b + 1, s.len() as int)) + 1,
{
    assert(s.subrange(b, s.len() as int).drop_first() == s.subrange(b + 1, s.len() as int));
}

fn line_breaks(n: usize) -> (r: String)
    ensures
        r@ == newlines(n as nat),
{
    let mut out = String::new();
    let mut k: usize = 0;
    while k < n
        invariant
            k <= n,
            out@ == newlines(k as nat),
        decreases n - k,
    {
        proof {
            reveal_strlit("\n");
        }
        out.append("\n");
        assert(out@ =~= newlines((k + 1) as nat));
        k = k + 1;
    }
    out
}

/// The whitespace that replaces `before`, an entry and `after`.
pub fn merge_whitespace(before: &String, after: &String) -> (r: String)
    ensures
        r@ == merged(before@, after@),
{
    let bs = before.as_str();
    let ghost b0 = before@;
    let mut e: usize = bs.unicode_len();
    assert(b0.subrange(0, e as int) == b0);
    while e > 0 && bs.get_char(e - 1) == ' '
        invariant
            e <= b0.len(),
            b0 == bs@,
            trim_spaces_end(b0) == trim_spaces_end(b0.subrange(0, e as int)),
        decreases e,
    {
        proof {
            lemma_trim_end_step(b0, e as int);
        }
        e = e - 1;
    }
    let ghost tb = b0.subrange(0, e as int);
    assert(trim_spaces_end(tb) == tb);
    let mut nb: usize = 0;
    assert(tb.subrange(0, tb.len() as int) == tb);
    while nb < e && bs.get_char(e - nb - 1) == '\n'
        invariant
            nb <= e,
            e <= b0.len(),
            b0 == bs@,
            tb == b0.subrange(0, e as int),
            newlines_end(tb) == newlines_end(tb.subrange(0, e - nb)) + nb,
        decreases e - nb,
    {
        proof {
            lemma_nl_end_step(tb, e - nb);
            assert(tb.subrange(0, e - nb).subrange(0, e - nb - 1) == tb.subrange(0, e - nb - 1));
        }
        nb = nb + 1;
    }
    assert(newlines_end(tb.subrange(0, e - nb)) == 0);
    let as_ = after.as_str();
    let ghost a0 = after@;
    let n = as_.unicode_len();
    let mut st: usize = 0;
    assert(a0.subrange(0, n as int) == a0);
    while st < n && as_.get_char(st) == ' '
        invariant
            st <= n,
            n == a0.len(),
            a0 == as_@,
            trim_spaces_start(a0) == trim_spaces_start(a0.subrange(st as int, n as int)),
        decreases n - st,
    {
        proof {
            lemma_trim_start_step(a0, st as int);
        }
        st = st + 1;
    }
    let ghost ta = a0.subrange(st as int, n as int);
    assert(trim_spaces_start(ta) == ta);
    let mut na: usize = 0;
    assert(ta.subrange(0, ta.len() as int) == ta);
    while st + na < n && as_.get_char(st + na) == '\n'
        invariant
            st + na <= n,
            n == a0.len(),
            a0 == as_@,
            ta == a0.subrange(st as int, n as int),
            newlines_start(ta) == newlines_start(ta.subrange(na as int, ta.len() as int)) + na,
        decreases n - st - na,
    {
        proof {
            lemma_nl_start_step(ta, na as int);
            assert(ta.subrange(na as int, ta.len() as int).subrange(1, ta.len() - na) == ta.subrange(na + 1, ta.len() as int));
        }
        na = na + 1;
    }
    assert(newlines_start(ta.subrange(na as int, ta.len() as int)) == 0);
    let mut out = String::from_str(bs.substring_char(0, e - nb));
    let breaks = line_breaks(if nb >= na { nb } else { na });
    out.append(breaks.as_str());
    out.append(as_.substring_char(st + na, n));
    assert(tb.subrange(0, tb.len() - nb) =~= b0.subrange(0, e - nb));
    assert(ta.subrange(na as int, ta.len() as int) =~= a0.subrange(st + na, n as int));
    out
}

/// The comment that stands where `attr` was declared.
pub fn placeholder_text(attr: &String) -> (r: String)
    ensures
        r@ == placeholder(attr@),
{
    let mut out = String::from_str("/* ");
    out.append(attr.as_str());
    out.append(" = <moved> */");
    out
}

/// Removes child `index` of node `set`, the declaration of `attr`, as `plan`
/// says: a placeholder comment where a comment is adjacent, else one
/// whitespace token for the two around it where both are whitespace, else
/// the entry alone.
pub fn remove_entry_at(t: &mut SyntaxTree, set: usize, index: usize, attr: &String) -> (r: Removal)
    requires
        old(t).wf(),
        set < old(t).len(),
        index < old(t).kids(set as int).len(),
        old(t).len() + 1 < usize::MAX - 1,
    ensures
        removal_applied(old(t), final(t), set as int, index as int, attr@),
        r == plan(old(t), old(t).kids(set as int), index as int),
{
    let ghost t0 = *t;
    let n = t.kinds.len();
    let mut ks: Vec<usize> = Vec::new();
    std::mem::swap(&mut ks, &mut t.children[set]);
    let ghost k0 = ks@;
    assert(k0 == t0.kids(set as int));
    let klen = ks.len();
    // Scan back over whitespace without a line break and comments.
    let mut off: usize = 1;
    let mut comment = false;
    let mut go = true;
    while go && off <= index
        invariant
            t.kinds == t0.kinds,
            t.is_token == t0.is_token,
            t.texts == t0.texts,
            t0.wf(),
            ks@ == k0,
            klen == k0.len(),
            k0 == t0.kids(set as int),
            set < t0.len(),
            index < klen,
            1 <= off <= index + 1,
            scan_back(&t0, k0, index as int, 1, false) == scan_back(&t0, k0, index as int, off as int, comment),
            !go ==> scan_back(&t0, k0, index as int, off as int, comment) == (off as int, comment),
        decreases index + 1 - off + if go { 1int } else { 0int },
    {
        let c = ks[index - off];
        assert(t0.kids(set as int)[index - off] == c);
        if t.is_token[c] && t.kinds[c] == TOKEN_WHITESPACE && !text_has_newline(&t.texts[c]) {
            off = off + 1;
        } else if t.is_token[c] && t.kinds[c] == TOKEN_COMMENT {
            comment = true;
            off = off + 1;
        } else {
            go = false;
        }
    }
    let back = off;
    let ghost c1 = comment;
    assert(scan_back(&t0, k0, index as int, 1, false) == (back as int, c1));
    let mut off: usize = 1;
    let mut go = true;
    while go && index + off < klen
        invariant
            t.kinds == t0.kinds,
            t.is_token == t0.is_token,
            t.texts == t0.texts,
            t0.wf(),
            ks@ == k0,
            klen == k0.len(),
            k0 == t0.kids(set as int),
            set < t0.len(),
            index < klen,
            1 <= off,
            index + off <= klen,
            scan_fwd(&t0, k0, index as int, 1, c1) == scan_fwd(&t0, k0, index as int, off as int, comment),
            !go ==> scan_fwd(&t0, k0, index as int, off as int, comment) == (off as int, comment),
        decreases klen - index - off + if go { 1int } else { 0int },
    {
        let c = ks[index + off];
        assert(t0.kids(set as int)[index + off] == c);
        if t.is_token[c] && t.kinds[c] == TOKEN_WHITESPACE && !text_has_newline(&t.texts[c]) {
            off = off + 1;
        } else if t.is_token[c] && t.kinds[c] == TOKEN_COMMENT {
            comment = true;
            off = off + 1;
        } else {
            go = false;
        }
    }
    assert(scan_fwd(&t0, k0, index as int, 1, c1) == (off as int, comment));
    let fwd = off;
    let ghost p = plan(&t0, k0, index as int);
    if comment {
        assert(p == Removal::Placeholder);
        t.kinds.push(TOKEN_COMMENT);
        t.starts.push(0);
        t.is_token.push(true);
        t.texts.push(placeholder_text(attr));
        t.children.push(Vec::new());
        ks.set(index, n);
        t.children.set(set, ks);
        proof { lemma_removal_done(t0, *t, set, index, attr@, n); }
        return Removal::Placeholder;
    } else if back <= index && t.is_token[ks[index - back]] && t.kinds[ks[index - back]] == TOKEN_WHITESPACE
        && index + fwd < ks.len() && t.is_token[ks[index + fwd]] && t.kinds[ks[index + fwd]] == TOKEN_WHITESPACE {
        let lo = index - back;
        let hi = index + fwd;
        assert(p == Removal::Merge { lo, hi });
        let text = merge_whitespace(&t.texts[ks[lo]], &t.texts[ks[hi]]);
        t.kinds.push(TOKEN_WHITESPACE);
        t.starts.push(0);
        t.is_token.push(true);
        t.texts.push(text);
        t.children.push(Vec::new());
        let mut out: Vec<usize> = Vec::new();
        let mut j: usize = 0;
        while j < lo
            invariant
                j <= lo,
                lo < ks@.len(),
                out@ == ks@.subrange(0, j as int),
            decreases lo - j,
        {
            out.push(ks[j]);
            assert(out@ =~= ks@.subrange(0, j + 1));
            j = j + 1;
        }
        out.push(n);
        let ghost mid = out@;
        let mut j: usize = hi + 1;
        while j < ks.len()
            invariant
                hi + 1 <= j <= ks@.len(),
                out@ == mid + ks@.subrange(hi + 1, j as int),
            decreases ks@.len() - j,
        {
            out.push(ks[j]);
            assert(out@ =~= mid + ks@.subrange(hi + 1, j + 1));
            j = j + 1;
        }
        t.children.set(set, out);
        proof { lemma_removal_done(t0, *t, set, index, attr@, n); }
        return Removal::Merge { lo, hi };
    } else {
        assert(p == Removal::Drop);
        ks.remove(index);
        t.children.set(set, ks);
        proof { lemma_removal_done(t0, *t, set, index, attr@, n); }
        return Removal::Drop;
    }
}

proof fn lemma_removal_done(t0: SyntaxTree, t: SyntaxTree, set: usize, index: usize, attr: Seq<char>, n: usize)
    requires
        t0.wf(),
        n == t0.len(),
        set < n,
        index < t0.kids(set as int).len(),
        t.kinds@.len() == t.starts@.len() && t.kinds@.len() == t.is_token@.len() && t.kinds@.len() == t.texts@.len() && t.kinds@.len() == t.children@.len(),
        t.len() < usize::MAX - 1,
        t.len() == n || t.len() == n + 1,
        forall|e: int| 0 <= e < n ==> t.kinds@[e] == t0.kinds@[e] && t.starts@[e] == t0.starts@[e] && t.is_token@[e] == t0.is_token@[e] && t.texts@[e] == t0.texts@[e],
        forall|e: int| 0 <= e < n && e != set ==> t.children@[e] == t0.children@[e],
        t.len() == n + 1 ==> t.kids(n as int).len() == 0,
        t.kids(set as int) == kids_after(&t0, set as int, index as int, n),
        ({
            let p = plan(&t0, t0.kids(set as int), index as int);
            match p {
                Removal::Drop => t.len() == n,
                Removal::Placeholder => {
                    &&& t.len() == n + 1
                    &&& is_tok(&t, n, TOKEN_COMMENT)
                    &&& t.texts@[n as int]@ == placeholder(attr)
                },
                Removal::Merge { lo, hi } => {
                    &&& t.len() == n + 1
                    &&& is_tok(&t, n, TOKEN_WHITESPACE)
                    &&& t.texts@[n as int]@ == merged(
                        t0.texts@[t0.kids(set as int)[lo as int] as int]@,
                        t0.texts@[t0.kids(set as int)[hi as int] as int]@,
                    )
                },
            }
        }),
    ensures
        removal_applied(&t0, &t, set as int, index as int, attr),
{
    let k0 = t0.kids(set as int);
    let p = plan(&t0, k0, index as int);
    lemma_scan_back_tokens(&t0, k0, index as int, 1, false);
    lemma_scan_fwd_grows(&t0, k0, index as int, 1, scan_back(&t0, k0, index as int, 1, false).1);
    {
        assert forall|e: int| 0 <= e < n && e != set implies #[trigger] same_elem(&t0, &t, e) by {
            assert(t.children@[e] == t0.children@[e]);
        }
        assert forall|a: int, j: int|
            #![trigger t.kids(a)[j]]
            0 <= a < t.len() && 0 <= j < t.kids(a).len() implies a < t.kids(a)[j] < t.len() by {
            if a != set && a < n {
                assert(t.kids(a) == t0.kids(a));
                assert(t0.kids(a)[j] == t.kids(a)[j]);
            } else if a == set {
                let k = t.kids(a)[j];
                if k != n {
                    assert(k0.contains(k)) by {
                        match p {
                            Removal::Placeholder => {
                                assert(k0[j] == k);
                            },
                            Removal::Merge { lo, hi } => {
                                if j < lo {
                                    assert(k0[j] == k);
                                } else {
                                    assert(j > lo);
                                    assert(k0[hi + j - lo] == k);
                                }
                            },
                            Removal::Drop => {
                                if j < index {
                                    assert(k0[j] == k);
                                } else {
                                    assert(k0[j + 1] == k);
                                }
                            },
                        }
                    }
                    let w = choose|w: int| 0 <= w < k0.len() && k0[w] == k;
                    assert(t0.kids(set as int)[w] == k);
                }
            }
        }
    }
}

proof fn lemma_scan_fwd_grows(t: &SyntaxTree, ks: Seq<usize>, index: int, off: int, comment: bool)
    requires
        1 <= off,
    ensures
        scan_fwd(t, ks, index, off, comment).0 >= off,
    decreases ks.len() - index - off,
{
    if index + off < ks.len() {
        let c = ks[index + off];
        if (is_tok(t, c, TOKEN_WHITESPACE) && !has_newline(t, c)) || is_tok(t, c, TOKEN_COMMENT) {
            lemma_scan_fwd_grows(t, ks, index, off + 1, if is_tok(t, c, TOKEN_WHITESPACE) && !has_newline(t, c) { comment } else { true });
        }
    }
}

/// Every child the backward scan passed, and the one it stopped at where a
/// merge happens, is a token.
pub proof fn lemma_scan_back_tokens(t: &SyntaxTree, ks: Seq<usize>, index: int, off: int, comment: bool)
    requires
        0 <= index < ks.len(),
        1 <= off,
    ensures
        scan_back(t, ks, index, off, comment).0 >= off,
        forall|j: int|
            off <= j < scan_back(t, ks, index, off, comment).0 && j <= index ==> #[trigger] t.is_token@[ks[index - j] as int],
    decreases index - off + 1,
{
    if off <= index {
        let c = ks[index - off];
        if (is_tok(t, c, TOKEN_WHITESPACE) && !has_newline(t, c)) || is_tok(t, c, TOKEN_COMMENT) {
            lemma_scan_back_tokens(t, ks, index, off + 1, if is_tok(t, c, TOKEN_WHITESPACE) && !has_newline(t, c) { comment } else { true });
        }
    }
}

/// The two trees hold the same elements.
pub open spec fn same_tree(t1: &SyntaxTree, t2: &SyntaxTree) -> bool {
    &&& t1.len() == t2.len()
    &&& t1.children@.len() == t2.children@.len()
    &&& forall|e: int| 0 <= e < t1.len() ==> #[trigger] same_elem(t1, t2, e)
}

/// `ts` are the trees that the removals `ops` (position among the children
/// of `set`, attribute name) pass through, made in that order, starting from
/// a copy of `t1`.
pub open spec fn removal_chain(t1: &SyntaxTree, ts: Seq<SyntaxTree>, set: int, ops: Seq<(usize, Seq<char>)>) -> bool {
    &&& ts.len() == ops.len() + 1
    &&& same_tree(t1, &ts[0])
    &&& ts[0].wf()
    &&& forall|k: int|
        0 <= k < ops.len() ==> #[trigger] removal_applied(&ts[k], &ts[k + 1], set, ops[k].0 as int, ops[k].1)
}

/// The attributes, in the order of `ops`, whose removal along the chain `ts`
/// dropped the entry alone, without normalising the whitespace around it.
pub open spec fn dropped(ts: Seq<SyntaxTree>, set: int, ops: Seq<(usize, Seq<char>)>) -> Seq<Seq<char>>
    decreases ops.len(),
{
    if ops.len() == 0 {
        Seq::empty()
    } else {
        let k = ops.len() - 1;
        let prev = dropped(ts, set, ops.drop_last());
        if plan(&ts[k], ts[k].kids(set), ops[k].0 as int) is Drop {
            prev.push(ops[k].1)
        } else {
            prev
        }
    }
}

/// `dropped` reads only the trees before each removal.
pub proof fn lemma_dropped_prefix(ts: Seq<SyntaxTree>, us: Seq<SyntaxTree>, set: int, ops: Seq<(usize, Seq<char>)>)
    requires
        ops.len() <= ts.len(),
        ops.len() <= us.len(),
        forall|k: int| 0 <= k < ops.len() ==> ts[k] == us[k],
    ensures
        dropped(ts, set, ops) == dropped(us, set, ops),
    decreases ops.len(),
{
    if ops.len() > 0 {
        lemma_dropped_prefix(ts, us, set, ops.drop_last());
        assert(ts[ops.len() - 1] == us[ops.len() - 1]);
    }
}

/// One more removal extends a chain of removals.
pub proof fn lemma_chain_push(
    t1: &SyntaxTree,
    ts: Seq<SyntaxTree>,
    t2: SyntaxTree,
    set: int,
    ops: Seq<(usize, Seq<char>)>,
    op: (usize, Seq<char>),
)
    requires
        removal_chain(t1, ts, set, ops),
        removal_applied(&ts.last(), &t2, set, op.0 as int, op.1),
    ensures
        removal_chain(t1, ts.push(t2), set, ops.push(op)),
{
    let ts2 = ts.push(t2);
    let ops2 = ops.push(op);
    assert forall|k: int| 0 <= k < ops2.len() implies #[trigger] removal_applied(&ts2[k], &ts2[k + 1], set, ops2[k].0 as int, ops2[k].1) by {
        if k < ops.len() {
            assert(ts2[k] == ts[k]);
            assert(ts2[k + 1] == ts[k + 1]);
            assert(removal_applied(&ts[k], &ts[k + 1], set, ops[k].0 as int, ops[k].1));
        } else {
            assert(ts2[k] == ts.last());
        }
    }
}

/// Removing a declaration that has no adjacent comment and whitespace on both
/// sides leaves one whitespace token in place of the three, with as many line
/// breaks as the larger of the two runs; every other child of the set, and
/// every other element, keeps its text.
pub proof fn lemma_merge_keeps_rest(t1: &SyntaxTree, t2: &SyntaxTree, set: int, index: int, attr: Seq<char>)
    requires
        t1.wf(),
        0 <= set < t1.len(),
        0 <= index < t1.kids(set).len(),
        removal_applied(t1, t2, set, index, attr),
        plan(t1, t1.kids(set), index) is Merge,
    ensures
        ({
            let lo = plan(t1, t1.kids(set), index)->Merge_lo as int;
            let hi = plan(t1, t1.kids(set), index)->Merge_hi as int;
            let ks = t1.kids(set);
            &&& t2.kids(set) == ks.subrange(0, lo).push(t1.len() as usize) + ks.subrange(hi + 1, ks.len() as int)
            &&& is_tok(t2, t1.len() as usize, TOKEN_WHITESPACE)
            &&& t2.texts@[t1.len()]@ == merged(t1.texts@[ks[lo] as int]@, t1.texts@[ks[hi] as int]@)
        }),
        forall|e: int| set < e < t1.len() ==> #[trigger] t2.elem_text(e) == t1.elem_text(e),
{
    assert forall|e: int| set < e < t1.len() implies #[trigger] t2.elem_text(e) == t1.elem_text(e) by {
        lemma_text_kept(t1, t2, set, e);
    }
}

/// Elements after `set` that are the same in both trees have the same text.
pub proof fn lemma_text_kept(t1: &SyntaxTree, t2: &SyntaxTree, set: int, e: int)
    requires
        t1.wf(),
        t2.wf(),
        0 <= set < e < t1.len(),
        t1.len() <= t2.len(),
        forall|x: int| 0 <= x < t1.len() && x != set ==> #[trigger] same_elem(t1, t2, x),
    ensures
        t2.elem_text(e) == t1.elem_text(e),
    decreases t1.len() - e, t1.kids(e).len() + 1,
{
    assert(same_elem(t1, t2, e));
    if !t1.is_token@[e] {
        lemma_kids_text_kept(t1, t2, set, e, t1.kids(e).len() as int);
    }
}

proof fn lemma_kids_text_kept(t1: &SyntaxTree, t2: &SyntaxTree, set: int, e: int, k: int)
    requires
        t1.wf(),
        t2.wf(),
        0 <= set < e < t1.len(),
        t1.len() <= t2.len(),
        0 <= k <= t1.kids(e).len(),
        forall|x: int| 0 <= x < t1.len() && x != set ==> #[trigger] same_elem(t1, t2, x),
    ensures
        t2.kids_text(e, k) == t1.kids_text(e, k),
    decreases t1.len() - e, k,
{
    assert(same_elem(t1, t2, e));
    if k > 0 {
        lemma_kids_text_kept(t1, t2, set, e, k - 1);
        let c = t1.kids(e)[k - 1] as int;
        assert(e < c < t1.len());
        lemma_text_kept(t1, t2, set, c);
    }
}

} // verus!
