//! Byte offsets to 1-based line numbers.
use vstd::prelude::*;
use vstd::utf8::encode_utf8;

verus! {

/// Number of newline bytes among the first `n` bytes of `b`.
pub open spec fn newlines_before(b: Seq<u8>, n: int) -> nat
    decreases n,
{
    if n <= 0 || b.len() == 0 {
        0
    } else if n > b.len() {
        newlines_before(b, b.len() as int)
    } else {
        newlines_before(b, n - 1) + if b[n - 1] == 10u8 { 1nat } else { 0nat }
    }
}

/// The offsets just past each newline byte of `b`, in increasing order.
pub open spec fn line_starts(b: Seq<u8>, n: int) -> Seq<usize>
    decreases n,
{
    if n <= 0 || n > b.len() {
        Seq::empty()
    } else if b[n - 1] == 10u8 {
        line_starts(b, n - 1).push(n as usize)
    } else {
        line_starts(b, n - 1)
    }
}

/// Maps byte offsets of one text to the line they lie on.
pub struct LineIndex {
    /// The offset of the first byte of every line but the first.
    newlines: Vec<usize>,
    bytes: Ghost<Seq<u8>>,
}

proof fn lemma_line_starts(b: Seq<u8>, n: int)
    requires
        0 <= n <= b.len() <= usize::MAX,
    ensures
        line_starts(b, n).len() == newlines_before(b, n),
        newlines_before(b, n) <= n,
        forall|k: int| 0 <= k < line_starts(b, n).len() ==> 0 < #[trigger] line_starts(b, n)[k] <= n,
        forall|k: int, m: int|
            0 <= k < m < line_starts(b, n).len() ==> line_starts(b, n)[k] < line_starts(b, n)[m],
        forall|o: int|
            0 <= o <= n ==> #[trigger] count_at_most(line_starts(b, n), o) == newlines_before(b, o),
    decreases n,
{
    if n > 0 {
        lemma_line_starts(b, n - 1);
        let prev = line_starts(b, n - 1);
        let cur = line_starts(b, n);
        assert forall|o: int| 0 <= o <= n implies #[trigger] count_at_most(cur, o)
            == newlines_before(b, o) by {
            if o < n {
                if b[n - 1] == 10u8 {
                    lemma_count_push_above(prev, n as usize, o);
                }
            } else {
                lemma_count_all(prev, o);
                if b[n - 1] == 10u8 {
                    assert(cur.drop_last() == prev);
                }
            }
        }
    }
}

/// Number of entries of `s` that are at most `o`.
pub open spec fn count_at_most(s: Seq<usize>, o: int) -> nat
    decreases s.len(),
{
    if s.len() == 0 {
        0
    } else {
        count_at_most(s.drop_last(), o) + if s.last() <= o { 1nat } else { 0nat }
    }
}

proof fn lemma_count_push_above(s: Seq<usize>, x: usize, o: int)
    requires
        x > o,
    ensures
        count_at_most(s.push(x), o) == count_at_most(s, o),
{
    assert(s.push(x).drop_last() == s);
}

proof fn lemma_count_all(s: Seq<usize>, o: int)
    requires
        forall|k: int| 0 <= k < s.len() ==> #[trigger] s[k] <= o,
    ensures
        count_at_most(s, o) == s.len(),
    decreases s.len(),
{
    if s.len() > 0 {
        lemma_count_all(s.drop_last(), o);
    }
}

/// In an increasing sequence, the entries at most `o` are exactly the first `k`
/// when `k` splits it there.
proof fn lemma_count_split(s: Seq<usize>, k: int, o: int)
    requires
        0 <= k <= s.len(),
        forall|i: int, j: int| 0 <= i < j < s.len() ==> s[i] < s[j],
        forall|i: int| 0 <= i < k ==> #[trigger] s[i] <= o,
        forall|i: int| k <= i < s.len() ==> #[trigger] s[i] > o,
    ensures
        count_at_most(s, o) == k,
    decreases s.len(),
{
    if s.len() > k {
        lemma_count_split(s.drop_last(), k, o);
    } else {
        lemma_count_all(s, o);
    }
}

impl LineIndex {
    /// The bytes of the indexed text.
    pub closed spec fn text(&self) -> Seq<u8> {
        self.bytes@
    }

    pub closed spec fn wf(&self) -> bool {
        &&& self.bytes@.len() < usize::MAX
        &&& self.newlines@ == line_starts(self.bytes@, self.bytes@.len() as int)
    }

    /// Indexes `s`.
    pub fn new(s: &String) -> (r: LineIndex)
        requires
            encode_utf8(s@).len() < usize::MAX,
        ensures
            r.wf(),
            r.text() == encode_utf8(s@),
    {
        let bytes = s.as_str().as_bytes();
        let mut newlines: Vec<usize> = Vec::new();
        let mut i: usize = 0;
        while i < bytes.len()
            invariant
                i <= bytes@.len(),
                bytes@ == encode_utf8(s@),
                newlines@ == line_starts(bytes@, i as int),
            decreases bytes@.len() - i,
        {
            if bytes[i] == 10u8 {
                newlines.push(i + 1);
            }
            i = i + 1;
        }
        LineIndex { newlines, bytes: Ghost(bytes@) }
    }

    /// The 1-based line of the byte at `offset`: one more than the number of
    /// newline bytes before it.
    pub fn line(&self, offset: usize) -> (r: usize)
        requires
            self.wf(),
        ensures
            r == 1 + newlines_before(self.text(), offset as int),
    {
        let ghost b = self.bytes@;
        proof {
            lemma_line_starts(b, b.len() as int);
        }
        let n = self.newlines.len();
        assert(n < usize::MAX);
        // Binary search for the number of line starts at or before `offset`.
        let mut lo: usize = 0;
        let mut hi: usize = n;
        while lo < hi
            invariant
                0 <= lo <= hi <= n,
                n == self.newlines@.len(),
                forall|i: int, j: int|
                    0 <= i < j < n ==> self.newlines@[i] < self.newlines@[j],
                forall|i: int| 0 <= i < lo ==> #[trigger] self.newlines@[i] <= offset,
                forall|i: int| hi <= i < n ==> #[trigger] self.newlines@[i] > offset,
            decreases hi - lo,
        {
            let mid = lo + (hi - lo) / 2;
            if self.newlines[mid] <= offset {
                lo = mid + 1;
            } else {
                hi = mid;
            }
        }
        proof {
            lemma_count_split(self.newlines@, lo as int, offset as int);
            if offset > b.len() {
                lemma_count_all(self.newlines@, offset as int);
                lemma_count_all(self.newlines@, b.len() as int);
            }
        }
        lo + 1
    }
}

} // verus!
