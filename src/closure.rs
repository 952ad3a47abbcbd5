//! Whether a package's file can move into a unit directory: the files it
//! needs, and whether anything outside them depends on them.
use vstd::prelude::*;
use crate::path::{segs, within, is_within, TreePath};
use crate::index::GlobalIndex;

verus! {

/// File `f` is reached from file `p` in at most `n` reference steps.
pub open spec fn reach(g: &GlobalIndex, p: int, f: int, n: nat) -> bool
    decreases n,
{
    if n == 0 {
        f == p
    } else {
        reach(g, p, f, (n - 1) as nat) || exists|s: int, i: int|
            0 <= s < g.paths@.len() && 0 <= i < g.refs(s).len() && reach(g, p, s, (n - 1) as nat)
                && g.refs(s)[i].target == f
    }
}

/// File `f` belongs to the closure of `p`: `p` itself, and every file a file
/// of the closure references.
pub open spec fn in_closure(g: &GlobalIndex, p: int, f: int) -> bool {
    exists|n: nat| reach(g, p, f, n)
}

/// The directory holding the file at position `p`.
pub open spec fn dir_of(g: &GlobalIndex, p: int) -> Seq<Seq<char>> {
    segs(&g.paths@[p]).drop_last()
}

/// Reference `i` of file `s` survives moving the directory of `p`.
pub open spec fn ref_moves_along(g: &GlobalIndex, p: int, s: int, i: int) -> bool {
    within(segs(&g.refs(s)[i].movable_ancestor), dir_of(g, p))
}

/// The pointer `(by, index)` is one the move may ignore: the declaration on
/// `line` of the catalog file, or a reference from inside the closure.
pub open spec fn pointer_allowed(g: &GlobalIndex, catalog: int, line: usize, p: int, by: usize, index: usize) -> bool {
    (by == catalog && g.refs(by as int)[index as int].line == line) || in_closure(g, p, by as int)
}

/// The file at position `p`, declared on `line` of the catalog file, can move
/// with its closure: every reference made in the closure survives the move of
/// `p`'s directory, and nothing outside the closure but that declaration
/// depends on a file of the closure.
pub open spec fn migratable(g: &GlobalIndex, catalog: int, line: usize, p: int) -> bool {
    &&& forall|s: int, i: int|
        #![trigger in_closure(g, p, s), g.refs(s)[i]]
        0 <= s < g.paths@.len() && in_closure(g, p, s) && 0 <= i < g.refs(s).len()
            ==> ref_moves_along(g, p, s, i)
    &&& forall|f: int, j: int|
        #![trigger in_closure(g, p, f), g.refd_by(f)[j]]
        0 <= f < g.paths@.len() && in_closure(g, p, f) && 0 <= j < g.refd_by(f).len()
            ==> pointer_allowed(g, catalog, line, p, g.refd_by(f)[j].0, g.refd_by(f)[j].1)
}

/// Why a file cannot move.
pub enum Rejection {
    /// Reference `index` of `file`, in the closure, would break.
    BreaksReference { file: usize, index: usize },
    /// `file`, in the closure, is referenced by reference `index` of `by`,
    /// which stays behind.
    ReferencedFromOutside { file: usize, by: usize, index: usize },
}

/// Number of `true` entries of `s`.
pub open spec fn count_true(s: Seq<bool>) -> nat
    decreases s.len(),
{
    if s.len() == 0 {
        0
    } else {
        count_true(s.drop_last()) + if s.last() { 1nat } else { 0nat }
    }
}

proof fn lemma_count_true_bound(s: Seq<bool>)
    ensures
        count_true(s) <= s.len(),
    decreases s.len(),
{
    if s.len() > 0 {
        lemma_count_true_bound(s.drop_last());
    }
}

proof fn lemma_count_true_set(s: Seq<bool>, i: int)
    requires
        0 <= i < s.len(),
        !s[i],
    ensures
        count_true(s.update(i, true)) == count_true(s) + 1,
    decreases s.len(),
{
    let t = s.update(i, true);
    if i == s.len() - 1 {
        assert(t.drop_last() == s.drop_last());
    } else {
        assert(t.drop_last() == s.drop_last().update(i, true));
        lemma_count_true_set(s.drop_last(), i);
    }
}

proof fn lemma_reach_step(g: &GlobalIndex, p: int, s: int, i: int)
    requires
        0 <= s < g.paths@.len(),
        0 <= i < g.refs(s).len(),
        in_closure(g, p, s),
    ensures
        in_closure(g, p, g.refs(s)[i].target as int),
{
    let n = choose|n: nat| reach(g, p, s, n);
    assert(reach(g, p, g.refs(s)[i].target as int, n + 1));
}

proof fn lemma_reach_within(g: &GlobalIndex, p: int, seen: Seq<bool>, f: int, n: nat)
    requires
        seen.len() == g.paths@.len(),
        0 <= p < seen.len(),
        seen[p],
        g.wf(),
        forall|x: int, i: int|
            0 <= x < seen.len() && seen[x] && 0 <= i < g.refs(x).len() ==> #[trigger] seen[g.refs(
                x,
            )[i].target as int],
        reach(g, p, f, n),
    ensures
        0 <= f < seen.len() && seen[f],
    decreases n,
{
    if n > 0 {
        if reach(g, p, f, (n - 1) as nat) {
            lemma_reach_within(g, p, seen, f, (n - 1) as nat);
        } else {
            let (s, i) = choose|s: int, i: int|
                0 <= s < g.paths@.len() && 0 <= i < g.refs(s).len() && reach(g, p, s, (n - 1) as nat)
                    && g.refs(s)[i].target == f;
            lemma_reach_within(g, p, seen, s, (n - 1) as nat);
            assert(g.refs(s)[i].target < g.paths@.len());
        }
    }
}

/// Decides whether the file at position `entry`, declared on line `line` of
/// the catalog file at position `catalog`, can move with its closure; gives
/// the closure, `entry` first, or the first obstacle found.
pub fn check_closure(g: &GlobalIndex, catalog: usize, line: usize, entry: usize) -> (r: Result<Vec<usize>, Rejection>)
    requires
        g.wf(),
        entry < g.paths@.len(),
        catalog < g.paths@.len(),
        g.paths@[entry as int]@.len() > 0,
    ensures
        r is Ok <==> migratable(g, catalog as int, line, entry as int),
        r is Ok ==> {
            &&& r->Ok_0@.len() > 0
            &&& r->Ok_0@[0] == entry
            &&& forall|k: int| 0 <= k < r->Ok_0@.len() ==> #[trigger] r->Ok_0@[k] < g.paths@.len()
            &&& forall|f: int| 0 <= f < g.paths@.len() ==> (r->Ok_0@.contains(f as usize) <==> in_closure(g, entry as int, f))
        },
        match r {
            Err(Rejection::BreaksReference { file, index }) => {
                &&& file < g.paths@.len()
                &&& in_closure(g, entry as int, file as int)
                &&& index < g.refs(file as int).len()
                &&& !ref_moves_along(g, entry as int, file as int, index as int)
            },
            Err(Rejection::ReferencedFromOutside { file, by, index }) => {
                &&& file < g.paths@.len()
                &&& in_closure(g, entry as int, file as int)
                &&& g.refd_by(file as int).contains((by, index))
                &&& !pointer_allowed(g, catalog as int, line, entry as int, by, index)
            },
            Ok(_) => true,
        },
{
    let n = g.paths.len();
    let mut dir: TreePath = crate::path::copy_path(&g.paths[entry]);
    dir.pop();
    assert(segs(&dir) =~= dir_of(g, entry as int));
    let mut seen: Vec<bool> = vec![false; n];
    let mut order: Vec<usize> = Vec::new();
    seen.set(entry, true);
    order.push(entry);
    proof {
        assert forall|x: int| 0 <= x < n implies (#[trigger] seen@[x] <==> order@.contains(x as usize)) by {
            if x == entry {
                assert(order@[0] == entry);
            } else if order@.contains(x as usize) {
                let w = choose|w: int| 0 <= w < order@.len() && order@[w] == x as usize;
                assert(w == 0);
            }
        }
        assert(reach(g, entry as int, entry as int, 0));
        assert(count_true(seen@) == 1) by {
            let z = Seq::new(n as nat, |_i: int| false);
            assert(seen@ == z.update(entry as int, true));
            assert(count_true(z) == 0) by {
                lemma_count_zero(z);
            }
            lemma_count_true_set(z, entry as int);
        }
    }
    let mut head: usize = 0;
    while head < order.len()
        invariant
            g.wf(),
            n == g.paths@.len(),
            seen@.len() == n,
            segs(&dir) == dir_of(g, entry as int),
            entry < n,
            order@.len() > 0,
            order@[0] == entry,
            head <= order@.len(),
            order@.len() == count_true(seen@),
            order@.len() <= n,
            forall|j: int| 0 <= j < order@.len() ==> #[trigger] order@[j] < n,
            forall|x: int| 0 <= x < n ==> (#[trigger] seen@[x] <==> order@.contains(x as usize)),
            forall|j: int| 0 <= j < order@.len() ==> in_closure(g, entry as int, #[trigger] order@[j] as int),
            forall|j: int, i: int|
                #![trigger g.refs(order@[j] as int)[i]]
                0 <= j < head && 0 <= i < g.refs(order@[j] as int).len() ==> ref_moves_along(
                    g,
                    entry as int,
                    order@[j] as int,
                    i,
                ) && seen@[g.refs(order@[j] as int)[i].target as int],
        decreases 2 * n - order@.len() - head + n,
    {
        proof {
            lemma_count_true_bound(seen@);
        }
        let f = order[head];
        let m = g.path_indices[f].references.len();
        let mut i: usize = 0;
        let ghost start_len = order@.len();
        while i < m
            invariant
                g.wf(),
                order@.len() >= start_len,
                order@.len() <= n,
                n == g.paths@.len(),
                seen@.len() == n,
                segs(&dir) == dir_of(g, entry as int),
                entry < n,
                order@.len() > 0,
                order@[0] == entry,
                head < order@.len(),
                f == order@[head as int],
                m == g.refs(f as int).len(),
                i <= m,
                order@.len() == count_true(seen@),
                forall|j: int| 0 <= j < order@.len() ==> #[trigger] order@[j] < n,
                forall|x: int| 0 <= x < n ==> (#[trigger] seen@[x] <==> order@.contains(x as usize)),
                forall|j: int| 0 <= j < order@.len() ==> in_closure(g, entry as int, #[trigger] order@[j] as int),
                forall|j: int, k: int|
                    #![trigger g.refs(order@[j] as int)[k]]
                    0 <= j < head && 0 <= k < g.refs(order@[j] as int).len() ==> ref_moves_along(
                        g,
                        entry as int,
                        order@[j] as int,
                        k,
                    ) && seen@[g.refs(order@[j] as int)[k].target as int],
                forall|k: int|
                    #![trigger g.refs(f as int)[k]]
                    0 <= k < i ==> ref_moves_along(g, entry as int, f as int, k) && seen@[g.refs(f as int)[k].target as int],
            decreases m - i,
        {
            let r = &g.path_indices[f].references[i];
            assert(*r == g.refs(f as int)[i as int]);
            assert(in_closure(g, entry as int, order@[head as int] as int));
            if !is_within(&r.movable_ancestor, &dir) {
                return Err(Rejection::BreaksReference { file: f, index: i });
            }
            let t = r.target;
            proof {
                lemma_reach_step(g, entry as int, f as int, i as int);
            }
            if !seen[t] {
                proof {
                    lemma_count_true_set(seen@, t as int);
                    lemma_count_true_bound(seen@.update(t as int, true));
                }
                let ghost old_order = order@;
                assert(!order@.contains(t));
                seen.set(t, true);
                order.push(t);
                proof {
                    assert forall|x: int| 0 <= x < n implies (#[trigger] seen@[x] <==> order@.contains(x as usize)) by {
                        if x == t {
                            assert(order@[order@.len() - 1] == t);
                        } else if old_order.contains(x as usize) {
                            let w = choose|w: int| 0 <= w < old_order.len() && old_order[w] == x as usize;
                            assert(order@[w] == x as usize);
                        } else if order@.contains(x as usize) {
                            let w = choose|w: int| 0 <= w < order@.len() && order@[w] == x as usize;
                            assert(w < old_order.len());
                            assert(old_order[w] == x as usize);
                        }
                    }
                    assert forall|j: int| 0 <= j < order@.len() implies in_closure(g, entry as int, #[trigger] order@[j] as int) by {
                        if j < old_order.len() {
                            assert(order@[j] == old_order[j]);
                        }
                    }
                }
            }
            i = i + 1;
        }
        head = head + 1;
        proof {
            lemma_count_true_bound(seen@);
            assert forall|j: int, k: int|
                #![trigger g.refs(order@[j] as int)[k]]
                0 <= j < head && 0 <= k < g.refs(order@[j] as int).len() implies ref_moves_along(
                    g,
                    entry as int,
                    order@[j] as int,
                    k,
                ) && seen@[g.refs(order@[j] as int)[k].target as int] by {
                if j == head - 1 {
                    assert(g.refs(f as int)[k] == g.refs(order@[j] as int)[k]);
                }
            }
        }
    }
    // The closure is now exactly the files seen.
    proof {
        assert forall|x: int, i: int|
            0 <= x < seen@.len() && seen@[x] && 0 <= i < g.refs(x).len() implies #[trigger] seen@[g.refs(
                x,
            )[i].target as int] by {
            let j = choose|j: int| 0 <= j < order@.len() && order@[j] == x as usize;
            assert(g.refs(order@[j] as int)[i] == g.refs(x)[i]);
        }
        assert(seen@[entry as int]) by {
            assert(order@[0] == entry);
        }
    }
    let ghost closed = seen@;
    assert forall|f: int| 0 <= f < n implies (order@.contains(f as usize) <==> in_closure(g, entry as int, f)) by {
        if in_closure(g, entry as int, f) {
            let k = choose|k: nat| reach(g, entry as int, f, k);
            lemma_reach_within(g, entry as int, closed, f, k);
        }
        if order@.contains(f as usize) {
            let j = choose|j: int| 0 <= j < order@.len() && order@[j] == f as usize;
        }
    }
    assert forall|s: int, i: int|
        #![trigger in_closure(g, entry as int, s), g.refs(s)[i]]
        0 <= s < n && in_closure(g, entry as int, s) && 0 <= i < g.refs(s).len()
            implies ref_moves_along(g, entry as int, s, i) by {
        let j = choose|j: int| 0 <= j < order@.len() && order@[j] == s as usize;
        assert(g.refs(order@[j] as int)[i] == g.refs(s)[i]);
    }
    // Nothing outside the closure may depend on it.
    let mut j: usize = 0;
    while j < order.len()
        invariant
            g.wf(),
            n == g.paths@.len(),
            seen@.len() == n,
            closed == seen@,
            j <= order@.len(),
            forall|k: int| 0 <= k < order@.len() ==> #[trigger] order@[k] < n,
            forall|f: int| 0 <= f < n ==> (#[trigger] order@.contains(f as usize) <==> in_closure(g, entry as int, f)),
            forall|x: int| 0 <= x < n ==> (#[trigger] seen@[x] <==> order@.contains(x as usize)),
            forall|k: int, q: int|
                #![trigger g.refd_by(order@[k] as int)[q]]
                0 <= k < j && 0 <= q < g.refd_by(order@[k] as int).len() ==> pointer_allowed(
                    g,
                    catalog as int,
                    line,
                    entry as int,
                    g.refd_by(order@[k] as int)[q].0,
                    g.refd_by(order@[k] as int)[q].1,
                ),
        decreases order@.len() - j,
    {
        let f = order[j];
        let m = g.path_indices[f].referenced_by.len();
        let mut q: usize = 0;
        while q < m
            invariant
                g.wf(),
                n == g.paths@.len(),
                seen@.len() == n,
                j < order@.len(),
                f == order@[j as int],
                f < n,
                m == g.refd_by(f as int).len(),
                q <= m,
                forall|k: int| 0 <= k < order@.len() ==> #[trigger] order@[k] < n,
                forall|x: int| 0 <= x < n ==> (#[trigger] order@.contains(x as usize) <==> in_closure(g, entry as int, x)),
                forall|x: int| 0 <= x < n ==> (#[trigger] seen@[x] <==> order@.contains(x as usize)),
                forall|k: int, w: int|
                    #![trigger g.refd_by(order@[k] as int)[w]]
                    0 <= k < j && 0 <= w < g.refd_by(order@[k] as int).len() ==> pointer_allowed(
                        g,
                        catalog as int,
                        line,
                        entry as int,
                        g.refd_by(order@[k] as int)[w].0,
                        g.refd_by(order@[k] as int)[w].1,
                    ),
                forall|w: int|
                    #![trigger g.refd_by(f as int)[w]]
                    0 <= w < q ==> pointer_allowed(
                        g,
                        catalog as int,
                        line,
                        entry as int,
                        g.refd_by(f as int)[w].0,
                        g.refd_by(f as int)[w].1,
                    ),
            decreases m - q,
        {
            let (by, index) = g.path_indices[f].referenced_by[q];
            assert((by, index) == g.refd_by(f as int)[q as int]);
            assert(by < n && index < g.refs(by as int).len());
            let from_catalog = by == catalog && g.path_indices[by].references[index].line == line;
            if !from_catalog && !seen[by] {
                assert(order@.contains((f as int) as usize)) by {
                    assert(order@[j as int] == f);
                }
                assert(in_closure(g, entry as int, f as int));
                assert(g.refd_by(f as int).contains((by, index))) by {
                    assert(g.refd_by(f as int)[q as int] == (by, index));
                }
                return Err(Rejection::ReferencedFromOutside { file: f, by, index });
            }
            q = q + 1;
        }
        proof {
            assert forall|k: int, w: int|
                #![trigger g.refd_by(order@[k] as int)[w]]
                0 <= k < j + 1 && 0 <= w < g.refd_by(order@[k] as int).len() implies pointer_allowed(
                    g,
                    catalog as int,
                    line,
                    entry as int,
                    g.refd_by(order@[k] as int)[w].0,
                    g.refd_by(order@[k] as int)[w].1,
                ) by {
                if k == j {
                    assert(g.refd_by(f as int)[w] == g.refd_by(order@[k] as int)[w]);
                }
            }
        }
        j = j + 1;
    }
    assert forall|f: int, q: int|
        #![trigger in_closure(g, entry as int, f), g.refd_by(f)[q]]
        0 <= f < n && in_closure(g, entry as int, f) && 0 <= q < g.refd_by(f).len()
            implies pointer_allowed(g, catalog as int, line, entry as int, g.refd_by(f)[q].0, g.refd_by(f)[q].1) by {
        assert(order@.contains(f as usize));
        let k = choose|k: int| 0 <= k < order@.len() && order@[k] == f as usize;
        assert(g.refd_by(order@[k] as int)[q] == g.refd_by(f)[q]);
    }
    Ok(order)
}

proof fn lemma_count_zero(s: Seq<bool>)
    requires
        forall|i: int| 0 <= i < s.len() ==> !s[i],
    ensures
        count_true(s) == 0,
    decreases s.len(),
{
    if s.len() > 0 {
        lemma_count_zero(s.drop_last());
    }
}


/// A closure lying strictly inside the entry's directory, whose references are
/// all relative to their own file's directory (`./...`), and on which nothing
/// depends but itself and the one declaration, can move.
pub proof fn lemma_self_contained_moves(g: &GlobalIndex, catalog: int, line: usize, p: int)
    requires
        g.wf(),
        0 <= p < g.paths@.len(),
        g.paths@[p]@.len() > 0,
        forall|s: int|
            #![trigger in_closure(g, p, s)]
            0 <= s < g.paths@.len() && in_closure(g, p, s) ==> within(segs(&g.paths@[s]), dir_of(g, p))
                && segs(&g.paths@[s]).len() > dir_of(g, p).len(),
        forall|s: int, i: int|
            #![trigger in_closure(g, p, s), g.refs(s)[i]]
            0 <= s < g.paths@.len() && in_closure(g, p, s) && 0 <= i < g.refs(s).len() ==> segs(
                &g.refs(s)[i].movable_ancestor,
            ) == segs(&g.paths@[s]).drop_last(),
        forall|f: int, j: int|
            #![trigger in_closure(g, p, f), g.refd_by(f)[j]]
            0 <= f < g.paths@.len() && in_closure(g, p, f) && 0 <= j < g.refd_by(f).len()
                ==> pointer_allowed(g, catalog, line, p, g.refd_by(f)[j].0, g.refd_by(f)[j].1),
    ensures
        migratable(g, catalog, line, p),
{
    assert forall|s: int, i: int|
        #![trigger in_closure(g, p, s), g.refs(s)[i]]
        0 <= s < g.paths@.len() && in_closure(g, p, s) && 0 <= i < g.refs(s).len()
            implies ref_moves_along(g, p, s, i) by {
        let d = dir_of(g, p);
        let a = segs(&g.paths@[s]);
        assert(a.drop_last().subrange(0, d.len() as int) =~= a.subrange(0, d.len() as int));
    }
}

/// Where some file `z` outside the closure, other than the declaration,
/// references a file of the closure, the entry cannot move; and where every
/// other dependent is allowed, every obstacle of that kind is `z`.
pub proof fn lemma_outside_reference_blocks(
    g: &GlobalIndex,
    catalog: int,
    line: usize,
    p: int,
    f: int,
    j: int,
    z: usize,
)
    requires
        g.wf(),
        0 <= p < g.paths@.len(),
        0 <= f < g.paths@.len(),
        in_closure(g, p, f),
        0 <= j < g.refd_by(f).len(),
        g.refd_by(f)[j].0 == z,
        !in_closure(g, p, z as int),
        !(z == catalog && g.refs(z as int)[g.refd_by(f)[j].1 as int].line == line),
    ensures
        !migratable(g, catalog, line, p),
        (forall|x: int, k: int|
            #![trigger g.refd_by(x)[k]]
            0 <= x < g.paths@.len() && in_closure(g, p, x) && 0 <= k < g.refd_by(x).len()
                ==> pointer_allowed(g, catalog, line, p, g.refd_by(x)[k].0, g.refd_by(x)[k].1)
                || g.refd_by(x)[k].0 == z) ==> forall|x: int, by: usize, index: usize|
            0 <= x < g.paths@.len() && in_closure(g, p, x) && g.refd_by(x).contains((by, index))
                && !pointer_allowed(g, catalog, line, p, by, index) ==> by == z,
{
    assert(!pointer_allowed(g, catalog, line, p, g.refd_by(f)[j].0, g.refd_by(f)[j].1));
}


proof fn lemma_within_trans(a: Seq<Seq<char>>, b: Seq<Seq<char>>, c: Seq<Seq<char>>)
    requires
        within(a, b),
        within(b, c),
    ensures
        within(a, c),
{
    assert(a.subrange(0, b.len() as int).subrange(0, c.len() as int) =~= a.subrange(0, c.len() as int));
}

/// Every file of a closure that can move lies at or below the entry file's
/// directory.
pub proof fn lemma_closure_within(g: &GlobalIndex, catalog: int, line: usize, p: int, f: int)
    requires
        g.wf(),
        0 <= p < g.paths@.len(),
        0 <= f < g.paths@.len(),
        g.paths@[p]@.len() > 0,
        migratable(g, catalog, line, p),
        in_closure(g, p, f),
    ensures
        within(segs(&g.paths@[f]), dir_of(g, p)),
{
    let n = choose|n: nat| reach(g, p, f, n);
    lemma_reach_within_dir(g, catalog, line, p, f, n);
}

proof fn lemma_reach_within_dir(g: &GlobalIndex, catalog: int, line: usize, p: int, f: int, n: nat)
    requires
        g.wf(),
        0 <= p < g.paths@.len(),
        0 <= f < g.paths@.len(),
        g.paths@[p]@.len() > 0,
        migratable(g, catalog, line, p),
        reach(g, p, f, n),
    ensures
        within(segs(&g.paths@[f]), dir_of(g, p)),
    decreases n,
{
    if n == 0 {
        let a = segs(&g.paths@[p]);
        assert(a.subrange(0, a.drop_last().len() as int) =~= a.drop_last());
    } else if reach(g, p, f, (n - 1) as nat) {
        lemma_reach_within_dir(g, catalog, line, p, f, (n - 1) as nat);
    } else {
        let (s, i) = choose|s: int, i: int|
            0 <= s < g.paths@.len() && 0 <= i < g.refs(s).len() && reach(g, p, s, (n - 1) as nat)
                && g.refs(s)[i].target == f;
        assert(in_closure(g, p, s));
        assert(ref_moves_along(g, p, s, i));
        let r = g.refs(s)[i];
        lemma_within_trans(segs(&r.rel_to_root), segs(&r.movable_ancestor), dir_of(g, p));
    }
}

} // verus!
