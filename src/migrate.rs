//! The relocation of one package: where each file of its closure goes.
use vstd::prelude::*;
use crate::path::{TreePath, segs, within, copy_path, same_path};
use crate::index::GlobalIndex;
use crate::closure::{check_closure, migratable, in_closure, lemma_closure_within, Rejection};
use crate::unit::{attr_shard_dir, shard_key};

verus! {

/// One file to move.
pub struct Move {
    pub from: TreePath,
    pub to: TreePath,
}

/// Why a package stays where it is.
pub enum MigrationError {
    /// The declaration's path did not resolve to a known file.
    Unresolved,
    /// The closure check refused it.
    Rejected(Rejection),
    /// The declaration names the root of the tree, which is no file.
    TargetIsRoot,
}

/// The name of the entry file of every unit directory.
pub open spec fn entry_file_name() -> Seq<char> {
    "pkg-fun.nix"@
}

/// Where the file at `from` goes when the directory `dir` of the entry file
/// `entry` moves into unit directory `unit`: the same place below `unit`, the
/// entry file itself under the canonical name.
pub open spec fn destination(unit: Seq<Seq<char>>, dir: Seq<Seq<char>>, entry: Seq<Seq<char>>, from: Seq<Seq<char>>) -> Seq<Seq<char>> {
    if from == entry {
        unit.push(entry_file_name())
    } else {
        unit + from.subrange(dir.len() as int, from.len() as int)
    }
}

/// The reference of the catalog file at `catalog` that the declaration on
/// `line` with path `text` made.
pub open spec fn declared_target(g: &GlobalIndex, catalog: int, line: usize, text: Seq<char>, target: usize) -> bool {
    exists|i: int|
        0 <= i < g.refs(catalog).len() && g.refs(catalog)[i].line == line && g.refs(catalog)[i].text@ == text
            && g.refs(catalog)[i].target == target
}

/// `moves` relocate the closure of the file at `p`, which the declaration on
/// `line` with path `text` names and which can move, into its unit directory.
pub open spec fn planned(
    g: &GlobalIndex,
    catalog: int,
    line: usize,
    text: Seq<char>,
    unit_root: Seq<Seq<char>>,
    attr: Seq<char>,
    moves: Seq<Move>,
    p: usize,
) -> bool {
    &&& p < g.paths@.len()
    &&& declared_target(g, catalog, line, text, p)
    &&& migratable(g, catalog, line, p as int)
    &&& forall|f: int|
        0 <= f < g.paths@.len() ==> (in_closure(g, p as int, f) <==> exists|m: int|
            0 <= m < moves.len() && segs(&moves[m].from) == segs(&g.paths@[f]))
    &&& forall|m: int|
        0 <= m < moves.len() ==> segs(&(#[trigger] moves[m]).to) == destination(
            unit_root.push(shard_key(attr)).push(attr),
            segs(&g.paths@[p as int]).drop_last(),
            segs(&g.paths@[p as int]),
            segs(&moves[m].from),
        )
}

fn declared_file(g: &GlobalIndex, catalog: usize, line: usize, text: &String) -> (r: Option<usize>)
    requires
        g.wf(),
        catalog < g.paths@.len(),
    ensures
        match r {
            Some(t) => t < g.paths@.len() && declared_target(g, catalog as int, line, text@, t),
            None => forall|t: usize| !declared_target(g, catalog as int, line, text@, t),
        },
{
    let n = g.path_indices[catalog].references.len();
    let mut i: usize = 0;
    while i < n
        invariant
            g.wf(),
            catalog < g.paths@.len(),
            n == g.refs(catalog as int).len(),
            i <= n,
            forall|k: int| 0 <= k < i ==> !(#[trigger] g.refs(catalog as int)[k].line == line && g.refs(catalog as int)[k].text@ == text@),
        decreases n - i,
    {
        let r = &g.path_indices[catalog].references[i];
        assert(*r == g.refs(catalog as int)[i as int]);
        if r.line == line && r.text == *text {
            return Some(r.target);
        }
        i = i + 1;
    }
    None
}

/// Plans the move of the package `attr`, declared on `line` of the catalog
/// file at position `catalog` with path `text`, into
/// `unit_root/<shard>/<attr>`: the position of its entry file and the files
/// of its closure, each to its destination; or why it cannot move.
pub fn plan_migration(
    g: &GlobalIndex,
    catalog: usize,
    attr: &String,
    line: usize,
    text: &String,
    unit_root: &TreePath,
) -> (r: Result<(usize, Vec<Move>), MigrationError>)
    requires
        g.wf(),
        catalog < g.paths@.len(),
    ensures
        match r {
            Ok((p, moves)) => planned(g, catalog as int, line, text@, segs(unit_root), attr@, moves@, p),
            Err(MigrationError::Unresolved) => forall|t: usize| !declared_target(g, catalog as int, line, text@, t),
            Err(MigrationError::Rejected(_)) => exists|p: usize|
                p < g.paths@.len() && declared_target(g, catalog as int, line, text@, p) && !migratable(
                    g,
                    catalog as int,
                    line,
                    p as int,
                ),
            Err(MigrationError::TargetIsRoot) => exists|p: usize|
                p < g.paths@.len() && declared_target(g, catalog as int, line, text@, p) && g.paths@[p as int]@.len() == 0,
        },
{
    let p = match declared_file(g, catalog, line, text) {
        Some(p) => p,
        None => {
            return Err(MigrationError::Unresolved);
        },
    };
    if g.paths[p].len() == 0 {
        return Err(MigrationError::TargetIsRoot);
    }
    let closure = match check_closure(g, catalog, line, p) {
        Ok(c) => c,
        Err(e) => {
            assert(!migratable(g, catalog as int, line, p as int));
            assert(declared_target(g, catalog as int, line, text@, p));
            return Err(MigrationError::Rejected(e));
        },
    };
    let mut dir = copy_path(&g.paths[p]);
    dir.pop();
    assert(segs(&dir) =~= segs(&g.paths@[p as int]).drop_last());
    let mut unit = copy_path(unit_root);
    unit.push(attr_shard_dir(attr));
    unit.push(attr.clone());
    let ghost u = segs(&unit);
    assert(u =~= segs(unit_root).push(shard_key(attr@)).push(attr@));
    let mut moves: Vec<Move> = Vec::new();
    let mut i: usize = 0;
    while i < closure.len()
        invariant
            g.wf(),
            p < g.paths@.len(),
            segs(&dir) == segs(&g.paths@[p as int]).drop_last(),
            u == segs(&unit),
            u == segs(unit_root).push(shard_key(attr@)).push(attr@),
            catalog < g.paths@.len(),
            g.paths@[p as int]@.len() > 0,
            migratable(g, catalog as int, line, p as int),
            forall|f: int| 0 <= f < g.paths@.len() ==> (closure@.contains(f as usize) <==> in_closure(g, p as int, f)),
            forall|k: int| 0 <= k < closure@.len() ==> #[trigger] closure@[k] < g.paths@.len(),
            i <= closure@.len(),
            moves@.len() == i,
            forall|m: int| 0 <= m < i ==> segs(&(#[trigger] moves@[m]).from) == segs(&g.paths@[closure@[m] as int]),
            forall|m: int|
                0 <= m < i ==> segs(&(#[trigger] moves@[m]).to) == destination(
                    u,
                    segs(&dir),
                    segs(&g.paths@[p as int]),
                    segs(&moves@[m].from),
                ),
        decreases closure@.len() - i,
    {
        let f = closure[i];
        let from = copy_path(&g.paths[f]);
        proof {
            assert(closure@[i as int] == f);
            assert(closure@.contains((f as int) as usize));
            lemma_closure_within(g, catalog as int, line, p as int, f as int);
            assert(within(segs(&from), segs(&dir)));
        }
        let mut to = copy_path(&unit);
        if same_path(&from, &g.paths[p]) {
            to.push(String::from_str("pkg-fun.nix"));
            assert(segs(&to) =~= u.push(entry_file_name()));
        } else {
            let mut k: usize = dir.len();
            while k < from.len()
                invariant
                    dir@.len() <= k <= from@.len(),
                    segs(&to) == u + segs(&from).subrange(dir@.len() as int, k as int),
                decreases from@.len() - k,
            {
                let ghost before = segs(&to);
                let piece = from[k].clone();
                to.push(piece);
                assert(segs(&to) == before.push(segs(&from)[k as int]));
                assert(segs(&to) =~= u + segs(&from).subrange(dir@.len() as int, k + 1));
                k = k + 1;
            }
        }
        moves.push(Move { from, to });
        i = i + 1;
    }
    proof {
        assert forall|f: int|
            0 <= f < g.paths@.len() implies (in_closure(g, p as int, f) <==> exists|m: int|
                0 <= m < moves@.len() && segs(&moves@[m].from) == segs(&g.paths@[f])) by {
            if in_closure(g, p as int, f) {
                assert(closure@.contains(f as usize));
                let m = choose|m: int| 0 <= m < closure@.len() && closure@[m] == f as usize;
                assert(segs(&moves@[m].from) == segs(&g.paths@[f]));
            }
            if exists|m: int| 0 <= m < moves@.len() && segs(&moves@[m].from) == segs(&g.paths@[f]) {
                let m = choose|m: int| 0 <= m < moves@.len() && segs(&moves@[m].from) == segs(&g.paths@[f]);
                let c = closure@[m] as int;
                assert(segs(&g.paths@[c]) == segs(&g.paths@[f]));
                if c != f {
                    if c < f {
                        assert(segs(&g.paths@[c]) != segs(&g.paths@[f]));
                    } else {
                        assert(segs(&g.paths@[f]) != segs(&g.paths@[c]));
                    }
                }
                assert(closure@.contains(c as usize));
            }
        }
        assert(migratable(g, catalog as int, line, p as int));
        assert(declared_target(g, catalog as int, line, text@, p));
        assert(planned(g, catalog as int, line, text@, segs(unit_root), attr@, moves@, p));
    }
    Ok((p, moves))
}


/// Claims the files at positions `files` for one package, where no package
/// before it claimed any of them; a package whose files overlap an earlier
/// one's is left where it is.
pub fn claim_files(claimed: &mut Vec<bool>, files: &Vec<usize>) -> (r: bool)
    requires
        forall|i: int| 0 <= i < files@.len() ==> #[trigger] files@[i] < old(claimed)@.len(),
    ensures
        final(claimed)@.len() == old(claimed)@.len(),
        r == forall|i: int| 0 <= i < files@.len() ==> !old(claimed)@[#[trigger] files@[i] as int],
        r ==> forall|x: int| 0 <= x < old(claimed)@.len() ==> #[trigger] final(claimed)@[x] == (old(claimed)@[x] || files@.contains(x as usize)),
        !r ==> final(claimed)@ == old(claimed)@,
{
    let mut i: usize = 0;
    while i < files.len()
        invariant
            forall|j: int| 0 <= j < files@.len() ==> #[trigger] files@[j] < claimed@.len(),
            claimed@ == old(claimed)@,
            i <= files@.len(),
            forall|j: int| 0 <= j < i ==> !claimed@[#[trigger] files@[j] as int],
        decreases files@.len() - i,
    {
        if claimed[files[i]] {
            return false;
        }
        i = i + 1;
    }
    let n = claimed.len();
    let mut i: usize = 0;
    while i < files.len()
        invariant
            n == old(claimed)@.len(),
            forall|j: int| 0 <= j < files@.len() ==> #[trigger] files@[j] < old(claimed)@.len(),
            forall|j: int| 0 <= j < files@.len() ==> !old(claimed)@[#[trigger] files@[j] as int],
            claimed@.len() == old(claimed)@.len(),
            i <= files@.len(),
            forall|x: int| 0 <= x < old(claimed)@.len() ==> #[trigger] claimed@[x] == (old(claimed)@[x] || files@.take(i as int).contains(x as usize)),
        decreases files@.len() - i,
    {
        let ghost before = claimed@;
        claimed.set(files[i], true);
        proof {
            assert forall|x: int| 0 <= x < old(claimed)@.len() implies #[trigger] claimed@[x] == (old(claimed)@[x] || files@.take(i as int + 1).contains(x as usize)) by {
                assert(files@.take(i as int + 1) == files@.take(i as int).push(files@[i as int]));
                if x == files@[i as int] as int {
                    assert(files@.take(i as int + 1)[i as int] == x as usize);
                } else {
                    let f0 = files@.take(i as int);
                    let f1 = files@.take(i as int + 1);
                    if f0.contains(x as usize) {
                        let w = choose|w: int| 0 <= w < f0.len() && #[trigger] f0[w] == x as usize;
                        assert(f1[w] == x as usize);
                    } else if f1.contains(x as usize) {
                        let w = choose|w: int| 0 <= w < f1.len() && #[trigger] f1[w] == x as usize;
                        assert(f1[i as int] == files@[i as int]);
                        assert(w < i);
                        assert(f0[w] == x as usize);
                    }
                }
            }
        }
        i = i + 1;
    }
    assert(files@.take(i as int) == files@);
    true
}

} // verus!
