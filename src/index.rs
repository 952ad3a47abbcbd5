//! The reference graph over a source tree: every path below the root, the
//! path references each file makes, and who references each path.
use vstd::prelude::*;
use vstd::hash_map::StringHashMap;
use vstd::string::*;
use vstd::utf8::encode_utf8;
use crate::line_index::{LineIndex, newlines_before};
use crate::syntax::{SyntaxTree, StepView, parse, nix_walk};
use crate::extract::{PathShape, path_occurrences, path_nodes, occurrences_view};
use crate::path::{TreePath, segs, pieces, key_of, within, split_pieces, same_path, path_key, copy_path, lemma_pieces_nonempty};

verus! {

/// One resolved path reference.
#[derive(Debug, Clone, PartialEq, Eq, Hash)]
pub struct Reference {
    /// The line of the literal in its file.
    pub line: usize,
    /// The largest directory holding the referencing file that can be moved
    /// as a whole without breaking the reference: for `./foo` the file's own
    /// directory, for `../bar` the one above it.
    pub movable_ancestor: TreePath,
    /// The referenced path, below the root; a directory's index file where it
    /// has one.
    pub rel_to_root: TreePath,
    /// The position of `rel_to_root` among the index's paths.
    pub target: usize,
    /// The literal as written.
    pub text: String,
}

/// What one path makes and receives: its outgoing references, in the order
/// they were found, and pointers `(file, position in that file's references)`
/// to each reference that depends on it.
#[derive(Debug, Clone)]
pub struct PathIndex {
    pub references: Vec<Reference>,
    pub referenced_by: Vec<(usize, usize)>,
}

impl PathIndex {
    pub fn new() -> (r: PathIndex)
        ensures
            r.references@.len() == 0,
            r.referenced_by@.len() == 0,
    {
        PathIndex { references: Vec::new(), referenced_by: Vec::new() }
    }
}

/// Every known path of a tree with its `PathIndex`; `paths[k]` belongs to
/// `path_indices[k]`.
pub struct GlobalIndex {
    pub paths: Vec<TreePath>,
    pub path_indices: Vec<PathIndex>,
    /// The positions of the paths filed under each key.
    pub keys: StringHashMap<Vec<usize>>,
}

/// Why a reference did not resolve.
#[derive(PartialEq, Eq, Structural, Clone, Copy, Debug)]
pub enum ResolveFailure {
    /// It starts at the file system root.
    Absolute,
    /// A `..` follows a descending segment.
    InterleavedParent,
    /// It climbs above the tree root.
    EscapesRoot,
    /// It passes through a path that the tree does not hold (missing or
    /// ignored).
    Unknown,
}

/// A rejected reference: the reason, and for `Unknown` the first path that
/// is not known.
pub struct ResolveError {
    pub failure: ResolveFailure,
    pub path: TreePath,
}

/// A resolved reference: the pieces walked from the referencing file's
/// directory (the index file name appended where it was substituted), the
/// movable ancestor, and the target below the root with its position.
pub struct Resolved {
    pub pieces: Vec<String>,
    pub movable_ancestor: TreePath,
    pub rel_to_root: TreePath,
    pub target: usize,
}

/// The name of a directory's index file.
pub open spec fn index_file() -> Seq<char> {
    "default.nix"@
}

pub open spec fn is_cur(p: Seq<char>) -> bool {
    p.len() == 0 || p == seq!['.']
}

pub open spec fn is_parent(p: Seq<char>) -> bool {
    p == seq!['.', '.']
}

pub type Walked = (Seq<Seq<char>>, Seq<Seq<char>>, bool);

pub type Failed = (ResolveFailure, Seq<Seq<char>>);

/// The pieces walked, the movable ancestor and the target of a resolution.
pub type Found = (Seq<Seq<char>>, Seq<Seq<char>>, Seq<Seq<char>>);

/// Walks the pieces `ps` from the state (movable ancestor, current path,
/// still ascending).
pub open spec fn walk(
    known: Set<Seq<Seq<char>>>,
    anc: Seq<Seq<char>>,
    rel: Seq<Seq<char>>,
    ascending: bool,
    ps: Seq<Seq<char>>,
) -> Result<Walked, Failed>
    decreases ps.len(),
{
    if ps.len() == 0 {
        Ok((anc, rel, ascending))
    } else {
        let p = ps[0];
        let rest = ps.drop_first();
        if is_cur(p) {
            walk(known, anc, rel, ascending, rest)
        } else if is_parent(p) {
            if !ascending {
                Err((ResolveFailure::InterleavedParent, rel))
            } else if anc.len() == 0 {
                Err((ResolveFailure::EscapesRoot, anc))
            } else {
                walk(known, anc.drop_last(), anc.drop_last(), true, rest)
            }
        } else if known.contains(rel.push(p)) {
            walk(known, anc, rel.push(p), false, rest)
        } else {
            Err((ResolveFailure::Unknown, rel.push(p)))
        }
    }
}

pub open spec fn is_absolute(text: Seq<char>) -> bool {
    text.len() > 0 && text[0] == '/'
}

/// The resolution of reference `text` made by the file at `source`, against
/// the paths `known`: the pieces walked, the movable ancestor and the target.
pub open spec fn resolve_spec(
    known: Set<Seq<Seq<char>>>,
    source: Seq<Seq<char>>,
    text: Seq<char>,
) -> Result<Found, Failed> {
    let dir = source.drop_last();
    if is_absolute(text) {
        Err((ResolveFailure::Absolute, Seq::empty()))
    } else {
        match walk(known, dir, dir, true, pieces(text)) {
            Err(e) => Err(e),
            Ok(w) => if known.contains(w.1.push(index_file())) {
                Ok((pieces(text).push(index_file()), w.0, w.1.push(index_file())))
            } else if known.contains(w.1) {
                Ok((pieces(text), w.0, w.1))
            } else {
                Err((ResolveFailure::Unknown, w.1))
            },
        }
    }
}

impl GlobalIndex {
    /// The paths the index holds.
    pub open spec fn known(&self) -> Set<Seq<Seq<char>>> {
        Set::new(|p: Seq<Seq<char>>| exists|j: int| 0 <= j < self.paths@.len() && segs(&self.paths@[j]) == p)
    }

    pub open spec fn refs(&self, k: int) -> Seq<Reference> {
        self.path_indices@[k].references@
    }

    pub open spec fn refd_by(&self, k: int) -> Seq<(usize, usize)> {
        self.path_indices@[k].referenced_by@
    }

    pub open spec fn wf(&self) -> bool {
        &&& self.paths@.len() == self.path_indices@.len()
        &&& self.paths@.len() <= usize::MAX
        &&& forall|i: int, j: int|
            0 <= i < j < self.paths@.len() ==> segs(&self.paths@[i]) != segs(&self.paths@[j])
        &&& forall|j: int|
            0 <= j < self.paths@.len() ==> {
                let key = key_of(#[trigger] segs(&self.paths@[j]));
                self.keys@.contains_key(key) && self.keys@[key]@.contains(j as usize)
            }
        &&& forall|key: Seq<char>, i: int|
            #![trigger self.keys@[key]@[i]]
            self.keys@.contains_key(key) && 0 <= i < self.keys@[key]@.len() ==> self.keys@[key]@[i]
                < self.paths@.len()
        &&& forall|k: int, i: int|
            #![trigger self.refs(k)[i]]
            0 <= k < self.paths@.len() && 0 <= i < self.refs(k).len() ==> {
                let r = self.refs(k)[i];
                r.target < self.paths@.len() && segs(&self.paths@[r.target as int]) == segs(
                    &r.rel_to_root,
                ) && within(segs(&r.rel_to_root), segs(&r.movable_ancestor))
            }
        &&& forall|k: int, i: int|
            #![trigger self.refd_by(k)[i]]
            0 <= k < self.paths@.len() && 0 <= i < self.refd_by(k).len() ==> {
                let (f, n) = self.refd_by(k)[i];
                f < self.paths@.len() && n < self.refs(f as int).len()
            }
    }

    /// An index of the paths `paths`, each once, with nothing referenced yet.
    pub fn new(paths: Vec<TreePath>) -> (r: GlobalIndex)
        ensures
            r.wf(),
            forall|p: Seq<Seq<char>>|
                r.known().contains(p) <==> exists|i: int|
                    0 <= i < paths@.len() && segs(&paths@[i]) == p,
            forall|k: int|
                0 <= k < r.paths@.len() ==> r.refs(k).len() == 0 && r.refd_by(k).len() == 0,
    {
        let mut index = GlobalIndex {
            paths: Vec::new(),
            path_indices: Vec::new(),
            keys: StringHashMap::new(),
        };
        let mut i: usize = 0;
        while i < paths.len()
            invariant
                i <= paths@.len(),
                index.wf(),
                index.paths@.len() <= i,
                forall|p: Seq<Seq<char>>|
                    index.known().contains(p) <==> exists|j: int|
                        0 <= j < i && segs(&paths@[j]) == p,
                forall|k: int|
                    0 <= k < index.paths@.len() ==> index.refs(k).len() == 0 && index.refd_by(
                        k,
                    ).len() == 0,
            decreases paths@.len() - i,
        {
            let ghost before = index.known();
            let p = &paths[i];
            if index.find(p).is_none() {
                let ghost mid = index;
                index.insert_path(copy_path(p));
                proof {
                    assert forall|k: int| 0 <= k < index.paths@.len() implies index.refs(k).len()
                        == 0 && index.refd_by(k).len() == 0 by {
                        if k < mid.paths@.len() {
                            assert(index.path_indices@[k] == mid.path_indices@[k]);
                            assert(mid.refs(k).len() == 0);
                        } else {
                            assert(k == mid.paths@.len());
                        }
                    }
                }
            }
            proof {
                assert forall|q: Seq<Seq<char>>|
                    index.known().contains(q) <==> exists|j: int|
                        0 <= j < i + 1 && segs(&paths@[j]) == q by {
                    if index.known().contains(q) && !before.contains(q) {
                        assert(segs(&paths@[i as int]) == q);
                    }
                    if exists|j: int| 0 <= j < i + 1 && segs(&paths@[j]) == q {
                        let j = choose|j: int| 0 <= j < i + 1 && segs(&paths@[j]) == q;
                        if j == i {
                            assert(index.known().contains(segs(p)));
                        } else {
                            assert(before.contains(q));
                        }
                    }
                }
            }
            i = i + 1;
        }
        index
    }

    /// Adds `p`, which the index does not hold yet.
    fn insert_path(&mut self, p: TreePath)
        requires
            old(self).wf(),
            old(self).paths@.len() < usize::MAX,
            !old(self).known().contains(segs(&p)),
        ensures
            final(self).wf(),
            final(self).known() == old(self).known().insert(segs(&p)),
            final(self).paths@.len() == old(self).paths@.len() + 1,
            forall|k: int|
                0 <= k < old(self).paths@.len() ==> final(self).path_indices@[k] == old(
                    self,
                ).path_indices@[k],
            final(self).refs(old(self).paths@.len() as int).len() == 0,
            final(self).refd_by(old(self).paths@.len() as int).len() == 0,
    {
        let n = self.paths.len();
        let key = path_key(&p);
        let mut bucket: Vec<usize> = match self.keys.get(key.as_str()) {
            Some(b) => b.clone(),
            None => Vec::new(),
        };
        let ghost old_bucket = bucket@;
        bucket.push(n);
        self.keys.insert(key, bucket);
        let ghost seg = segs(&p);
        self.paths.push(p);
        self.path_indices.push(PathIndex::new());
        proof {
            assert(segs(&self.paths@[n as int]) == seg);
            assert forall|j: int| 0 <= j < self.paths@.len() implies {
                let key = key_of(#[trigger] segs(&self.paths@[j]));
                self.keys@.contains_key(key) && self.keys@[key]@.contains(j as usize)
            } by {
                if j < n {
                    assert(self.paths@[j] == old(self).paths@[j]);
                    let kj = key_of(segs(&self.paths@[j]));
                    if kj == key_of(seg) {
                        assert(old(self).keys@[kj]@.contains(j as usize));
                        assert(old_bucket == old(self).keys@[kj]@);
                        let w = choose|w: int| 0 <= w < old_bucket.len() && old_bucket[w] == j as usize;
                        assert(self.keys@[kj]@[w] == j as usize);
                    }
                } else {
                    assert(self.keys@[key_of(seg)]@[old_bucket.len() as int] == n);
                }
            }
            assert forall|q: Seq<Seq<char>>|
                self.known().contains(q) <==> old(self).known().insert(seg).contains(q) by {
                if old(self).known().contains(q) {
                    let j = choose|j: int| 0 <= j < old(self).paths@.len() && segs(&old(self).paths@[j]) == q;
                    assert(self.paths@[j] == old(self).paths@[j]);
                }
                if self.known().contains(q) {
                    let j = choose|j: int| 0 <= j < self.paths@.len() && segs(&self.paths@[j]) == q;
                    if j < n {
                        assert(self.paths@[j] == old(self).paths@[j]);
                    }
                }
            }
            assert(self.known() =~= old(self).known().insert(seg));
            assert forall|k: int, i: int|
                #![trigger self.refs(k)[i]]
                0 <= k < self.paths@.len() && 0 <= i < self.refs(k).len() implies {
                    let r = self.refs(k)[i];
                    r.target < self.paths@.len() && segs(&self.paths@[r.target as int]) == segs(
                        &r.rel_to_root,
                    ) && within(segs(&r.rel_to_root), segs(&r.movable_ancestor))
                } by {
                assert(self.refs(k) == old(self).refs(k));
                assert(old(self).refs(k)[i] == self.refs(k)[i]);
            }
            assert forall|k: int, i: int|
                #![trigger self.refd_by(k)[i]]
                0 <= k < self.paths@.len() && 0 <= i < self.refd_by(k).len() implies {
                    let (f, m) = self.refd_by(k)[i];
                    f < self.paths@.len() && m < self.refs(f as int).len()
                } by {
                assert(self.refd_by(k) == old(self).refd_by(k));
                assert(old(self).refd_by(k)[i] == self.refd_by(k)[i]);
                let (f, m) = self.refd_by(k)[i];
                assert(self.refs(f as int) == old(self).refs(f as int));
            }
        }
    }

    /// The position of `p` among the paths, if the index holds it.
    pub fn find(&self, p: &TreePath) -> (r: Option<usize>)
        requires
            self.wf(),
        ensures
            match r {
                Some(k) => k < self.paths@.len() && segs(&self.paths@[k as int]) == segs(p),
                None => !self.known().contains(segs(p)),
            },
    {
        let key = path_key(p);
        match self.keys.get(key.as_str()) {
            None => {
                proof {
                    if self.known().contains(segs(p)) {
                        let j = choose|j: int| 0 <= j < self.paths@.len() && segs(&self.paths@[j]) == segs(p);
                        assert(key_of(segs(&self.paths@[j])) == key@);
                        assert(self.keys@.contains_key(key_of(segs(&self.paths@[j]))));
                    }
                    assert(!self.known().contains(segs(p)));
                }
                None
            },
            Some(bucket) => {
                let mut i: usize = 0;
                while i < bucket.len()
                    invariant
                        self.wf(),
                        self.keys@.contains_key(key@),
                        *bucket == self.keys@[key@],
                        key@ == key_of(segs(p)),
                        i <= bucket@.len(),
                        forall|w: int|
                            0 <= w < i ==> segs(&self.paths@[bucket@[w] as int]) != segs(p),
                    decreases bucket@.len() - i,
                {
                    let k = bucket[i];
                    assert(self.keys@[key@]@[i as int] == k);
                    assert(k < self.paths@.len());
                    if same_path(&self.paths[k], p) {
                        return Some(k);
                    }
                    i = i + 1;
                }
                proof {
                    if self.known().contains(segs(p)) {
                        let j = choose|j: int| 0 <= j < self.paths@.len() && segs(&self.paths@[j]) == segs(p);
                        assert(key_of(segs(&self.paths@[j])) == key@);
                        assert(self.keys@[key_of(segs(&self.paths@[j]))]@.contains(j as usize));
                        let w = choose|w: int| 0 <= w < bucket@.len() && bucket@[w] == j as usize;
                        assert(self.keys@[key@]@[w] < self.paths@.len());
                        assert(bucket@[w] as int == j);
                        assert(segs(&self.paths@[bucket@[w] as int]) != segs(p));
                    }
                    assert(!self.known().contains(segs(p)));
                }
                None
            },
        }
    }
}


fn piece_is_cur(p: &String) -> (r: bool)
    ensures
        r == is_cur(p@),
{
    let n = p.as_str().unicode_len();
    if n == 0 {
        true
    } else if n == 1 {
        let c = p.as_str().get_char(0);
        if c == '.' {
            assert(p@ =~= seq!['.']);
            true
        } else {
            false
        }
    } else {
        false
    }
}

fn piece_is_parent(p: &String) -> (r: bool)
    ensures
        r == is_parent(p@),
{
    let n = p.as_str().unicode_len();
    if n == 2 {
        let a = p.as_str().get_char(0);
        let b = p.as_str().get_char(1);
        if a == '.' && b == '.' {
            assert(p@ =~= seq!['.', '.']);
            true
        } else {
            false
        }
    } else {
        false
    }
}

fn path_parent(p: &TreePath) -> (r: TreePath)
    requires
        p@.len() > 0,
    ensures
        segs(&r) == segs(p).drop_last(),
{
    let mut r = copy_path(p);
    r.pop();
    assert(segs(&r) =~= segs(p).drop_last());
    r
}

fn path_join(p: &TreePath, name: String) -> (r: TreePath)
    ensures
        segs(&r) == segs(p).push(name@),
{
    let mut r = copy_path(p);
    r.push(name);
    assert(segs(&r) =~= segs(p).push(name@));
    r
}

/// Resolves the reference `reference`, made by the file at `source`, against
/// the paths that `known` holds.
pub fn resolve_reference(source: &TreePath, reference: &str, known: &GlobalIndex) -> (r: Result<
    Resolved,
    ResolveError,
>)
    requires
        known.wf(),
        source@.len() > 0,
    ensures
        match r {
            Ok(res) => {
                &&& resolve_spec(known.known(), segs(source), reference@) == Ok::<Found, Failed>(
                    (res.pieces.deep_view(), segs(&res.movable_ancestor), segs(&res.rel_to_root)),
                )
                &&& res.target < known.paths@.len()
                &&& segs(&known.paths@[res.target as int]) == segs(&res.rel_to_root)
                &&& within(segs(&res.rel_to_root), segs(&res.movable_ancestor))
            },
            Err(e) => resolve_spec(known.known(), segs(source), reference@) == Err::<Found, Failed>(
                (e.failure, segs(&e.path)),
            ),
        },
{
    let n = reference.unicode_len();
    if n > 0 {
        let c = reference.get_char(0);
        if c == '/' {
            let none: TreePath = Vec::new();
            assert(segs(&none) =~= Seq::<Seq<char>>::empty());
            return Err(ResolveError { failure: ResolveFailure::Absolute, path: none });
        }
    }
    let ps = split_pieces(reference);
    let dir = path_parent(source);
    let mut anc = copy_path(&dir);
    let mut rel = dir;
    let mut ascending = true;
    let ghost k = known.known();
    let ghost d = segs(source).drop_last();
    let mut i: usize = 0;
    assert(ps.deep_view().skip(0) == ps.deep_view());
    assert(!is_absolute(reference@));
    while i < ps.len()
        invariant
            known.wf(),
            k == known.known(),
            d == segs(source).drop_last(),
            !is_absolute(reference@),
            i <= ps@.len(),
            ps.deep_view() == pieces(reference@),
            walk(k, d, d, true, ps.deep_view()) == walk(
                k,
                segs(&anc),
                segs(&rel),
                ascending,
                ps.deep_view().skip(i as int),
            ),
        decreases ps@.len() - i,
    {
        let ghost rest = ps.deep_view().skip(i as int);
        assert(rest.drop_first() == ps.deep_view().skip(i as int + 1));
        assert(rest[0] == ps@[i as int]@);
        let p = &ps[i];
        if piece_is_cur(p) {
        } else if piece_is_parent(p) {
            if !ascending {
                assert(walk(k, segs(&anc), segs(&rel), ascending, rest) == Err::<Walked, Failed>(
                    (ResolveFailure::InterleavedParent, segs(&rel)),
                ));

                return Err(ResolveError { failure: ResolveFailure::InterleavedParent, path: rel });
            }
            if anc.len() == 0 {
                assert(walk(k, segs(&anc), segs(&rel), ascending, rest) == Err::<Walked, Failed>(
                    (ResolveFailure::EscapesRoot, segs(&anc)),
                ));
                return Err(ResolveError { failure: ResolveFailure::EscapesRoot, path: anc });
            }
            anc = path_parent(&anc);
            rel = copy_path(&anc);
        } else {
            let next = path_join(&rel, p.clone());
            if known.find(&next).is_none() {
                assert(walk(k, segs(&anc), segs(&rel), ascending, rest) == Err::<Walked, Failed>(
                    (ResolveFailure::Unknown, segs(&next)),
                ));
                return Err(ResolveError { failure: ResolveFailure::Unknown, path: next });
            }
            rel = next;
            ascending = false;
        }
        i = i + 1;
    }
    assert(ps.deep_view().skip(i as int).len() == 0);
    proof {
        if resolve_spec(k, segs(source), reference@) is Ok {
            lemma_resolve_within(k, segs(source), reference@);
        }
    }
    let with_index = path_join(&rel, String::from_str("default.nix"));
    match known.find(&with_index) {
        Some(t) => {
            let mut pieces_out = ps;
            let ghost before = pieces_out.deep_view();
            pieces_out.push(String::from_str("default.nix"));
            assert(pieces_out.deep_view() =~= before.push(index_file()));
            Ok(Resolved { pieces: pieces_out, movable_ancestor: anc, rel_to_root: with_index, target: t })
        },
        None => match known.find(&rel) {
            Some(t) => Ok(Resolved { pieces: ps, movable_ancestor: anc, rel_to_root: rel, target: t }),
            None => Err(ResolveError { failure: ResolveFailure::Unknown, path: rel }),
        },
    }
}


proof fn lemma_walk_within(
    known: Set<Seq<Seq<char>>>,
    anc: Seq<Seq<char>>,
    rel: Seq<Seq<char>>,
    ascending: bool,
    ps: Seq<Seq<char>>,
)
    requires
        within(rel, anc),
    ensures
        walk(known, anc, rel, ascending, ps) is Ok ==> within(
            walk(known, anc, rel, ascending, ps)->Ok_0.1,
            walk(known, anc, rel, ascending, ps)->Ok_0.0,
        ),
    decreases ps.len(),
{
    if ps.len() > 0 {
        let p = ps[0];
        if is_cur(p) {
            lemma_walk_within(known, anc, rel, ascending, ps.drop_first());
        } else if is_parent(p) {
            if ascending && anc.len() > 0 {
                assert(within(anc.drop_last(), anc.drop_last())) by {
                    assert(anc.drop_last().subrange(0, anc.drop_last().len() as int) =~= anc.drop_last());
                }
                lemma_walk_within(known, anc.drop_last(), anc.drop_last(), true, ps.drop_first());
            }
        } else if known.contains(rel.push(p)) {
            assert(within(rel.push(p), anc)) by {
                assert(rel.push(p).subrange(0, anc.len() as int) =~= rel.subrange(0, anc.len() as int));
            }
            lemma_walk_within(known, anc, rel.push(p), false, ps.drop_first());
        }
    }
}

/// A resolved target lies at or below the movable ancestor.
pub proof fn lemma_resolve_within(known: Set<Seq<Seq<char>>>, source: Seq<Seq<char>>, text: Seq<char>)
    requires
        resolve_spec(known, source, text) is Ok,
    ensures
        within(resolve_spec(known, source, text)->Ok_0.2, resolve_spec(known, source, text)->Ok_0.1),
{
    let d = source.drop_last();
    assert(d.subrange(0, d.len() as int) =~= d);
    lemma_walk_within(known, d, d, true, pieces(text));
    let w = walk(known, d, d, true, pieces(text))->Ok_0;
    assert(w.1.push(index_file()).subrange(0, w.0.len() as int) =~= w.1.subrange(0, w.0.len() as int));
}

/// Appending slash-free text to a reference extends its last piece.
proof fn lemma_pieces_extend(s: Seq<char>, x: Seq<char>)
    requires
        !x.contains('/'),
    ensures
        pieces(s + x) == pieces(s).update(pieces(s).len() - 1, pieces(s).last() + x),
    decreases x.len(),
{
    lemma_pieces_nonempty(s);
    if x.len() == 0 {
        assert(s + x == s);
        assert(pieces(s).last() + x == pieces(s).last());
        assert(pieces(s).update(pieces(s).len() - 1, pieces(s).last()) == pieces(s));
    } else {
        let y = x.drop_last();
        assert(!y.contains('/')) by {
            if y.contains('/') {
                let i = choose|i: int| 0 <= i < y.len() && y[i] == '/';
                assert(x[i] == '/');
            }
        }
        lemma_pieces_extend(s, y);
        assert((s + x).drop_last() == s + y);
        assert((s + x).last() == x.last());
        assert(x.last() != '/') by {
            assert(x[x.len() - 1] == x.last());
        }
        assert(pieces(s).last() + y + seq![x.last()] == pieces(s).last() + x);
        assert((pieces(s).last() + y).push(x.last()) == pieces(s).last() + x);
    }
}

proof fn lemma_pieces_dot()
    ensures
        pieces(seq!['.']) == seq![seq!['.']],
{
    assert(seq!['.'].drop_last() =~= Seq::<char>::empty());
    assert(seq!['.'].last() == '.');
    assert(pieces(Seq::<char>::empty()) == seq![Seq::<char>::empty()]);
    let p0 = pieces(seq!['.'].drop_last());
    assert(pieces(seq!['.']) == p0.update(p0.len() - 1, p0.last().push('.')));
    assert(Seq::<char>::empty().push('.') =~= seq!['.']);
    assert(seq![Seq::<char>::empty()].update(0, seq!['.']) =~= seq![seq!['.']]);
}

proof fn lemma_parent_not_cur(p: Seq<char>)
    ensures
        is_parent(p) ==> !is_cur(p),
        is_cur(p) ==> !is_parent(p),
{
    if is_parent(p) {
        assert(p.len() == 2);
    }
}

proof fn lemma_pieces_dot_slash(x: Seq<char>)
    requires
        !x.contains('/'),
    ensures
        pieces(seq!['.', '/'] + x) == seq![seq!['.'], x],
{
    let a = seq!['.', '/'];
    assert(a.drop_last() == seq!['.']);
    assert(seq!['.'].drop_last() == Seq::<char>::empty());
    lemma_pieces_dot();
    assert(pieces(a) == seq![seq!['.'], Seq::<char>::empty()]);
    lemma_pieces_extend(a, x);
    assert(Seq::<char>::empty() + x == x);
    assert(seq![seq!['.'], Seq::<char>::empty()].update(1, x) == seq![seq!['.'], x]);
}

proof fn lemma_pieces_dot_dot_slash(x: Seq<char>)
    requires
        !x.contains('/'),
    ensures
        pieces(seq!['.', '.', '/'] + x) == seq![seq!['.', '.'], x],
{
    let a = seq!['.', '.', '/'];
    assert(a.drop_last() == seq!['.', '.']);
    assert(seq!['.', '.'].drop_last() == seq!['.']);
    assert(seq!['.'].drop_last() == Seq::<char>::empty());
    lemma_pieces_dot();
    assert(pieces(seq!['.', '.']) == seq![seq!['.', '.']]) by {
        assert(seq!['.', '.'].last() == '.');
        assert(seq!['.'].push('.') =~= seq!['.', '.']);
        assert(seq![seq!['.']].update(0, seq!['.', '.']) =~= seq![seq!['.', '.']]);
    }
    assert(pieces(a) == seq![seq!['.', '.'], Seq::<char>::empty()]);
    lemma_pieces_extend(a, x);
    assert(Seq::<char>::empty() + x == x);
    assert(seq![seq!['.', '.'], Seq::<char>::empty()].update(1, x) == seq![seq!['.', '.'], x]);
}

/// A plain entry name: not empty, no slash, neither `.` nor `..`.
pub open spec fn is_name(x: Seq<char>) -> bool {
    &&& !x.contains('/')
    &&& !is_cur(x)
    &&& !is_parent(x)
}

/// `./x`, for a known entry `x` beside the referencing file, resolves with the
/// file's own directory as movable ancestor and that entry as target (when
/// `x` has no index file of its own).
pub proof fn lemma_resolve_beside(known: Set<Seq<Seq<char>>>, source: Seq<Seq<char>>, x: Seq<char>)
    requires
        source.len() > 0,
        is_name(x),
        known.contains(source.drop_last().push(x)),
        !known.contains(source.drop_last().push(x).push(index_file())),
    ensures
        resolve_spec(known, source, seq!['.', '/'] + x) == Ok::<Found, Failed>(
            (seq![seq!['.'], x], source.drop_last(), source.drop_last().push(x)),
        ),
{
    let dir = source.drop_last();
    let t = seq!['.', '/'] + x;
    lemma_pieces_dot_slash(x);
    assert(t[0] == '.');
    let ps = pieces(t);
    assert(ps.drop_first() == seq![x]);
    assert(seq![x].drop_first().len() == 0);
    assert(walk(known, dir, dir.push(x), false, seq![x].drop_first()) == Ok::<Walked, Failed>((dir, dir.push(x), false)));
    assert(walk(known, dir, dir, true, seq![x]) == Ok::<Walked, Failed>((dir, dir.push(x), false)));
    assert(walk(known, dir, dir, true, ps) == Ok::<Walked, Failed>((dir, dir.push(x), false)));
}

/// `../x`, for a known entry `x` beside the referencing file's directory,
/// resolves with the directory above the file's own as movable ancestor.
pub proof fn lemma_resolve_above(known: Set<Seq<Seq<char>>>, source: Seq<Seq<char>>, x: Seq<char>)
    requires
        source.len() > 1,
        is_name(x),
        known.contains(source.drop_last().drop_last().push(x)),
        !known.contains(source.drop_last().drop_last().push(x).push(index_file())),
    ensures
        resolve_spec(known, source, seq!['.', '.', '/'] + x) == Ok::<Found, Failed>(
            (seq![seq!['.', '.'], x], source.drop_last().drop_last(), source.drop_last().drop_last().push(x)),
        ),
{
    let dir = source.drop_last();
    let up = dir.drop_last();
    let t = seq!['.', '.', '/'] + x;
    lemma_pieces_dot_dot_slash(x);
    assert(t[0] == '.');
    let ps = pieces(t);
    assert(ps.drop_first() == seq![x]);
    assert(seq![x].drop_first().len() == 0);
    lemma_parent_not_cur(ps[0]);
    assert(is_parent(ps[0]));
    assert(dir.len() > 0);
    assert(walk(known, up, up.push(x), false, seq![x].drop_first()) == Ok::<Walked, Failed>((up, up.push(x), false)));
    assert(walk(known, up, up, true, seq![x]) == Ok::<Walked, Failed>((up, up.push(x), false)));
    assert(walk(known, dir, dir, true, ps) == Ok::<Walked, Failed>((up, up.push(x), false)));
}

/// The number of `..` pieces in `ps`.
pub open spec fn parent_count(ps: Seq<Seq<char>>) -> nat
    decreases ps.len(),
{
    if ps.len() == 0 {
        0
    } else {
        parent_count(ps.drop_first()) + if is_parent(ps[0]) { 1nat } else { 0nat }
    }
}

proof fn lemma_walk_escapes(
    known: Set<Seq<Seq<char>>>,
    anc: Seq<Seq<char>>,
    rel: Seq<Seq<char>>,
    ascending: bool,
    ps: Seq<Seq<char>>,
)
    requires
        parent_count(ps) > if ascending { anc.len() } else { 0 },
    ensures
        walk(known, anc, rel, ascending, ps) is Err,
    decreases ps.len(),
{
    if ps.len() > 0 {
        let p = ps[0];
        lemma_parent_not_cur(p);
        if is_cur(p) {
            lemma_walk_escapes(known, anc, rel, ascending, ps.drop_first());
        } else if is_parent(p) {
            if ascending && anc.len() > 0 {
                lemma_walk_escapes(known, anc.drop_last(), anc.drop_last(), true, ps.drop_first());
            }
        } else if known.contains(rel.push(p)) {
            lemma_walk_escapes(known, anc, rel.push(p), false, ps.drop_first());
        }
    }
}

/// A reference with more `..` pieces than there are directories between the
/// root and the referencing file never resolves.
pub proof fn lemma_resolve_root_escape(known: Set<Seq<Seq<char>>>, source: Seq<Seq<char>>, text: Seq<char>)
    requires
        source.len() > 0,
        parent_count(pieces(text)) > source.len() - 1,
    ensures
        resolve_spec(known, source, text) is Err,
{
    lemma_walk_escapes(known, source.drop_last(), source.drop_last(), true, pieces(text));
}

proof fn lemma_walk_interleaved(
    known: Set<Seq<Seq<char>>>,
    anc: Seq<Seq<char>>,
    rel: Seq<Seq<char>>,
    ascending: bool,
    ps: Seq<Seq<char>>,
    i: int,
    j: int,
)
    requires
        0 <= i < j < ps.len(),
        is_name(ps[i]),
        is_parent(ps[j]),
    ensures
        walk(known, anc, rel, ascending, ps) is Err,
    decreases ps.len(),
{
    let p = ps[0];
    let rest = ps.drop_first();
    lemma_parent_not_cur(p);
    if i == 0 {
        if known.contains(rel.push(p)) {
            lemma_walk_after_descent(known, anc, rel.push(p), rest, j - 1);
        }
    } else if is_cur(p) {
        lemma_walk_interleaved(known, anc, rel, ascending, rest, i - 1, j - 1);
    } else if is_parent(p) {
        if ascending && anc.len() > 0 {
            lemma_walk_interleaved(known, anc.drop_last(), anc.drop_last(), true, rest, i - 1, j - 1);
        }
    } else if known.contains(rel.push(p)) {
        lemma_walk_interleaved(known, anc, rel.push(p), false, rest, i - 1, j - 1);
    }
}

proof fn lemma_walk_after_descent(
    known: Set<Seq<Seq<char>>>,
    anc: Seq<Seq<char>>,
    rel: Seq<Seq<char>>,
    ps: Seq<Seq<char>>,
    j: int,
)
    requires
        0 <= j < ps.len(),
        is_parent(ps[j]),
    ensures
        walk(known, anc, rel, false, ps) is Err,
    decreases ps.len(),
{
    let p = ps[0];
    lemma_parent_not_cur(p);
    if j > 0 {
        if is_cur(p) {
            lemma_walk_after_descent(known, anc, rel, ps.drop_first(), j - 1);
        } else if !is_parent(p) && known.contains(rel.push(p)) {
            lemma_walk_after_descent(known, anc, rel.push(p), ps.drop_first(), j - 1);
        }
    }
}

/// A `..` after a descending segment is never resolved, whether or not what
/// follows it exists.
pub proof fn lemma_resolve_interleaved(
    known: Set<Seq<Seq<char>>>,
    source: Seq<Seq<char>>,
    text: Seq<char>,
    i: int,
    j: int,
)
    requires
        source.len() > 0,
        0 <= i < j < pieces(text).len(),
        is_name(pieces(text)[i]),
        is_parent(pieces(text)[j]),
    ensures
        resolve_spec(known, source, text) is Err,
{
    lemma_walk_interleaved(known, source.drop_last(), source.drop_last(), true, pieces(text), i, j);
}

/// Where a reference reaches a directory that holds a known index file, the
/// resolved target is that index file.
pub proof fn lemma_resolve_index_file(known: Set<Seq<Seq<char>>>, source: Seq<Seq<char>>, text: Seq<char>)
    requires
        !is_absolute(text),
        walk(known, source.drop_last(), source.drop_last(), true, pieces(text)) is Ok,
        known.contains(
            walk(known, source.drop_last(), source.drop_last(), true, pieces(text))->Ok_0.1.push(
                index_file(),
            ),
        ),
    ensures
        resolve_spec(known, source, text) is Ok,
        resolve_spec(known, source, text)->Ok_0.2 == walk(
            known,
            source.drop_last(),
            source.drop_last(),
            true,
            pieces(text),
        )->Ok_0.1.push(index_file()),
{
}


/// The directories a walk over `ps` from `dir` passes: the one left by each
/// `..` and the one entered by each descending piece, in order.
pub open spec fn traversal(dir: Seq<Seq<char>>, ps: Seq<Seq<char>>) -> Seq<Seq<Seq<char>>>
    decreases ps.len(),
{
    if ps.len() == 0 {
        Seq::empty()
    } else if is_cur(ps[0]) {
        traversal(dir, ps.drop_first())
    } else if is_parent(ps[0]) {
        seq![dir] + traversal(if dir.len() > 0 { dir.drop_last() } else { dir }, ps.drop_first())
    } else {
        seq![dir.push(ps[0])] + traversal(dir.push(ps[0]), ps.drop_first())
    }
}

/// The paths a reference from `source` along `ps` depends on: the file itself,
/// its directory, and every directory passed on the way.
pub open spec fn touched(source: Seq<Seq<char>>, ps: Seq<Seq<char>>) -> Seq<Seq<Seq<char>>> {
    seq![source, source.drop_last()] + traversal(source.drop_last(), ps)
}

/// How often `p` occurs in `s`.
pub open spec fn occurrences(s: Seq<Seq<Seq<char>>>, p: Seq<Seq<char>>) -> nat
    decreases s.len(),
{
    if s.len() == 0 {
        0
    } else {
        occurrences(s.drop_last(), p) + if s.last() == p { 1nat } else { 0nat }
    }
}

/// A reference as values: line, movable ancestor, target, text.
pub type RefView = (usize, Seq<Seq<char>>, Seq<Seq<char>>, Seq<char>);

pub open spec fn ref_view(r: Reference) -> RefView {
    (r.line, segs(&r.movable_ancestor), segs(&r.rel_to_root), r.text@)
}

fn touched_paths(source: &TreePath, ps: &Vec<String>) -> (r: Vec<TreePath>)
    requires
        source@.len() > 0,
    ensures
        r.deep_view() == touched(segs(source), ps.deep_view()),
{
    let mut out: Vec<TreePath> = Vec::new();
    out.push(copy_path(source));
    let mut dir = path_parent(source);
    out.push(copy_path(&dir));
    let ghost d0 = segs(&dir);
    let mut i: usize = 0;
    proof {
        assert(ps.deep_view().skip(0) == ps.deep_view());
        assert(out.deep_view() =~= seq![segs(source), d0]);
    }
    while i < ps.len()
        invariant
            i <= ps@.len(),
            d0 == segs(source).drop_last(),
            out.deep_view() + traversal(segs(&dir), ps.deep_view().skip(i as int)) == touched(
                segs(source),
                ps.deep_view(),
            ),
        decreases ps@.len() - i,
    {
        let ghost rest = ps.deep_view().skip(i as int);
        assert(rest.drop_first() == ps.deep_view().skip(i as int + 1));
        assert(rest[0] == ps@[i as int]@);
        let p = &ps[i];
        if piece_is_cur(p) {
        } else if piece_is_parent(p) {
            let ghost before = out.deep_view();
            out.push(copy_path(&dir));
            assert(out.deep_view() =~= before.push(segs(&dir)));
            assert(before + traversal(segs(&dir), rest) =~= before.push(segs(&dir)) + traversal(
                if segs(&dir).len() > 0 { segs(&dir).drop_last() } else { segs(&dir) },
                rest.drop_first(),
            ));
            if dir.len() > 0 {
                dir = path_parent(&dir);
            }
        } else {
            let ghost prev = segs(&dir);
            dir = path_join(&dir, p.clone());
            assert(segs(&dir).drop_last() =~= prev);
            let ghost before = out.deep_view();
            out.push(copy_path(&dir));
            assert(out.deep_view() =~= before.push(segs(&dir)));
            assert(before + traversal(segs(&dir).drop_last(), rest) =~= before.push(segs(&dir))
                + traversal(segs(&dir), rest.drop_first()));
        }
        i = i + 1;
    }
    assert(ps.deep_view().skip(i as int).len() == 0);
    assert(out.deep_view() + Seq::<Seq<Seq<char>>>::empty() == out.deep_view());
    out
}

proof fn lemma_occurrences_push(s: Seq<Seq<Seq<char>>>, q: Seq<Seq<char>>, p: Seq<Seq<char>>)
    ensures
        occurrences(s.push(q), p) == occurrences(s, p) + if q == p { 1nat } else { 0nat },
{
    assert(s.push(q).drop_last() == s);
}

impl GlobalIndex {
    /// Records reference `res`, found on `line` of the file at position
    /// `file` as `text`: the reference joins that file's references, and a
    /// pointer to it joins the referrers of the file itself, of its directory
    /// and of every directory the reference passes, once per time it is
    /// passed.
    pub fn add_reference(&mut self, file: usize, line: usize, text: String, res: Resolved)
        requires
            old(self).wf(),
            file < old(self).paths@.len(),
            old(self).paths@[file as int]@.len() > 0,
            res.target < old(self).paths@.len(),
            segs(&old(self).paths@[res.target as int]) == segs(&res.rel_to_root),
            within(segs(&res.rel_to_root), segs(&res.movable_ancestor)),
            old(self).refs(file as int).len() < usize::MAX,
        ensures
            final(self).wf(),
            final(self).paths == old(self).paths,
            final(self).refs(file as int) == old(self).refs(file as int).push(
                Reference {
                    line,
                    movable_ancestor: res.movable_ancestor,
                    rel_to_root: res.rel_to_root,
                    target: res.target,
                    text,
                },
            ),
            forall|k: int|
                0 <= k < old(self).paths@.len() && k != file ==> #[trigger] final(self).refs(k)
                    == old(self).refs(k),
            forall|k: int|
                0 <= k < old(self).paths@.len() ==> #[trigger] final(self).refd_by(k) == old(
                    self,
                ).refd_by(k) + Seq::new(
                    occurrences(
                        touched(segs(&old(self).paths@[file as int]), res.pieces.deep_view()),
                        segs(&old(self).paths@[k]),
                    ),
                    |_i: int| (file, old(self).refs(file as int).len() as usize),
                ),
    {
        let slot = self.path_indices[file].references.len();
        let ghost pointer = (file, slot);
        let list = touched_paths(&self.paths[file], &res.pieces);
        let ghost all = list.deep_view();
        let ghost n = self.paths@.len();
        let mut entry = PathIndex::new();
        std::mem::swap(&mut entry, &mut self.path_indices[file]);
        entry.references.push(
            Reference {
                line,
                movable_ancestor: res.movable_ancestor,
                rel_to_root: res.rel_to_root,
                target: res.target,
                text,
            },
        );
        self.path_indices.set(file, entry);
        let ghost after_push = *self;
        proof {
            assert forall|k: int, i: int|
                #![trigger self.refs(k)[i]]
                0 <= k < self.paths@.len() && 0 <= i < self.refs(k).len() implies {
                    let r = self.refs(k)[i];
                    r.target < self.paths@.len() && segs(&self.paths@[r.target as int]) == segs(
                        &r.rel_to_root,
                    ) && within(segs(&r.rel_to_root), segs(&r.movable_ancestor))
                } by {
                if k != file || i < slot {
                    assert(old(self).refs(k)[i] == self.refs(k)[i]);
                }
            }
            assert forall|k: int, i: int|
                #![trigger self.refd_by(k)[i]]
                0 <= k < self.paths@.len() && 0 <= i < self.refd_by(k).len() implies {
                    let (f, m) = self.refd_by(k)[i];
                    f < self.paths@.len() && m < self.refs(f as int).len()
                } by {
                assert(old(self).refd_by(k)[i] == self.refd_by(k)[i]);
            }
        }
        let mut m: usize = 0;
        while m < list.len()
            invariant
                self.wf(),
                self.paths == old(self).paths,
                n == self.paths@.len(),
                file < n,
                all == list.deep_view(),
                slot < self.refs(file as int).len(),
                forall|k: int| 0 <= k < n ==> #[trigger] self.refs(k) == after_push.refs(k),
                m <= list@.len(),
                forall|k: int|
                    0 <= k < n ==> #[trigger] self.refd_by(k) == old(self).refd_by(k) + Seq::new(
                        occurrences(all.take(m as int), segs(&self.paths@[k])),
                        |_i: int| (file, slot),
                    ),
            decreases list@.len() - m,
        {
            let ghost before = *self;
            proof {
                assert(all.take(m as int + 1) == all.take(m as int).push(all[m as int]));
            }
            match self.find(&list[m]) {
                Some(k) => {
                    let mut entry = PathIndex::new();
                    std::mem::swap(&mut entry, &mut self.path_indices[k]);
                    entry.referenced_by.push((file, slot));
                    self.path_indices.set(k, entry);
                    proof {
                        assert forall|j: int| 0 <= j < n implies #[trigger] self.refd_by(j)
                            == old(self).refd_by(j) + Seq::new(
                            occurrences(all.take(m as int + 1), segs(&self.paths@[j])),
                            |_i: int| (file, slot),
                        ) by {
                            lemma_occurrences_push(all.take(m as int), all[m as int], segs(&self.paths@[j]));
                            if j == k {
                                assert(all[m as int] == segs(&list@[m as int]));
                                let c = occurrences(all.take(m as int), segs(&self.paths@[j]));
                                assert(before.refd_by(j) == old(self).refd_by(j) + Seq::new(c, |_i: int| (file, slot)));
                                assert(self.refd_by(j) == before.refd_by(j).push((file, slot)));
                                assert(Seq::new(c, |_i: int| (file, slot)).push((file, slot)) =~= Seq::new(c + 1, |_i: int| (file, slot)));
                                assert(self.refd_by(j) =~= old(self).refd_by(j) + Seq::new(
                                    occurrences(all.take(m as int + 1), segs(&self.paths@[j])),
                                    |_i: int| (file, slot),
                                ));
                            } else {
                                assert(all[m as int] == segs(&list@[m as int]));
                                assert(segs(&self.paths@[j]) != segs(&self.paths@[k as int]));
                                assert(self.refd_by(j) == before.refd_by(j));
                            }
                        }
                        assert forall|j: int| 0 <= j < n implies #[trigger] self.refs(j) == after_push.refs(j) by {
                            assert(before.refs(j) == after_push.refs(j));
                            assert(self.path_indices@[j].references == before.path_indices@[j].references);
                        }
                        assert forall|a: int, i: int|
                            #![trigger self.refs(a)[i]]
                            0 <= a < self.paths@.len() && 0 <= i < self.refs(a).len() implies {
                                let r = self.refs(a)[i];
                                r.target < self.paths@.len() && segs(&self.paths@[r.target as int]) == segs(
                                    &r.rel_to_root,
                                ) && within(segs(&r.rel_to_root), segs(&r.movable_ancestor))
                            } by {
                            assert(before.refs(a)[i] == self.refs(a)[i]);
                        }
                        assert forall|a: int, i: int|
                            #![trigger self.refd_by(a)[i]]
                            0 <= a < self.paths@.len() && 0 <= i < self.refd_by(a).len() implies {
                                let (f, q) = self.refd_by(a)[i];
                                f < self.paths@.len() && q < self.refs(f as int).len()
                            } by {
                            if a != k || i < before.refd_by(a).len() {
                                assert(before.refd_by(a)[i] == self.refd_by(a)[i]);
                            }
                        }
                    }
                },
                None => {
                    proof {
                        assert forall|j: int| 0 <= j < n implies #[trigger] self.refd_by(j)
                            == old(self).refd_by(j) + Seq::new(
                            occurrences(all.take(m as int + 1), segs(&self.paths@[j])),
                            |_i: int| (file, slot),
                        ) by {
                            lemma_occurrences_push(all.take(m as int), all[m as int], segs(&self.paths@[j]));
                            if all[m as int] == segs(&self.paths@[j]) {
                                assert(self.known().contains(segs(&self.paths@[j])));
                            }
                        }
                    }
                },
            }
            m = m + 1;
        }
        assert(all.take(m as int) == all);
        assert forall|k: int| 0 <= k < n && k != file implies #[trigger] self.refs(k) == old(self).refs(k) by {
            assert(after_push.refs(k) == old(self).refs(k));
        }
    }
}


/// What became of a path node that did not yield a reference, or of a file
/// that did not parse.
pub enum Note {
    Unparseable(String),
    Interpolated { line: usize, text: String },
    SearchPath { line: usize, text: String },
    Unresolved { line: usize, text: String, error: ResolveError },
}

/// The references that the path nodes `occ` of the file at `source` yield
/// against `known`, where `b` are the file's bytes.
pub open spec fn refs_from(
    known: Set<Seq<Seq<char>>>,
    source: Seq<Seq<char>>,
    occ: Seq<(usize, Seq<char>, PathShape)>,
    b: Seq<u8>,
) -> Seq<RefView>
    decreases occ.len(),
{
    if occ.len() == 0 {
        Seq::empty()
    } else {
        let prev = refs_from(known, source, occ.drop_last(), b);
        let (start, text, shape) = occ.last();
        let found = resolve_spec(known, source, text);
        if shape == PathShape::Literal && found is Ok {
            prev.push(((1 + newlines_before(b, start as int)) as usize, found->Ok_0.1, found->Ok_0.2, text))
        } else {
            prev
        }
    }
}

/// The pointers that the references the path nodes `occ` of the file at
/// position `file` (at `source`) yield put on the path `pk`: for each such
/// reference, numbered on from `base`, one per time it passes `pk`.
pub open spec fn pointers_from(
    known: Set<Seq<Seq<char>>>,
    source: Seq<Seq<char>>,
    occ: Seq<(usize, Seq<char>, PathShape)>,
    b: Seq<u8>,
    file: usize,
    base: int,
    pk: Seq<Seq<char>>,
) -> Seq<(usize, usize)>
    decreases occ.len(),
{
    if occ.len() == 0 {
        Seq::empty()
    } else {
        let prev = pointers_from(known, source, occ.drop_last(), b, file, base, pk);
        let (start, text, shape) = occ.last();
        let found = resolve_spec(known, source, text);
        if shape == PathShape::Literal && found is Ok {
            let slot = (base + refs_from(known, source, occ.drop_last(), b).len()) as usize;
            prev + Seq::new(occurrences(touched(source, found->Ok_0.0), pk), |_i: int| (file, slot))
        } else {
            prev
        }
    }
}


/// `new` is `old` after the file at position `file`, parsed as `t` from the
/// walk `w` over its bytes `b`, was recorded: its references grew by those
/// its path nodes yield; or, where so many could not be counted, nothing
/// changed. The back-pointers grew by exactly those the new references
/// put on each path.
pub open spec fn file_recorded(old: &GlobalIndex, new: &GlobalIndex, file: int, t: &SyntaxTree, w: Seq<StepView>, b: Seq<u8>) -> bool {
    &&& t.wf()
    &&& t.holds_walk(w)
    &&& if old.refs(file).len() + t.len() < usize::MAX {
        &&& new.refs(file).map_values(|r: Reference| ref_view(r)) == old.refs(file).map_values(|r: Reference| ref_view(r))
            + refs_from(old.known(), segs(&old.paths@[file]), path_nodes(t, t.len()), b)
        &&& forall|k: int|
            0 <= k < old.paths@.len() ==> #[trigger] new.refd_by(k) == old.refd_by(k) + pointers_from(
                old.known(),
                segs(&old.paths@[file]),
                path_nodes(t, t.len()),
                b,
                file as usize,
                old.refs(file).len() as int,
                segs(&old.paths@[k]),
            )
    } else {
        new.path_indices == old.path_indices
    }
}

impl GlobalIndex {
    /// Records the references of the file at position `file`, parsed as
    /// `tree`, with `lines` indexing its text. Gives a note for each path node
    /// that is not a literal or does not resolve.
    pub fn add_file(&mut self, file: usize, tree: &SyntaxTree, lines: &LineIndex) -> (notes: Vec<Note>)
        requires
            old(self).wf(),
            file < old(self).paths@.len(),
            old(self).paths@[file as int]@.len() > 0,
            tree.wf(),
            lines.wf(),
            old(self).refs(file as int).len() + tree.len() < usize::MAX,
        ensures
            final(self).wf(),
            final(self).paths == old(self).paths,
            final(self).refs(file as int).map_values(|r: Reference| ref_view(r)) == old(self).refs(
                file as int,
            ).map_values(|r: Reference| ref_view(r)) + refs_from(
                old(self).known(),
                segs(&old(self).paths@[file as int]),
                path_nodes(tree, tree.len()),
                lines.text(),
            ),
            forall|k: int|
                0 <= k < old(self).paths@.len() && k != file ==> #[trigger] final(self).refs(k)
                    == old(self).refs(k),
            forall|k: int|
                0 <= k < old(self).paths@.len() ==> #[trigger] final(self).refd_by(k) == old(self).refd_by(k)
                    + pointers_from(
                    old(self).known(),
                    segs(&old(self).paths@[file as int]),
                    path_nodes(tree, tree.len()),
                    lines.text(),
                    file,
                    old(self).refs(file as int).len() as int,
                    segs(&old(self).paths@[k]),
                ),
    {
        let occ = path_occurrences(tree);
        proof {
            lemma_path_nodes_len(tree, tree.len());
        }
        let mut notes: Vec<Note> = Vec::new();
        let ghost known = self.known();
        let ghost source = segs(&self.paths@[file as int]);
        let ghost start_refs = self.refs(file as int).map_values(|r: Reference| ref_view(r));
        let mut i: usize = 0;
        while i < occ.len()
            invariant
                self.wf(),
                self.paths == old(self).paths,
                known == self.known(),
                known == old(self).known(),
                source == segs(&self.paths@[file as int]),
                file < self.paths@.len(),
                self.paths@[file as int]@.len() > 0,
                tree.wf(),
                lines.wf(),
                occurrences_view(occ@) == path_nodes(tree, tree.len()),
                occ@.len() <= tree.len(),
                start_refs == old(self).refs(file as int).map_values(|r: Reference| ref_view(r)),
                i <= occ@.len(),
                self.refs(file as int).len() <= old(self).refs(file as int).len() + i,
                old(self).refs(file as int).len() + tree.len() < usize::MAX,
                self.refs(file as int).map_values(|r: Reference| ref_view(r)) == start_refs + refs_from(
                    known,
                    source,
                    occurrences_view(occ@).take(i as int),
                    lines.text(),
                ),
                forall|k: int|
                    0 <= k < old(self).paths@.len() && k != file ==> #[trigger] self.refs(k)
                        == old(self).refs(k),
                forall|k: int|
                    0 <= k < old(self).paths@.len() ==> #[trigger] self.refd_by(k) == old(self).refd_by(k)
                        + pointers_from(
                        known,
                        source,
                        occurrences_view(occ@).take(i as int),
                        lines.text(),
                        file,
                        old(self).refs(file as int).len() as int,
                        segs(&old(self).paths@[k]),
                    ),
            decreases occ@.len() - i,
        {
            let o = &occ[i];
            let line = lines.line(o.start);
            let ghost ov = occurrences_view(occ@);
            proof {
                assert(ov.take(i as int + 1).drop_last() == ov.take(i as int));
                assert(ov.take(i as int + 1).last() == ov[i as int]);
                assert(ov[i as int] == (o.start, o.text@, o.shape));
            }
            match o.shape {
                PathShape::Interpolated => {
                    notes.push(Note::Interpolated { line, text: o.text.clone() });
                },
                PathShape::SearchPath => {
                    notes.push(Note::SearchPath { line, text: o.text.clone() });
                },
                PathShape::Literal => {
                    match resolve_reference(&self.paths[file], o.text.as_str(), self) {
                        Ok(res) => {
                            let ghost before = *self;
                            let ghost rv: RefView = (line, segs(&res.movable_ancestor), segs(&res.rel_to_root), o.text@);
                            let ghost res_pieces = res.pieces.deep_view();
                            self.add_reference(file, line, o.text.clone(), res);
                            proof {
                                assert(self.refs(file as int).map_values(|r: Reference| ref_view(r))
                                    =~= before.refs(file as int).map_values(|r: Reference| ref_view(r)).push(rv));
                                let base = old(self).refs(file as int).len() as int;
                                let prev_occ = ov.take(i as int);
                                assert(before.refs(file as int).len() == base + refs_from(known, source, prev_occ, lines.text()).len()) by {
                                    assert(before.refs(file as int).map_values(|r: Reference| ref_view(r)).len() == before.refs(file as int).len());
                                    assert(start_refs.len() == old(self).refs(file as int).len());
                                }
                                assert forall|k: int|
                                    0 <= k < old(self).paths@.len() implies #[trigger] self.refd_by(k) == old(self).refd_by(k)
                                        + pointers_from(known, source, ov.take(i as int + 1), lines.text(), file, base, segs(&old(self).paths@[k])) by {
                                    let pk = segs(&old(self).paths@[k]);
                                    let slot = before.refs(file as int).len() as usize;
                                    let add = Seq::new(occurrences(touched(source, res_pieces), pk), |_i: int| (file, slot));
                                    assert(self.refd_by(k) == before.refd_by(k) + add);
                                    assert(before.refd_by(k) == old(self).refd_by(k) + pointers_from(known, source, prev_occ, lines.text(), file, base, pk));
                                    assert(pointers_from(known, source, ov.take(i as int + 1), lines.text(), file, base, pk)
                                        =~= pointers_from(known, source, prev_occ, lines.text(), file, base, pk) + add);
                                    assert(self.refd_by(k) =~= old(self).refd_by(k) + (pointers_from(known, source, prev_occ, lines.text(), file, base, pk) + add));
                                }
                            }
                        },
                        Err(error) => {
                            notes.push(Note::Unresolved { line, text: o.text.clone(), error });
                        },
                    }
                },
            }
            i = i + 1;
        }
        proof {
            assert(occurrences_view(occ@).take(i as int) == occurrences_view(occ@));
        }
        notes
    }

    /// Parses `contents`, the text of the file at position `file`, and records
    /// its references as `add_file` does; a file that does not parse is left
    /// without references and noted.
    pub fn add_source(&mut self, file: usize, contents: &String) -> (notes: Vec<Note>)
        requires
            old(self).wf(),
            file < old(self).paths@.len(),
            old(self).paths@[file as int]@.len() > 0,
            encode_utf8(contents@).len() <= u32::MAX,
            encode_utf8(contents@).len() < usize::MAX,
        ensures
            final(self).wf(),
            final(self).paths == old(self).paths,
            nix_walk(contents@) is None ==> final(self).path_indices == old(self).path_indices,
            nix_walk(contents@) is Some ==> exists|t: SyntaxTree|
                #[trigger] file_recorded(old(self), final(self), file as int, &t, nix_walk(contents@)->Some_0, encode_utf8(contents@)),
            forall|k: int|
                0 <= k < old(self).paths@.len() && k != file ==> #[trigger] final(self).refs(k)
                    == old(self).refs(k),
    {
        match parse(contents.as_str()) {
            Err(e) => {
                let mut notes: Vec<Note> = Vec::new();
                notes.push(Note::Unparseable(e));
                notes
            },
            Ok(tree) => {
                let lines = LineIndex::new(contents);
                let have = self.path_indices[file].references.len();
                if have >= usize::MAX - tree.kinds.len() {
                    let mut notes: Vec<Note> = Vec::new();
                    proof {
                        assert(file_recorded(old(self), self, file as int, &tree, nix_walk(contents@)->Some_0, encode_utf8(contents@)));
                    }
                    return notes;
                }
                let notes = self.add_file(file, &tree, &lines);
                proof {
                    assert(file_recorded(old(self), self, file as int, &tree, nix_walk(contents@)->Some_0, encode_utf8(contents@)));
                }
                notes
            },
        }
    }
}

proof fn lemma_path_nodes_len(t: &SyntaxTree, n: int)
    requires
        0 <= n,
    ensures
        path_nodes(t, n).len() <= n,
    decreases n,
{
    if n > 0 {
        lemma_path_nodes_len(t, n - 1);
    }
}


/// The position of `p` among the paths of `g`, where it is held.
pub open spec fn position_of(g: &GlobalIndex, p: Seq<Seq<char>>) -> int {
    choose|k: int| 0 <= k < g.paths@.len() && segs(&g.paths@[k]) == p
}

/// `g2` is `g1` after the source text `text` of the path `path` was read:
/// for a held file, its references and the pointers they make are recorded
/// as `add_source` does; anything else changes nothing.
pub open spec fn source_step(g1: &GlobalIndex, g2: &GlobalIndex, path: Seq<Seq<char>>, text: Seq<char>) -> bool {
    &&& g2.wf()
    &&& g2.paths == g1.paths
    &&& if path.len() > 0 && g1.known().contains(path) {
        let file = position_of(g1, path);
        &&& forall|k: int| 0 <= k < g1.paths@.len() && k != file ==> #[trigger] g2.refs(k) == g1.refs(k)
        &&& nix_walk(text) is None ==> g2.path_indices == g1.path_indices
        &&& nix_walk(text) is Some ==> exists|t: SyntaxTree|
            #[trigger] file_recorded(g1, g2, file, &t, nix_walk(text)->Some_0, encode_utf8(text))
    } else {
        g2.path_indices == g1.path_indices
    }
}

/// `gs` are the indexes that reading the sources `srcs` (path, text), in
/// order, passes through, from an index of `paths` with nothing recorded.
pub open spec fn built_from(paths: Seq<Seq<Seq<char>>>, srcs: Seq<(Seq<Seq<char>>, Seq<char>)>, gs: Seq<GlobalIndex>) -> bool {
    &&& gs.len() == srcs.len() + 1
    &&& gs[0].wf()
    &&& forall|p: Seq<Seq<char>>| gs[0].known().contains(p) <==> paths.contains(p)
    &&& forall|k: int| 0 <= k < gs[0].paths@.len() ==> gs[0].refs(k).len() == 0 && gs[0].refd_by(k).len() == 0
    &&& forall|s: int| 0 <= s < srcs.len() ==> #[trigger] source_step(&gs[s], &gs[s + 1], srcs[s].0, srcs[s].1)
}

pub open spec fn paths_view(v: Seq<TreePath>) -> Seq<Seq<Seq<char>>> {
    v.map_values(|p: TreePath| segs(&p))
}

pub open spec fn sources_view(v: Seq<(TreePath, String)>) -> Seq<(Seq<Seq<char>>, Seq<char>)> {
    v.map_values(|x: (TreePath, String)| (segs(&x.0), x.1@))
}

impl GlobalIndex {
    /// The reference graph of a tree: the walked `paths`, and the text of
    /// each file to read (path, contents), read in order. Gives the notes of
    /// each source, by its position.
    pub fn from_sources(paths: Vec<TreePath>, sources: &Vec<(TreePath, String)>) -> (r: (GlobalIndex, Vec<Vec<Note>>))
        requires
            forall|s: int|
                0 <= s < sources@.len() ==> encode_utf8((#[trigger] sources@[s]).1@).len() <= u32::MAX
                    && encode_utf8(sources@[s].1@).len() < usize::MAX,
        ensures
            r.0.wf(),
            r.1@.len() == sources@.len(),
            exists|gs: Seq<GlobalIndex>|
                #[trigger] built_from(paths_view(paths@), sources_view(sources@), gs)
                    && gs.last() == r.0,
    {
        let ghost pv = paths_view(paths@);
        let mut g = GlobalIndex::new(paths);
        proof {
            assert forall|p: Seq<Seq<char>>| g.known().contains(p) <==> pv.contains(p) by {
                if g.known().contains(p) {
                    let i = choose|i: int| 0 <= i < pv.len() && segs(&paths@[i]) == p;
                    assert(pv[i] == p);
                }
                if pv.contains(p) {
                    let i = choose|i: int| 0 <= i < pv.len() && pv[i] == p;
                    assert(segs(&paths@[i]) == p);
                }
            }
        }
        let ghost mut gs: Seq<GlobalIndex> = seq![g];
        let ghost sv = sources_view(sources@);
        let mut notes: Vec<Vec<Note>> = Vec::new();
        let mut s: usize = 0;
        while s < sources.len()
            invariant
                forall|x: int|
                    0 <= x < sources@.len() ==> encode_utf8((#[trigger] sources@[x]).1@).len() <= u32::MAX
                        && encode_utf8(sources@[x].1@).len() < usize::MAX,
                sv == sources_view(sources@),
                s <= sources@.len(),
                notes@.len() == s,
                g.wf(),
                built_from(pv, sv.take(s as int), gs),
                gs.last() == g,
            decreases sources@.len() - s,
        {
            let ghost g0 = g;
            let (path, text) = (&sources[s].0, &sources[s].1);
            assert(sv[s as int] == (segs(path), text@));
            let found = if path.len() > 0 { g.find(path) } else { None };
            match found {
                Some(file) => {
                    let n = g.add_source(file, text);
                    notes.push(n);
                    proof {
                        let k = position_of(&g0, segs(path));
                        assert(g0.known().contains(segs(path)));
                        if k != file as int {
                            if k < file {
                                assert(segs(&g0.paths@[k]) != segs(&g0.paths@[file as int]));
                            } else {
                                assert(segs(&g0.paths@[file as int]) != segs(&g0.paths@[k]));
                            }
                        }
                    }
                },
                None => {
                    notes.push(Vec::new());
                },
            }
            proof {
                assert(source_step(&g0, &g, sv[s as int].0, sv[s as int].1));
                let gs2 = gs.push(g);
                let sv2 = sv.take(s as int + 1);
                assert forall|x: int| 0 <= x < sv2.len() implies #[trigger] source_step(&gs2[x], &gs2[x + 1], sv2[x].0, sv2[x].1) by {
                    if x < s {
                        assert(gs2[x] == gs[x] && gs2[x + 1] == gs[x + 1]);
                        assert(sv2[x] == sv.take(s as int)[x]);
                        assert(source_step(&gs[x], &gs[x + 1], sv.take(s as int)[x].0, sv.take(s as int)[x].1));
                    } else {
                        assert(gs2[x] == g0);
                        assert(sv2[x] == sv[s as int]);
                    }
                }
                assert(gs2[0] == gs[0]);
                gs = gs2;
            }
            s = s + 1;
        }
        assert(sv.take(s as int) == sv);
        (g, notes)
    }
}


proof fn lemma_occurrences_at(s: Seq<Seq<Seq<char>>>, p: Seq<Seq<char>>, i: int)
    requires
        0 <= i < s.len(),
        s[i] == p,
    ensures
        occurrences(s, p) > 0,
    decreases s.len(),
{
    if i < s.len() - 1 {
        assert(s.drop_last()[i] == p);
        lemma_occurrences_at(s.drop_last(), p, i);
    }
}

proof fn lemma_walk_traversal(
    known: Set<Seq<Seq<char>>>,
    anc: Seq<Seq<char>>,
    rel: Seq<Seq<char>>,
    ascending: bool,
    ps: Seq<Seq<char>>,
)
    requires
        ascending ==> rel == anc,
        walk(known, anc, rel, ascending, ps) is Ok,
        ps.len() > 0,
        is_name(ps.last()),
    ensures
        traversal(rel, ps).len() > 0,
        traversal(rel, ps).last() == walk(known, anc, rel, ascending, ps)->Ok_0.1,
    decreases ps.len(),
{
    let p = ps[0];
    let rest = ps.drop_first();
    lemma_parent_not_cur(p);
    if ps.len() > 1 {
        assert(rest.last() == ps.last());
    }
    if is_cur(p) {
        assert(traversal(rel, ps) == traversal(rel, rest));
        lemma_walk_traversal(known, anc, rel, ascending, rest);
    } else if is_parent(p) {
        assert(ascending && anc.len() > 0);
        assert(rel == anc);
        assert(traversal(rel, ps) == seq![rel] + traversal(rel.drop_last(), rest));
        assert(walk(known, anc, rel, ascending, ps) == walk(known, anc.drop_last(), anc.drop_last(), true, rest));
        lemma_walk_traversal(known, anc.drop_last(), anc.drop_last(), true, rest);
        let t = traversal(rel.drop_last(), rest);
        assert((seq![rel] + t).last() == t.last());
    } else if rest.len() > 0 {
        assert(traversal(rel, ps) == seq![rel.push(p)] + traversal(rel.push(p), rest));
        assert(walk(known, anc, rel, ascending, ps) == walk(known, anc, rel.push(p), false, rest));
        lemma_walk_traversal(known, anc, rel.push(p), false, rest);
        let t = traversal(rel.push(p), rest);
        assert((seq![rel.push(p)] + t).last() == t.last());
    } else {
        assert(traversal(rel.push(p), rest) == Seq::<Seq<Seq<char>>>::empty());
        assert(traversal(rel, ps) == seq![rel.push(p)] + traversal(rel.push(p), rest));
        assert(walk(known, anc, rel, ascending, ps) == walk(known, anc, rel.push(p), false, rest));
        assert((seq![rel.push(p)] + Seq::<Seq<Seq<char>>>::empty()).last() == rel.push(p));
    }
}

/// A resolved reference marks the file that makes it, and, where its text
/// ends in a name, the path it reaches: a file that references a file of a
/// closure puts a pointer on that file.
pub proof fn lemma_reference_marks(known: Set<Seq<Seq<char>>>, source: Seq<Seq<char>>, text: Seq<char>)
    requires
        source.len() > 0,
        resolve_spec(known, source, text) is Ok,
    ensures
        occurrences(touched(source, resolve_spec(known, source, text)->Ok_0.0), source) > 0,
        is_name(pieces(text).last()) && resolve_spec(known, source, text)->Ok_0.0 == pieces(text) ==> occurrences(
            touched(source, pieces(text)),
            resolve_spec(known, source, text)->Ok_0.2,
        ) > 0,
{
    let found = resolve_spec(known, source, text)->Ok_0;
    let tt = touched(source, found.0);
    assert(tt[0] == source);
    lemma_occurrences_at(tt, source, 0);
    lemma_pieces_nonempty(text);
    if is_name(pieces(text).last()) && found.0 == pieces(text) {
        let d = source.drop_last();
        lemma_walk_traversal(known, d, d, true, pieces(text));
        let tr = traversal(d, pieces(text));
        assert(tt == seq![source, d] + tr);
        assert(tt[tt.len() - 1] == tr.last());
        lemma_occurrences_at(tt, found.2, tt.len() - 1);
    }
}

} // verus!
