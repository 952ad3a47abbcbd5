//! The destination store of unit directories: its shard names and the
//! validator of its layout.
use vstd::prelude::*;
use vstd::string::*;
use crate::path::{TreePath, segs, within, is_within, copy_path};
use crate::index::GlobalIndex;

verus! {

/// What lowercasing makes of `s`.
pub uninterp spec fn lower_of(s: Seq<char>) -> Seq<char>;

/// Relies on `str::to_lowercase`: the result depends on the characters alone.
#[verifier::external_body]
fn lowercase(s: &str) -> (r: String)
    ensures
        r@ == lower_of(s@),
{
    s.to_lowercase()
}

/// The first two characters of `s`, or all of it if it is shorter.
pub open spec fn first_two(s: Seq<char>) -> Seq<char> {
    if s.len() <= 2 {
        s
    } else {
        s.take(2)
    }
}

/// The shard an attribute belongs to: the first two characters of its
/// lowercased name.
pub open spec fn shard_key(attr: Seq<char>) -> Seq<char> {
    first_two(lower_of(attr))
}

/// The shard directory name of attribute `attr`.
pub fn attr_shard_dir(attr: &String) -> (r: String)
    ensures
        r@ == shard_key(attr@),
{
    let lower = lowercase(attr.as_str());
    let n = lower.as_str().unicode_len();
    if n <= 2 {
        lower
    } else {
        String::from_str(lower.as_str().substring_char(0, 2))
    }
}

/// An entry of a shard directory: its name, whether it is a directory, and
/// whether it holds the canonical entry file.
pub struct UnitEntry {
    pub name: String,
    pub is_dir: bool,
    pub has_entry_file: bool,
}

/// An entry of the store's root: its name, whether it is a directory, and
/// what it holds.
pub struct ShardListing {
    pub name: String,
    pub is_dir: bool,
    pub entries: Vec<UnitEntry>,
}

/// A violation of the store's layout.
pub enum UnitError {
    ShardNotDirectory { shard: String },
    EmptyShard { shard: String },
    NotDirectory { shard: String, entry: String },
    MissingEntryFile { shard: String, entry: String },
    WrongShard { shard: String, entry: String },
    InvalidCharacter { shard: String, entry: String, c: char },
    /// A unit directory is referenced by reference `index` of file `by`,
    /// whose movable ancestor lies outside it.
    CrossesBoundary { unit: TreePath, by: usize, index: usize },
}

pub open spec fn valid_char(c: char) -> bool {
    ('a' <= c && c <= 'z') || ('A' <= c && c <= 'Z') || ('0' <= c && c <= '9') || c == '-' || c == '_'
}

pub open spec fn valid_name(s: Seq<char>) -> bool {
    forall|i: int| 0 <= i < s.len() ==> valid_char(#[trigger] s[i])
}

pub open spec fn entry_ok(shard: Seq<char>, e: UnitEntry) -> bool {
    e.is_dir && e.has_entry_file && shard_key(e.name@) == shard && valid_name(e.name@)
}

pub open spec fn shard_ok(s: ShardListing) -> bool {
    &&& s.is_dir
    &&& s.entries@.len() > 0
    &&& forall|j: int| 0 <= j < s.entries@.len() ==> entry_ok(s.name@, #[trigger] s.entries@[j])
}

/// Every root entry is a non-empty shard directory of well-named unit
/// directories that hold the entry file and sit in their own shard.
pub open spec fn store_ok(l: Seq<ShardListing>) -> bool {
    forall|i: int| 0 <= i < l.len() ==> shard_ok(#[trigger] l[i])
}

/// The path of unit directory `name` in shard `shard` below `root`.
pub open spec fn unit_path(root: Seq<Seq<char>>, shard: Seq<char>, name: Seq<char>) -> Seq<Seq<char>> {
    root.push(shard).push(name)
}

/// No reference that depends on the unit directory at position `k` has a
/// movable ancestor outside it.
pub open spec fn unit_refs_ok(g: &GlobalIndex, k: int) -> bool {
    forall|q: int|
        0 <= q < g.refd_by(k).len() ==> within(
            segs(&g.refs(#[trigger] g.refd_by(k)[q].0 as int)[g.refd_by(k)[q].1 as int].movable_ancestor),
            segs(&g.paths@[k]),
        )
}

/// Every unit directory the index knows keeps its references inside it.
pub open spec fn store_refs_ok(g: &GlobalIndex, root: Seq<Seq<char>>, l: Seq<ShardListing>) -> bool {
    forall|i: int, j: int, k: int|
        0 <= i < l.len() && 0 <= j < l[i].entries@.len() && 0 <= k < g.paths@.len() && segs(&g.paths@[k])
            == unit_path(root, l[i].name@, #[trigger] l[i].entries@[j].name@) ==> #[trigger] unit_refs_ok(g, k)
}

fn name_problem(name: &String) -> (r: Option<char>)
    ensures
        match r {
            Some(c) => name@.contains(c) && !valid_char(c),
            None => valid_name(name@),
        },
{
    let n = name.as_str().unicode_len();
    let mut i: usize = 0;
    while i < n
        invariant
            n == name@.len(),
            i <= n,
            forall|j: int| 0 <= j < i ==> valid_char(#[trigger] name@[j]),
        decreases n - i,
    {
        let c = name.as_str().get_char(i);
        if !(('a' <= c && c <= 'z') || ('A' <= c && c <= 'Z') || ('0' <= c && c <= '9') || c == '-' || c == '_') {
            return Some(c);
        }
        i = i + 1;
    }
    None
}

fn unit_path_of(root: &TreePath, shard: &String, name: &String) -> (r: TreePath)
    ensures
        segs(&r) == unit_path(segs(root), shard@, name@),
{
    let mut p = copy_path(root);
    p.push(shard.clone());
    p.push(name.clone());
    assert(segs(&p) =~= unit_path(segs(root), shard@, name@));
    p
}

/// Checks the layout of the store whose root holds `listing`: every root
/// entry a non-empty shard directory, every unit directory holding the entry
/// file, well named and in its own shard.
pub fn check_unit_dir(listing: &Vec<ShardListing>) -> (r: Result<(), UnitError>)
    ensures
        r is Ok <==> store_ok(listing@),
        match r {
            Err(UnitError::ShardNotDirectory { shard }) => exists|i: int|
                0 <= i < listing@.len() && listing@[i].name@ == shard@ && !listing@[i].is_dir,
            Err(UnitError::EmptyShard { shard }) => exists|i: int|
                0 <= i < listing@.len() && listing@[i].name@ == shard@ && listing@[i].entries@.len() == 0,
            Err(UnitError::NotDirectory { shard, entry }) => exists|i: int, j: int|
                0 <= i < listing@.len() && 0 <= j < listing@[i].entries@.len() && listing@[i].name@ == shard@
                    && listing@[i].entries@[j].name@ == entry@ && !listing@[i].entries@[j].is_dir,
            Err(UnitError::MissingEntryFile { shard, entry }) => exists|i: int, j: int|
                0 <= i < listing@.len() && 0 <= j < listing@[i].entries@.len() && listing@[i].name@ == shard@
                    && listing@[i].entries@[j].name@ == entry@ && !listing@[i].entries@[j].has_entry_file,
            Err(UnitError::WrongShard { shard, entry }) => exists|i: int, j: int|
                0 <= i < listing@.len() && 0 <= j < listing@[i].entries@.len() && listing@[i].name@ == shard@
                    && listing@[i].entries@[j].name@ == entry@ && shard_key(entry@) != shard@,
            Err(UnitError::InvalidCharacter { shard, entry, c }) => exists|i: int, j: int|
                0 <= i < listing@.len() && 0 <= j < listing@[i].entries@.len() && listing@[i].name@ == shard@
                    && listing@[i].entries@[j].name@ == entry@ && entry@.contains(c) && !valid_char(c),
            Err(UnitError::CrossesBoundary { .. }) => false,
            Ok(_) => true,
        },
{
    let mut i: usize = 0;
    while i < listing.len()
        invariant
            i <= listing@.len(),
            forall|a: int| 0 <= a < i ==> shard_ok(#[trigger] listing@[a]),
        decreases listing@.len() - i,
    {
        let s = &listing[i];
        if !s.is_dir {
            return Err(UnitError::ShardNotDirectory { shard: s.name.clone() });
        }
        if s.entries.len() == 0 {
            return Err(UnitError::EmptyShard { shard: s.name.clone() });
        }
        let mut j: usize = 0;
        while j < s.entries.len()
            invariant
                i < listing@.len(),
                *s == listing@[i as int],
                j <= s.entries@.len(),
                forall|b: int| 0 <= b < j ==> entry_ok(s.name@, #[trigger] s.entries@[b]),
            decreases s.entries@.len() - j,
        {
            let e = &s.entries[j];
            if !e.is_dir {
                return Err(UnitError::NotDirectory { shard: s.name.clone(), entry: e.name.clone() });
            }
            if !e.has_entry_file {
                return Err(UnitError::MissingEntryFile { shard: s.name.clone(), entry: e.name.clone() });
            }
            let key = attr_shard_dir(&e.name);
            if key != s.name {
                return Err(UnitError::WrongShard { shard: s.name.clone(), entry: e.name.clone() });
            }
            match name_problem(&e.name) {
                Some(c) => {
                    return Err(UnitError::InvalidCharacter { shard: s.name.clone(), entry: e.name.clone(), c });
                },
                None => {},
            }
            j = j + 1;
        }
        i = i + 1;
    }
    Ok(())
}

/// Checks that no reference into a unit directory `unit_root/<shard>/<name>`
/// of the store holding `listing`, in the tree that `g` indexes, has a
/// movable ancestor outside that directory.
pub fn check_unit_refs(listing: &Vec<ShardListing>, unit_root: &TreePath, g: &GlobalIndex) -> (r: Result<(), UnitError>)
    requires
        g.wf(),
    ensures
        r is Ok <==> store_refs_ok(g, segs(unit_root), listing@),
        match r {
            Err(UnitError::CrossesBoundary { unit, by, index }) => exists|k: int, q: int|
                0 <= k < g.paths@.len() && segs(&g.paths@[k]) == segs(&unit) && 0 <= q < g.refd_by(k).len()
                    && g.refd_by(k)[q] == (by, index) && !within(
                    segs(&g.refs(by as int)[index as int].movable_ancestor),
                    segs(&unit),
                ),
            Err(_) => false,
            Ok(_) => true,
        },
{
    let mut i: usize = 0;
    while i < listing.len()
        invariant
            g.wf(),
            i <= listing@.len(),
            forall|a: int, j: int, k: int|
                0 <= a < i && 0 <= j < listing@[a].entries@.len() && 0 <= k < g.paths@.len() && segs(&g.paths@[k])
                    == unit_path(segs(unit_root), listing@[a].name@, #[trigger] listing@[a].entries@[j].name@) ==> #[trigger] unit_refs_ok(g, k),
        decreases listing@.len() - i,
    {
        let s = &listing[i];
        let mut j: usize = 0;
        while j < s.entries.len()
            invariant
                g.wf(),
                i < listing@.len(),
                *s == listing@[i as int],
                    j <= s.entries@.len(),
                forall|a: int, b: int, k: int|
                    0 <= a < i && 0 <= b < listing@[a].entries@.len() && 0 <= k < g.paths@.len() && segs(&g.paths@[k])
                        == unit_path(segs(unit_root), listing@[a].name@, #[trigger] listing@[a].entries@[b].name@) ==> #[trigger] unit_refs_ok(g, k),
                forall|b: int, k: int|
                    0 <= b < j && 0 <= k < g.paths@.len() && segs(&g.paths@[k])
                        == unit_path(segs(unit_root), s.name@, #[trigger] s.entries@[b].name@) ==> #[trigger] unit_refs_ok(g, k),
            decreases s.entries@.len() - j,
        {
            let e = &s.entries[j];
            let unit = unit_path_of(unit_root, &s.name, &e.name);
            match g.find(&unit) {
                None => {
                    proof {
                        assert forall|b: int, k: int|
                            0 <= b < j + 1 && 0 <= k < g.paths@.len() && segs(&g.paths@[k])
                                == unit_path(segs(unit_root), s.name@, #[trigger] s.entries@[b].name@) implies #[trigger] unit_refs_ok(g, k) by {
                            if b == j {
                                assert(g.known().contains(segs(&unit)));
                            }
                        }
                    }
                },
                Some(k) => {
                    let m = g.path_indices[k].referenced_by.len();
                    let mut q: usize = 0;
                    while q < m
                        invariant
                            g.wf(),
                            k < g.paths@.len(),
                            m == g.refd_by(k as int).len(),
                            q <= m,
                            i < listing@.len(),
                            *s == listing@[i as int],
                            j < s.entries@.len(),
                            segs(&unit) == unit_path(segs(unit_root), s.name@, s.entries@[j as int].name@),
                            segs(&g.paths@[k as int]) == segs(&unit),
                            forall|w: int|
                                0 <= w < q ==> within(
                                    segs(&g.refs(#[trigger] g.refd_by(k as int)[w].0 as int)[g.refd_by(k as int)[w].1 as int].movable_ancestor),
                                    segs(&g.paths@[k as int]),
                                ),
                        decreases m - q,
                    {
                        let (by, index) = g.path_indices[k].referenced_by[q];
                        assert((by, index) == g.refd_by(k as int)[q as int]);
                        let rf = &g.path_indices[by].references[index];
                        if !is_within(&rf.movable_ancestor, &unit) {
                            proof {
                                assert(*rf == g.refs(by as int)[index as int]);
                                assert(!unit_refs_ok(g, k as int)) by {
                                    assert(g.refd_by(k as int)[q as int].0 == by);
                                }
                                assert(s.entries@[j as int] == listing@[i as int].entries@[j as int]);
                                assert(segs(&g.paths@[k as int]) == unit_path(segs(unit_root), listing@[i as int].name@, listing@[i as int].entries@[j as int].name@));
                                assert(!store_refs_ok(g, segs(unit_root), listing@));
                            }
                            return Err(UnitError::CrossesBoundary { unit, by, index });
                        }
                        q = q + 1;
                    }
                    proof {
                        assert forall|b: int, k2: int|
                            0 <= b < j + 1 && 0 <= k2 < g.paths@.len() && segs(&g.paths@[k2])
                                == unit_path(segs(unit_root), s.name@, #[trigger] s.entries@[b].name@) implies #[trigger] unit_refs_ok(g, k2) by {
                            if b == j {
                                if k2 != k {
                                    assert(segs(&g.paths@[k2]) == segs(&g.paths@[k as int]));
                                }
                            }
                        }
                    }
                },
            }
            j = j + 1;
        }
        i = i + 1;
    }
    Ok(())
}


/// A shard without entries, an entry name holding `@`, or an entry in a shard
/// other than its own each make the store invalid.
pub proof fn lemma_store_rejects(l: Seq<ShardListing>, i: int, j: int)
    requires
        0 <= i < l.len(),
        l[i].entries@.len() == 0 || (0 <= j < l[i].entries@.len() && (l[i].entries@[j].name@.contains('@')
            || shard_key(l[i].entries@[j].name@) != l[i].name@)),
    ensures
        !store_ok(l),
{
    if l[i].entries@.len() > 0 && l[i].entries@[j].name@.contains('@') {
        let e = l[i].entries@[j];
        let w = choose|w: int| 0 <= w < e.name@.len() && e.name@[w] == '@';
        assert(!valid_char(e.name@[w]));
        assert(!entry_ok(l[i].name@, e));
    }
    if l[i].entries@.len() > 0 {
        assert(!entry_ok(l[i].name@, l[i].entries@[j]) || l[i].entries@[j].name@.contains('@'));
    }
}

} // verus!
