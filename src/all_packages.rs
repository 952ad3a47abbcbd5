//! The top-level declarations file: its forwarding declarations
//! (`name = callPackage ./path { };`) and the deferred removal of entries.
use vstd::prelude::*;
use vstd::hash_map::StringHashMap;
use vstd::string::*;
use vstd::utf8::encode_utf8;
use crate::line_index::{LineIndex, newlines_before};
use crate::editor::{removal_chain, dropped, lemma_dropped_prefix, remove_entry_at, Removal, lemma_scan_back_tokens, same_elem, lemma_chain_push};
use crate::syntax::{SyntaxTree, Pick, picked, parse, nix_walk, entered, same_shape, lemma_walk_fixes_shape, lemma_picked_same, NODE_ATTR_SET, NODE_LAMBDA, NODE_WITH, NODE_APPLY, NODE_IDENT, NODE_PATH, NODE_ATTRPATH_VALUE};

verus! {

/// One forwarding declaration: its position among the children of the
/// attribute set (tokens included), its line, and the literal path it
/// forwards to.
#[derive(Debug, Clone)]
pub struct Entry {
    pub index: usize,
    pub line: usize,
    pub path: String,
}

pub type EntryView = (usize, usize, Seq<char>);

pub open spec fn entry_view(e: Entry) -> EntryView {
    (e.index, e.line, e.path@)
}

/// The first picked child of `i`, if any.
pub open spec fn first_picked(t: &SyntaxTree, i: int, which: Pick) -> Option<usize> {
    if picked(t, i, which).len() > 0 {
        Some(picked(t, i, which)[0])
    } else {
        None
    }
}

/// The `k`-th expression child of `i`, if any.
pub open spec fn expr_kid(t: &SyntaxTree, i: int, k: int) -> Option<usize> {
    if 0 <= k < picked(t, i, Pick::Expr).len() {
        Some(picked(t, i, Pick::Expr)[k])
    } else {
        None
    }
}

/// The attribute set an expression comes to once enclosing functions and
/// `with` scopes are peeled off.
pub open spec fn resulting_attrs(t: &SyntaxTree, i: int) -> Option<usize>
    decreases t.len() - i,
{
    if !(0 <= i < t.len()) || t.is_token@[i] {
        None
    } else if t.kinds@[i] == NODE_ATTR_SET {
        Some(i as usize)
    } else if t.kinds@[i] == NODE_LAMBDA || t.kinds@[i] == NODE_WITH {
        match expr_kid(t, i, if t.kinds@[i] == NODE_LAMBDA { 0 } else { 1 }) {
            Some(c) => if i < c < t.len() {
                resulting_attrs(t, c as int)
            } else {
                None
            },
            None => None,
        }
    } else {
        None
    }
}

/// Trees of the same shape come to the same attribute set.
pub proof fn lemma_resulting_attrs_same(t1: &SyntaxTree, t2: &SyntaxTree, i: int)
    requires
        t1.wf(),
        t2.wf(),
        same_shape(t1, t2),
    ensures
        resulting_attrs(t1, i) == resulting_attrs(t2, i),
    decreases t1.len() - i,
{
    if 0 <= i < t1.len() {
        assert(t1.kinds@[i] == t2.kinds@[i] && t1.is_token@[i] == t2.is_token@[i]);
        lemma_picked_same(t1, t2, i, Pick::Expr);
        let ps = picked(t1, i, Pick::Expr);
        let k: int = if t1.kinds@[i] == NODE_LAMBDA { 0 } else { 1 };
        if 0 <= k < ps.len() && i < ps[k] < t1.len() {
            lemma_resulting_attrs_same(t1, t2, ps[k] as int);
        }
    }
}

/// The file parsed as `t` comes to no attribute set: its root holds no
/// expression, or that expression, once functions and `with` scopes are
/// peeled off, is no attribute set.
pub open spec fn no_attribute_set(t: &SyntaxTree) -> bool {
    picked(t, 0, Pick::Expr).len() == 0 || resulting_attrs(t, picked(t, 0, Pick::Expr)[0] as int) is None
}

/// An expression as a chain of applications: the function, then each
/// argument in order.
pub open spec fn apply_chain(t: &SyntaxTree, i: int) -> Seq<usize>
    decreases t.len() - i,
{
    if 0 <= i < t.len() && !t.is_token@[i] && t.kinds@[i] == NODE_APPLY && expr_kid(t, i, 0) is Some
        && expr_kid(t, i, 1) is Some && i < expr_kid(t, i, 0)->Some_0 < t.len() {
        apply_chain(t, expr_kid(t, i, 0)->Some_0 as int).push(expr_kid(t, i, 1)->Some_0)
    } else {
        seq![i as usize]
    }
}

/// The text of the identifier token of identifier node `i`, if any.
pub open spec fn ident_text(t: &SyntaxTree, i: int) -> Option<Seq<char>> {
    match first_picked(t, i, Pick::IdentToken) {
        Some(c) => Some(t.texts@[c as int]@),
        None => None,
    }
}

pub open spec fn call_package() -> Seq<char> {
    "callPackage"@
}

/// The attribute name an `name = value;` element defines, where its path is a
/// single identifier.
pub open spec fn simple_name(t: &SyntaxTree, c: int) -> Option<Seq<char>> {
    match first_picked(t, c, Pick::Attrpath) {
        Some(ap) => {
            let attrs = picked(t, ap as int, Pick::Attr);
            if attrs.len() == 1 && t.kinds@[attrs[0] as int] == NODE_IDENT {
                ident_text(t, attrs[0] as int)
            } else {
                None
            }
        },
        None => None,
    }
}

/// The literal path a forwarding value `callPackage <path> { }` names.
pub open spec fn forwarded_path(t: &SyntaxTree, c: int) -> Option<Seq<char>> {
    match expr_kid(t, c, 0) {
        Some(v) => {
            let chain = apply_chain(t, v as int);
            if chain.len() == 3 && t.kinds@[chain[0] as int] == NODE_IDENT && ident_text(
                t,
                chain[0] as int,
            ) == Some(call_package()) && t.kinds@[chain[1] as int] == NODE_PATH && t.kids(
                chain[1] as int,
            ).len() == 1 && t.is_token@[t.kids(chain[1] as int)[0] as int] && t.kinds@[chain[2] as int]
                == NODE_ATTR_SET && picked(t, chain[2] as int, Pick::Entry).len() == 0 {
                Some(t.texts@[t.kids(chain[1] as int)[0] as int]@)
            } else {
                None
            }
        },
        None => None,
    }
}

/// The catalog entry that child `pos` of attribute set `set` makes, if it is
/// a forwarding declaration with a simple name.
pub open spec fn entry_at(t: &SyntaxTree, b: Seq<u8>, set: int, pos: int) -> Option<(Seq<char>, EntryView)> {
    let c = t.kids(set)[pos] as int;
    if !t.is_token@[c] && t.kinds@[c] == NODE_ATTRPATH_VALUE && simple_name(t, c) is Some
        && forwarded_path(t, c) is Some {
        Some(
            (
                simple_name(t, c)->Some_0,
                (
                    pos as usize,
                    (1 + newlines_before(b, t.starts@[c] as int)) as usize,
                    forwarded_path(t, c)->Some_0,
                ),
            ),
        )
    } else {
        None
    }
}

/// The entries that the first `k` children of `set` make; a later name wins.
pub open spec fn catalog(t: &SyntaxTree, b: Seq<u8>, set: int, k: int) -> Map<Seq<char>, EntryView>
    decreases k,
{
    if k <= 0 {
        Map::empty()
    } else {
        match entry_at(t, b, set, k - 1) {
            Some((name, e)) => catalog(t, b, set, k - 1).insert(name, e),
            None => catalog(t, b, set, k - 1),
        }
    }
}

/// A declaration that is skipped and said so: its line and the text of its
/// attribute path.
pub enum CatalogNote {
    /// The attribute path has more than one attribute.
    AttributePath { line: usize, text: String },
    /// Its single attribute is not an identifier.
    NotIdentifier { line: usize, text: String },
}

/// Why the declarations file cannot be used at all.
pub enum CatalogError {
    /// rnix's first parse error.
    Unparseable(String),
    /// The file does not come to an attribute set.
    NoAttributeSet,
}

/// The parsed declarations file, its forwarding declarations by attribute
/// name, and the attributes queued for removal.
pub struct AllPackages {
    pub tree: SyntaxTree,
    /// The attribute set holding the declarations.
    pub set: usize,
    /// The bytes of the text the tree was parsed from.
    pub text: Ghost<Seq<u8>>,
    pub entries: StringHashMap<Entry>,
    /// Every name in `entries`, once, in the order of the file.
    pub names: Vec<String>,
    pub attributes_to_remove: Vec<String>,
}

impl AllPackages {
    pub open spec fn wf(&self) -> bool {
        &&& self.tree.wf()
        &&& self.set < self.tree.len()
        &&& forall|name: Seq<char>| #[trigger]
            self.entries@.contains_key(name) ==> self.entries@[name].index < self.tree.kids(
                self.set as int,
            ).len() && !self.tree.is_token@[self.tree.kids(self.set as int)[self.entries@[name].index as int] as int]
        &&& forall|a: Seq<char>, b: Seq<char>|
            #![trigger self.entries@[a], self.entries@[b]]
            self.entries@.contains_key(a) && self.entries@.contains_key(b) && a != b
                ==> self.entries@[a].index != self.entries@[b].index
        &&& forall|i: int|
            0 <= i < self.names@.len() ==> self.entries@.contains_key(#[trigger] self.names@[i]@)
        &&& forall|name: Seq<char>|
            #[trigger] self.entries@.contains_key(name) ==> exists|i: int|
                0 <= i < self.names@.len() && self.names@[i]@ == name
        &&& forall|i: int|
            0 <= i < self.attributes_to_remove@.len() ==> self.entries@.contains_key(
                #[trigger] self.attributes_to_remove@[i]@,
            )
        &&& forall|i: int, j: int|
            0 <= i < j < self.attributes_to_remove@.len() ==> self.attributes_to_remove@[i]@
                != self.attributes_to_remove@[j]@
    }

    /// The entries, as values.
    pub open spec fn entry_map(&self) -> Map<Seq<char>, EntryView> {
        self.entries@.map_values(|e: Entry| entry_view(e))
    }
}

fn resulting_attrs_of(t: &SyntaxTree, i: usize) -> (r: Option<usize>)
    requires
        t.wf(),
        i < t.len(),
    ensures
        r == resulting_attrs(t, i as int),
        r matches Some(s) ==> s < t.len(),
    decreases t.len() - i,
{
    if t.is_token[i] {
        None
    } else if t.kinds[i] == NODE_ATTR_SET {
        Some(i)
    } else if t.kinds[i] == NODE_LAMBDA || t.kinds[i] == NODE_WITH {
        let exprs = t.kids_picked(i, Pick::Expr);
        let k: usize = if t.kinds[i] == NODE_LAMBDA { 0 } else { 1 };
        if k < exprs.len() {
            resulting_attrs_of(t, exprs[k])
        } else {
            None
        }
    } else {
        None
    }
}

fn apply_chain_of(t: &SyntaxTree, i: usize) -> (r: Vec<usize>)
    requires
        t.wf(),
        i < t.len(),
    ensures
        r@ == apply_chain(t, i as int),
        forall|j: int| 0 <= j < r@.len() ==> #[trigger] r@[j] < t.len(),
    decreases t.len() - i,
{
    if !t.is_token[i] && t.kinds[i] == NODE_APPLY {
        let exprs = t.kids_picked(i, Pick::Expr);
        if exprs.len() >= 2 {
            let mut chain = apply_chain_of(t, exprs[0]);
            chain.push(exprs[1]);
            return chain;
        }
    }
    let mut one: Vec<usize> = Vec::new();
    one.push(i);
    assert(one@ =~= seq![i]);
    one
}

fn ident_text_of(t: &SyntaxTree, i: usize) -> (r: Option<String>)
    requires
        t.wf(),
        i < t.len(),
    ensures
        match r {
            Some(s) => ident_text(t, i as int) == Some(s@),
            None => ident_text(t, i as int) is None,
        },
{
    let toks = t.kids_picked(i, Pick::IdentToken);
    if toks.len() > 0 {
        Some(t.texts[toks[0]].clone())
    } else {
        None
    }
}

fn is_call_package(s: &String) -> (r: bool)
    ensures
        r == (s@ == call_package()),
{
    let name = String::from_str("callPackage");
    *s == name
}

fn forwarded_path_of(t: &SyntaxTree, c: usize) -> (r: Option<String>)
    requires
        t.wf(),
        c < t.len(),
    ensures
        match r {
            Some(s) => forwarded_path(t, c as int) == Some(s@),
            None => forwarded_path(t, c as int) is None,
        },
{
    let exprs = t.kids_picked(c, Pick::Expr);
    if exprs.len() == 0 {
        return None;
    }
    let chain = apply_chain_of(t, exprs[0]);
    if chain.len() != 3 {
        return None;
    }
    let (f, p, a) = (chain[0], chain[1], chain[2]);
    if t.kinds[f] != NODE_IDENT {
        return None;
    }
    match ident_text_of(t, f) {
        Some(name) => {
            if !is_call_package(&name) {
                return None;
            }
        },
        None => {
            return None;
        },
    }
    if t.kinds[p] != NODE_PATH || t.children[p].len() != 1 {
        return None;
    }
    let part = t.children[p][0];
    assert(t.kids(p as int)[0] == part);
    if !t.is_token[part] || t.kinds[a] != NODE_ATTR_SET {
        return None;
    }
    if t.kids_picked(a, Pick::Entry).len() != 0 {
        return None;
    }
    Some(t.texts[part].clone())
}

impl AllPackages {
    /// Parses the declarations file `contents` and collects its forwarding
    /// declarations; skipped declarations with an attribute path or a
    /// non-identifier name are noted.
    pub fn new(contents: &String) -> (r: Result<(AllPackages, Vec<CatalogNote>), CatalogError>)
        requires
            encode_utf8(contents@).len() <= u32::MAX,
            encode_utf8(contents@).len() < usize::MAX,
        ensures
            match r {
                Ok((ap, _)) => {
                    &&& ap.wf()
                    &&& ap.text@ == encode_utf8(contents@)
                    &&& nix_walk(contents@) is Some
                    &&& ap.tree.holds_walk(nix_walk(contents@)->Some_0)
                    &&& Some(ap.set) == resulting_attrs(&ap.tree, picked(&ap.tree, 0, Pick::Expr)[0] as int)
                    &&& ap.entry_map() == catalog(&ap.tree, ap.text@, ap.set as int, ap.tree.kids(ap.set as int).len() as int)
                    &&& ap.attributes_to_remove@.len() == 0
                },
                Err(CatalogError::Unparseable(_)) => nix_walk(contents@) is None,
                Err(CatalogError::NoAttributeSet) => {
                    &&& nix_walk(contents@) is Some
                    &&& entered(nix_walk(contents@)->Some_0).len() <= usize::MAX - 2 ==> forall|t: SyntaxTree|
                        t.wf() && #[trigger] t.holds_walk(nix_walk(contents@)->Some_0) ==> no_attribute_set(&t)
                },
            },
    {
        let tree = match parse(contents.as_str()) {
            Ok(t) => t,
            Err(e) => {
                return Err(CatalogError::Unparseable(e));
            },
        };
        let lines = LineIndex::new(contents);
        let top = tree.kids_picked(0, Pick::Expr);
        let found = if top.len() == 0 {
            None
        } else {
            resulting_attrs_of(&tree, top[0])
        };
        let set = match found {
            Some(s) => s,
            None => {
                proof {
                    let w = nix_walk(contents@)->Some_0;
                    assert(no_attribute_set(&tree));
                    assert forall|t: SyntaxTree|
                        entered(w).len() <= usize::MAX - 2 && t.wf() && #[trigger] t.holds_walk(w) implies no_attribute_set(&t) by {
                        lemma_walk_fixes_shape(&tree, &t, w);
                        lemma_picked_same(&tree, &t, 0, Pick::Expr);
                        if picked(&t, 0, Pick::Expr).len() > 0 {
                            lemma_resulting_attrs_same(&tree, &t, picked(&t, 0, Pick::Expr)[0] as int);
                        }
                    }
                }
                return Err(CatalogError::NoAttributeSet);
            },
        };
        let mut entries: StringHashMap<Entry> = StringHashMap::new();
        let mut names: Vec<String> = Vec::new();
        let mut notes: Vec<CatalogNote> = Vec::new();
        let ghost b = lines.text();
        let n = tree.children[set].len();
        let mut pos: usize = 0;
        while pos < n
            invariant
                tree.wf(),
                lines.wf(),
                b == lines.text(),
                set < tree.len(),
                n == tree.kids(set as int).len(),
                pos <= n,
                entries@.map_values(|e: Entry| entry_view(e)) == catalog(&tree, b, set as int, pos as int),
                forall|name: Seq<char>| #[trigger]
                    entries@.contains_key(name) ==> entries@[name].index < pos && !tree.is_token@[tree.kids(set as int)[entries@[name].index as int] as int],
                forall|a: Seq<char>, b: Seq<char>|
                    #![trigger entries@[a], entries@[b]]
                    entries@.contains_key(a) && entries@.contains_key(b) && a != b
                        ==> entries@[a].index != entries@[b].index,
                forall|i: int| 0 <= i < names@.len() ==> entries@.contains_key(#[trigger] names@[i]@),
                forall|name: Seq<char>|
                    #[trigger] entries@.contains_key(name) ==> exists|i: int|
                        0 <= i < names@.len() && names@[i]@ == name,
            decreases n - pos,
        {
            let c = tree.children[set][pos];
            assert(tree.kids(set as int)[pos as int] == c);
            assert(c < tree.len());
            let ghost before = entries@;
            if !tree.is_token[c] && tree.kinds[c] == NODE_ATTRPATH_VALUE {
                let line = lines.line(tree.starts[c]);
                let paths = tree.kids_picked(c, Pick::Attrpath);
                if paths.len() > 0 {
                    let ap = paths[0];
                    let attrs = tree.kids_picked(ap, Pick::Attr);
                    let name: Option<String> = if attrs.len() == 1 && tree.kinds[attrs[0]] == NODE_IDENT {
                        ident_text_of(&tree, attrs[0])
                    } else {
                        None
                    };
                    match name {
                        Some(name) => {
                            match forwarded_path_of(&tree, c) {
                                Some(path) => {
                                    let ghost nv = name@;
                                    let ghost old_names = names@;
                                    if !entries.contains_key(name.as_str()) {
                                        names.push(name.clone());
                                        assert(names@[names@.len() - 1]@ == nv);
                                    }
                                    entries.insert(name, Entry { index: pos, line, path });
                                    proof {
                                        assert forall|i: int| 0 <= i < names@.len() implies entries@.contains_key(#[trigger] names@[i]@) by {
                                            if i < old_names.len() {
                                                assert(names@[i] == old_names[i]);
                                            }
                                        }
                                        assert forall|k: Seq<char>|
                                            #[trigger] entries@.contains_key(k) implies exists|i: int|
                                                0 <= i < names@.len() && names@[i]@ == k by {
                                            if k != nv {
                                                assert(before.contains_key(k));
                                                let i = choose|i: int| 0 <= i < old_names.len() && old_names[i]@ == k;
                                                assert(names@[i] == old_names[i]);
                                            } else if before.contains_key(k) {
                                                let i = choose|i: int| 0 <= i < old_names.len() && old_names[i]@ == k;
                                                assert(names@[i] == old_names[i]);
                                            } else {
                                                assert(names@[names@.len() - 1]@ == nv);
                                            }
                                        }
                                        assert(entry_at(&tree, b, set as int, pos as int) == Some(
                                            (nv, (pos, line, entries@[nv].path@)),
                                        ));
                                        assert(entries@.map_values(|e: Entry| entry_view(e)) =~= before.map_values(
                                            |e: Entry| entry_view(e),
                                        ).insert(nv, (pos, line, entries@[nv].path@)));
                                    }
                                },
                                None => {
                                },
                            }
                        },
                        None => {
                            let text = tree.render_elem(ap);
                            if attrs.len() != 1 {
                                notes.push(CatalogNote::AttributePath { line, text });
                            } else {
                                notes.push(CatalogNote::NotIdentifier { line, text });
                            }
                        },
                    }
                }
            }
            pos = pos + 1;
        }
        let ap = AllPackages {
            tree,
            set,
            text: Ghost(b),
            entries,
            names,
            attributes_to_remove: Vec::new(),
        };
        Ok((ap, notes))
    }
}


impl AllPackages {
    /// The attribute queued for removal that is declared by child `pos` of
    /// the set, if any.
    pub open spec fn queued_at(&self, pos: int) -> Option<Seq<char>> {
        let q = self.attributes_to_remove@;
        if exists|i: int| 0 <= i < q.len() && self.entries@[q[i]@].index == pos {
            Some(q[choose|i: int| 0 <= i < q.len() && self.entries@[q[i]@].index == pos]@)
        } else {
            None
        }
    }

    /// The queued removals among children `lo..hi` of the set, from the last
    /// to the first.
    pub open spec fn ops_down(&self, hi: int, lo: int) -> Seq<(usize, Seq<char>)>
        decreases hi - lo,
    {
        if hi <= lo {
            Seq::empty()
        } else {
            match self.queued_at(lo) {
                Some(a) => self.ops_down(hi, lo + 1).push((lo as usize, a)),
                None => self.ops_down(hi, lo + 1),
            }
        }
    }

    /// `a` is queued for removal.
    pub open spec fn queued(&self, a: Seq<char>) -> bool {
        exists|i: int| 0 <= i < self.attributes_to_remove@.len() && #[trigger] self.attributes_to_remove@[i]@ == a
    }

    /// All queued removals, from the last declaration to the first.
    pub open spec fn removal_order(&self) -> Seq<(usize, Seq<char>)> {
        self.ops_down(self.tree.kids(self.set as int).len() as int, 0)
    }

    /// `text` is the declarations file after every queued removal, and
    /// `fallback` the attributes whose entry was dropped alone because the
    /// whitespace around it could not be normalised.
    pub open spec fn renders_as(&self, text: Seq<char>, fallback: Seq<Seq<char>>) -> bool {
        exists|ts: Seq<SyntaxTree>|
            #[trigger] removal_chain(&self.tree, ts, self.set as int, self.removal_order()) && ts.last().text() == text
                && dropped(ts, self.set as int, self.removal_order()) == fallback
    }

    /// Queues `attribute` for removal if it has an entry (once); says whether
    /// it has one.
    pub fn remove(&mut self, attribute: &String) -> (r: bool)
        requires
            old(self).wf(),
        ensures
            final(self).wf(),
            r == old(self).entries@.contains_key(attribute@),
            final(self).tree == old(self).tree,
            final(self).set == old(self).set,
            final(self).entries@ == old(self).entries@,
            final(self).names@ == old(self).names@,
            forall|a: Seq<char>| #[trigger] final(self).queued(a) <==> (r && a == attribute@) || old(self).queued(a),
    {
        if !self.entries.contains_key(attribute.as_str()) {
            return false;
        }
        let n = self.attributes_to_remove.len();
        let mut i: usize = 0;
        while i < n
            invariant
                *self == *old(self),
                self.wf(),
                self.entries@.contains_key(attribute@),
                n == self.attributes_to_remove@.len(),
                i <= n,
                forall|k: int| 0 <= k < i ==> self.attributes_to_remove@[k]@ != attribute@,
            decreases n - i,
        {
            if self.attributes_to_remove[i] == *attribute {
                proof {
                    assert(self.attributes_to_remove@[i as int]@ == attribute@);
                    assert(self.queued(attribute@));
                }
                return true;
            }
            i = i + 1;
        }
        let ghost before = self.attributes_to_remove@;
        let ghost s0 = *self;
        self.attributes_to_remove.push(attribute.clone());
        proof {
            assert forall|name: Seq<char>| #[trigger] self.entries@.contains_key(name) implies exists|i: int|
                0 <= i < self.names@.len() && self.names@[i]@ == name by {
                assert(s0.entries@.contains_key(name));
                let i = choose|i: int| 0 <= i < s0.names@.len() && s0.names@[i]@ == name;
                assert(self.names@[i] == s0.names@[i]);
            }
            assert forall|k: int|
                0 <= k < self.attributes_to_remove@.len() implies self.entries@.contains_key(
                    #[trigger] self.attributes_to_remove@[k]@,
                ) by {
                if k < n {
                    assert(self.attributes_to_remove@[k] == before[k]);
                }
            }
            assert forall|a: int, b: int|
                0 <= a < b < self.attributes_to_remove@.len() implies self.attributes_to_remove@[a]@
                    != self.attributes_to_remove@[b]@ by {
                assert(self.attributes_to_remove@[a] == before[a]);
                if b < n {
                    assert(self.attributes_to_remove@[b] == before[b]);
                }
            }
            assert forall|a: Seq<char>| #[trigger] self.queued(a) <==> a == attribute@ || old(self).queued(a) by {
                if exists|k: int| 0 <= k < before.len() && #[trigger] before[k]@ == a {
                    let k = choose|k: int| 0 <= k < before.len() && #[trigger] before[k]@ == a;
                    assert(self.attributes_to_remove@[k] == before[k]);
                }
                if a == attribute@ {
                    assert(self.attributes_to_remove@[n as int]@ == a);
                }
                if exists|k: int| 0 <= k < self.attributes_to_remove@.len() && #[trigger] self.attributes_to_remove@[k]@ == a {
                    let k = choose|k: int| 0 <= k < self.attributes_to_remove@.len() && #[trigger] self.attributes_to_remove@[k]@ == a;
                    if k < n {
                        assert(self.attributes_to_remove@[k] == before[k]);
                    }
                }
            }
        }
        true
    }

    /// The declarations file after every queued removal, made from the last
    /// declaration to the first so that the positions of the others hold; and
    /// the attributes whose whitespace could not be normalised.
    pub fn render(&self) -> (r: (String, Vec<String>))
        requires
            self.wf(),
            self.tree.len() + self.tree.kids(self.set as int).len() < usize::MAX - 1,
        ensures
            self.renders_as(r.0@, r.1@.map_values(|a: String| a@)),
    {
        let set = self.set;
        let n = self.tree.children[set].len();
        let ghost q = self.attributes_to_remove@;
        let mut mark: Vec<Option<usize>> = Vec::new();
        let mut j: usize = 0;
        while j < n
            invariant
                j <= n,
                mark@.len() == j,
                forall|x: int| 0 <= x < j ==> #[trigger] mark@[x] is None,
            decreases n - j,
        {
            mark.push(None);
            j = j + 1;
        }
        let qn = self.attributes_to_remove.len();
        let mut i: usize = 0;
        while i < qn
            invariant
                self.wf(),
                q == self.attributes_to_remove@,
                qn == q.len(),
                n == self.tree.kids(set as int).len(),
                set == self.set,
                i <= qn,
                mark@.len() == n,
                forall|x: int| 0 <= x < n ==> (#[trigger] mark@[x] matches Some(k) ==> k < i && self.entries@[q[k as int]@].index == x),
                forall|k: int| 0 <= k < i ==> mark@[self.entries@[#[trigger] q[k]@].index as int] == Some(k as usize),
            decreases qn - i,
        {
            match self.entries.get(self.attributes_to_remove[i].as_str()) {
                Some(e) => {
                    let idx = e.index;
                    assert(self.entries@.contains_key(q[i as int]@));
                    let ghost m0 = mark@;
                    mark.set(idx, Some(i));
                    proof {
                        assert forall|k: int| 0 <= k < i + 1 implies mark@[self.entries@[#[trigger] q[k]@].index as int] == Some(k as usize) by {
                            if k < i {
                                assert(self.entries@.contains_key(q[k]@));
                                assert(q[k]@ != q[i as int]@);
                                assert(self.entries@[q[k]@].index != self.entries@[q[i as int]@].index);
                                assert(m0[self.entries@[q[k]@].index as int] == Some(k as usize));
                            }
                        }
                    }
                },
                None => {
                    assert(self.entries@.contains_key(q[i as int]@));
                },
            }
            i = i + 1;
        }
        proof {
            assert forall|x: int| 0 <= x < n implies (match #[trigger] mark@[x] {
                Some(k) => k < q.len() && self.queued_at(x) == Some(q[k as int]@),
                None => self.queued_at(x) is None,
            }) by {
                match mark@[x] {
                    Some(k) => {
                        assert(0 <= k < q.len() && self.entries@[q[k as int]@].index == x);
                        let w = choose|w: int| 0 <= w < q.len() && self.entries@[q[w]@].index == x;
                        if q[w]@ != q[k as int]@ {
                            assert(self.entries@.contains_key(q[w]@));
                            assert(self.entries@.contains_key(q[k as int]@));
                        }
                    },
                    None => {
                        if exists|w: int| 0 <= w < q.len() && self.entries@[q[w]@].index == x {
                            let w = choose|w: int| 0 <= w < q.len() && self.entries@[q[w]@].index == x;
                            assert(mark@[self.entries@[q[w]@].index as int] == Some(w as usize));
                        }
                    },
                }
            }
        }
        let ghost orig = self.tree;
        let mut t = self.tree.duplicate();
        proof {
            assert forall|e: int| 0 <= e < orig.len() implies #[trigger] same_elem(&orig, &t, e) by {}
            assert(self.ops_down(n as int, n as int).len() == 0);
        }
        let ghost mut ts: Seq<SyntaxTree> = seq![t];
        let mut fallback: Vec<String> = Vec::new();
        assert(fallback@.map_values(|a: String| a@) =~= Seq::<Seq<char>>::empty());
        let mut pos: usize = n;
        let mut limit: usize = n;
        while pos > 0
            invariant
                self.wf(),
                orig == self.tree,
                q == self.attributes_to_remove@,
                set == self.set,
                n == orig.kids(set as int).len(),
                orig.len() + n < usize::MAX - 1,
                mark@.len() == n,
                forall|x: int| 0 <= x < n ==> (match #[trigger] mark@[x] {
                    Some(k) => k < q.len() && self.queued_at(x) == Some(q[k as int]@),
                    None => self.queued_at(x) is None,
                }),
                t.wf(),
                set < t.len(),
                orig.len() <= t.len() <= orig.len() + (n - pos),
                forall|e: int| 0 <= e < orig.len() ==> #[trigger] t.is_token@[e] == orig.is_token@[e],
                limit <= pos <= n,
                limit <= t.kids(set as int).len(),
                forall|x: int| 0 <= x < limit ==> #[trigger] t.kids(set as int)[x] == orig.kids(set as int)[x],
                forall|x: int| limit <= x < pos ==> #[trigger] self.queued_at(x) is None,
                removal_chain(&orig, ts, set as int, self.ops_down(n as int, pos as int)),
                ts.last() == t,
                fallback@.map_values(|a: String| a@) == dropped(ts, set as int, self.ops_down(n as int, pos as int)),
            decreases pos,
        {
            pos = pos - 1;
            match mark[pos] {
                Some(k) => {
                    let ghost a = q[k as int]@;
                    assert(self.queued_at(pos as int) == Some(a));
                    assert(pos < limit);
                    let ghost tb = t;
                    let ghost kb = t.kids(set as int);
                    let how = remove_entry_at(&mut t, set, pos, &self.attributes_to_remove[k]);
                    proof {
                        assert(self.ops_down(n as int, pos as int) == self.ops_down(n as int, pos + 1).push((pos, a)));
                        assert(self.ops_down(n as int, pos as int).drop_last() == self.ops_down(n as int, pos + 1));
                        assert(self.ops_down(n as int, pos as int).last() == (pos, a));
                        lemma_chain_push(&orig, ts, t, set as int, self.ops_down(n as int, pos + 1), (pos, a));
                        let ops0 = self.ops_down(n as int, pos + 1);
                        let ops1 = self.ops_down(n as int, pos as int);
                        let ts1 = ts.push(t);
                        lemma_dropped_prefix(ts, ts1, set as int, ops0);
                        assert(ops1.drop_last() == ops0);
                        assert(ts1[ops0.len() as int] == tb);
                        assert(dropped(ts1, set as int, ops1) == if how is Drop {
                            dropped(ts, set as int, ops0).push(a)
                        } else {
                            dropped(ts, set as int, ops0)
                        });
                        ts = ts1;
                        assert forall|e: int| 0 <= e < orig.len() implies #[trigger] t.is_token@[e] == orig.is_token@[e] by {
                            if e != set {
                                assert(same_elem(&tb, &t, e));
                            }
                        }
                        lemma_scan_back_tokens(&tb, kb, pos as int, 1, false);
                    }
                    if how == Removal::Drop {
                        let ghost before = fallback@;
                        fallback.push(self.attributes_to_remove[k].clone());
                        assert(fallback@.map_values(|x: String| x@) =~= before.map_values(|x: String| x@).push(a));
                    }
                    limit = match how {
                        Removal::Merge { lo, hi } => lo,
                        _ => pos,
                    };
                    proof {
                        assert forall|x: int| 0 <= x < limit implies #[trigger] t.kids(set as int)[x] == orig.kids(set as int)[x] by {
                            assert(kb[x] == orig.kids(set as int)[x]);
                        }
                        assert forall|x: int| limit <= x < pos implies #[trigger] self.queued_at(x) is None by {
                            if let Removal::Merge { lo, hi } = how {
                                let c = kb[x];
                                assert(tb.is_token@[c as int]) by {
                                    if x > lo {
                                        assert(tb.is_token@[kb[pos - (pos - x)] as int]);
                                    }
                                }
                                assert(c == orig.kids(set as int)[x]);
                                assert(orig.kids(set as int)[x] < orig.len());
                                if self.queued_at(x) is Some {
                                    let w = choose|w: int| 0 <= w < q.len() && self.entries@[q[w]@].index == x;
                                    assert(self.entries@.contains_key(q[w]@));
                                }
                            }
                        }
                    }
                },
                None => {
                    if limit > pos {
                        limit = pos;
                    }
                    assert(self.ops_down(n as int, pos as int) == self.ops_down(n as int, pos + 1));
                },
            }
        }
        let out = t.render();
        assert(removal_chain(&self.tree, ts, self.set as int, self.removal_order()));
        assert(ts.last().text() == out@);
        (out, fallback)
    }
}

} // verus!
