//! Concrete syntax trees of Nix source text, held as plain values: every node
//! and token of the parse, in preorder, with its kind, offset, text (tokens)
//! and children (nodes).
use vstd::prelude::*;
use vstd::utf8::encode_utf8;

verus! {

// Kinds of rnix 0.11's `SyntaxKind`, by their raw `u16` value.
pub const TOKEN_COMMENT: u16 = 0;

pub const TOKEN_WHITESPACE: u16 = 2;

pub const TOKEN_IDENT: u16 = 44;

pub const NODE_APPLY: u16 = 53;

pub const NODE_ASSERT: u16 = 54;

pub const NODE_ATTRPATH: u16 = 55;

pub const NODE_DYNAMIC: u16 = 56;

pub const NODE_ERROR: u16 = 57;

pub const NODE_IDENT: u16 = 58;

pub const NODE_IF_ELSE: u16 = 59;

pub const NODE_SELECT: u16 = 60;

pub const NODE_INHERIT: u16 = 61;

pub const NODE_STRING: u16 = 63;

pub const NODE_LAMBDA: u16 = 65;

pub const NODE_LEGACY_LET: u16 = 67;

pub const NODE_LET_IN: u16 = 68;

pub const NODE_LIST: u16 = 69;

pub const NODE_BIN_OP: u16 = 70;

pub const NODE_PAREN: u16 = 71;

pub const NODE_ROOT: u16 = 75;

pub const NODE_ATTR_SET: u16 = 76;

pub const NODE_ATTRPATH_VALUE: u16 = 77;

pub const NODE_UNARY_OP: u16 = 78;

pub const NODE_LITERAL: u16 = 79;

pub const NODE_WITH: u16 = 80;

pub const NODE_PATH: u16 = 81;

pub const NODE_HAS_ATTR: u16 = 82;

/// The kinds rnix's `ast::Expr` casts from.
pub open spec fn is_expr_kind(k: u16) -> bool {
    ||| k == NODE_APPLY || k == NODE_ASSERT || k == NODE_ERROR || k == NODE_IDENT
    ||| k == NODE_IF_ELSE || k == NODE_SELECT || k == NODE_STRING || k == NODE_LAMBDA
    ||| k == NODE_LEGACY_LET || k == NODE_LET_IN || k == NODE_LIST || k == NODE_BIN_OP
    ||| k == NODE_PAREN || k == NODE_ROOT || k == NODE_ATTR_SET || k == NODE_UNARY_OP
    ||| k == NODE_LITERAL || k == NODE_WITH || k == NODE_PATH || k == NODE_HAS_ATTR
}

fn is_expr_code(k: u16) -> (r: bool)
    ensures
        r == is_expr_kind(k),
{
    k == NODE_APPLY || k == NODE_ASSERT || k == NODE_ERROR || k == NODE_IDENT || k == NODE_IF_ELSE
        || k == NODE_SELECT || k == NODE_STRING || k == NODE_LAMBDA || k == NODE_LEGACY_LET
        || k == NODE_LET_IN || k == NODE_LIST || k == NODE_BIN_OP || k == NODE_PAREN || k == NODE_ROOT
        || k == NODE_ATTR_SET || k == NODE_UNARY_OP || k == NODE_LITERAL || k == NODE_WITH
        || k == NODE_PATH || k == NODE_HAS_ATTR
}

/// The kinds rnix's `ast::Attr` casts from.
pub open spec fn is_attr_kind(k: u16) -> bool {
    k == NODE_IDENT || k == NODE_DYNAMIC || k == NODE_STRING
}

/// The kinds rnix's `ast::Entry` casts from.
pub open spec fn is_entry_kind(k: u16) -> bool {
    k == NODE_INHERIT || k == NODE_ATTRPATH_VALUE
}

/// Which children of a node a query picks.
#[derive(PartialEq, Eq, Structural, Clone, Copy, Debug)]
pub enum Pick {
    /// Expression nodes.
    Expr,
    /// Attribute nodes (of an attribute path).
    Attr,
    /// Entries of an attribute set.
    Entry,
    /// `name = value;` entries.
    AttrpathValue,
    /// Attribute paths.
    Attrpath,
    /// Identifier tokens.
    IdentToken,
}

pub open spec fn picks(t: &SyntaxTree, which: Pick, c: usize) -> bool {
    let k = t.kinds@[c as int];
    let tok = t.is_token@[c as int];
    match which {
        Pick::Expr => !tok && is_expr_kind(k),
        Pick::Attr => !tok && is_attr_kind(k),
        Pick::Entry => !tok && is_entry_kind(k),
        Pick::AttrpathValue => !tok && k == NODE_ATTRPATH_VALUE,
        Pick::Attrpath => !tok && k == NODE_ATTRPATH,
        Pick::IdentToken => tok && k == TOKEN_IDENT,
    }
}

/// The picked children among the first `k` children of element `i`, in order.
pub open spec fn kids_where(t: &SyntaxTree, i: int, k: int, which: Pick) -> Seq<usize>
    decreases k,
{
    if k <= 0 || k > t.kids(i).len() {
        Seq::empty()
    } else if picks(t, which, t.kids(i)[k - 1]) {
        kids_where(t, i, k - 1, which).push(t.kids(i)[k - 1])
    } else {
        kids_where(t, i, k - 1, which)
    }
}

/// The picked children of element `i`.
pub open spec fn picked(t: &SyntaxTree, i: int, which: Pick) -> Seq<usize> {
    kids_where(t, i, t.kids(i).len() as int, which)
}

/// One event of a preorder walk over a parse: entering an element (with its
/// kind, start offset, and for a token its text) or leaving one.
pub struct WalkStep {
    pub enter: bool,
    pub kind: u16,
    pub start: usize,
    pub is_token: bool,
    pub text: String,
}

/// The view of a walk step.
pub type StepView = (bool, u16, usize, bool, Seq<char>);

pub open spec fn steps_view(s: Seq<WalkStep>) -> Seq<StepView> {
    s.map_values(|w: WalkStep| (w.enter, w.kind, w.start, w.is_token, w.text@))
}

/// The elements a walk enters, in order.
pub open spec fn entered(s: Seq<StepView>) -> Seq<StepView>
    decreases s.len(),
{
    if s.len() == 0 {
        Seq::empty()
    } else if s.last().0 {
        entered(s.drop_last()).push(s.last())
    } else {
        entered(s.drop_last())
    }
}

/// The elements open after the first `i` steps of `w` (entered and not yet
/// left, the innermost last), each by its position among the entered
/// elements. A leave with nothing open is skipped.
pub open spec fn open_after(w: Seq<StepView>, i: int) -> Seq<usize>
    decreases i,
{
    if i <= 0 || i > w.len() {
        Seq::empty()
    } else {
        let s = open_after(w, i - 1);
        if w[i - 1].0 {
            s.push(entered(w.take(i - 1)).len() as usize)
        } else if s.len() > 0 {
            s.drop_last()
        } else {
            s
        }
    }
}

/// The elements entered directly inside element `k` during the first `i`
/// steps of `w` (while `k` was the innermost open one), in order.
pub open spec fn inner_upto(w: Seq<StepView>, i: int, k: int) -> Seq<usize>
    decreases i,
{
    if i <= 0 || i > w.len() {
        Seq::empty()
    } else {
        let prev = inner_upto(w, i - 1, k);
        let s = open_after(w, i - 1);
        if w[i - 1].0 && s.len() > 0 && s.last() == k {
            prev.push(entered(w.take(i - 1)).len() as usize)
        } else {
            prev
        }
    }
}

proof fn lemma_entered_step(w: Seq<StepView>, i: int)
    requires
        0 <= i < w.len(),
    ensures
        entered(w.take(i + 1)) == if w[i].0 { entered(w.take(i)).push(w[i]) } else { entered(w.take(i)) },
{
    assert(w.take(i + 1).drop_last() == w.take(i));
    assert(w.take(i + 1).last() == w[i]);
}

proof fn lemma_walk_bounds(w: Seq<StepView>, i: int)
    requires
        0 <= i <= w.len(),
    ensures
        forall|a: int| 0 <= a < open_after(w, i).len() ==> (#[trigger] open_after(w, i)[a]) < entered(w.take(i)).len(),
        forall|k: int| k >= entered(w.take(i)).len() ==> #[trigger] inner_upto(w, i, k) == Seq::<usize>::empty(),
    decreases i,
{
    if i > 0 {
        lemma_walk_bounds(w, i - 1);
        lemma_entered_step(w, i - 1);
        let s = open_after(w, i - 1);
        assert forall|a: int| 0 <= a < open_after(w, i).len() implies (#[trigger] open_after(w, i)[a]) < entered(w.take(i)).len() by {
            if w[i - 1].0 {
                if a < s.len() {
                    assert(open_after(w, i)[a] == s[a]);
                }
            } else if s.len() > 0 {
                assert(open_after(w, i)[a] == s[a]);
            }
        }
        assert forall|k: int| k >= entered(w.take(i)).len() implies #[trigger] inner_upto(w, i, k) == Seq::<usize>::empty() by {
            assert(inner_upto(w, i - 1, k) == Seq::<usize>::empty());
            if w[i - 1].0 && s.len() > 0 && s.last() == k {
                assert(s[s.len() - 1] < entered(w.take(i - 1)).len());
            }
        }
    }
}

/// Two trees with the same elements, kinds and children.
pub open spec fn same_shape(t1: &SyntaxTree, t2: &SyntaxTree) -> bool {
    &&& t1.len() == t2.len()
    &&& forall|k: int|
        #![trigger t1.kinds@[k]]
        #![trigger t1.is_token@[k]]
        #![trigger t1.kids(k)]
        0 <= k < t1.len() ==> t1.kinds@[k] == t2.kinds@[k] && t1.is_token@[k] == t2.is_token@[k]
            && t1.texts@[k]@ == t2.texts@[k]@ && t1.kids(k) == t2.kids(k)
}

/// A walk that is not too long fixes the shape of a tree that holds it.
pub proof fn lemma_walk_fixes_shape(t1: &SyntaxTree, t2: &SyntaxTree, w: Seq<StepView>)
    requires
        t1.holds_walk(w),
        t2.holds_walk(w),
        entered(w).len() <= usize::MAX - 2,
    ensures
        same_shape(t1, t2),
{
    let e = entered(w);
    assert forall|k: int| 0 <= k < t1.len() implies #[trigger] t1.kinds@[k] == t2.kinds@[k] && t1.is_token@[k] == t2.is_token@[k]
        && t1.texts@[k]@ == t2.texts@[k]@ && t1.kids(k) == t2.kids(k) by {
        assert(t1.kids(k) == t1.children@[k]@);
        if e.len() > 0 {
            assert(e[k] == (true, t1.kinds@[k], t1.starts@[k], t1.is_token@[k], t1.texts@[k]@));
            assert(e[k] == (true, t2.kinds@[k], t2.starts@[k], t2.is_token@[k], t2.texts@[k]@));
            assert(t1.kids(k) == inner_upto(w, w.len() as int, k));
            assert(t2.kids(k) == inner_upto(w, w.len() as int, k));
        } else {
            assert(t1.kids(0) =~= t2.kids(0));
        }
    }
}

proof fn lemma_kids_where_same(t1: &SyntaxTree, t2: &SyntaxTree, i: int, k: int, which: Pick)
    requires
        t1.wf(),
        t2.wf(),
        same_shape(t1, t2),
        0 <= i < t1.len(),
    ensures
        kids_where(t1, i, k, which) == kids_where(t2, i, k, which),
    decreases k,
{
    assert(t1.kids(i) == t2.kids(i));
    if k > 0 && k <= t1.kids(i).len() {
        lemma_kids_where_same(t1, t2, i, k - 1, which);
        let c = t1.kids(i)[k - 1] as int;
        assert(i < c < t1.len());
        assert(t1.kinds@[c] == t2.kinds@[c] && t1.is_token@[c] == t2.is_token@[c]);
    }
}

/// Trees of the same shape pick the same children.
pub proof fn lemma_picked_same(t1: &SyntaxTree, t2: &SyntaxTree, i: int, which: Pick)
    requires
        t1.wf(),
        t2.wf(),
        same_shape(t1, t2),
        0 <= i < t1.len(),
    ensures
        picked(t1, i, which) == picked(t2, i, which),
{
    assert(t1.kids(i) == t2.kids(i));
    lemma_kids_where_same(t1, t2, i, t1.kids(i).len() as int, which);
}

/// The preorder walk of the tree that rnix parses from `text`, where it
/// parses without error.
pub uninterp spec fn nix_walk(text: Seq<char>) -> Option<Seq<StepView>>;

/// Relies on `rnix::Root::parse` (its first error, or the tree) and rowan's
/// `preorder_with_tokens` (every element entered and left, in order). Both
/// measure text in `u32`, so the text is at most `u32::MAX` bytes long.
#[verifier::external_body]
fn nix_preorder(text: &str) -> (r: Result<Vec<WalkStep>, String>)
    requires
        encode_utf8(text@).len() <= u32::MAX,
    ensures
        r is Ok <==> nix_walk(text@) is Some,
        r is Ok ==> steps_view(r->Ok_0@) == nix_walk(text@)->Some_0,
{
    let root = rnix::Root::parse(text).ok().map_err(|e| e.to_string())?;
    let mut steps = Vec::new();
    for event in rowan::ast::AstNode::syntax(&root).preorder_with_tokens() {
        steps.push(match event {
            rowan::WalkEvent::Enter(e) => WalkStep {
                enter: true,
                kind: e.kind() as u16,
                start: e.text_range().start().into(),
                is_token: e.as_token().is_some(),
                text: e.as_token().map_or(String::new(), |t| t.text().to_string()),
            },
            rowan::WalkEvent::Leave(_) => WalkStep { enter: false, kind: 0, start: 0, is_token: false, text: String::new() },
        });
    }
    Ok(steps)
}

/// A syntax tree as parallel arrays indexed by element; element 0 is the root,
/// and every child comes after its parent.
pub struct SyntaxTree {
    pub kinds: Vec<u16>,
    pub starts: Vec<usize>,
    pub is_token: Vec<bool>,
    /// The text of each token; empty for nodes.
    pub texts: Vec<String>,
    pub children: Vec<Vec<usize>>,
}

impl SyntaxTree {
    pub open spec fn len(&self) -> int {
        self.kinds@.len() as int
    }

    pub open spec fn kids(&self, i: int) -> Seq<usize> {
        self.children@[i]@
    }

    pub open spec fn wf(&self) -> bool {
        &&& self.kinds@.len() > 0
        &&& self.starts@.len() == self.kinds@.len()
        &&& self.is_token@.len() == self.kinds@.len()
        &&& self.texts@.len() == self.kinds@.len()
        &&& self.children@.len() == self.kinds@.len()
        &&& self.kinds@.len() < usize::MAX - 1
        &&& forall|i: int, j: int|
            #![trigger self.kids(i)[j]]
            0 <= i < self.len() && 0 <= j < self.kids(i).len() ==> i < self.kids(i)[j] < self.len()
    }

    /// The text of element `i`: a token's own text, or the texts of a node's
    /// children one after another.
    pub open spec fn elem_text(&self, i: int) -> Seq<char>
        decreases self.len() - i, self.kids(i).len() + 1,
    {
        if !(0 <= i < self.len()) {
            Seq::empty()
        } else if self.is_token@[i] {
            self.texts@[i]@
        } else {
            self.kids_text(i, self.kids(i).len() as int)
        }
    }

    /// The texts of the first `k` children of element `i`.
    pub open spec fn kids_text(&self, i: int, k: int) -> Seq<char>
        decreases self.len() - i, k,
    {
        if k <= 0 || k > self.kids(i).len() || !(0 <= i < self.len()) {
            Seq::empty()
        } else {
            let c = self.kids(i)[k - 1] as int;
            self.kids_text(i, k - 1) + if i < c < self.len() {
                self.elem_text(c)
            } else {
                Seq::empty()
            }
        }
    }

    /// The whole text the tree stands for.
    pub open spec fn text(&self) -> Seq<char> {
        self.elem_text(0)
    }

    /// The elements of the tree are those that the walk `w` enters, in the
    /// same order and with the same kind, offset and text, and the children of
    /// each are the elements entered directly inside it, in order (where the
    /// walk is not too long to hold); a walk that enters nothing gives a lone
    /// empty root.
    pub open spec fn holds_walk(&self, w: Seq<StepView>) -> bool {
        let e = entered(w);
        e.len() <= usize::MAX - 2 ==> {
            &&& self.len() == if e.len() == 0 { 1 } else { e.len() }
            &&& forall|k: int|
                0 <= k < e.len() ==> #[trigger] e[k] == (true, self.kinds@[k], self.starts@[k], self.is_token@[k], self.texts@[k]@)
            &&& forall|k: int| 0 <= k < e.len() ==> #[trigger] self.kids(k) == inner_upto(w, w.len() as int, k)
            &&& e.len() == 0 ==> {
                &&& self.kinds@[0] == NODE_ROOT
                &&& !self.is_token@[0]
                &&& self.texts@[0]@.len() == 0
                &&& self.kids(0).len() == 0
            }
        }
    }

    /// Builds the tree a preorder walk describes. A leave without a matching
    /// enter is skipped; an enter after the root has been left starts below
    /// nothing; a walk without elements gives a lone empty root; elements past
    /// `usize::MAX - 2` elements are dropped.
    pub fn from_steps(steps: &Vec<WalkStep>) -> (r: SyntaxTree)
        ensures
            r.wf(),
            r.holds_walk(steps_view(steps@)),
    {
        let mut t = SyntaxTree {
            kinds: Vec::new(),
            starts: Vec::new(),
            is_token: Vec::new(),
            texts: Vec::new(),
            children: Vec::new(),
        };
        let mut open: Vec<usize> = Vec::new();
        let mut i: usize = 0;
        while i < steps.len()
            invariant
                i <= steps@.len(),
                t.kinds@.len() <= usize::MAX - 2,
                entered(steps_view(steps@).take(i as int)).len() <= usize::MAX - 2 ==> {
                    let e = entered(steps_view(steps@).take(i as int));
                    &&& t.len() == e.len()
                    &&& forall|k: int|
                        0 <= k < e.len() ==> #[trigger] e[k] == (true, t.kinds@[k], t.starts@[k], t.is_token@[k], t.texts@[k]@)
                },
                entered(steps_view(steps@).take(i as int)).len() <= usize::MAX - 2 ==> {
                    &&& open@ == open_after(steps_view(steps@), i as int)
                    &&& forall|k: int| 0 <= k < t.len() ==> #[trigger] t.kids(k) == inner_upto(steps_view(steps@), i as int, k)
                },
                entered(steps_view(steps@).take(i as int)).len() > usize::MAX - 2 ==> t.len() == usize::MAX - 2,
                t.starts@.len() == t.kinds@.len(),
                t.is_token@.len() == t.kinds@.len(),
                t.texts@.len() == t.kinds@.len(),
                t.children@.len() == t.kinds@.len(),
                forall|a: int| 0 <= a < open@.len() ==> #[trigger] open@[a] < t.kinds@.len(),
                forall|a: int, j: int|
                    #![trigger t.kids(a)[j]]
                    0 <= a < t.len() && 0 <= j < t.kids(a).len() ==> a < t.kids(a)[j] < t.len(),
            decreases steps@.len() - i,
        {
            let step = &steps[i];
            let ghost old_kids = t.children@;
            let ghost t0 = t;
            let ghost open0 = open@;
            let ghost sv = steps_view(steps@);
            let ghost mut par: int = -1;
            proof {
                assert(sv.take(i as int + 1).drop_last() == sv.take(i as int));
                assert(sv.take(i as int + 1).last() == sv[i as int]);
                assert(sv[i as int] == (step.enter, step.kind, step.start, step.is_token, step.text@));
            }
            if step.enter && t.kinds.len() < usize::MAX - 2 {
                let id = t.kinds.len();
                t.kinds.push(step.kind);
                t.starts.push(step.start);
                t.is_token.push(step.is_token);
                t.texts.push(step.text.clone());
                t.children.push(Vec::new());
                if open.len() > 0 {
                    let parent = open[open.len() - 1];
                    proof { par = parent as int; }
                    let ghost before = t.children@;
                    let mut kids: Vec<usize> = Vec::new();
                    std::mem::swap(&mut kids, &mut t.children[parent]);
                    kids.push(id);
                    t.children.set(parent, kids);
                    proof {
                        assert forall|a: int, j: int|
                            #![trigger t.kids(a)[j]]
                            0 <= a < t.len() && 0 <= j < t.kids(a).len() implies a < t.kids(a)[j]
                                < t.len() by {
                            if a != parent {
                                assert(t.kids(a) == before[a]@);
                                if a < id {
                                    assert(before[a] == old_kids[a]);
                                    assert(t0.kids(a)[j] == t.kids(a)[j]);
                                }
                            } else if j < before[a]@.len() {
                                assert(t.kids(a)[j] == before[a]@[j]);
                                assert(before[a] == old_kids[a]);
                                assert(t0.kids(a)[j] == t.kids(a)[j]);
                            }
                        }
                    }
                } else {
                    proof {
                        assert forall|a: int, j: int|
                            #![trigger t.kids(a)[j]]
                            0 <= a < t.len() && 0 <= j < t.kids(a).len() implies a < t.kids(a)[j]
                                < t.len() by {
                            if a == id {
                                assert(t.kids(a).len() == 0);
                            } else {
                                assert(t.children@[a] == old_kids[a]);
                                assert(t0.kids(a)[j] == t.kids(a)[j]);
                            }
                        }
                    }
                }
                open.push(id);
            } else if !step.enter {
                open.pop();
            }
            proof {
                let e0 = entered(sv.take(i as int));
                let e1 = entered(sv.take(i as int + 1));
                lemma_entered_step(sv, i as int);
                lemma_walk_bounds(sv, i as int);
                if e1.len() <= usize::MAX - 2 {
                    assert(open@ == open_after(sv, i as int + 1)) by {
                        if !step.enter && open0.len() > 0 {
                            assert(open@ =~= open0.drop_last());
                        }
                    }
                    assert forall|k: int| 0 <= k < t.len() implies #[trigger] t.kids(k) == inner_upto(sv, i as int + 1, k) by {
                        if step.enter {
                            if k < t0.len() {
                                assert(t0.kids(k) == inner_upto(sv, i as int, k));
                                if k != par {
                                    assert(t.children@[k] == t0.children@[k]);
                                    if open0.len() > 0 {
                                        assert(open0.last() == par);
                                    }
                                } else {
                                    assert(open0.last() == par);
                                    assert(t.kids(k) =~= t0.kids(k).push(t0.len() as usize));
                                }
                            } else {
                                assert(k == t0.len());
                                assert(inner_upto(sv, i as int, k) == Seq::<usize>::empty());
                                if open0.len() > 0 {
                                    assert(open0[open0.len() - 1] < e0.len());
                                }
                            }
                        } else {
                            assert(t.children@[k] == t0.children@[k]);
                            assert(t0.kids(k) == inner_upto(sv, i as int, k));
                        }
                    }
                    assert forall|k: int| 0 <= k < e1.len() implies #[trigger] e1[k] == (true, t.kinds@[k], t.starts@[k], t.is_token@[k], t.texts@[k]@) by {
                        if k < e0.len() {
                            assert(e1[k] == e0[k]);
                            assert(e0[k] == (true, t0.kinds@[k], t0.starts@[k], t0.is_token@[k], t0.texts@[k]@));
                        }
                    }
                }
            }
            i = i + 1;
        }
        assert(steps_view(steps@).take(i as int) == steps_view(steps@));
        if t.kinds.len() == 0 {
            t.kinds.push(NODE_ROOT);
            t.starts.push(0);
            t.is_token.push(false);
            t.texts.push(String::new());
            t.children.push(Vec::new());
            assert(t.kids(0).len() == 0);
        }
        t
    }

    /// Appends the text of element `i` to `out`.
    pub fn write_text(&self, i: usize, out: &mut String)
        requires
            self.wf(),
            i < self.len(),
        ensures
            final(out)@ == old(out)@ + self.elem_text(i as int),
        decreases self.len() - i, self.kids(i as int).len() + 1,
    {
        if self.is_token[i] {
            out.append(self.texts[i].as_str());
        } else {
            let n = self.children[i].len();
            let mut k: usize = 0;
            while k < n
                invariant
                    self.wf(),
                    i < self.len(),
                    n == self.kids(i as int).len(),
                    k <= n,
                    !self.is_token@[i as int],
                    out@ == old(out)@ + self.kids_text(i as int, k as int),
                decreases n - k,
            {
                let c = self.children[i][k];
                assert(self.kids(i as int)[k as int] == c);
                self.write_text(c, out);
                proof {
                    assert(old(out)@ + self.kids_text(i as int, k as int) + self.elem_text(c as int)
                        == old(out)@ + self.kids_text(i as int, k as int + 1));
                }
                k = k + 1;
            }
        }
    }

    /// The children of element `i` that `which` picks, in order.
    pub fn kids_picked(&self, i: usize, which: Pick) -> (r: Vec<usize>)
        requires
            self.wf(),
            i < self.len(),
        ensures
            r@ == picked(self, i as int, which),
            forall|j: int| 0 <= j < r@.len() ==> i < #[trigger] r@[j] < self.len(),
    {
        let n = self.children[i].len();
        let mut out: Vec<usize> = Vec::new();
        let mut k: usize = 0;
        while k < n
            invariant
                self.wf(),
                i < self.len(),
                n == self.kids(i as int).len(),
                k <= n,
                out@ == kids_where(self, i as int, k as int, which),
                forall|j: int| 0 <= j < out@.len() ==> i < #[trigger] out@[j] < self.len(),
            decreases n - k,
        {
            let c = self.children[i][k];
            assert(self.kids(i as int)[k as int] == c);
            let kind = self.kinds[c];
            let tok = self.is_token[c];
            let hit = match which {
                Pick::Expr => !tok && is_expr_code(kind),
                Pick::Attr => !tok && (kind == NODE_IDENT || kind == NODE_DYNAMIC || kind == NODE_STRING),
                Pick::Entry => !tok && (kind == NODE_INHERIT || kind == NODE_ATTRPATH_VALUE),
                Pick::AttrpathValue => !tok && kind == NODE_ATTRPATH_VALUE,
                Pick::Attrpath => !tok && kind == NODE_ATTRPATH,
                Pick::IdentToken => tok && kind == TOKEN_IDENT,
            };
            assert(hit == picks(self, which, c));
            if hit {
                out.push(c);
            }
            k = k + 1;
        }
        out
    }

    /// A copy of the tree.
    pub fn duplicate(&self) -> (r: SyntaxTree)
        requires
            self.wf(),
        ensures
            r.wf(),
            r.len() == self.len(),
            r.kinds@ == self.kinds@,
            r.starts@ == self.starts@,
            r.is_token@ == self.is_token@,
            forall|e: int| 0 <= e < self.len() ==> #[trigger] r.texts@[e]@ == self.texts@[e]@,
            forall|e: int| 0 <= e < self.len() ==> #[trigger] r.kids(e) == self.kids(e),
            r.children@.len() == self.children@.len(),
    {
        let mut r = SyntaxTree {
            kinds: Vec::new(),
            starts: Vec::new(),
            is_token: Vec::new(),
            texts: Vec::new(),
            children: Vec::new(),
        };
        let n = self.kinds.len();
        let mut e: usize = 0;
        while e < n
            invariant
                self.wf(),
                n == self.len(),
                e <= n,
                r.kinds@ == self.kinds@.take(e as int),
                r.starts@ == self.starts@.take(e as int),
                r.is_token@ == self.is_token@.take(e as int),
                r.texts@.len() == e,
                r.children@.len() == e,
                forall|x: int| 0 <= x < e ==> #[trigger] r.texts@[x]@ == self.texts@[x]@,
                forall|x: int| 0 <= x < e ==> #[trigger] r.kids(x) == self.kids(x),
            decreases n - e,
        {
            let ghost rh = r;
            r.kinds.push(self.kinds[e]);
            r.starts.push(self.starts[e]);
            r.is_token.push(self.is_token[e]);
            r.texts.push(self.texts[e].clone());
            assert forall|x: int| 0 <= x < e + 1 implies #[trigger] r.texts@[x]@ == self.texts@[x]@ by {
                if x < e {
                    assert(rh.texts@[x]@ == self.texts@[x]@);
                }
            }
            let kids = copy_ids(&self.children[e]);
            assert(kids@ =~= self.kids(e as int));
            let ghost r0 = r;
            r.children.push(kids);
            assert forall|x: int| 0 <= x < e + 1 implies #[trigger] r.kids(x) == self.kids(x) by {
                if x < e {
                    assert(rh.kids(x) == self.kids(x));
                    assert(r.children@[x] == rh.children@[x]);
                }
            }
            assert(r.kinds@ =~= self.kinds@.take(e as int + 1));
            assert(r.starts@ =~= self.starts@.take(e as int + 1));
            assert(r.is_token@ =~= self.is_token@.take(e as int + 1));
            e = e + 1;
        }
        assert(r.kinds@ =~= self.kinds@);
        assert(r.starts@ =~= self.starts@);
        assert(r.is_token@ =~= self.is_token@);
        proof {
            assert forall|a: int, j: int|
                #![trigger r.kids(a)[j]]
                0 <= a < r.len() && 0 <= j < r.kids(a).len() implies a < r.kids(a)[j] < r.len() by {
                assert(r.kids(a)[j] == self.kids(a)[j]);
            }
        }
        r
    }

    /// The text of element `i`.
    pub fn render_elem(&self, i: usize) -> (r: String)
        requires
            self.wf(),
            i < self.len(),
        ensures
            r@ == self.elem_text(i as int),
    {
        let mut out = String::new();
        self.write_text(i, &mut out);
        assert(out@ =~= self.elem_text(i as int));
        out
    }

    /// The whole text the tree stands for.
    pub fn render(&self) -> (r: String)
        requires
            self.wf(),
        ensures
            r@ == self.text(),
    {
        let mut out = String::new();
        self.write_text(0, &mut out);
        assert(out@ =~= self.text());
        out
    }
}

fn copy_ids(v: &Vec<usize>) -> (r: Vec<usize>)
    ensures
        r@ == v@,
{
    let mut r: Vec<usize> = Vec::new();
    let mut j: usize = 0;
    while j < v.len()
        invariant
            j <= v@.len(),
            r@ == v@.take(j as int),
        decreases v@.len() - j,
    {
        r.push(v[j]);
        assert(r@ =~= v@.take(j as int + 1));
        j = j + 1;
    }
    assert(r@ =~= v@);
    r
}

/// Parses Nix source text into a syntax tree, or gives rnix's first error.
pub fn parse(text: &str) -> (r: Result<SyntaxTree, String>)
    requires
        encode_utf8(text@).len() <= u32::MAX,
    ensures
        r is Ok <==> nix_walk(text@) is Some,
        r is Ok ==> r->Ok_0.wf() && r->Ok_0.holds_walk(nix_walk(text@)->Some_0),
{
    match nix_preorder(text) {
        Ok(steps) => Ok(SyntaxTree::from_steps(&steps)),
        Err(e) => Err(e),
    }
}

} // verus!
