//! The path literals of a parsed file.
use vstd::prelude::*;
use crate::syntax::{SyntaxTree, NODE_PATH};

verus! {

/// How a path node of a syntax tree is taken.
#[derive(PartialEq, Eq, Structural, Clone, Copy, Debug)]
pub enum PathShape {
    /// A plain literal path, to be resolved.
    Literal,
    /// It holds an interpolated subexpression (`./foo/${bar}`).
    Interpolated,
    /// A search path (`<nixpkgs>`).
    SearchPath,
}

/// A path node of a syntax tree: its start offset, text and shape.
pub struct PathOccurrence {
    pub start: usize,
    pub text: String,
    pub shape: PathShape,
}

pub open spec fn is_path_node(t: &SyntaxTree, i: int) -> bool {
    t.kinds@[i] == NODE_PATH && !t.is_token@[i]
}

/// Some child of element `i` is a node.
pub open spec fn has_node_child(t: &SyntaxTree, i: int) -> bool {
    exists|j: int| 0 <= j < t.kids(i).len() && !t.is_token@[t.kids(i)[j] as int]
}

pub open spec fn shape_of(t: &SyntaxTree, i: int) -> PathShape {
    if has_node_child(t, i) {
        PathShape::Interpolated
    } else if t.elem_text(i).len() > 0 && t.elem_text(i)[0] == '<' {
        PathShape::SearchPath
    } else {
        PathShape::Literal
    }
}

/// The path nodes among the first `n` elements, in order, as (start, text,
/// shape).
pub open spec fn path_nodes(t: &SyntaxTree, n: int) -> Seq<(usize, Seq<char>, PathShape)>
    decreases n,
{
    if n <= 0 {
        Seq::empty()
    } else if is_path_node(t, n - 1) {
        path_nodes(t, n - 1).push((t.starts@[n - 1], t.elem_text(n - 1), shape_of(t, n - 1)))
    } else {
        path_nodes(t, n - 1)
    }
}

pub open spec fn occurrences_view(v: Seq<PathOccurrence>) -> Seq<(usize, Seq<char>, PathShape)> {
    v.map_values(|o: PathOccurrence| (o.start, o.text@, o.shape))
}

fn node_child_present(t: &SyntaxTree, i: usize) -> (r: bool)
    requires
        t.wf(),
        i < t.len(),
    ensures
        r == has_node_child(t, i as int),
{
    let n = t.children[i].len();
    let mut j: usize = 0;
    while j < n
        invariant
            t.wf(),
            i < t.len(),
            n == t.kids(i as int).len(),
            j <= n,
            forall|m: int| 0 <= m < j ==> t.is_token@[#[trigger] t.kids(i as int)[m] as int],
        decreases n - j,
    {
        let c = t.children[i][j];
        assert(t.kids(i as int)[j as int] == c);
        if !t.is_token[c] {
            return true;
        }
        j = j + 1;
    }
    false
}

/// Every path node of `t`, in the order of the tree, with its shape.
pub fn path_occurrences(t: &SyntaxTree) -> (r: Vec<PathOccurrence>)
    requires
        t.wf(),
    ensures
        occurrences_view(r@) == path_nodes(t, t.len()),
{
    let mut out: Vec<PathOccurrence> = Vec::new();
    let mut i: usize = 0;
    while i < t.kinds.len()
        invariant
            t.wf(),
            i <= t.len(),
            occurrences_view(out@) == path_nodes(t, i as int),
        decreases t.len() - i,
    {
        if t.kinds[i] == NODE_PATH && !t.is_token[i] {
            let text = t.render_elem(i);
            let shape = if node_child_present(t, i) {
                PathShape::Interpolated
            } else if text.as_str().unicode_len() > 0 && text.as_str().get_char(0) == '<' {
                PathShape::SearchPath
            } else {
                PathShape::Literal
            };
            let ghost before = out@;
            out.push(PathOccurrence { start: t.starts[i], text, shape });
            assert(occurrences_view(out@) =~= occurrences_view(before).push(
                (t.starts@[i as int], t.elem_text(i as int), shape_of(t, i as int)),
            ));
        }
        i = i + 1;
    }
    out
}

} // verus!
