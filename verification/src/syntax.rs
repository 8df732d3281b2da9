//! The syntax tree of a module, as a list of nodes in document order. The
//! library reads trees and builds none: whoever parses a module text hands
//! over the nodes of its tree in preorder.

use crate::text::slice;
use vstd::prelude::*;

verus! {

/// The node kinds that the bundler tells apart.
#[derive(Clone, Copy, Debug, PartialEq, Eq, Structural)]
pub enum NodeKind {
    /// An import declaration.
    ImportDecl,
    /// An export declaration other than a default export of an expression.
    ExportDecl,
    /// A default export of an expression.
    ExportDefaultExpr,
    /// A literal; the source string of an import is one, also where it
    /// stands alone behind `import`.
    Literal,
    /// The list of named imports of an import declaration, with its braces.
    NamedImports,
    /// The list of names of an export declaration, with its braces.
    ExportNamed,
    /// A variable declaration.
    VarDecl,
    /// One name in a list of imports or exports.
    Specifier,
    /// Any other node.
    Other,
}

/// One node of a syntax tree: its kind, the byte range `start..end` of its
/// text in the source, and its depth, which is 1 for the root.
#[derive(Clone, Copy, Debug)]
pub struct SyntaxItem {
    pub kind: NodeKind,
    pub start: usize,
    pub end: usize,
    pub depth: usize,
}

/// The children of a node of depth `depth`, looked for from index `from` on:
/// the nodes exactly one level deeper, up to the first node that is not
/// deeper than `depth`.
pub open spec fn children_from(nodes: Seq<SyntaxItem>, depth: int, from: int) -> Seq<int>
    decreases nodes.len() - from,
{
    if from < 0 || from >= nodes.len() || nodes[from].depth <= depth {
        Seq::empty()
    } else if nodes[from].depth == depth + 1 {
        seq![from] + children_from(nodes, depth, from + 1)
    } else {
        children_from(nodes, depth, from + 1)
    }
}

/// The indices of the children of the node at index `parent`, in document
/// order. A list in preorder keeps the descendants of a node right behind it.
pub open spec fn children(nodes: Seq<SyntaxItem>, parent: int) -> Seq<int> {
    if 0 <= parent < nodes.len() {
        children_from(nodes, nodes[parent].depth as int, parent + 1)
    } else {
        Seq::empty()
    }
}

/// A list of indices as mathematical integers.
pub open spec fn as_ints(indices: Seq<usize>) -> Seq<int> {
    indices.map_values(|i: usize| i as int)
}

/// Lists the children of the node at index `parent`.
pub fn children_of(nodes: &Vec<SyntaxItem>, parent: usize) -> (kids: Vec<usize>)
    ensures
        as_ints(kids@) == children(nodes@, parent as int),
        forall|k: int| 0 <= k < kids@.len() ==> parent < #[trigger] kids@[k] < nodes@.len(),
{
    let mut kids: Vec<usize> = Vec::new();
    if parent >= nodes.len() {
        assert(as_ints(kids@) =~= children(nodes@, parent as int));
        return kids;
    }
    let depth: usize = nodes[parent].depth;
    let mut at: usize = parent + 1;
    while at < nodes.len() && nodes[at].depth > depth
        invariant
            parent < at <= nodes@.len(),
            depth == nodes@[parent as int].depth,
            children(nodes@, parent as int) == as_ints(kids@) + children_from(
                nodes@,
                depth as int,
                at as int,
            ),
            forall|k: int| 0 <= k < kids@.len() ==> parent < #[trigger] kids@[k] < nodes@.len(),
        decreases nodes@.len() - at,
    {
        if nodes[at].depth - 1 == depth {
            let ghost before = kids@;
            kids.push(at);
            assert(as_ints(kids@) =~= as_ints(before) + seq![at as int]);
            assert(as_ints(before) + (seq![at as int] + children_from(
                nodes@,
                depth as int,
                at + 1,
            )) =~= as_ints(kids@) + children_from(nodes@, depth as int, at + 1));
        }
        at += 1;
    }
    assert(children_from(nodes@, depth as int, at as int) =~= Seq::<int>::empty());
    assert(as_ints(kids@) + Seq::<int>::empty() =~= as_ints(kids@));
    kids
}

/// The position in `kids`, from `from` on, of the first node whose kind is
/// `a` or `b`; the length of `kids` if there is none.
pub open spec fn first_of(
    nodes: Seq<SyntaxItem>,
    kids: Seq<int>,
    a: NodeKind,
    b: NodeKind,
    from: int,
) -> int
    decreases kids.len() - from,
{
    if from < 0 || from >= kids.len() {
        kids.len() as int
    } else if nodes[kids[from]].kind == a || nodes[kids[from]].kind == b {
        from
    } else {
        first_of(nodes, kids, a, b, from + 1)
    }
}

/// The text of the node at index `at`: the bytes of `content` in its range,
/// where there is such a node and its range lies within `content`.
pub open spec fn node_text(content: Seq<u8>, nodes: Seq<SyntaxItem>, at: int) -> Option<Seq<u8>> {
    if 0 <= at < nodes.len() {
        slice(content, nodes[at].start as int, nodes[at].end as int)
    } else {
        None
    }
}

/// The top-level statements of the module: the children of the root.
pub open spec fn statements(nodes: Seq<SyntaxItem>) -> Seq<int> {
    children(nodes, 0)
}

/// Finds the first node of kind `a` or `b` among `kids`.
pub(crate) fn find_first(nodes: &Vec<SyntaxItem>, kids: &Vec<usize>, a: NodeKind, b: NodeKind) -> (at:
    usize)
    requires
        forall|k: int| 0 <= k < kids@.len() ==> #[trigger] kids@[k] < nodes@.len(),
    ensures
        at == first_of(nodes@, as_ints(kids@), a, b, 0),
        at <= kids@.len(),
{
    let mut at: usize = 0;
    while at < kids.len()
        invariant
            at <= kids@.len(),
            forall|k: int| 0 <= k < kids@.len() ==> #[trigger] kids@[k] < nodes@.len(),
            first_of(nodes@, as_ints(kids@), a, b, 0) == first_of(
                nodes@,
                as_ints(kids@),
                a,
                b,
                at as int,
            ),
        decreases kids@.len() - at,
    {
        let kind = nodes[kids[at]].kind;
        if kind == a || kind == b {
            return at;
        }
        at += 1;
    }
    at
}

/// Whether the range of `item` lies within a text of `len` bytes.
pub fn in_text(item: &SyntaxItem, len: usize) -> (fits: bool)
    ensures
        fits == (item.start <= item.end <= len),
{
    item.start <= item.end && item.end <= len
}

} // verus!
