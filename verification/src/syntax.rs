//! A plain model of a tree-sitter syntax tree of Rust source, the calls into
//! tree-sitter that produce it, and navigation over it.

use vstd::prelude::*;
use crate::text::{newline_count, utf8_len};

verus! {

/// One node of a syntax tree, as a tree cursor visiting it in preorder sees it.
#[derive(Debug)]
pub struct SyntaxNode {
    /// The grammar kind of the node, such as `"function_item"`.
    pub kind: String,
    /// The name of the field under which the parent holds this node, if any.
    pub field: Option<String>,
    /// The distance from the root, which has depth 0.
    pub depth: u32,
    pub start_byte: usize,
    pub end_byte: usize,
    /// Zero-based rows of the node's first and last character.
    pub start_row: usize,
    pub end_row: usize,
}

/// The mathematical value of a `SyntaxNode`.
pub struct SyntaxNodeView {
    pub kind: Seq<char>,
    pub field: Option<Seq<char>>,
    pub depth: int,
    pub start_byte: int,
    pub end_byte: int,
    pub start_row: int,
    pub end_row: int,
}

impl View for SyntaxNode {
    type V = SyntaxNodeView;

    open spec fn view(&self) -> SyntaxNodeView {
        SyntaxNodeView {
            kind: self.kind@,
            field: match self.field {
                Some(f) => Some(f@),
                None => None,
            },
            depth: self.depth as int,
            start_byte: self.start_byte as int,
            end_byte: self.end_byte as int,
            start_row: self.start_row as int,
            end_row: self.end_row as int,
        }
    }
}

/// The values of a sequence of syntax nodes.
pub open spec fn nodes_view(v: Seq<SyntaxNode>) -> Seq<SyntaxNodeView> {
    v.map_values(|n: SyntaxNode| n@)
}

impl SyntaxNode {
    /// Builds a node from the parts a tree cursor reports.
    pub fn new(
        kind: &str,
        field: Option<&str>,
        depth: u32,
        start_byte: usize,
        end_byte: usize,
        start_row: usize,
        end_row: usize,
    ) -> (n: SyntaxNode)
        ensures
            n.kind@ == kind@,
            n.field matches Some(f) ==> field matches Some(g) && f@ == g@,
            n.field is None ==> field is None,
            n.depth == depth,
            n.start_byte == start_byte,
            n.end_byte == end_byte,
            n.start_row == start_row,
            n.end_row == end_row,
    {
        SyntaxNode {
            kind: kind.to_owned(),
            field: match field {
                Some(f) => Some(f.to_owned()),
                None => None,
            },
            depth,
            start_byte,
            end_byte,
            start_row,
            end_row,
        }
    }
}

/// `tree_sitter::Parser`, held opaque.
#[verifier::external_type_specification]
#[verifier::external_body]
pub struct ExParser(tree_sitter::Parser);

/// `tree_sitter::LanguageError`, held opaque.
#[verifier::external_type_specification]
#[verifier::external_body]
pub struct ExLanguageError(tree_sitter::LanguageError);

/// A tree-sitter parser whose language is Rust: only `rust_parser` makes one.
pub struct RustParser {
    parser: tree_sitter::Parser,
}

/// The syntax tree that tree-sitter's Rust grammar gives for `source`, every
/// node listed in preorder from the root.
pub uninterp spec fn rust_syntax(source: Seq<char>) -> Seq<SyntaxNodeView>;

/// Calls `tree_sitter::Parser::set_language` with `tree_sitter_rust::LANGUAGE`
/// on a new parser. The claim: it succeeds. `set_language` accepts a grammar
/// of ABI version 13 to 15 whose lexer is set; the Rust grammar this crate is
/// built with is generated at ABI version 15, with its lexer.
#[verifier::external_body]
pub(crate) fn rust_parser() -> (res: Result<RustParser, tree_sitter::LanguageError>)
    ensures
        res is Ok,
{
    let mut parser = tree_sitter::Parser::new();
    parser.set_language(&tree_sitter_rust::LANGUAGE.into()).map(|_| RustParser { parser })
}

/// Byte offset `byte` of the UTF-8 encoding of `s` falls on a character
/// boundary, and `row` newlines come before it.
pub open spec fn is_position(s: Seq<char>, byte: int, row: int) -> bool {
    exists|k: int|
        0 <= k <= s.len() && utf8_len(#[trigger] s.take(k)) == byte && newline_count(s.take(k)) == row
}

/// Every node's byte range is ordered, and its rows are the positions of its
/// start and end: the newlines before each.
pub open spec fn positions_agree(s: Seq<char>, t: Seq<SyntaxNodeView>) -> bool {
    forall|i: int|
        #![trigger t[i]]
        0 <= i < t.len() ==> {
            &&& t[i].start_byte <= t[i].end_byte
            &&& is_position(s, t[i].start_byte, t[i].start_row)
            &&& is_position(s, t[i].end_byte, t[i].end_row)
        }
}

/// Nodes listed in preorder start where earlier ones start or later.
pub open spec fn starts_in_preorder(t: Seq<SyntaxNodeView>) -> bool {
    forall|i: int, j: int| 0 <= i < j < t.len() ==> #[trigger] t[i].start_byte <= #[trigger] t[j].start_byte
}

/// Node `j` follows node `i` in preorder with only nodes deeper than `i`
/// from `i` up to it: it lies in the subtree of `i`.
pub open spec fn in_subtree(t: Seq<SyntaxNodeView>, i: int, j: int) -> bool {
    &&& 0 <= i < j < t.len()
    &&& forall|m: int| #![trigger t[m]] i < m <= j ==> t[m].depth > t[i].depth
}

/// Byte ranges nest as the tree does: a node's range holds the ranges of its
/// subtree, and a later node that is not deeper (a later sibling, or one
/// outside the parent) starts where it ends or later.
pub open spec fn ranges_nest(t: Seq<SyntaxNodeView>) -> bool {
    &&& forall|i: int, j: int|
        #![trigger t[i].end_byte, t[j].end_byte]
        in_subtree(t, i, j) ==> t[j].end_byte <= t[i].end_byte
    &&& forall|i: int, j: int|
        #![trigger t[i].end_byte, t[j].start_byte]
        0 <= i < j < t.len() && t[j].depth <= t[i].depth ==> t[i].end_byte <= t[j].start_byte
}

/// Calls `tree_sitter::Parser::parse` on `source` and lists the tree's nodes
/// in preorder through `TreeCursor::goto_descendant`. The claims:
/// - the parse succeeds, as the documentation says it does once a language
///   is set;
/// - the nodes are the named tree of the source (the parser's language is
///   always Rust, so the tree depends on the source alone);
/// - every node starts no later than it ends, and its start and end points
///   are lexer positions: the lexer advances a whole code point at a time,
///   adding a row at each `'\n'` (`lexer.c`, `ts_lexer__do_advance`);
/// - a node starts where its parent and the siblings before it start or
///   later, so starts never decrease in preorder;
/// - a node's range holds its children's, and each sibling starts where the
///   one before it ends or later: a parent's extent is summed from its
///   children's padding and size in turn (`subtree.c`,
///   `ts_subtree_summarize_children`), and a node's position is the
///   parent's plus the extents of the siblings before it (`node.c`).
#[verifier::external_body]
pub(crate) fn parse_rust(parser: &mut RustParser, source: &str) -> (res: Option<Vec<SyntaxNode>>)
    ensures
        res is Some,
        res matches Some(nodes) ==> nodes_view(nodes@) == rust_syntax(source@),
        res matches Some(nodes) ==> positions_agree(source@, nodes_view(nodes@)),
        res matches Some(nodes) ==> starts_in_preorder(nodes_view(nodes@)),
        res matches Some(nodes) ==> ranges_nest(nodes_view(nodes@)),
{
    let tree = parser.parser.parse(source, None)?;
    let mut cursor = tree.walk();
    let count: usize = tree.root_node().descendant_count();
    Some((0..count).map(|i| {
        cursor.goto_descendant(i);
        let node = cursor.node();
        let (start, end) = (node.start_position(), node.end_position());
        SyntaxNode::new(node.kind(), cursor.field_name(), cursor.depth(), node.start_byte(), node.end_byte(), start.row, end.row)
    }).collect())
}

// --- Navigation ---

/// The children of a node of depth `d`, scanning its subtree from index `j`:
/// the nodes one level deeper, up to the first node not deeper than `d`.
pub open spec fn children_from(t: Seq<SyntaxNodeView>, d: int, j: int) -> Seq<int>
    decreases t.len() - j,
{
    if j < 0 || j >= t.len() || t[j].depth <= d {
        seq![]
    } else if t[j].depth == d + 1 {
        seq![j] + children_from(t, d, j + 1)
    } else {
        children_from(t, d, j + 1)
    }
}

/// The indices of the children of node `i`, in order.
pub open spec fn children(t: Seq<SyntaxNodeView>, i: int) -> Seq<int> {
    if 0 <= i < t.len() {
        children_from(t, t[i].depth, i + 1)
    } else {
        seq![]
    }
}

/// The first of the nodes `cs` held under field `f`.
pub open spec fn first_in_field(t: Seq<SyntaxNodeView>, cs: Seq<int>, f: Seq<char>) -> Option<int>
    decreases cs.len(),
{
    if cs.len() == 0 {
        None
    } else if t[cs[0]].field == Some(f) {
        Some(cs[0])
    } else {
        first_in_field(t, cs.drop_first(), f)
    }
}

/// The first of the nodes `cs` of kind `k`.
pub open spec fn first_of_kind(t: Seq<SyntaxNodeView>, cs: Seq<int>, k: Seq<char>) -> Option<int>
    decreases cs.len(),
{
    if cs.len() == 0 {
        None
    } else if t[cs[0]].kind == k {
        Some(cs[0])
    } else {
        first_of_kind(t, cs.drop_first(), k)
    }
}

/// The first child of node `i` under field `f` (`Node::child_by_field_name`).
pub open spec fn child_by_field(t: Seq<SyntaxNodeView>, i: int, f: Seq<char>) -> Option<int> {
    first_in_field(t, children(t, i), f)
}

/// The first child of node `i` of kind `k`.
pub open spec fn child_of_kind(t: Seq<SyntaxNodeView>, i: int, k: Seq<char>) -> Option<int> {
    first_of_kind(t, children(t, i), k)
}

/// The indices of the children of node `i`.
pub fn child_indices(nodes: &Vec<SyntaxNode>, i: usize) -> (res: Vec<usize>)
    requires
        i < nodes@.len(),
    ensures
        res@.map_values(|k: usize| k as int) == children(nodes_view(nodes@), i as int),
        forall|k: int| 0 <= k < res@.len() ==> res@[k] < nodes@.len(),
{
    let ghost t = nodes_view(nodes@);
    let d: u32 = nodes[i].depth;
    let n: usize = nodes.len();
    let mut res: Vec<usize> = Vec::new();
    let mut j: usize = i + 1;
    while j < n && nodes[j].depth > d
        invariant
            i < j <= n == nodes@.len() == t.len(),
            t == nodes_view(nodes@),
            d == t[i as int].depth,
            res@.map_values(|k: usize| k as int) + children_from(t, d as int, j as int)
                == children_from(t, d as int, i + 1),
            forall|k: int| 0 <= k < res@.len() ==> res@[k] < j,
        decreases n - j,
    {
        let ghost before = res@.map_values(|k: usize| k as int);
        if nodes[j].depth == d + 1 {
            res.push(j);
            assert(res@.map_values(|k: usize| k as int) == before.push(j as int));
            assert(before.push(j as int) + children_from(t, d as int, j + 1) =~= before + (seq![
                j as int,
            ] + children_from(t, d as int, j + 1)));
        }
        j = j + 1;
    }
    res
}

/// The first of the nodes `cs` held under field `f`.
pub fn find_in_field(nodes: &Vec<SyntaxNode>, cs: &Vec<usize>, f: &str) -> (res: Option<usize>)
    requires
        forall|k: int| 0 <= k < cs@.len() ==> cs@[k] < nodes@.len(),
    ensures
        match res {
            Some(j) => first_in_field(nodes_view(nodes@), cs@.map_values(|k: usize| k as int), f@)
                == Some(j as int) && j < nodes@.len(),
            None => first_in_field(nodes_view(nodes@), cs@.map_values(|k: usize| k as int), f@)
                is None,
        },
{
    let ghost t = nodes_view(nodes@);
    let ghost all = cs@.map_values(|k: usize| k as int);
    let n: usize = cs.len();
    let mut k: usize = 0;
    assert(all.skip(0) == all);
    while k < n
        invariant
            k <= n == cs@.len(),
            t == nodes_view(nodes@),
            all == cs@.map_values(|k: usize| k as int),
            forall|m: int| 0 <= m < cs@.len() ==> cs@[m] < nodes@.len(),
            first_in_field(t, all, f@) == first_in_field(t, all.skip(k as int), f@),
        decreases n - k,
    {
        let j: usize = cs[k];
        assert(all.skip(k as int)[0] == j as int);
        assert(all.skip(k as int).drop_first() == all.skip(k + 1));
        let hit: bool = match &nodes[j].field {
            Some(name) => crate::text::str_eq(name.as_str(), f),
            None => false,
        };
        if hit {
            return Some(j);
        }
        k = k + 1;
    }
    assert(all.skip(n as int).len() == 0);
    None
}

/// The first of the nodes `cs` of kind `kind`.
pub fn find_of_kind(nodes: &Vec<SyntaxNode>, cs: &Vec<usize>, kind: &str) -> (res: Option<usize>)
    requires
        forall|k: int| 0 <= k < cs@.len() ==> cs@[k] < nodes@.len(),
    ensures
        match res {
            Some(j) => first_of_kind(nodes_view(nodes@), cs@.map_values(|k: usize| k as int), kind@)
                == Some(j as int) && j < nodes@.len(),
            None => first_of_kind(nodes_view(nodes@), cs@.map_values(|k: usize| k as int), kind@)
                is None,
        },
{
    let ghost t = nodes_view(nodes@);
    let ghost all = cs@.map_values(|k: usize| k as int);
    let n: usize = cs.len();
    let mut k: usize = 0;
    assert(all.skip(0) == all);
    while k < n
        invariant
            k <= n == cs@.len(),
            t == nodes_view(nodes@),
            all == cs@.map_values(|k: usize| k as int),
            forall|m: int| 0 <= m < cs@.len() ==> cs@[m] < nodes@.len(),
            first_of_kind(t, all, kind@) == first_of_kind(t, all.skip(k as int), kind@),
        decreases n - k,
    {
        let j: usize = cs[k];
        assert(all.skip(k as int)[0] == j as int);
        assert(all.skip(k as int).drop_first() == all.skip(k + 1));
        if crate::text::str_eq(nodes[j].kind.as_str(), kind) {
            return Some(j);
        }
        k = k + 1;
    }
    assert(all.skip(n as int).len() == 0);
    None
}

} // verus!
