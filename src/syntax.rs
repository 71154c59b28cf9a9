//! A syntax tree as plain values: node kinds, the field under which each
//! node hangs from its parent, byte and point spans, and children. Trees
//! come from tree-sitter and are copied into this form before any logic
//! reads them.
use vstd::prelude::*;

verus! {

#[verifier::external_type_specification]
#[verifier::external_body]
pub struct ExParser(tree_sitter::Parser);

#[verifier::external_type_specification]
#[verifier::external_body]
pub struct ExTree(tree_sitter::Tree);

#[verifier::external_type_specification]
#[verifier::external_body]
pub struct ExNode<'tree>(tree_sitter::Node<'tree>);

#[verifier::external_type_specification]
#[verifier::external_body]
pub struct ExLanguage(tree_sitter::Language);

/// Relies on `tree_sitter_nix::LANGUAGE`: the Nix grammar.
#[verifier::external_body]
pub(crate) fn nix_language() -> tree_sitter::Language {
    tree_sitter_nix::LANGUAGE.into()
}

/// Relies on `tree_sitter::Parser::new`: a parser without a grammar.
#[verifier::external_body]
pub(crate) fn new_parser() -> tree_sitter::Parser {
    tree_sitter::Parser::new()
}

/// Relies on `tree_sitter::Parser::set_language` and `Parser::parse`: the
/// Nix grammar (ABI 13) lies in the range of versions that `set_language`
/// accepts, and `parse` returns a tree whenever a grammar is attached.
#[verifier::external_body]
pub(crate) fn parse_nix_text(parser: &mut tree_sitter::Parser, code: &str) -> (r: Option<
    tree_sitter::Tree,
>)
    ensures
        r is Some,
{
    match parser.set_language(&tree_sitter_nix::LANGUAGE.into()) {
        Ok(()) => parser.parse(code, None),
        Err(_) => None,
    }
}

/// Relies on `tree_sitter::Parser::set_language` and `Parser::parse`: the C
/// grammar (ABI 15) lies in the range of versions that `set_language`
/// accepts, and `parse` returns a tree whenever a grammar is attached.
#[verifier::external_body]
pub(crate) fn parse_c_text(parser: &mut tree_sitter::Parser, code: &str) -> (r: Option<
    tree_sitter::Tree,
>)
    ensures
        r is Some,
{
    match parser.set_language(&tree_sitter_c::LANGUAGE.into()) {
        Ok(()) => parser.parse(code, None),
        Err(_) => None,
    }
}

/// Relies on `tree_sitter::Tree::root_node`.
#[verifier::external_body]
pub(crate) fn root_of<'tree>(tree: &'tree tree_sitter::Tree) -> tree_sitter::Node<'tree> {
    tree.root_node()
}

/// Relies on `tree_sitter::Node::kind`: the node's type name.
#[verifier::external_body]
pub(crate) fn kind_of(node: &tree_sitter::Node) -> String {
    node.kind().to_string()
}

/// Relies on `tree_sitter::Node::kind_id`: the node's type as a number.
#[verifier::external_body]
pub(crate) fn kind_id_of(node: &tree_sitter::Node) -> u16 {
    node.kind_id()
}

/// Relies on `tree_sitter::Node::has_error`: whether the subtree holds a
/// syntax error.
#[verifier::external_body]
pub(crate) fn has_error(node: &tree_sitter::Node) -> bool {
    node.has_error()
}

/// Relies on `tree_sitter::Node::range`: start byte, end byte, start row,
/// start column, end row and end column.
#[verifier::external_body]
pub(crate) fn span_of(node: &tree_sitter::Node) -> (usize, usize, usize, usize, usize, usize) {
    let r = node.range();
    (
        r.start_byte,
        r.end_byte,
        r.start_point.row,
        r.start_point.column,
        r.end_point.row,
        r.end_point.column,
    )
}

/// Relies on `tree_sitter::Node::child_count`.
#[verifier::external_body]
pub(crate) fn child_count_of(node: &tree_sitter::Node) -> u32 {
    node.child_count()
}

/// Relies on `tree_sitter::Node::child`: the `i`-th child, if there is one.
#[verifier::external_body]
pub(crate) fn child_of<'tree>(node: &tree_sitter::Node<'tree>, i: u32) -> Option<
    tree_sitter::Node<'tree>,
> {
    node.child(i)
}

/// Relies on `tree_sitter::Node::field_name_for_child`: the field that holds
/// the `i`-th child, if any.
#[verifier::external_body]
pub(crate) fn field_of_child(node: &tree_sitter::Node, i: u32) -> Option<String> {
    node.field_name_for_child(i).map(|f| f.to_string())
}

/// How many levels of a tree are copied; deeper nodes are kept without
/// their children.
pub const MAX_TREE_DEPTH: usize = 2048;

/// Whether no path from `n` down is longer than `d` levels: nodes `d`
/// levels down have no children.
pub open spec fn within_depth(n: SyntaxNode, d: nat) -> bool
    decreases n, 1nat, 0int,
{
    if d == 0 {
        n.children@.len() == 0
    } else {
        children_within(n, (d - 1) as nat, 0)
    }
}

/// Whether the children of `n` from the `i`-th on are within depth `d`.
pub open spec fn children_within(n: SyntaxNode, d: nat, i: int) -> bool
    decreases n, 0nat, n.children@.len() - i,
{
    if 0 <= i < n.children@.len() {
        within_depth(n.children@[i], d) && children_within(n, d, i + 1)
    } else {
        true
    }
}

/// A copy of the subtree of `node`, `depth` levels deep, and whether a node
/// at the last level had children that were left out.
pub(crate) fn copy_tree(node: &tree_sitter::Node, field: Option<String>, depth: usize) -> (r: (
    SyntaxNode,
    bool,
))
    ensures
        r.0.field == field,
        within_depth(r.0, depth as nat),
    decreases depth,
{
    let kind = kind_of(node);
    let kind_id = kind_id_of(node);
    let (start_byte, end_byte, start_row, start_column, end_row, end_column) = span_of(node);
    let mut children: Vec<SyntaxNode> = Vec::new();
    let mut cut = false;
    let count = child_count_of(node);
    if depth > 0 {
        let mut i: u32 = 0;
        while i < count
            invariant
                depth > 0,
                forall|k: int| 0 <= k < children@.len() ==> within_depth(
                    #[trigger] children@[k],
                    (depth - 1) as nat,
                ),
            decreases count - i,
        {
            if let Some(child) = child_of(node, i) {
                let f = field_of_child(node, i);
                let (c, c_cut) = copy_tree(&child, f, depth - 1);
                children.push(c);
                cut = cut || c_cut;
            }
            i = i + 1;
        }
    } else {
        cut = count > 0;
    }
    let r = SyntaxNode {
        kind,
        kind_id,
        field,
        start_byte,
        end_byte,
        start_row,
        start_column,
        end_row,
        end_column,
        children,
    };
    proof {
        if depth > 0 {
            lemma_children_within(r, (depth - 1) as nat, 0);
        }
    }
    (r, cut)
}

proof fn lemma_children_within(n: SyntaxNode, d: nat, i: int)
    requires
        forall|k: int| 0 <= k < n.children@.len() ==> within_depth(#[trigger] n.children@[k], d),
    ensures
        children_within(n, d, i),
    decreases n.children@.len() - i,
{
    if 0 <= i < n.children@.len() {
        lemma_children_within(n, d, i + 1);
    }
}

/// A copy of a tree, whether it holds a syntax error, and whether nodes
/// deeper than [`MAX_TREE_DEPTH`] levels were left out.
pub(crate) fn copy_parsed(tree: &tree_sitter::Tree) -> (r: (SyntaxNode, bool, bool))
    ensures
        within_depth(r.0, MAX_TREE_DEPTH as nat),
{
    let root = root_of(tree);
    let err = has_error(&root);
    let (copy, cut) = copy_tree(&root, None, MAX_TREE_DEPTH);
    (copy, err, cut)
}

/// One node of a concrete syntax tree.
#[derive(Debug)]
pub struct SyntaxNode {
    pub kind: String,
    pub kind_id: u16,
    /// The field name under which the parent holds this node.
    pub field: Option<String>,
    pub start_byte: usize,
    pub end_byte: usize,
    pub start_row: usize,
    pub start_column: usize,
    pub end_row: usize,
    pub end_column: usize,
    pub children: Vec<SyntaxNode>,
}

} // verus!
