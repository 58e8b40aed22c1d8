use vstd::prelude::*;

use crate::tree::{SyntaxTree, TreeBuilder};

verus! {

#[verifier::external_type_specification]
#[verifier::external_body]
pub struct ExParser(tree_sitter::Parser);

#[verifier::external_type_specification]
#[verifier::external_body]
pub struct ExLanguage(tree_sitter::Language);

#[verifier::external_type_specification]
#[verifier::external_body]
pub struct ExTree(tree_sitter::Tree);

#[verifier::external_type_specification]
#[verifier::external_body]
pub struct ExTreeCursor<'tree>(tree_sitter::TreeCursor<'tree>);

#[verifier::external_type_specification]
#[verifier::external_body]
pub struct ExNode<'tree>(tree_sitter::Node<'tree>);

/// Relies on tree_sitter::Parser::new: a parser with no language yet.
#[verifier::external_body]
fn new_parser() -> tree_sitter::Parser {
    tree_sitter::Parser::new()
}

/// Relies on tree_sitter_wit::language: the WIT grammar.
#[verifier::external_body]
fn wit_language() -> tree_sitter::Language {
    tree_sitter_wit::language()
}

/// Relies on tree_sitter::Parser::set_language: whether the parser took the
/// language.
#[verifier::external_body]
fn set_parser_language(parser: &mut tree_sitter::Parser, language: &tree_sitter::Language) -> bool {
    parser.set_language(language).is_ok()
}

/// Relies on tree_sitter::Parser::parse: the parse tree of `source`, or
/// `None` where the parser gives none.
#[verifier::external_body]
fn parse_text(parser: &mut tree_sitter::Parser, source: &str) -> Option<tree_sitter::Tree> {
    parser.parse(source, None)
}

/// Relies on tree_sitter::Tree::walk: a cursor at the root of the tree.
#[verifier::external_body]
fn root_cursor(tree: &tree_sitter::Tree) -> tree_sitter::TreeCursor<'_> {
    tree.walk()
}

/// Relies on tree_sitter::TreeCursor::node: the node the cursor is at.
#[verifier::external_body]
fn current_node<'tree>(cursor: &tree_sitter::TreeCursor<'tree>) -> tree_sitter::Node<'tree> {
    cursor.node()
}

/// Relies on tree_sitter::Node::descendant_count: the number of nodes of
/// the node's subtree, itself included.
#[verifier::external_body]
fn subtree_size(node: &tree_sitter::Node) -> usize {
    node.descendant_count()
}

/// Relies on tree_sitter::Node::kind: the node's kind label.
#[verifier::external_body]
fn node_kind(node: &tree_sitter::Node) -> String {
    node.kind().to_string()
}

/// Relies on tree_sitter::Node::start_byte.
#[verifier::external_body]
fn node_start(node: &tree_sitter::Node) -> usize {
    node.start_byte()
}

/// Relies on tree_sitter::Node::end_byte.
#[verifier::external_body]
fn node_end(node: &tree_sitter::Node) -> usize {
    node.end_byte()
}

/// Relies on tree_sitter::Node::is_named.
#[verifier::external_body]
fn node_is_named(node: &tree_sitter::Node) -> bool {
    node.is_named()
}

/// Relies on tree_sitter::TreeCursor::goto_first_child.
#[verifier::external_body]
fn step_first_child(cursor: &mut tree_sitter::TreeCursor) -> bool {
    cursor.goto_first_child()
}

/// Relies on tree_sitter::TreeCursor::goto_next_sibling.
#[verifier::external_body]
fn step_next_sibling(cursor: &mut tree_sitter::TreeCursor) -> bool {
    cursor.goto_next_sibling()
}

/// Relies on tree_sitter::TreeCursor::goto_parent.
#[verifier::external_body]
fn step_parent(cursor: &mut tree_sitter::TreeCursor) -> bool {
    cursor.goto_parent()
}

/// Parses `source` with the WIT grammar into a `SyntaxTree`: each node of
/// the parse tree, in document order, with its kind, byte range and
/// whether it is named. `None` when the parser gives no tree, or one whose
/// ranges are not ranges of whole characters of `source`.
pub fn parse_source(source: &str) -> (r: Option<SyntaxTree>)
    ensures
        r matches Some(t) ==> t@.source == source@ && t@.wf(),
{
    let mut parser = new_parser();
    let language = wit_language();
    if !set_parser_language(&mut parser, &language) {
        return None;
    }
    let tree = match parse_text(&mut parser, source) {
        Some(t) => t,
        None => {
            return None;
        },
    };
    let mut cursor = root_cursor(&tree);
    let mut budget = subtree_size(&current_node(&cursor));
    let mut builder = TreeBuilder::new(source.to_owned());
    loop
        invariant
            builder@.inv(),
            builder@.source == source@,
        decreases budget,
    {
        if budget == 0 {
            return None;
        }
        budget = budget - 1;
        let node = current_node(&cursor);
        let kind = node_kind(&node);
        let start = node_start(&node);
        let end = node_end(&node);
        let named = node_is_named(&node);
        if !builder.open_node(kind, start, end, named) {
            return None;
        }
        if step_first_child(&mut cursor) {
            continue ;
        }
        if !builder.close_node() {
            return None;
        }
        if step_next_sibling(&mut cursor) {
            continue ;
        }
        loop
            invariant
                builder@.inv(),
                builder@.source == source@,
            decreases builder@.open.len(),
        {
            if !step_parent(&mut cursor) {
                return builder.finish();
            }
            if !builder.close_node() {
                return None;
            }
            if step_next_sibling(&mut cursor) {
                break ;
            }
        }
    }
}

} // verus!
