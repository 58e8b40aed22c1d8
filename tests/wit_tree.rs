use wit_tree::extract::{parse_function, parse_interface, parse_parameter, ExtractionError, WitFile};
use wit_tree::parse::parse_source;
use wit_tree::tree::{Position, SyntaxTree, TreeBuilder};
use wit_tree::trim::{is_punctuation_kind, SyntaxNode};
use wit_tree::walk::{find_descendants, named_children, same_text, walk, Cursor, Walker};

const CALC: &str = "interface calc { add: func(a: s32, b: s32) -> s32; }";

/// Builds a tree from nodes given in document order with their depth.
fn build(source: &str, nodes: &[(&str, usize, usize, usize)]) -> SyntaxTree {
    let mut b = TreeBuilder::new(source.to_string());
    let mut open = 0usize;
    for &(kind, start, end, depth) in nodes {
        while open > depth {
            assert!(b.close_node());
            open -= 1;
        }
        assert!(b.open_node(kind.to_string(), start, end, !is_punctuation_kind(kind)));
        open += 1;
    }
    while open > 0 {
        assert!(b.close_node());
        open -= 1;
    }
    b.finish().expect("a complete tree")
}

fn first_of_kind(tree: &SyntaxTree, kind: &str) -> usize {
    find_descendants(tree, 0, kind)[0]
}

fn no_punctuation_below(n: &SyntaxNode) -> bool {
    n.children.iter().all(|c| !is_punctuation_kind(&c.kind) && no_punctuation_below(c))
}

fn same_shape(a: &SyntaxNode, b: &SyntaxNode) -> bool {
    a.kind == b.kind
        && a.text == b.text
        && a.children.len() == b.children.len()
        && a.children.iter().zip(b.children.iter()).all(|(x, y)| same_shape(x, y))
}

fn count_nodes(n: &SyntaxNode) -> usize {
    1 + n.children.iter().map(count_nodes).sum::<usize>()
}

/// A parameter list `(a: s32, b)`: two names and one type.
fn mismatched_list() -> SyntaxTree {
    let src = "(a: s32, b)";
    build(
        src,
        &[
            ("param_list", 0, 11, 0),
            ("(", 0, 1, 1),
            ("named_type", 1, 7, 1),
            ("identifier", 1, 2, 2),
            (":", 2, 3, 2),
            ("ty", 4, 7, 2),
            (",", 7, 8, 1),
            ("identifier", 9, 10, 1),
            (")", 10, 11, 1),
        ],
    )
}

#[test]
fn extract_interface_scenario() {
    let tree = parse_source(CALC).expect("parses");
    let node = first_of_kind(&tree, "interface_item");
    let itf = parse_interface(&tree, node).expect("extracts");
    assert_eq!(itf.name, "calc");
    assert_eq!(itf.functions.len(), 1);
    let f = &itf.functions[0];
    assert_eq!(f.name, "add");
    assert!(f.returns.is_none());
    assert_eq!(f.parameters.len(), 2);
    assert_eq!(f.parameters[0].name, "a");
    assert_eq!(f.parameters[0].type_, "s32");
    assert_eq!(f.parameters[1].name, "b");
    assert_eq!(f.parameters[1].type_, "s32");
}

#[test]
fn tokens_one_top_level_interface() {
    let tree = parse_source(CALC).expect("parses");
    let tokens = named_children(&tree, tree.root());
    assert_eq!(tokens.len(), 1);
    assert_eq!(tree.kind(tokens[0]), "top_level_item");
    assert_eq!(tree.text(tokens[0]), CALC);
}

#[test]
fn empty_source_has_nothing() {
    let tree = parse_source("").expect("parses");
    assert!(named_children(&tree, tree.root()).is_empty());
    let file = WitFile::from_tree(&tree).ok().expect("extracts");
    assert!(file.interfaces.is_empty());
    assert!(file.worlds.is_empty());
}

#[test]
fn mismatched_parameter_counts_fail() {
    let tree = mismatched_list();
    assert!(matches!(parse_parameter(&tree, 0), Err(ExtractionError::MismatchedParameters)));
}

#[test]
fn extra_types_are_left_out() {
    let src = "(a: s32, u8)";
    let tree = build(
        src,
        &[
            ("param_list", 0, 12, 0),
            ("identifier", 1, 2, 1),
            ("ty", 4, 7, 1),
            ("ty", 9, 11, 1),
        ],
    );
    let ps = parse_parameter(&tree, 0).ok().expect("extracts");
    assert_eq!(ps.len(), 1);
    assert_eq!(ps[0].name, "a");
    assert_eq!(ps[0].type_, "s32");
}

#[test]
fn parameter_count_matches_declarations() {
    let tree = parse_source(CALC).expect("parses");
    let list = first_of_kind(&tree, "param_list");
    let ps = parse_parameter(&tree, list).ok().expect("extracts");
    assert_eq!(ps.len(), 2);
    assert!(ps.iter().all(|p| !p.name.is_empty() && !p.type_.is_empty()));
}

#[test]
fn walk_visits_every_node_once_in_order() {
    let tree = parse_source(CALC).expect("parses");
    let (steps, _) = walk(&tree, 0);
    assert_eq!(steps.len(), tree.len());
    for (k, s) in steps.iter().enumerate() {
        assert_eq!(s.node, k);
    }
    assert_eq!(steps[0].depth, 0);
    for s in steps.iter().skip(1) {
        let parent = tree.node(s.node).parent;
        assert_eq!(s.depth, steps[parent].depth + 1);
    }
}

#[test]
fn walk_of_subtree_stays_inside() {
    let tree = parse_source(CALC).expect("parses");
    let f = first_of_kind(&tree, "func_item");
    let (steps, _) = walk(&tree, f);
    assert_eq!(steps.len(), tree.node(f).subtree_end - f);
    assert_eq!(steps[0].node, f);
    assert_eq!(steps[0].depth, 0);
}

#[test]
fn walk_depth_returns_to_start() {
    let tree = parse_source(CALC).expect("parses");
    let (_, w) = walk(&tree, 0);
    assert!(w.is_done());
    assert_eq!(w.depth(), 0);
    assert_eq!(w.descents(), w.ascents());
    assert!(w.descents() > 0);
}

#[test]
fn walker_on_single_node() {
    let tree = build("x", &[("identifier", 0, 1, 0)]);
    let mut w = Walker::new(&tree, 0);
    let s = w.next(&tree).expect("one step");
    assert_eq!((s.node, s.depth), (0, 0));
    assert!(w.next(&tree).is_none());
    assert_eq!(w.descents(), 0);
    assert_eq!(w.ascents(), 0);
}

#[test]
fn cursor_moves() {
    let tree = mismatched_list();
    let mut c = Cursor::new(&tree, 0);
    assert!(!c.goto_parent(&tree));
    assert!(!c.goto_next_sibling(&tree));
    assert!(c.goto_first_child(&tree));
    assert_eq!(c.node(), 1);
    assert!(c.goto_next_sibling(&tree));
    assert_eq!(c.node(), 2);
    assert!(c.goto_first_child(&tree));
    assert_eq!(c.node(), 3);
    assert!(c.goto_next_sibling(&tree));
    assert!(c.goto_next_sibling(&tree));
    assert_eq!(c.node(), 5);
    assert!(!c.goto_next_sibling(&tree));
    assert!(c.goto_parent(&tree));
    assert_eq!(c.node(), 2);
    assert!(c.goto_next_sibling(&tree));
    assert_eq!(c.node(), 6);
}

#[test]
fn find_descendants_includes_the_node_itself() {
    let tree = mismatched_list();
    assert_eq!(find_descendants(&tree, 0, "param_list"), vec![0]);
    assert_eq!(find_descendants(&tree, 0, "identifier"), vec![3, 7]);
    assert_eq!(find_descendants(&tree, 2, "identifier"), vec![3]);
    assert!(find_descendants(&tree, 0, "func_item").is_empty());
}

#[test]
fn trimmed_tree_has_no_punctuation() {
    let tree = parse_source(CALC).expect("parses");
    let n = SyntaxNode::from_node(&tree, 0);
    assert!(no_punctuation_below(&n));
    assert!(count_nodes(&n) < tree.len());
}

#[test]
fn trimming_twice_changes_nothing() {
    let tree = parse_source(CALC).expect("parses");
    let n = SyntaxNode::from_node(&tree, 0);
    let m = n.without_punctuation();
    assert!(same_shape(&n, &m));
}

#[test]
fn without_punctuation_drops_children() {
    let tree = mismatched_list();
    let full = SyntaxNode::from_node(&tree, 0);
    let kinds: Vec<&str> = full.children.iter().map(|c| c.kind.as_str()).collect();
    assert_eq!(kinds, vec!["named_type", ",", "identifier"]);
    let again = full.without_punctuation();
    let kinds: Vec<&str> = again.children.iter().map(|c| c.kind.as_str()).collect();
    assert_eq!(kinds, vec!["named_type", ",", "identifier"]);
}

#[test]
fn trimmed_text_is_the_source_slice() {
    let tree = parse_source(CALC).expect("parses");
    for i in 0..tree.len() {
        let n = tree.node(i);
        assert_eq!(tree.text(i), &CALC[n.start..n.end]);
    }
    let root = SyntaxNode::from_node(&tree, 0);
    assert_eq!(root.text, CALC);
    assert_eq!(root.kind, "source_file");
}

#[test]
fn punctuation_set_is_exact() {
    for k in ["{", "}", ":", "//", ";", "<", ">", "->", "(", ")"] {
        assert!(is_punctuation_kind(k));
    }
    for k in ["-", "/", "", "{{", "identifier", ",", "=>"] {
        assert!(!is_punctuation_kind(k));
    }
}

#[test]
fn same_text_compares_characters() {
    assert!(same_text("ty", "ty"));
    assert!(!same_text("ty", "t"));
    assert!(same_text("é", "é"));
    assert!(!same_text("é", "e"));
}

#[test]
fn interface_without_name_fails() {
    let tree = build("interface { }", &[("interface_item", 0, 13, 0), ("{", 10, 11, 1), ("}", 12, 13, 1)]);
    assert!(matches!(parse_interface(&tree, 0), Err(ExtractionError::MissingName)));
}

#[test]
fn function_without_parameter_list_fails() {
    let tree = build("f: func;", &[("func_item", 0, 8, 0), ("identifier", 0, 1, 1), ("func_type", 3, 7, 1)]);
    assert!(matches!(parse_function(&tree, 0), Err(ExtractionError::MissingParameterList)));
    let bare = build("f", &[("func_item", 0, 1, 0)]);
    assert!(matches!(parse_function(&bare, 0), Err(ExtractionError::MissingName)));
}

#[test]
fn interface_error_comes_from_its_function() {
    let src = "interface i { f: func(a); }";
    let tree = build(
        src,
        &[
            ("interface_item", 0, 27, 0),
            ("identifier", 10, 11, 1),
            ("func_item", 14, 25, 1),
            ("identifier", 14, 15, 2),
            ("param_list", 21, 24, 2),
            ("identifier", 22, 23, 3),
        ],
    );
    assert!(matches!(parse_interface(&tree, 0), Err(ExtractionError::MismatchedParameters)));
    let root = build(src, &[("source_file", 0, 27, 0), ("interface_item", 0, 27, 1), ("identifier", 10, 11, 2)]);
    let file = WitFile::from_tree(&root).ok().expect("extracts");
    assert_eq!(file.interfaces.len(), 1);
    assert_eq!(file.interfaces[0].name, "i");
    assert!(file.interfaces[0].functions.is_empty());
}

#[test]
fn wit_file_from_parsed_source() {
    let src = "interface a { f: func(); }\ninterface b { g: func(x: u8) -> u8; h: func(); }";
    let tree = parse_source(src).expect("parses");
    let file = WitFile::from_tree(&tree).ok().expect("extracts");
    assert_eq!(file.interfaces.len(), 2);
    assert_eq!(file.interfaces[0].name, "a");
    assert_eq!(file.interfaces[0].functions[0].name, "f");
    assert!(file.interfaces[0].functions[0].parameters.is_empty());
    assert_eq!(file.interfaces[1].name, "b");
    let names: Vec<&str> = file.interfaces[1].functions.iter().map(|f| f.name.as_str()).collect();
    assert_eq!(names, vec!["g", "h"]);
    assert_eq!(file.interfaces[1].functions[0].parameters[0].type_, "u8");
}

#[test]
fn builder_refuses_bad_input() {
    let mut b = TreeBuilder::new("aé".to_string());
    assert!(!b.close_node());
    assert!(!b.open_node("x".to_string(), 0, 4, true));
    assert!(!b.open_node("x".to_string(), 2, 1, true));
    assert!(!b.open_node("x".to_string(), 0, 2, true));
    assert!(b.open_node("x".to_string(), 0, 3, true));
    assert!(b.open_node("y".to_string(), 1, 3, true));
    assert!(b.close_node());
    assert!(b.close_node());
    assert!(!b.open_node("z".to_string(), 0, 1, true));
    let tree = b.finish().expect("complete");
    assert_eq!(tree.len(), 2);
    assert_eq!(tree.text(1), "é");
    assert_eq!(tree.node(1).parent, 0);
    assert_eq!(tree.node(0).subtree_end, 2);
}

#[test]
fn builder_needs_everything_closed() {
    let b = TreeBuilder::new("ab".to_string());
    assert!(b.finish().is_none());
    let mut b = TreeBuilder::new("ab".to_string());
    assert!(b.open_node("x".to_string(), 0, 2, true));
    assert!(b.finish().is_none());
}

#[test]
fn position_counts_from_one() {
    let p = Position::from_point(0, 0);
    assert_eq!(p, Position { row: 1, column: 1 });
    let q = Position::from_point(4, 9);
    assert_eq!((q.row, q.column), (5, 10));
}
