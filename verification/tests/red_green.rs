//! Red-green trees: building green nodes, navigating syntax trees, and the
//! parse / lossless-print pipeline.

use cgrammar::green::{GreenBuilder, GreenChild, GreenToken};
use cgrammar::{parse_tree, parse_tree_with_map, print_lossless, GreenNode, SyntaxKind, SyntaxNode, SyntaxTree};

fn assert_roundtrip(source: &str) {
    let (tree, ctx_map) = parse_tree_with_map(source);
    let reconstructed = print_lossless(&tree, ctx_map.source);
    assert_eq!(reconstructed, source, "lossless print should reconstruct source exactly");
}

fn collect_kinds(tree: &SyntaxTree, node: SyntaxNode, kinds: &mut Vec<SyntaxKind>) {
    kinds.push(tree.kind(node));
    for child in tree.children(node).collect() {
        collect_kinds(tree, child, kinds);
    }
}

#[test]
fn test_green_node_new_empty() {
    let node = GreenNode::new(SyntaxKind::TranslationUnit, vec![]);
    assert_eq!(node.kind, SyntaxKind::TranslationUnit);
    assert_eq!(node.len, 0);
    assert_eq!(node.child_count(), 0);
}

#[test]
fn test_green_node_new_with_children() {
    let token = GreenChild::Token(GreenToken {
        kind: SyntaxKind::Ident,
        len: 3,
        leading_trivia: 0,
        trailing_trivia: 0,
    });
    let node = GreenNode::new(SyntaxKind::PrimaryExpr, vec![token]);
    assert_eq!(node.kind, SyntaxKind::PrimaryExpr);
    assert_eq!(node.len, 3);
    assert_eq!(node.child_count(), 1);
}

#[test]
fn test_green_node_token() {
    let node = GreenNode::token(SyntaxKind::Ident, 5, 0, 0);
    assert!(node.is_token());
    let t = node.as_token().unwrap();
    assert_eq!(t.kind, SyntaxKind::Ident);
    assert_eq!(t.len, 5);
    assert_eq!(t.leading_trivia, 0);
    assert_eq!(t.trailing_trivia, 0);
    assert_eq!(t.total_len(), 5);
}

#[test]
fn test_builder_build() {
    let mut b = GreenBuilder::new();
    // Build: TranslationUnit(BinaryExpr(IDENT("x"), PLUS, IDENT("y")))
    b.start_node(SyntaxKind::TranslationUnit);
    b.start_node(SyntaxKind::BinaryExpr);
    b.token(SyntaxKind::Ident, 1, 0);
    b.token(SyntaxKind::Plus, 1, 1);
    b.token(SyntaxKind::Ident, 1, 2);
    b.finish_node();
    b.finish_node();

    let root = b.build();
    assert_eq!(root.kind, SyntaxKind::TranslationUnit);
    assert_eq!(root.child_count(), 1);

    let children = root.children_slice().unwrap();
    let binary = match &children[0] {
        GreenChild::Node(n) => n,
        _ => panic!("expected node"),
    };
    assert_eq!(binary.kind, SyntaxKind::BinaryExpr);
    assert_eq!(binary.child_count(), 3);
    assert_eq!(binary.len, 3);
}

#[test]
fn test_builder_checkpoint_rewind() {
    let mut b = GreenBuilder::new();
    b.start_node(SyntaxKind::BinaryExpr);
    let ck = b.checkpoint();
    b.token(SyntaxKind::Ident, 1, 0);
    b.token(SyntaxKind::Plus, 1, 1);
    b.token(SyntaxKind::Ident, 1, 2);
    assert_eq!(b.checkpoint(), ck + 3); // 3 events emitted
    b.rewind(ck);
    assert_eq!(b.checkpoint(), ck); // back to start
    // Now emit different tokens
    b.token(SyntaxKind::Ident, 1, 0);
    b.token(SyntaxKind::Minus, 1, 1);
    b.token(SyntaxKind::Ident, 1, 2);
    b.finish_node();
    // Should have 5 events: StartNode, 3 tokens, FinishNode
    assert_eq!(b.checkpoint(), 5);
}

#[test]
fn test_syntax_tree_navigation() {
    let mut b = GreenBuilder::new();
    b.start_node(SyntaxKind::TranslationUnit);
    b.start_node(SyntaxKind::BinaryExpr);
    b.token(SyntaxKind::Ident, 1, 0);
    b.token(SyntaxKind::Plus, 1, 1);
    b.token(SyntaxKind::Ident, 1, 2);
    b.finish_node();
    b.finish_node();

    let root = b.build();
    let tree = SyntaxTree::new(root);

    let tu = tree.root();
    assert_eq!(tree.kind(tu), SyntaxKind::TranslationUnit);
    assert_eq!(tree.offset(tu), 0);
    assert_eq!(tree.len(tu), 3);

    let children: Vec<_> = tree.children(tu).collect();
    assert_eq!(children.len(), 1);

    let binary = children[0];
    assert_eq!(tree.kind(binary), SyntaxKind::BinaryExpr);
    assert_eq!(tree.offset(binary), 0);

    let bin_children: Vec<_> = tree.children(binary).collect();
    assert_eq!(bin_children.len(), 3);
    assert_eq!(tree.kind(bin_children[0]), SyntaxKind::Ident);
    assert_eq!(tree.offset(bin_children[0]), 0);
    assert_eq!(tree.kind(bin_children[1]), SyntaxKind::Plus);
    assert_eq!(tree.offset(bin_children[1]), 1);
    assert_eq!(tree.kind(bin_children[2]), SyntaxKind::Ident);
    assert_eq!(tree.offset(bin_children[2]), 2);

    // Parent links
    assert_eq!(tree.parent(binary), Some(tu));
    assert_eq!(tree.parent(bin_children[0]), Some(binary));

    // Sibling links
    assert_eq!(tree.next_sibling(bin_children[0]), Some(bin_children[1]));
    assert_eq!(tree.next_sibling(bin_children[1]), Some(bin_children[2]));
    assert_eq!(tree.next_sibling(bin_children[2]), None);
}

#[test]
fn test_red_green_pipeline() {
    let tree = parse_tree("int main(int argc, char *argv[]) { return 0; }");
    let root = tree.root();
    assert_eq!(tree.kind(root), SyntaxKind::TranslationUnit);
    assert!(tree.node_count() > 1);
    assert!(tree.children(root).count() > 0);
}

#[test]
fn test_empty_translation_unit() {
    let tree = parse_tree("");
    assert_eq!(tree.kind(tree.root()), SyntaxKind::TranslationUnit);
    assert!(tree.node_count() >= 1);
}

#[test]
fn test_simple_declaration() {
    let tree = parse_tree("int x;");
    assert!(tree.node_count() > 1);
    assert_eq!(tree.kind(tree.root()), SyntaxKind::TranslationUnit);
}

#[test]
fn test_compound_statement_structure() {
    let tree = parse_tree("void f() { int a; int b; }");
    let mut kinds: Vec<SyntaxKind> = vec![];
    collect_kinds(&tree, tree.root(), &mut kinds);
    assert!(kinds.contains(&SyntaxKind::Ident));
    assert!(kinds.contains(&SyntaxKind::LeftBrace));
    assert!(kinds.contains(&SyntaxKind::RightBrace));
}

#[test]
fn test_binary_expression() {
    let tree = parse_tree("int x = 1 + 2;");
    let mut kinds: Vec<SyntaxKind> = vec![];
    collect_kinds(&tree, tree.root(), &mut kinds);
    assert!(kinds.contains(&SyntaxKind::Plus));
    assert!(kinds.contains(&SyntaxKind::IntegerConst));
}

#[test]
fn test_lossless_token_content() {
    assert_roundtrip("int x;");
}

#[test]
fn test_lossless_function_tokens() {
    assert_roundtrip("int f(void){}");
}

#[test]
fn test_round_trip_if_else() {
    assert_roundtrip("int f(int x) { if (x) { return 1; } else { return 0; } }");
}

#[test]
fn test_round_trip_while() {
    assert_roundtrip("int f(int n) { int x = 0; while (x < n) { x = x + 1; } return x; }");
}

#[test]
fn test_round_trip_for() {
    assert_roundtrip("int f() { int s = 0; for (int i = 0; i < 10; i = i + 1) { s = s + i; } return s; }");
}

#[test]
fn test_round_trip_struct() {
    assert_roundtrip("struct point { int x; int y; }; int f(struct point *p) { return p->x + p->y; }");
}

#[test]
fn test_convenience_api() {
    let tree = parse_tree("int x;");
    assert_eq!(tree.kind(tree.root()), SyntaxKind::TranslationUnit);
    assert!(tree.node_count() > 1);
}

#[test]
fn test_round_trip_comments() {
    let source = "/* block comment */ int x; // line comment\nint y;\n";
    let (tree, ctx_map) = parse_tree_with_map(source);
    let reconstructed = print_lossless(&tree, ctx_map.source);
    assert_eq!(reconstructed, source, "comments and trailing newline should be preserved");
}

#[test]
fn test_tree_structure() {
    let source = "int max(int a, int b) { if (a > b) { return a; } return b; }";
    let tree = parse_tree(source);
    let root = tree.root();
    let mut kinds: Vec<SyntaxKind> = vec![];
    collect_kinds(&tree, root, &mut kinds);

    assert!(kinds.contains(&SyntaxKind::TranslationUnit));
    assert!(kinds.contains(&SyntaxKind::ExternalDeclaration));
    assert!(kinds.contains(&SyntaxKind::FunctionDefinition));
    assert!(kinds.contains(&SyntaxKind::DeclarationSpecifiers));
    assert!(kinds.contains(&SyntaxKind::TypeSpecifier));
    assert!(kinds.contains(&SyntaxKind::Declarator));
    assert!(kinds.contains(&SyntaxKind::CompoundStatement));
    assert!(kinds.contains(&SyntaxKind::IfStatement));
    assert!(kinds.contains(&SyntaxKind::ReturnStatement));
    assert!(kinds.contains(&SyntaxKind::BinaryExpr));
    assert!(kinds.contains(&SyntaxKind::Ident));
}

#[test]
fn green_node_and_child_predicates() {
    let empty = GreenNode::empty(SyntaxKind::CompoundStatement);
    assert!(empty.is_empty());
    assert!(!empty.is_token());
    let leaf = GreenNode::token(SyntaxKind::Ident, 3, 1, 0);
    assert!(!leaf.is_empty());
    let tok = GreenChild::Token(GreenToken { kind: SyntaxKind::Semicolon, len: 1, leading_trivia: 0, trailing_trivia: 0 });
    let node = GreenChild::Node(GreenNode::new(SyntaxKind::ExpressionStatement, vec![tok.clone()]));
    assert!(tok.is_token() && !tok.is_node());
    assert!(node.is_node() && !node.is_token());
    let parent = GreenNode::new(SyntaxKind::CompoundStatement, vec![node]);
    assert!(!parent.is_empty());
    assert_eq!(parent.child_count(), 1);
}

fn sample_events(b: &mut GreenBuilder, with_mark: bool) {
    b.start_node(SyntaxKind::TranslationUnit);
    if with_mark {
        b.mark();
    }
    b.start_node(SyntaxKind::BinaryExpr);
    b.token(SyntaxKind::Ident, 1, 0);
    b.token(SyntaxKind::Plus, 1, 2);
    b.start_node(SyntaxKind::PrimaryExpr);
    b.finish_node();
    b.token(SyntaxKind::Ident, 1, 4);
    b.finish_node();
    b.finish_node();
}

#[test]
fn unwrapped_mark_leaves_no_trace() {
    let mut plain = GreenBuilder::new();
    sample_events(&mut plain, false);
    let mut marked = GreenBuilder::new();
    sample_events(&mut marked, true);
    assert_eq!(plain.build(), marked.build());
}

#[test]
fn rewind_restores_the_build() {
    let mut b = GreenBuilder::new();
    sample_events(&mut b, false);
    let expected = b.clone().build();
    let ck = b.checkpoint();
    b.start_node(SyntaxKind::Error);
    b.token(SyntaxKind::Semicolon, 1, 5);
    b.mark();
    b.rewind(ck);
    assert_eq!(b.checkpoint(), ck);
    assert_eq!(b.build(), expected);
}

#[test]
fn childless_nodes_build_empty() {
    let mut b = GreenBuilder::new();
    sample_events(&mut b, false);
    let root = b.build();
    let expr = match &root.children_slice().unwrap()[0] {
        GreenChild::Node(n) => n.clone(),
        GreenChild::Token(_) => panic!("expected a node"),
    };
    match &expr.children_slice().unwrap()[2] {
        GreenChild::Node(n) => {
            assert_eq!(n.kind, SyntaxKind::PrimaryExpr);
            assert_eq!(n.child_count(), 0);
            assert!(n.children_slice().is_none());
        },
        GreenChild::Token(_) => panic!("expected a node"),
    }
}

#[test]
fn root_green_is_the_given_node() {
    let mut b = GreenBuilder::new();
    sample_events(&mut b, false);
    let g = b.build();
    let t = SyntaxTree::new(g.clone());
    assert_eq!(*t.green(t.root()), g);
}

#[test]
fn stray_marks_at_either_end_are_skipped() {
    let mut plain = GreenBuilder::new();
    sample_events(&mut plain, false);
    let mut marked = GreenBuilder::new();
    marked.mark();
    sample_events(&mut marked, true);
    marked.mark();
    assert_eq!(plain.build(), marked.build());
}

#[test]
fn child_greens_are_the_green_children() {
    let mut b = GreenBuilder::new();
    sample_events(&mut b, false);
    let g = b.build();
    let t = SyntaxTree::new(g.clone());
    let expr = t.children(t.root()).collect()[0];
    let green_expr = t.green(expr).clone();
    let kids = t.children(expr).collect();
    let green_kids = green_expr.children_slice().unwrap();
    assert_eq!(kids.len(), green_kids.len());
    let mut offset = t.offset(expr);
    for (m, c) in kids.iter().zip(green_kids.iter()) {
        let expected = match c {
            GreenChild::Node(x) => x.clone(),
            GreenChild::Token(k) => GreenNode::token(k.kind, k.len, k.leading_trivia, k.trailing_trivia),
        };
        assert_eq!(*t.green(*m), expected);
        assert_eq!(t.offset(*m), offset);
        assert_eq!(t.parent(*m), Some(expr));
        offset += t.len(*m);
    }
    assert_eq!(offset, t.offset(expr) + t.len(expr));
    assert_eq!(t.node_count(), 6);
}

#[test]
fn tokens_out_of_order_still_build() {
    let mut b = GreenBuilder::new();
    b.start_node(SyntaxKind::TranslationUnit);
    b.token(SyntaxKind::Ident, 1, 5);
    b.token(SyntaxKind::Ident, 2, 0);
    b.finish_node();
    let root = b.build();
    let kids = root.children_slice().unwrap();
    assert_eq!(kids.len(), 2);
    match (&kids[0], &kids[1]) {
        (GreenChild::Token(a), GreenChild::Token(c)) => {
            assert_eq!((a.len, a.leading_trivia), (1, 5));
            assert_eq!((c.len, c.leading_trivia), (2, 0));
        },
        _ => panic!("expected tokens"),
    }
}

#[test]
fn subtree_nodes_walk_in_pre_order() {
    let mut b = GreenBuilder::new();
    sample_events(&mut b, false);
    let t = SyntaxTree::new(b.build());
    let all = t.subtree_nodes(t.root());
    assert_eq!(all.len(), t.node_count());
    let kinds: Vec<SyntaxKind> = all.iter().map(|n| t.kind(*n)).collect();
    assert_eq!(
        kinds,
        vec![
            SyntaxKind::TranslationUnit,
            SyntaxKind::BinaryExpr,
            SyntaxKind::Ident,
            SyntaxKind::Plus,
            SyntaxKind::PrimaryExpr,
            SyntaxKind::Ident,
        ]
    );
    let expr = t.children(t.root()).collect()[0];
    assert_eq!(t.subtree_nodes(expr).len(), 5);
}
