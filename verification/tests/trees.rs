//! Syntax trees: reading tokens back, typedef names, error recovery, the
//! lossless round trip, and the span and token helpers.

use cgrammar::span::{ContextId, ContextMapping, SourceContext, Span, Spanned};
use cgrammar::token::syntax_kind_to_punctuator;
use cgrammar::value::read_token;
use cgrammar::visit::{visit_hook, VisitHook};
use cgrammar::{
    lex, parse_tree, parse_tree_with_map, parse_tree_with_typedefs, print_lossless, AttributeToken,
    BalancedToken, Constant, Identifier, IntegerConstant, PredefinedConstant, Punctuator, StringLiteral,
    StringLiterals, SyntaxKind, SyntaxNode, SyntaxTree,
};

fn kinds_below(tree: &SyntaxTree, node: SyntaxNode, out: &mut Vec<SyntaxKind>) {
    out.push(tree.kind(node));
    for child in tree.children(node).collect() {
        kinds_below(tree, child, out);
    }
}

fn all_kinds(tree: &SyntaxTree) -> Vec<SyntaxKind> {
    let mut out = Vec::new();
    kinds_below(tree, tree.root(), &mut out);
    out
}

fn round_trip(source: &str) {
    let (tree, map) = parse_tree_with_map(source);
    assert_eq!(print_lossless(&tree, map.source), source);
    assert_eq!(tree.lossless_text(source), source);
}

#[test]
fn token_sequence_of_a_declaration() {
    let source = "int x = 1;\n";
    let tree = parse_tree(source);
    let seq = tree.to_token_sequence(tree.root(), source);
    assert_eq!(seq.tokens.len(), 5);
    assert!(matches!(&seq.tokens[0].value, BalancedToken::Identifier(id) if id.0 == "int"));
    assert!(matches!(&seq.tokens[1].value, BalancedToken::Identifier(id) if id.0 == "x"));
    assert!(matches!(&seq.tokens[2].value, BalancedToken::Punctuator(Punctuator::Assign)));
    // constants read back with the value that their text writes
    assert!(matches!(
        &seq.tokens[3].value,
        BalancedToken::Constant(Constant::Integer(IntegerConstant { value: 1, suffix: None }))
    ));
    assert!(matches!(&seq.tokens[4].value, BalancedToken::Punctuator(Punctuator::Semicolon)));
    assert_eq!(seq.tokens[1].span.start(), 4);
    assert_eq!(seq.tokens[1].span.end(), 5);
    assert_eq!(seq.tokens[3].span.start(), 8);
    assert_eq!(seq.tokens[3].span.end(), 9);
    assert_eq!(seq.tokens[3].span.context().idx(), Some(0));
    assert_eq!(seq.eoi.start(), 11);
    assert_eq!(seq.eoi.end(), 11);
}

#[test]
fn token_sequence_of_a_subtree() {
    let source = "int f(void) { return true; }";
    let tree = parse_tree(source);
    let decl = tree.children(tree.root()).collect()[0];
    let all = tree.to_token_sequence(tree.root(), source);
    let sub = tree.to_token_sequence(decl, source);
    assert_eq!(all.tokens.len(), sub.tokens.len());
    assert_eq!(sub.tokens.len(), 10);
    assert!(matches!(
        &sub.tokens[7].value,
        BalancedToken::Constant(Constant::Predefined(PredefinedConstant::True))
    ));
    assert!(matches!(&sub.tokens[9].value, BalancedToken::Punctuator(Punctuator::RightBrace)));
}

#[test]
fn token_texts() {
    let source = "  foo /* c */ (bar)";
    let tree = parse_tree(source);
    let mut texts = Vec::new();
    let mut stack = vec![tree.root()];
    while let Some(n) = stack.pop() {
        if let Some(t) = tree.text(n, source) {
            texts.push(t.to_string());
        }
        let mut kids = tree.children(n).collect();
        kids.reverse();
        stack.extend(kids);
    }
    assert_eq!(texts, vec!["foo", "(", "bar", ")"]);
}

#[test]
fn typedef_names_change_the_tree() {
    let with = parse_tree_with_typedefs("T x;", &["T"]);
    let without = parse_tree("T x;");
    assert!(all_kinds(&with).contains(&SyntaxKind::TypeSpecifier));
    assert!(!all_kinds(&without).contains(&SyntaxKind::TypeSpecifier));
    let declared = parse_tree("typedef int T; T x;");
    let second = declared.children(declared.root()).collect()[1];
    let mut kinds = Vec::new();
    kinds_below(&declared, second, &mut kinds);
    assert!(kinds.contains(&SyntaxKind::TypeSpecifier));
}

#[test]
fn builtin_typedef_names() {
    let tree = parse_tree("_Bool b; __builtin_va_list ap;");
    let kinds = all_kinds(&tree);
    assert_eq!(kinds.iter().filter(|k| **k == SyntaxKind::TypeSpecifier).count(), 2);
}

#[test]
fn stray_tokens_become_error_nodes() {
    let tree = parse_tree(") int x;");
    let kinds = all_kinds(&tree);
    assert!(kinds.iter().any(|k| k.is_error()));
    assert!(kinds.contains(&SyntaxKind::Declaration) || kinds.contains(&SyntaxKind::ExternalDeclaration));
    round_trip(") int x;");
}

#[test]
fn round_trips_of_awkward_sources() {
    round_trip("");
    round_trip("x");
    round_trip("int é = 1; // ünïcödé\n");
    round_trip("#include <stdio.h>\n# 1 \"a.c\"\nint main(void) { puts(\"hi\\n\"); }\n");
    round_trip("int x = 'a' + L'b' + 0x1Fu + 1.5e3f; char *s = u8\"a\" \"b\";");
    round_trip("@@@ $$$ ``` int");
    round_trip("struct { int a : 3; } s = { .a = 1 }; int a[] = { [0] = 1, 2 };");
    round_trip("int f(int (*g)(int), ...) { return g ? g(1) : sizeof(int) + _Alignof(long); }");
    round_trip("int x; /* unterminated");
    round_trip("\"unterminated\nint y;");
}

#[test]
fn lexed_tokens_agree_with_tree_tokens() {
    let source = "int main(void) { return x + 2; }";
    let tree = parse_tree(source);
    let from_tree = tree.to_token_sequence(tree.root(), source);
    let (lexed, _) = lex(source, None);
    assert_eq!(from_tree.tokens.len(), lexed.tokens.len());
    for (a, b) in from_tree.tokens.iter().zip(lexed.tokens.iter()) {
        assert_eq!(a.span.start(), b.span.start());
        assert_eq!(a.span.end(), b.span.end());
    }
}

#[test]
fn spans_and_contexts() {
    let span = Span::new(3..7, ContextId::none());
    assert_eq!(span.start(), 3);
    assert_eq!(span.end(), 7);
    assert_eq!(span.context(), ContextId::none());
    let eoi = Span::new_eoi(9, ContextId::from_index(2));
    assert_eq!(eoi.start(), 9);
    assert_eq!(eoi.end(), 9);
    assert_eq!(eoi.context().idx(), Some(2));
    #[allow(clippy::reversed_empty_ranges)]
    let reversed = Span::new(7..3, ContextId::none());
    assert_eq!((reversed.start(), reversed.end()), (7, 7));
    let d = Span::default();
    assert_eq!((d.start(), d.end(), d.context().idx()), (0, 0, None));

    let mut map = ContextMapping::new("src");
    let id = map.insert_context(SourceContext { filename: "a.c".to_string(), line_offset: 4 });
    assert_eq!(id.idx(), Some(0));
    let id2 = map.insert_context(SourceContext { filename: "b.c".to_string(), line_offset: -1 });
    assert_eq!(id2.idx(), Some(1));
    assert_eq!(map.get(id2).unwrap().filename, "b.c");
    assert!(map.get(ContextId::from_index(5)).is_none());
    assert!(map.get(ContextId::none()).is_none());

    let (ctx, range) = Span::new(1..2, id).at_context(&map);
    assert_eq!(ctx.unwrap().line_offset, 4);
    assert_eq!(range, 1..2);
    let (ctx, _) = Span::new(1..2, ContextId::none()).at_context(&map);
    assert!(ctx.is_none());

    let sp = Spanned::new(5u8, span);
    let (v, s) = sp.as_ref();
    assert_eq!(*v, 5);
    assert_eq!(*s, span);
}

#[test]
fn joined_string_literals() {
    let lits = StringLiterals(vec![
        StringLiteral { encoding_prefix: None, value: "ab".to_string() },
        StringLiteral { encoding_prefix: None, value: "".to_string() },
        StringLiteral { encoding_prefix: None, value: "c".to_string() },
    ]);
    assert_eq!(lits.to_joined(), "abc");
    assert_eq!(StringLiterals(vec![]).to_joined(), "");
}

#[test]
fn attribute_tokens() {
    let std = AttributeToken::Standard(Identifier("nodiscard".to_string()));
    let gnu = AttributeToken::Prefixed {
        prefix: Identifier("gnu".to_string()),
        identifier: Identifier("packed".to_string()),
    };
    assert!(std.is_standard("nodiscard"));
    assert!(!std.is_standard("deprecated"));
    assert!(!std.is_prefixed("gnu"));
    assert!(gnu.is_prefixed("gnu"));
    assert!(!gnu.is_prefixed("clang"));
    assert!(!gnu.is_standard("packed"));
    assert_eq!(std.as_standard().unwrap().0, "nodiscard");
    assert!(std.as_prefixed().is_none());
    let (p, i) = gnu.as_prefixed().unwrap();
    assert_eq!((p.0.as_str(), i.0.as_str()), ("gnu", "packed"));
    assert_eq!(gnu.get_identifier("gnu").unwrap().0, "packed");
    assert!(gnu.get_identifier("clang").is_none());
    assert!(std.get_identifier("gnu").is_none());
}

#[test]
fn tokens_read_back_from_kinds() {
    let cs = |t: &str| t.chars().collect::<Vec<char>>();
    assert!(matches!(read_token(SyntaxKind::Ident, &cs("abc")), Some(BalancedToken::Identifier(id)) if id.0 == "abc"));
    assert!(matches!(
        read_token(SyntaxKind::PredefinedConst, &cs("false")),
        Some(BalancedToken::Constant(Constant::Predefined(PredefinedConstant::False)))
    ));
    assert!(matches!(
        read_token(SyntaxKind::PredefinedConst, &cs("nullptr")),
        Some(BalancedToken::Constant(Constant::Predefined(PredefinedConstant::Nullptr)))
    ));
    assert!(matches!(
        read_token(SyntaxKind::StringLiteral, &cs("\"s\"")),
        Some(BalancedToken::StringLiteral(sl)) if sl.0.len() == 1 && sl.0[0].value == "s"
    ));
    assert!(matches!(
        read_token(SyntaxKind::IntegerConst, &cs("42")),
        Some(BalancedToken::Constant(Constant::Integer(IntegerConstant { value: 42, suffix: None })))
    ));
    assert!(matches!(read_token(SyntaxKind::Unknown, &cs("@")), Some(BalancedToken::Unknown)));
    assert!(read_token(SyntaxKind::Whitespace, &cs(" ")).is_none());
    assert!(read_token(SyntaxKind::TranslationUnit, &cs("")).is_none());
    assert_eq!(syntax_kind_to_punctuator(SyntaxKind::HashHash), Some(Punctuator::HashHash));
    assert_eq!(syntax_kind_to_punctuator(SyntaxKind::LeftBracket), Some(Punctuator::LeftBracket));
    assert_eq!(syntax_kind_to_punctuator(SyntaxKind::Ident), None);
}

#[test]
fn syntax_kind_helpers() {
    assert!(SyntaxKind::Ident.is_token());
    assert!(SyntaxKind::Semicolon.is_token());
    assert!(!SyntaxKind::TranslationUnit.is_token());
    assert!(SyntaxKind::StmtError.is_error());
    assert!(!SyntaxKind::Ident.is_error());
    assert_eq!(SyntaxKind::TranslationUnit.name(), "translation unit");
    assert_eq!(SyntaxKind::Ident.name(), "identifier");
}

#[test]
fn attribute_specifier_variants() {
    let attr = cgrammar::token::Attribute {
        token: AttributeToken::Standard(Identifier(String::from("deprecated"))),
        arguments: None,
    };
    let attrs = cgrammar::token::AttributeSpecifier::Attributes(vec![attr]);
    let got = attrs.clone().try_into_attributes().expect("attribute list");
    assert_eq!(got.len(), 1);
    assert!(got[0].token.is_standard("deprecated"));
    assert!(attrs.try_into_asm().is_none());

    let lit = StringLiteral { encoding_prefix: None, value: String::from("nop") };
    let assembly = cgrammar::token::AttributeSpecifier::Asm(StringLiterals(vec![lit]));
    let got = assembly.clone().try_into_asm().expect("assembly literals");
    assert_eq!(got.to_joined(), "nop");
    assert!(assembly.try_into_attributes().is_none());
    assert!(cgrammar::token::AttributeSpecifier::Error.try_into_attributes().is_none());
    assert!(cgrammar::token::AttributeSpecifier::Error.try_into_asm().is_none());
}

#[test]
fn tree_tokens_are_the_raw_tokens() {
    let source = "/* head */ char *s = \"a\" \"b\"; // tail\nint n = sizeof s;\n";
    let tree = parse_tree(source);
    let from_tree = tree.to_token_sequence(tree.root(), source);
    let raw = cgrammar::lexer::lex_bytes(source.as_bytes());
    assert_eq!(from_tree.tokens.len(), raw.len());
    for (a, t) in from_tree.tokens.iter().zip(raw.iter()) {
        assert_eq!(a.span.start(), t.start as usize);
        assert_eq!(a.span.end(), (t.start + t.len) as usize);
        assert_eq!(a.span.context().idx(), Some(0));
    }
    // the two adjacent string literals stay two tokens here
    assert!(matches!(&from_tree.tokens[4].value, BalancedToken::StringLiteral(l) if l.to_joined() == "a"));
    assert!(matches!(&from_tree.tokens[5].value, BalancedToken::StringLiteral(l) if l.to_joined() == "b"));
}

#[test]
fn root_holds_declarations_and_errors() {
    let source = "int x; ) ] typedef int T; T y; }";
    let tree = parse_tree(source);
    let kinds: Vec<SyntaxKind> =
        tree.children(tree.root()).collect().into_iter().map(|n| tree.kind(n)).collect();
    assert!(!kinds.is_empty());
    for k in &kinds {
        assert!(*k == SyntaxKind::ExternalDeclaration || *k == SyntaxKind::Error, "{:?}", k);
    }
    assert!(kinds.contains(&SyntaxKind::Error));
    let (tree, map) = parse_tree_with_map(source);
    assert_eq!(print_lossless(&tree, map.source), source);
}

#[test]
fn trivia_only_source_round_trips() {
    let source = " /* c */ \n// line\n";
    let tree = parse_tree(source);
    assert_eq!(tree.kind(tree.root()), SyntaxKind::TranslationUnit);
    let kids = tree.children(tree.root()).collect();
    assert_eq!(kids.len(), 1);
    assert_eq!(tree.kind(kids[0]), SyntaxKind::Whitespace);
    assert_eq!(print_lossless(&tree, source), source);
    let seq = tree.to_token_sequence(tree.root(), source);
    assert!(seq.tokens.is_empty());
}

#[test]
fn visitor_hooks_by_kind() {
    assert_eq!(visit_hook(SyntaxKind::TranslationUnit), VisitHook::TranslationUnit);
    assert_eq!(visit_hook(SyntaxKind::Declaration), VisitHook::Declaration);
    assert_eq!(visit_hook(SyntaxKind::NormalDecl), VisitHook::Declaration);
    assert_eq!(visit_hook(SyntaxKind::TypedefDecl), VisitHook::Declaration);
    assert_eq!(visit_hook(SyntaxKind::IfStatement), VisitHook::IfStatement);
    assert_eq!(visit_hook(SyntaxKind::ArrayDeclaratorVLA), VisitHook::ArrayDeclaratorVla);
    assert_eq!(visit_hook(SyntaxKind::Ident), VisitHook::Ident);
    assert_eq!(visit_hook(SyntaxKind::Error), VisitHook::Error);
    assert_eq!(visit_hook(SyntaxKind::Whitespace), VisitHook::TokenDefault);
    assert_eq!(visit_hook(SyntaxKind::Semicolon), VisitHook::TokenDefault);
}

#[test]
fn listed_typedef_name_starts_a_declaration() {
    let tree = parse_tree_with_typedefs("T x;", &["T"]);
    let top = tree.children(tree.root()).collect();
    assert_eq!(top.len(), 1);
    assert_eq!(tree.kind(top[0]), SyntaxKind::ExternalDeclaration);
    let inner = tree.children(top[0]).collect();
    assert_eq!(tree.kind(inner[0]), SyntaxKind::Declaration);
    assert!(!all_kinds(&tree).iter().any(|k| *k == SyntaxKind::Error));
}
