//! The lexer: token kinds and boundaries, the values read from token texts,
//! and the contexts that line markers open.

use cgrammar::lexer::{lex, lex_bytes, RawToken};
use cgrammar::token::{
    BalancedToken, BalancedTokenSequence, Constant, EncodingPrefix, FloatingSuffix, IntegerConstant,
    IntegerSuffix, PredefinedConstant, Punctuator,
};
use cgrammar::value::{character_constant, escape_sequence, floating_suffix, integer_constant, quoted_string, string_literal};
use cgrammar::SyntaxKind;

fn chars(s: &str) -> Vec<char> {
    s.chars().collect()
}

fn tokens_of(src: &str) -> BalancedTokenSequence {
    lex(src, None).0
}

fn integer_of(src: &str) -> IntegerConstant {
    let seq = tokens_of(src);
    assert_eq!(seq.tokens.len(), 1, "one token expected in {src:?}");
    match &seq.tokens[0].value {
        BalancedToken::Constant(Constant::Integer(i)) => *i,
        other => panic!("not an integer constant: {other:?}"),
    }
}

fn kinds(src: &str) -> Vec<SyntaxKind> {
    lex_bytes(src.as_bytes()).iter().map(|t| t.kind).collect()
}

#[test]
fn raw_tokens_of_a_declaration() {
    let toks = lex_bytes(b"int x = 42;");
    let expected = vec![
        RawToken { kind: SyntaxKind::Ident, start: 0, len: 3 },
        RawToken { kind: SyntaxKind::Ident, start: 4, len: 1 },
        RawToken { kind: SyntaxKind::Assign, start: 6, len: 1 },
        RawToken { kind: SyntaxKind::IntegerConst, start: 8, len: 2 },
        RawToken { kind: SyntaxKind::Semicolon, start: 10, len: 1 },
    ];
    assert_eq!(toks, expected);
}

#[test]
fn punctuators_take_the_longest_spelling() {
    assert_eq!(kinds("a<<=b"), vec![SyntaxKind::Ident, SyntaxKind::LeftShiftAssign, SyntaxKind::Ident]);
    assert_eq!(kinds("f(...)"), vec![
        SyntaxKind::Ident,
        SyntaxKind::LeftParen,
        SyntaxKind::Ellipsis,
        SyntaxKind::RightParen
    ]);
    assert_eq!(kinds("p->q"), vec![SyntaxKind::Ident, SyntaxKind::Arrow, SyntaxKind::Ident]);
    assert_eq!(kinds("a::b ## c"), vec![
        SyntaxKind::Ident,
        SyntaxKind::Scope,
        SyntaxKind::Ident,
        SyntaxKind::HashHash,
        SyntaxKind::Ident
    ]);
}

#[test]
fn trivia_produces_no_tokens() {
    assert_eq!(kinds("  // line\n /* block */ \n#define X 1\n"), Vec::<SyntaxKind>::new());
    assert_eq!(kinds("x /* c */ y"), vec![SyntaxKind::Ident, SyntaxKind::Ident]);
    // a `#` that does not start a line is a punctuator
    assert_eq!(kinds("a # b"), vec![SyntaxKind::Ident, SyntaxKind::Hash, SyntaxKind::Ident]);
}

#[test]
fn constant_kinds() {
    assert_eq!(kinds("1.5f"), vec![SyntaxKind::FloatConst]);
    assert_eq!(kinds("0x1.8p3"), vec![SyntaxKind::FloatConst]);
    assert_eq!(kinds("1e10"), vec![SyntaxKind::FloatConst]);
    assert_eq!(kinds("0x1F"), vec![SyntaxKind::IntegerConst]);
    assert_eq!(kinds("'a'"), vec![SyntaxKind::CharConst]);
    assert_eq!(kinds("u8\"s\""), vec![SyntaxKind::StringLiteral]);
    assert_eq!(kinds("true nullptr truely"), vec![
        SyntaxKind::PredefinedConst,
        SyntaxKind::PredefinedConst,
        SyntaxKind::Ident
    ]);
    assert_eq!(kinds("`q`"), vec![SyntaxKind::QuotedString]);
    assert_eq!(kinds("@"), vec![SyntaxKind::Unknown]);
}

#[test]
fn non_ascii_identifiers() {
    let toks = lex_bytes("héllo wörld".as_bytes());
    assert_eq!(toks.len(), 2);
    assert_eq!(toks[0], RawToken { kind: SyntaxKind::Ident, start: 0, len: 6 });
    assert_eq!(toks[1], RawToken { kind: SyntaxKind::Ident, start: 7, len: 6 });
}

#[test]
fn lexed_declaration_values_and_spans() {
    let (seq, map) = lex("int x = 42;", None);
    assert_eq!(seq.tokens.len(), 5);
    assert!(matches!(&seq.tokens[0].value, BalancedToken::Identifier(id) if id.0 == "int"));
    assert!(matches!(&seq.tokens[1].value, BalancedToken::Identifier(id) if id.0 == "x"));
    assert!(matches!(&seq.tokens[2].value, BalancedToken::Punctuator(Punctuator::Assign)));
    assert!(matches!(
        &seq.tokens[3].value,
        BalancedToken::Constant(Constant::Integer(IntegerConstant { value: 42, suffix: None }))
    ));
    assert!(matches!(&seq.tokens[4].value, BalancedToken::Punctuator(Punctuator::Semicolon)));
    assert_eq!(seq.tokens[3].span.start(), 8);
    assert_eq!(seq.tokens[3].span.end(), 10);
    assert_eq!(seq.eoi.start(), 11);
    assert_eq!(seq.eoi.end(), 11);
    assert_eq!(seq.eoi.context().idx(), None);
    assert_eq!(map.contexts_len(), 0);
    assert_eq!(map.source, "int x = 42;");
}

#[test]
fn integer_values_in_every_radix() {
    assert_eq!(integer_of("0x1F"), IntegerConstant { value: 31, suffix: None });
    assert_eq!(integer_of("0b101"), IntegerConstant { value: 5, suffix: None });
    assert_eq!(integer_of("0o17"), IntegerConstant { value: 15, suffix: None });
    assert_eq!(integer_of("017"), IntegerConstant { value: 15, suffix: None });
    assert_eq!(integer_of("0"), IntegerConstant { value: 0, suffix: None });
    assert_eq!(integer_of("1'000'000"), IntegerConstant { value: 1_000_000, suffix: None });
    assert_eq!(integer_of("0xff'ff"), IntegerConstant { value: 0xffff, suffix: None });
}

#[test]
fn integer_suffixes() {
    assert_eq!(integer_of("42u").suffix, Some(IntegerSuffix::Unsigned));
    assert_eq!(integer_of("42L").suffix, Some(IntegerSuffix::Long));
    assert_eq!(integer_of("42ll").suffix, Some(IntegerSuffix::LongLong));
    assert_eq!(integer_of("42ul").suffix, Some(IntegerSuffix::UnsignedLong));
    assert_eq!(integer_of("42LU").suffix, Some(IntegerSuffix::UnsignedLong));
    assert_eq!(integer_of("42ull").suffix, Some(IntegerSuffix::UnsignedLongLong));
    assert_eq!(integer_of("42LLU").suffix, Some(IntegerSuffix::UnsignedLongLong));
    assert_eq!(integer_of("42wb").suffix, Some(IntegerSuffix::BitPrecise));
    assert_eq!(integer_of("42uwb").suffix, Some(IntegerSuffix::UnsignedBitPrecise));
    assert_eq!(integer_of("42WBU").suffix, Some(IntegerSuffix::UnsignedBitPrecise));
    assert_eq!(integer_of("42ull").value, 42);
}

#[test]
fn integer_overflow_saturates() {
    assert_eq!(integer_of("170141183460469231731687303715884105727").value, i128::MAX);
    assert_eq!(integer_of("170141183460469231731687303715884105728").value, i128::MAX);
    assert_eq!(integer_of("0xffffffffffffffffffffffffffffffffffff").value, i128::MAX);
    assert_eq!(integer_constant(&chars("99999999999999999999999999999999999999999")).value, i128::MAX);
}

#[test]
fn floating_suffixes() {
    assert_eq!(floating_suffix(&chars("1.5f")), Some(FloatingSuffix::F));
    assert_eq!(floating_suffix(&chars("1.5L")), Some(FloatingSuffix::L));
    assert_eq!(floating_suffix(&chars("2.0df")), Some(FloatingSuffix::DF));
    assert_eq!(floating_suffix(&chars("2.0DD")), Some(FloatingSuffix::DD));
    assert_eq!(floating_suffix(&chars("2.0dl")), Some(FloatingSuffix::DL));
    assert_eq!(floating_suffix(&chars("1e10")), None);
    let seq = tokens_of("0x1.8p3L");
    assert!(matches!(
        &seq.tokens[0].value,
        BalancedToken::Constant(Constant::Floating(f)) if f.suffix == Some(FloatingSuffix::L)
    ));
}

#[test]
fn escape_sequences() {
    let cs = chars("\\n\\t\\x41\\101\\u00e9\\U0001F600\\q\\");
    assert_eq!(escape_sequence(&cs, 1), (Some('\n'), 2));
    assert_eq!(escape_sequence(&cs, 3), (Some('\t'), 4));
    assert_eq!(escape_sequence(&cs, 5), (Some('A'), 8));
    assert_eq!(escape_sequence(&cs, 9), (Some('A'), 12));
    assert_eq!(escape_sequence(&cs, 13), (Some('é'), 18));
    assert_eq!(escape_sequence(&cs, 19), (Some('😀'), 28));
    assert_eq!(escape_sequence(&cs, 29), (Some('q'), 30));
    // a backslash at the end stands for nothing
    assert_eq!(escape_sequence(&cs, 31), (None, 31));
    // a surrogate or too large a code point stands for nothing
    assert_eq!(escape_sequence(&chars("\\ud800"), 1), (None, 6));
    assert_eq!(escape_sequence(&chars("\\x110000"), 1), (None, 8));
    assert_eq!(escape_sequence(&chars("\\x1234567890"), 1), (None, 12));
    // `\x` without digits, `\u` with too few
    assert_eq!(escape_sequence(&chars("\\xg"), 1), (None, 2));
    assert_eq!(escape_sequence(&chars("\\u12g4"), 1), (None, 2));
    // octal escapes take at most three digits
    assert_eq!(escape_sequence(&chars("\\1234"), 1), (Some('S'), 4));
}

#[test]
fn character_constants() {
    let c = character_constant(&chars("'a'"));
    assert_eq!(c.encoding_prefix, None);
    assert_eq!(c.value, "a");
    let c = character_constant(&chars("u8'\\n'"));
    assert_eq!(c.encoding_prefix, Some(EncodingPrefix::U8));
    assert_eq!(c.value, "\n");
    let c = character_constant(&chars("L'ab'"));
    assert_eq!(c.encoding_prefix, Some(EncodingPrefix::L));
    assert_eq!(c.value, "ab");
    let c = character_constant(&chars("U'\\x41"));
    assert_eq!(c.encoding_prefix, Some(EncodingPrefix::CapitalU));
    assert_eq!(c.value, "A");
    let c = character_constant(&chars("u'é'"));
    assert_eq!(c.encoding_prefix, Some(EncodingPrefix::U));
    assert_eq!(c.value, "é");
}

#[test]
fn string_literals_and_quoted_strings() {
    let s = string_literal(&chars("\"a\\tb\\\"c\""));
    assert_eq!(s.encoding_prefix, None);
    assert_eq!(s.value, "a\tb\"c");
    let s = string_literal(&chars("u8\"x\""));
    assert_eq!(s.encoding_prefix, Some(EncodingPrefix::U8));
    assert_eq!(s.value, "x");
    assert_eq!(quoted_string(&chars("`a b`")), "a b");
    assert_eq!(quoted_string(&chars("`open")), "open");
}

#[test]
fn adjacent_string_literals_make_one_token() {
    let seq = tokens_of("\"ab\" /* c */ L\"cd\"\n\"e\" ;");
    assert_eq!(seq.tokens.len(), 2);
    match &seq.tokens[0].value {
        BalancedToken::StringLiteral(sl) => {
            assert_eq!(sl.0.len(), 3);
            assert_eq!(sl.0[0].value, "ab");
            assert_eq!(sl.0[1].encoding_prefix, Some(EncodingPrefix::L));
            assert_eq!(sl.0[1].value, "cd");
            assert_eq!(sl.0[2].value, "e");
            assert_eq!(sl.to_joined(), "abcde");
        },
        other => panic!("not a string literal: {other:?}"),
    }
    assert_eq!(seq.tokens[0].span.start(), 0);
    assert_eq!(seq.tokens[0].span.end(), 22);
}

#[test]
fn predefined_quoted_and_unknown_tokens() {
    let seq = tokens_of("true false nullptr `q` @");
    assert!(matches!(&seq.tokens[0].value, BalancedToken::Constant(Constant::Predefined(PredefinedConstant::True))));
    assert!(matches!(&seq.tokens[1].value, BalancedToken::Constant(Constant::Predefined(PredefinedConstant::False))));
    assert!(matches!(
        &seq.tokens[2].value,
        BalancedToken::Constant(Constant::Predefined(PredefinedConstant::Nullptr))
    ));
    assert!(matches!(&seq.tokens[3].value, BalancedToken::QuotedString(q) if q == "q"));
    assert!(matches!(&seq.tokens[4].value, BalancedToken::Unknown));
}

#[test]
fn file_name_is_the_first_context() {
    let (seq, map) = lex("x", Some("main.c"));
    assert_eq!(map.contexts_len(), 1);
    let ctx = seq.tokens[0].span.context();
    assert_eq!(ctx.idx(), Some(0));
    let c = map.get(ctx).unwrap();
    assert_eq!(c.filename, "main.c");
    assert_eq!(c.line_offset, 0);
    assert_eq!(seq.eoi.context().idx(), Some(0));
}

#[test]
fn line_markers_open_contexts() {
    let src = "int a;\n# 10 \"foo.c\"\nint b;\n";
    let (seq, map) = lex(src, None);
    assert_eq!(map.contexts_len(), 1);
    assert_eq!(seq.tokens[0].span.context().idx(), None);
    let ctx = seq.tokens[3].span.context();
    assert_eq!(ctx.idx(), Some(0));
    let c = map.get(ctx).unwrap();
    assert_eq!(c.filename, "foo.c");
    // the marker is followed by line 3, which it calls line 10
    assert_eq!(c.line_offset, 3 - 10);
    assert_eq!(seq.eoi.context().idx(), Some(0));

    let (seq, map) = lex(src, Some("main.c"));
    assert_eq!(map.contexts_len(), 2);
    assert_eq!(seq.tokens[0].span.context().idx(), Some(0));
    assert_eq!(seq.tokens[3].span.context().idx(), Some(1));
    assert_eq!(map.get(seq.tokens[3].span.context()).unwrap().filename, "foo.c");
}

#[test]
fn other_directives_open_no_context() {
    let (seq, map) = lex("#include <stdio.h>\n#pragma once\n#line 5 \"x.c\"\nint x;", None);
    assert_eq!(map.contexts_len(), 0);
    assert_eq!(seq.tokens.len(), 3);
    let (_, map) = lex("# -2 x\n", None);
    assert_eq!(map.contexts_len(), 1);
    assert_eq!(map.get(cgrammar::span::ContextId::from_index(0)).unwrap().line_offset, 2 - (-2));
    let (_, map) = lex("# 99999999999 x\n# 7\n#\n", None);
    assert_eq!(map.contexts_len(), 0);
}

#[test]
fn unicode_identifiers() {
    assert_eq!(kinds("é = 1;"), vec![SyntaxKind::Ident, SyntaxKind::Assign, SyntaxKind::IntegerConst, SyntaxKind::Semicolon]);
    let raw = lex_bytes("日本語 x_1".as_bytes());
    assert_eq!(raw.len(), 2);
    assert_eq!((raw[0].start, raw[0].len), (0, 9));
    assert_eq!((raw[1].start, raw[1].len), (10, 3));
    let seq = tokens_of("naïve");
    assert_eq!(seq.tokens.len(), 1);
    assert!(matches!(&seq.tokens[0].value, BalancedToken::Identifier(id) if id.0 == "naïve"));
}

#[test]
fn characters_outside_identifiers_are_unknown_tokens() {
    // a currency sign is no identifier character: it stands alone
    assert_eq!(kinds("x€y"), vec![SyntaxKind::Ident, SyntaxKind::Unknown, SyntaxKind::Ident]);
    let raw = lex_bytes("€".as_bytes());
    assert_eq!(raw.len(), 1);
    assert_eq!((raw[0].start, raw[0].len), (0, 3));
    assert_eq!(kinds("@"), vec![SyntaxKind::Unknown]);
}

#[test]
fn unicode_whitespace_separates_tokens() {
    // no-break space, em space and ideographic space are whitespace
    assert_eq!(kinds("int\u{00A0}x\u{2003}=\u{3000}1;"), vec![
        SyntaxKind::Ident,
        SyntaxKind::Ident,
        SyntaxKind::Assign,
        SyntaxKind::IntegerConst,
        SyntaxKind::Semicolon,
    ]);
    // whitespace before a line marker keeps it at the start of its line
    let (seq, map) = lex("\u{00A0}# 7 \"m.c\"\nint y;", None);
    assert_eq!(seq.tokens.len(), 3);
    assert_eq!(map.contexts_len(), 1);
    assert_eq!(seq.tokens[0].span.context().idx(), Some(0));
}

#[test]
fn line_marker_words_split_at_unicode_whitespace() {
    let (seq, map) = lex("# 3\u{2002}\"w.c\"\u{00A0}1\nint z;", None);
    assert_eq!(map.contexts_len(), 1);
    let c = map.get(seq.tokens[0].span.context()).unwrap();
    assert_eq!(c.filename, "w.c");
    assert_eq!(c.line_offset, 2 - 3);
}
