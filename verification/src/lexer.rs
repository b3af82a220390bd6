//! Lexer for C source code, producing a flat sequence of tokens.
//!
//! The lexer works on the UTF-8 bytes of the source. Whitespace, comments
//! and line directives are trivia: they produce no token, and the tokens
//! record where they start, so that the gaps between them can be recovered
//! losslessly. Identifiers are made of characters with the Unicode
//! `XID_Start` and `XID_Continue` properties (as chumsky classifies them),
//! whitespace is every character with the `White_Space` property, and any
//! other character outside literals and comments is a token of its own.
//!
//! The lexical grammar is written out as spec functions over the byte
//! sequence ([`lex_spec`]); the executable scanners compute exactly these.

#![allow(missing_docs)]

use chumsky::text::Char;
use vstd::prelude::*;
use vstd::string::{StringExecFns, StringSliceAdditionalSpecFns};

use crate::span::{ContextId, ContextMapping, SourceContext, Span, Spanned};
use crate::syntax::SyntaxKind;
use crate::token::{carries, BalancedToken, BalancedTokenSequence, StringLiteral, StringLiterals};
use crate::value::{char_of, chars_of, read_token, scalar_char, string_literal_of, token_reads};

verus! {

// =============================================================================
// Byte classes
// =============================================================================

/// The byte at `i`, or -1 outside the sequence.
pub open spec fn byte_at(b: Seq<u8>, i: int) -> int {
    if 0 <= i < b.len() {
        b[i] as int
    } else {
        -1
    }
}

/// ASCII whitespace: space, tab, line feed, vertical tab, form feed, carriage return.
pub open spec fn is_space(c: int) -> bool {
    c == 32 || (9 <= c <= 13)
}

pub open spec fn is_digit(c: int) -> bool {
    48 <= c <= 57
}

/// The digit classes of numeric constants.
#[derive(Debug, Clone, Copy, PartialEq, Eq, Structural)]
pub enum Radix {
    Bin,
    Oct,
    Dec,
    Hex,
}

pub open spec fn in_radix(c: int, r: Radix) -> bool {
    match r {
        Radix::Bin => c == 48 || c == 49,
        Radix::Oct => 48 <= c <= 55,
        Radix::Dec => is_digit(c),
        Radix::Hex => is_digit(c) || (65 <= c <= 70) || (97 <= c <= 102),
    }
}

/// ASCII bytes that may start an identifier: letters and `_`.
pub open spec fn is_ident_start(c: int) -> bool {
    (65 <= c <= 90) || (97 <= c <= 122) || c == 95
}

/// ASCII bytes that may continue an identifier: letters, digits and `_`.
pub open spec fn is_ident_continue(c: int) -> bool {
    is_ident_start(c) || is_digit(c)
}

/// A continuation byte of a multi-byte UTF-8 character.
pub open spec fn is_cont(c: int) -> bool {
    128 <= c < 192
}

// =============================================================================
// Non-ASCII characters
// =============================================================================

/// The first position at or after `i` that holds no continuation byte.
pub open spec fn cont_end(b: Seq<u8>, i: int) -> int
    decreases b.len() - i,
{
    if 0 <= i < b.len() && is_cont(b[i] as int) {
        cont_end(b, i + 1)
    } else {
        i
    }
}

/// End of the character that starts at `i`: past the continuation bytes
/// that follow its first byte.
pub open spec fn char_end(b: Seq<u8>, i: int) -> int {
    cont_end(b, i + 1)
}

/// The code point that the bytes from `i` to [`char_end`] encode, or -1
/// when they are no UTF-8 encoding of a multi-byte character.
pub open spec fn code_at(b: Seq<u8>, i: int) -> int {
    let e = char_end(b, i);
    if !(0 <= i < b.len()) {
        -1
    } else if e == i + 2 && vstd::utf8::is_leading_byte_width_2(b[i]) {
        vstd::utf8::codepoint_width_2(b[i], b[i + 1]) as int
    } else if e == i + 3 && vstd::utf8::is_leading_byte_width_3(b[i]) {
        vstd::utf8::codepoint_width_3(b[i], b[i + 1], b[i + 2]) as int
    } else if e == i + 4 && vstd::utf8::is_leading_byte_width_4(b[i]) {
        vstd::utf8::codepoint_width_4(b[i], b[i + 1], b[i + 2], b[i + 3]) as int
    } else {
        -1
    }
}

/// Code points beyond ASCII with the Unicode `White_Space` property.
pub open spec fn is_wide_space(v: int) -> bool {
    ||| v == 0x85
    ||| v == 0xA0
    ||| v == 0x1680
    ||| (0x2000 <= v <= 0x200A)
    ||| v == 0x2028
    ||| v == 0x2029
    ||| v == 0x202F
    ||| v == 0x205F
    ||| v == 0x3000
}

/// What chumsky's `Char::is_ident_start` gives for `c`.
pub uninterp spec fn xid_start(c: char) -> bool;

/// What chumsky's `Char::is_ident_continue` gives for `c`.
pub uninterp spec fn xid_continue(c: char) -> bool;

/// chumsky's `Char::is_ident_start` for `char`: whether `c` has the Unicode
/// `XID_Start` property (by the tables of `unicode-ident`) or is `_`. The
/// contract names the result and claims nothing more of it.
#[verifier::external_body]
fn is_xid_start(c: char) -> (r: bool)
    ensures
        r == xid_start(c),
{
    c.is_ident_start()
}

/// chumsky's `Char::is_ident_continue` for `char`: whether `c` has the
/// Unicode `XID_Continue` property (by the tables of `unicode-ident`). The
/// contract names the result and claims nothing more of it.
#[verifier::external_body]
fn is_xid_continue(c: char) -> (r: bool)
    ensures
        r == xid_continue(c),
{
    c.is_ident_continue()
}

/// A non-ASCII character that may start an identifier starts at `i`.
pub open spec fn wide_ident_start(b: Seq<u8>, i: int) -> bool {
    byte_at(b, i) >= 128 && (scalar_char(code_at(b, i)) matches Some(c) && xid_start(c))
}

/// A non-ASCII character that may continue an identifier starts at `i`.
pub open spec fn wide_ident_continue(b: Seq<u8>, i: int) -> bool {
    byte_at(b, i) >= 128 && (scalar_char(code_at(b, i)) matches Some(c) && xid_continue(c))
}

/// A non-ASCII whitespace character starts at `i`.
pub open spec fn wide_space_at(b: Seq<u8>, i: int) -> bool {
    byte_at(b, i) >= 128 && is_wide_space(code_at(b, i))
}

/// The first byte of the character that holds the byte at `j`: back over
/// continuation bytes.
pub open spec fn cont_start(b: Seq<u8>, j: int) -> int
    decreases j,
{
    if 0 < j < b.len() && is_cont(b[j] as int) {
        cont_start(b, j - 1)
    } else {
        j
    }
}

// =============================================================================
// Trivia
// =============================================================================

/// End of a `//` comment whose text continues at `i`: the next line feed
/// (not included) or the end of the input.
pub open spec fn line_comment_end(b: Seq<u8>, i: int) -> int
    decreases b.len() - i,
{
    if i < 0 || i >= b.len() {
        b.len() as int
    } else if b[i] == 10 {
        i
    } else {
        line_comment_end(b, i + 1)
    }
}

/// End of a `/* */` comment whose text continues at `i`: just after the
/// first `*/`, or the end of the input.
pub open spec fn block_comment_end(b: Seq<u8>, i: int) -> int
    decreases b.len() - i,
{
    if i < 0 || i >= b.len() {
        b.len() as int
    } else if b[i] == 42 && byte_at(b, i + 1) == 47 {
        i + 2
    } else {
        block_comment_end(b, i + 1)
    }
}

/// End of a line directive whose text continues at `i`: just after the next
/// line feed, or the end of the input.
pub open spec fn directive_end(b: Seq<u8>, i: int) -> int
    decreases b.len() - i,
{
    if i < 0 || i >= b.len() {
        b.len() as int
    } else if b[i] == 10 {
        i + 1
    } else {
        directive_end(b, i + 1)
    }
}

/// Only whitespace stands between the start of the line and position `p`.
pub open spec fn at_line_begin(b: Seq<u8>, p: int) -> bool
    decreases p,
{
    let q = cont_start(b, p - 1);
    if p <= 0 || p > b.len() {
        true
    } else if b[p - 1] == 10 {
        true
    } else if is_space(b[p - 1] as int) {
        at_line_begin(b, p - 1)
    } else if b[p - 1] >= 128 && 0 <= q < p && char_end(b, q) == p && wide_space_at(b, q) {
        at_line_begin(b, q)
    } else {
        false
    }
}

/// End of the trivia item at `i` (a whitespace byte, a comment, or a line
/// directive: a `#` with only whitespace before it on its line), or `i`
/// itself when none starts there.
pub open spec fn trivia_step(b: Seq<u8>, i: int) -> int {
    let c = byte_at(b, i);
    if is_space(c) {
        i + 1
    } else if c == 47 && byte_at(b, i + 1) == 47 {
        line_comment_end(b, i + 2)
    } else if c == 47 && byte_at(b, i + 1) == 42 {
        block_comment_end(b, i + 2)
    } else if c == 35 && at_line_begin(b, i) {
        directive_end(b, i + 1)
    } else if wide_space_at(b, i) {
        char_end(b, i)
    } else {
        i
    }
}

/// The first position at or after `i` where no trivia starts.
pub open spec fn skip_trivia(b: Seq<u8>, i: int) -> int
    decreases b.len() - i,
{
    let j = trivia_step(b, i);
    if i < j <= b.len() {
        skip_trivia(b, j)
    } else {
        i
    }
}

// =============================================================================
// Numbers
// =============================================================================

/// Digits of radix `r`, each optionally preceded by one `'` separator,
/// starting at `i`; returns where the run ends.
pub open spec fn digits_tail(b: Seq<u8>, i: int, r: Radix) -> int
    decreases b.len() - i,
{
    if i < 0 || i >= b.len() {
        i
    } else if in_radix(b[i] as int, r) {
        digits_tail(b, i + 1, r)
    } else if b[i] == 39 && in_radix(byte_at(b, i + 1), r) {
        digits_tail(b, i + 2, r)
    } else {
        i
    }
}

/// A digit sequence `d('?d)*` at `i`: its end, or `i` when there is none.
pub open spec fn digits_end(b: Seq<u8>, i: int, r: Radix) -> int {
    if in_radix(byte_at(b, i), r) {
        digits_tail(b, i + 1, r)
    } else {
        i
    }
}

/// A decimal exponent `[eE][+-]?digits` at `i`: its end, or `i`.
pub open spec fn exponent_end(b: Seq<u8>, i: int) -> int {
    let c = byte_at(b, i);
    let j = if byte_at(b, i + 1) == 43 || byte_at(b, i + 1) == 45 {
        i + 2
    } else {
        i + 1
    };
    if (c == 101 || c == 69) && digits_end(b, j, Radix::Dec) > j {
        digits_end(b, j, Radix::Dec)
    } else {
        i
    }
}

/// A binary exponent `[pP][+-]?digits` at `i`: its end, or `i`.
pub open spec fn binary_exponent_end(b: Seq<u8>, i: int) -> int {
    let c = byte_at(b, i);
    let j = if byte_at(b, i + 1) == 43 || byte_at(b, i + 1) == 45 {
        i + 2
    } else {
        i + 1
    };
    if (c == 112 || c == 80) && digits_end(b, j, Radix::Dec) > j {
        digits_end(b, j, Radix::Dec)
    } else {
        i
    }
}

/// A decimal floating constant without suffix at `i`: its end, or `i`.
pub open spec fn decimal_float_end(b: Seq<u8>, i: int) -> int {
    let d = digits_end(b, i, Radix::Dec);
    let g = digits_end(b, d + 1, Radix::Dec);
    if byte_at(b, d) == 46 && g > d + 1 {
        exponent_end(b, g)
    } else if d > i && byte_at(b, d) == 46 {
        exponent_end(b, d + 1)
    } else if d > i && exponent_end(b, d) > d {
        exponent_end(b, d)
    } else {
        i
    }
}

/// A hexadecimal floating constant without suffix at `i`: its end, or `i`.
pub open spec fn hex_float_end(b: Seq<u8>, i: int) -> int {
    let s = i + 2;
    let h = digits_end(b, s, Radix::Hex);
    let g = digits_end(b, h + 1, Radix::Hex);
    if !(byte_at(b, i) == 48 && (byte_at(b, i + 1) == 120 || byte_at(b, i + 1) == 88)) {
        i
    } else if byte_at(b, h) == 46 && g > h + 1 && binary_exponent_end(b, g) > g {
        binary_exponent_end(b, g)
    } else if h > s && byte_at(b, h) == 46 && binary_exponent_end(b, h + 1) > h + 1 {
        binary_exponent_end(b, h + 1)
    } else if h > s && binary_exponent_end(b, h) > h {
        binary_exponent_end(b, h)
    } else {
        i
    }
}

/// A floating suffix (`df`, `dd`, `dl`, `f`, `l`, either case) at `i`: its end, or `i`.
pub open spec fn float_suffix_end(b: Seq<u8>, i: int) -> int {
    let c0 = byte_at(b, i);
    let c1 = byte_at(b, i + 1);
    if (c0 == 100 && (c1 == 102 || c1 == 100 || c1 == 108)) || (c0 == 68 && (c1 == 70 || c1 == 68
        || c1 == 76)) {
        i + 2
    } else if c0 == 102 || c0 == 70 || c0 == 108 || c0 == 76 {
        i + 1
    } else {
        i
    }
}

/// A floating constant with its optional suffix at `i`: its end, or `i`.
pub open spec fn float_end(b: Seq<u8>, i: int) -> int {
    let m = if hex_float_end(b, i) > i {
        hex_float_end(b, i)
    } else {
        decimal_float_end(b, i)
    };
    if m > i {
        float_suffix_end(b, m)
    } else {
        i
    }
}

pub open spec fn is_u(c: int) -> bool {
    c == 117 || c == 85
}

pub open spec fn is_l(c: int) -> bool {
    c == 108 || c == 76
}

/// `ll` or `LL` at `i`.
pub open spec fn ll_at(b: Seq<u8>, i: int) -> bool {
    (byte_at(b, i) == 108 && byte_at(b, i + 1) == 108) || (byte_at(b, i) == 76 && byte_at(b, i + 1)
        == 76)
}

/// `wb` or `WB` at `i`.
pub open spec fn wb_at(b: Seq<u8>, i: int) -> bool {
    (byte_at(b, i) == 119 && byte_at(b, i + 1) == 98) || (byte_at(b, i) == 87 && byte_at(b, i + 1)
        == 66)
}

/// An integer suffix at `i`: its end, or `i`.
pub open spec fn int_suffix_end(b: Seq<u8>, i: int) -> int {
    let c0 = byte_at(b, i);
    let c1 = byte_at(b, i + 1);
    let c2 = byte_at(b, i + 2);
    if (is_u(c0) && ll_at(b, i + 1)) || (ll_at(b, i) && is_u(c2)) {
        i + 3
    } else if (is_u(c0) && is_l(c1)) || (is_l(c0) && is_u(c1)) {
        i + 2
    } else if (is_u(c0) && wb_at(b, i + 1)) || (wb_at(b, i) && is_u(c2)) {
        i + 3
    } else if is_u(c0) {
        i + 1
    } else if ll_at(b, i) {
        i + 2
    } else if is_l(c0) {
        i + 1
    } else if wb_at(b, i) {
        i + 2
    } else {
        i
    }
}

/// An integer constant (hexadecimal, binary, octal or decimal) with its
/// optional suffix at `i`: its end, or `i`.
pub open spec fn int_end(b: Seq<u8>, i: int) -> int {
    let c0 = byte_at(b, i);
    let c1 = byte_at(b, i + 1);
    let m = if c0 == 48 && (c1 == 120 || c1 == 88) && digits_end(b, i + 2, Radix::Hex) > i + 2 {
        digits_end(b, i + 2, Radix::Hex)
    } else if c0 == 48 && (c1 == 98 || c1 == 66) && digits_end(b, i + 2, Radix::Bin) > i + 2 {
        digits_end(b, i + 2, Radix::Bin)
    } else if c0 == 48 && (c1 == 111 || c1 == 79) && digits_end(b, i + 2, Radix::Oct) > i + 2 {
        digits_end(b, i + 2, Radix::Oct)
    } else if c0 == 48 {
        digits_tail(b, i + 1, Radix::Oct)
    } else if 49 <= c0 <= 57 {
        digits_tail(b, i + 1, Radix::Dec)
    } else {
        i
    };
    if m > i {
        int_suffix_end(b, m)
    } else {
        i
    }
}

// =============================================================================
// Identifiers, literals and punctuators
// =============================================================================

/// The end of the character at `i` when it may continue an identifier, or
/// `i`.
pub open spec fn ident_step(b: Seq<u8>, i: int) -> int {
    if is_ident_continue(byte_at(b, i)) {
        i + 1
    } else if wide_ident_continue(b, i) {
        char_end(b, i)
    } else {
        i
    }
}

/// The characters that continue an identifier from `i` on: where they end.
pub open spec fn ident_tail(b: Seq<u8>, i: int) -> int
    decreases b.len() - i,
{
    let j = ident_step(b, i);
    if 0 <= i < j <= b.len() {
        ident_tail(b, j)
    } else {
        i
    }
}

/// An identifier at `i` (a character that may start one, then characters
/// that may continue it): its end, or `i`.
pub open spec fn ident_end(b: Seq<u8>, i: int) -> int {
    if is_ident_start(byte_at(b, i)) {
        ident_tail(b, i + 1)
    } else if wide_ident_start(b, i) {
        ident_tail(b, char_end(b, i))
    } else {
        i
    }
}

/// `true`, `false` or `nullptr` as a whole identifier at `i`: its end, or `i`.
pub open spec fn predefined_end(b: Seq<u8>, i: int) -> int {
    let e = ident_end(b, i);
    let t = b.subrange(i, e);
    if e > i && (t == seq![116u8, 114u8, 117u8, 101u8] || t == seq![102u8, 97u8, 108u8, 115u8, 101u8]
        || t == seq![110u8, 117u8, 108u8, 108u8, 112u8, 116u8, 114u8]) {
        e
    } else {
        i
    }
}

/// Position of the opening quote `q` of a literal at `i`, after an optional
/// encoding prefix (`u8`, `u`, `U`, `L`); -1 when none starts at `i`.
pub open spec fn literal_quote(b: Seq<u8>, i: int, q: int) -> int {
    let c0 = byte_at(b, i);
    let c1 = byte_at(b, i + 1);
    if c0 == 117 && c1 == 56 {
        if byte_at(b, i + 2) == q {
            i + 2
        } else {
            -1
        }
    } else if c0 == 117 || c0 == 85 || c0 == 76 {
        if c1 == q {
            i + 1
        } else {
            -1
        }
    } else if c0 == q {
        i
    } else {
        -1
    }
}

/// End of the body of a string literal or character constant that continues
/// at `i` and is closed by `q`: just after the closing quote; or at a line
/// feed or the end of the input when it is left open. A backslash takes the
/// byte after it along.
pub open spec fn literal_body_end(b: Seq<u8>, i: int, q: int) -> int
    decreases b.len() - i,
{
    if i < 0 || i >= b.len() {
        b.len() as int
    } else if b[i] as int == q {
        i + 1
    } else if b[i] == 92 {
        if i + 1 >= b.len() {
            i + 1
        } else {
            literal_body_end(b, i + 2, q)
        }
    } else if b[i] == 10 {
        i
    } else {
        literal_body_end(b, i + 1, q)
    }
}

/// End of a backtick-quoted string whose text continues at `i`: just after
/// the closing backtick, or the end of the input.
pub open spec fn backtick_end(b: Seq<u8>, i: int) -> int
    decreases b.len() - i,
{
    if i < 0 || i >= b.len() {
        b.len() as int
    } else if b[i] == 96 {
        i + 1
    } else {
        backtick_end(b, i + 1)
    }
}

/// The punctuator at `i` (longest spelling first) and its length, or
/// `Unknown` with length 0.
pub open spec fn punct_at(b: Seq<u8>, i: int) -> (SyntaxKind, int) {
    let c0 = byte_at(b, i);
    let c1 = byte_at(b, i + 1);
    let c2 = byte_at(b, i + 2);
    if c0 == 60 && c1 == 60 && c2 == 61 {
        (SyntaxKind::LeftShiftAssign, 3)
    } else if c0 == 62 && c1 == 62 && c2 == 61 {
        (SyntaxKind::RightShiftAssign, 3)
    } else if c0 == 46 && c1 == 46 && c2 == 46 {
        (SyntaxKind::Ellipsis, 3)
    } else if c0 == 42 && c1 == 61 {
        (SyntaxKind::MulAssign, 2)
    } else if c0 == 47 && c1 == 61 {
        (SyntaxKind::DivAssign, 2)
    } else if c0 == 37 && c1 == 61 {
        (SyntaxKind::ModAssign, 2)
    } else if c0 == 43 && c1 == 61 {
        (SyntaxKind::AddAssign, 2)
    } else if c0 == 45 && c1 == 61 {
        (SyntaxKind::SubAssign, 2)
    } else if c0 == 38 && c1 == 61 {
        (SyntaxKind::AndAssign, 2)
    } else if c0 == 94 && c1 == 61 {
        (SyntaxKind::XorAssign, 2)
    } else if c0 == 124 && c1 == 61 {
        (SyntaxKind::OrAssign, 2)
    } else if c0 == 35 && c1 == 35 {
        (SyntaxKind::HashHash, 2)
    } else if c0 == 43 && c1 == 43 {
        (SyntaxKind::Increment, 2)
    } else if c0 == 45 && c1 == 45 {
        (SyntaxKind::Decrement, 2)
    } else if c0 == 60 && c1 == 60 {
        (SyntaxKind::LeftShift, 2)
    } else if c0 == 62 && c1 == 62 {
        (SyntaxKind::RightShift, 2)
    } else if c0 == 60 && c1 == 61 {
        (SyntaxKind::LessEqual, 2)
    } else if c0 == 62 && c1 == 61 {
        (SyntaxKind::GreaterEqual, 2)
    } else if c0 == 61 && c1 == 61 {
        (SyntaxKind::Equal, 2)
    } else if c0 == 33 && c1 == 61 {
        (SyntaxKind::NotEqual, 2)
    } else if c0 == 38 && c1 == 38 {
        (SyntaxKind::LogicalAnd, 2)
    } else if c0 == 124 && c1 == 124 {
        (SyntaxKind::LogicalOr, 2)
    } else if c0 == 45 && c1 == 62 {
        (SyntaxKind::Arrow, 2)
    } else if c0 == 58 && c1 == 58 {
        (SyntaxKind::Scope, 2)
    } else if c0 == 46 {
        (SyntaxKind::Dot, 1)
    } else if c0 == 38 {
        (SyntaxKind::Ampersand, 1)
    } else if c0 == 42 {
        (SyntaxKind::Star, 1)
    } else if c0 == 43 {
        (SyntaxKind::Plus, 1)
    } else if c0 == 45 {
        (SyntaxKind::Minus, 1)
    } else if c0 == 126 {
        (SyntaxKind::Tilde, 1)
    } else if c0 == 33 {
        (SyntaxKind::Bang, 1)
    } else if c0 == 47 {
        (SyntaxKind::Slash, 1)
    } else if c0 == 37 {
        (SyntaxKind::Percent, 1)
    } else if c0 == 60 {
        (SyntaxKind::Less, 1)
    } else if c0 == 62 {
        (SyntaxKind::Greater, 1)
    } else if c0 == 94 {
        (SyntaxKind::Caret, 1)
    } else if c0 == 124 {
        (SyntaxKind::Pipe, 1)
    } else if c0 == 63 {
        (SyntaxKind::Question, 1)
    } else if c0 == 58 {
        (SyntaxKind::Colon, 1)
    } else if c0 == 59 {
        (SyntaxKind::Semicolon, 1)
    } else if c0 == 61 {
        (SyntaxKind::Assign, 1)
    } else if c0 == 44 {
        (SyntaxKind::Comma, 1)
    } else if c0 == 35 {
        (SyntaxKind::Hash, 1)
    } else {
        (SyntaxKind::Unknown, 0)
    }}

/// A token that starts with an ASCII byte that is no letter, digit, `_`,
/// quote or backtick (and, for a point, is not followed by a digit) is
/// scanned as the punctuator there, when one is spelled.
pub proof fn lemma_scan_punct(b: Seq<u8>)
    requires
        b.len() >= 1,
        b[0] < 128,
        !is_ident_start(b[0] as int),
        !is_digit(b[0] as int),
        b[0] != 34 && b[0] != 39 && b[0] != 96,
        b[0] == 46 ==> b.len() == 1 || !is_digit(b[1] as int),
        punct_at(b, 0).1 > 0,
    ensures
        scan_token(b, 0) == (punct_at(b, 0).0, punct_at(b, 0).1),
{
    assert(literal_quote(b, 0, 34) < 0);
    assert(literal_quote(b, 0, 39) < 0);
    assert(ident_end(b, 0) == 0);
    assert(predefined_end(b, 0) == 0);
    assert(hex_float_end(b, 0) == 0);
    assert(digits_end(b, 0, Radix::Dec) == 0);
    assert(decimal_float_end(b, 0) == 0);
    assert(float_end(b, 0) == 0);
    assert(int_end(b, 0) == 0);
}

/// The bytes of a punctuator that [`punct_at`] reads (every punctuator but
/// the brackets); empty for other kinds.
pub open spec fn punct_spelling(k: SyntaxKind) -> Seq<u8> {
    match k {
        SyntaxKind::LeftShiftAssign => seq![60u8, 60u8, 61u8],
        SyntaxKind::RightShiftAssign => seq![62u8, 62u8, 61u8],
        SyntaxKind::Ellipsis => seq![46u8, 46u8, 46u8],
        SyntaxKind::MulAssign => seq![42u8, 61u8],
        SyntaxKind::DivAssign => seq![47u8, 61u8],
        SyntaxKind::ModAssign => seq![37u8, 61u8],
        SyntaxKind::AddAssign => seq![43u8, 61u8],
        SyntaxKind::SubAssign => seq![45u8, 61u8],
        SyntaxKind::AndAssign => seq![38u8, 61u8],
        SyntaxKind::XorAssign => seq![94u8, 61u8],
        SyntaxKind::OrAssign => seq![124u8, 61u8],
        SyntaxKind::HashHash => seq![35u8, 35u8],
        SyntaxKind::Increment => seq![43u8, 43u8],
        SyntaxKind::Decrement => seq![45u8, 45u8],
        SyntaxKind::LeftShift => seq![60u8, 60u8],
        SyntaxKind::RightShift => seq![62u8, 62u8],
        SyntaxKind::LessEqual => seq![60u8, 61u8],
        SyntaxKind::GreaterEqual => seq![62u8, 61u8],
        SyntaxKind::Equal => seq![61u8, 61u8],
        SyntaxKind::NotEqual => seq![33u8, 61u8],
        SyntaxKind::LogicalAnd => seq![38u8, 38u8],
        SyntaxKind::LogicalOr => seq![124u8, 124u8],
        SyntaxKind::Arrow => seq![45u8, 62u8],
        SyntaxKind::Scope => seq![58u8, 58u8],
        SyntaxKind::Dot => seq![46u8],
        SyntaxKind::Ampersand => seq![38u8],
        SyntaxKind::Star => seq![42u8],
        SyntaxKind::Plus => seq![43u8],
        SyntaxKind::Minus => seq![45u8],
        SyntaxKind::Tilde => seq![126u8],
        SyntaxKind::Bang => seq![33u8],
        SyntaxKind::Slash => seq![47u8],
        SyntaxKind::Percent => seq![37u8],
        SyntaxKind::Less => seq![60u8],
        SyntaxKind::Greater => seq![62u8],
        SyntaxKind::Caret => seq![94u8],
        SyntaxKind::Pipe => seq![124u8],
        SyntaxKind::Question => seq![63u8],
        SyntaxKind::Colon => seq![58u8],
        SyntaxKind::Semicolon => seq![59u8],
        SyntaxKind::Assign => seq![61u8],
        SyntaxKind::Comma => seq![44u8],
        SyntaxKind::Hash => seq![35u8],
        _ => Seq::empty(),
    }
}

/// `b` holds the nonempty spelling `sp` from `i` on.
pub open spec fn spelled_at(b: Seq<u8>, i: int, sp: Seq<u8>) -> bool {
    &&& sp.len() > 0
    &&& 0 <= i
    &&& i + sp.len() <= b.len()
    &&& b.subrange(i, i + sp.len()) == sp
}

/// [`punct_at`] reads the longest punctuator spelled at `i`: what it reads
/// is spelled there, no longer punctuator is, and where it reads nothing no
/// punctuator is spelled there at all.
pub proof fn lemma_punct_longest(b: Seq<u8>, i: int)
    requires
        0 <= i,
    ensures
        punct_at(b, i).1 > 0 ==> spelled_at(b, i, punct_spelling(punct_at(b, i).0))
            && punct_spelling(punct_at(b, i).0).len() == punct_at(b, i).1,
        forall|k: SyntaxKind|
            spelled_at(b, i, #[trigger] punct_spelling(k)) ==> punct_spelling(k).len() <= punct_at(
                b,
                i,
            ).1,
{
    let r = punct_at(b, i);
    if r.1 > 0 {
        let sp = punct_spelling(r.0);
        assert(sp.len() == r.1);
        assert(i + sp.len() <= b.len());
        assert(b.subrange(i, i + sp.len()) =~= sp);
    }
    assert forall|k: SyntaxKind| spelled_at(b, i, #[trigger] punct_spelling(k)) implies punct_spelling(
        k,
    ).len() <= punct_at(b, i).1 by {
        let sp = punct_spelling(k);
        assert(b.subrange(i, i + sp.len())[0] == sp[0]);
        assert(byte_at(b, i) == sp[0]);
        if sp.len() >= 2 {
            assert(b.subrange(i, i + sp.len())[1] == sp[1]);
            assert(byte_at(b, i + 1) == sp[1]);
        }
        if sp.len() >= 3 {
            assert(b.subrange(i, i + sp.len())[2] == sp[2]);
            assert(byte_at(b, i + 2) == sp[2]);
        }
    }
}

/// The kind and end of the token that starts at `s` (where no trivia starts).
pub open spec fn scan_token(b: Seq<u8>, s: int) -> (SyntaxKind, int) {
    let c = byte_at(b, s);
    let sq = literal_quote(b, s, 34);
    let cq = literal_quote(b, s, 39);
    if c == 40 {
        (SyntaxKind::LeftParen, s + 1)
    } else if c == 41 {
        (SyntaxKind::RightParen, s + 1)
    } else if c == 91 {
        (SyntaxKind::LeftBracket, s + 1)
    } else if c == 93 {
        (SyntaxKind::RightBracket, s + 1)
    } else if c == 123 {
        (SyntaxKind::LeftBrace, s + 1)
    } else if c == 125 {
        (SyntaxKind::RightBrace, s + 1)
    } else if sq >= 0 {
        (SyntaxKind::StringLiteral, literal_body_end(b, sq + 1, 34))
    } else if c == 96 {
        (SyntaxKind::QuotedString, backtick_end(b, s + 1))
    } else if predefined_end(b, s) > s {
        (SyntaxKind::PredefinedConst, predefined_end(b, s))
    } else if float_end(b, s) > s {
        (SyntaxKind::FloatConst, float_end(b, s))
    } else if cq >= 0 {
        (SyntaxKind::CharConst, literal_body_end(b, cq + 1, 39))
    } else if int_end(b, s) > s {
        (SyntaxKind::IntegerConst, int_end(b, s))
    } else if ident_end(b, s) > s {
        (SyntaxKind::Ident, ident_end(b, s))
    } else if punct_at(b, s).1 > 0 {
        (punct_at(b, s).0, s + punct_at(b, s).1)
    } else if c >= 128 {
        (SyntaxKind::Unknown, char_end(b, s))
    } else {
        (SyntaxKind::Unknown, s + 1)
    }
}

/// A token of the lexer's output: its kind, the byte offset where it starts,
/// and its length in bytes.
#[derive(Debug, Clone, Copy, PartialEq, Eq, Structural)]
pub struct RawToken {
    pub kind: SyntaxKind,
    pub start: u32,
    pub len: u32,
}

/// The tokens as the builder records them: kind, length and start.
pub open spec fn triples(ts: Seq<RawToken>) -> Seq<(SyntaxKind, u32, u32)> {
    Seq::new(ts.len(), |i: int| (ts[i].kind, ts[i].len, ts[i].start))
}

/// Tokens lie within `0..n`, are not empty, and follow each other without
/// overlapping.
pub open spec fn tokens_within(ts: Seq<RawToken>, n: int) -> bool {
    &&& forall|i: int|
        0 <= i < ts.len() ==> #[trigger] ts[i].len >= 1 && ts[i].start + ts[i].len <= n
    &&& forall|i: int| 0 < i < ts.len() ==> ts[i - 1].start + ts[i - 1].len <= #[trigger] ts[i].start
}

/// The tokens of `b` from position `i` on.
pub open spec fn lex_from(b: Seq<u8>, i: int) -> Seq<RawToken>
    decreases b.len() - i,
{
    let s = skip_trivia(b, i);
    let t = scan_token(b, s);
    if i <= s < t.1 <= b.len() {
        seq![RawToken { kind: t.0, start: s as u32, len: (t.1 - s) as u32 }] + lex_from(b, t.1)
    } else {
        Seq::empty()
    }
}

/// The tokens of the whole input.
pub open spec fn lex_spec(b: Seq<u8>) -> Seq<RawToken> {
    lex_from(b, 0)
}

// =============================================================================
// Facts about the scanners
// =============================================================================

/// The tokens of `b` from `i` on lie within `i..b.len()`, are not empty, and
/// follow each other without overlapping.
pub proof fn lemma_lex_from_within(b: Seq<u8>, i: int)
    requires
        0 <= i <= b.len(),
        b.len() < u32::MAX,
    ensures
        tokens_within(lex_from(b, i), b.len() as int),
        forall|k: int| 0 <= k < lex_from(b, i).len() ==> #[trigger] lex_from(b, i)[k].start >= i,
    decreases b.len() - i,
{
    let s = skip_trivia(b, i);
    let t = scan_token(b, s);
    lemma_skip_trivia(b, i);
    if s < b.len() {
        lemma_scan_token(b, s);
        lemma_lex_from_within(b, t.1);
        let tok = RawToken { kind: t.0, start: s as u32, len: (t.1 - s) as u32 };
        let rest = lex_from(b, t.1);
        let all = lex_from(b, i);
        assert(all == seq![tok] + rest);
        assert forall|k: int| 0 <= k < all.len() implies #[trigger] all[k].len >= 1 && all[k].start
            + all[k].len <= b.len() && all[k].start >= i by {
            if k > 0 {
                assert(all[k] == rest[k - 1]);
            }
        }
        assert forall|k: int| 0 < k < all.len() implies all[k - 1].start + all[k - 1].len
            <= #[trigger] all[k].start by {
            assert(all[k] == rest[k - 1]);
            if k > 1 {
                assert(all[k - 1] == rest[k - 2]);
            }
        }
    }
}

/// The tokens of a source lie within it, are not empty, and follow each
/// other without overlapping.
pub proof fn lemma_lex_within(b: Seq<u8>)
    requires
        b.len() < u32::MAX,
    ensures
        tokens_within(lex_spec(b), b.len() as int),
{
    lemma_lex_from_within(b, 0);
}

// =============================================================================
// Where the scanners stop
// =============================================================================

proof fn lemma_line_comment_end(b: Seq<u8>, i: int)
    requires
        0 <= i <= b.len(),
    ensures
        i <= line_comment_end(b, i) <= b.len(),
    decreases b.len() - i,
{
    if i < b.len() && b[i] != 10 {
        lemma_line_comment_end(b, i + 1);
    }
}

proof fn lemma_block_comment_end(b: Seq<u8>, i: int)
    requires
        0 <= i <= b.len(),
    ensures
        i <= block_comment_end(b, i) <= b.len(),
    decreases b.len() - i,
{
    if i < b.len() && !(b[i] == 42 && byte_at(b, i + 1) == 47) {
        lemma_block_comment_end(b, i + 1);
    }
}

proof fn lemma_directive_end(b: Seq<u8>, i: int)
    requires
        0 <= i <= b.len(),
    ensures
        i <= directive_end(b, i) <= b.len(),
    decreases b.len() - i,
{
    if i < b.len() && b[i] != 10 {
        lemma_directive_end(b, i + 1);
    }
}

proof fn lemma_digits_tail(b: Seq<u8>, i: int, r: Radix)
    requires
        0 <= i <= b.len(),
    ensures
        i <= digits_tail(b, i, r) <= b.len(),
    decreases b.len() - i,
{
    if i < b.len() {
        if in_radix(b[i] as int, r) {
            lemma_digits_tail(b, i + 1, r);
        } else if b[i] == 39 && in_radix(byte_at(b, i + 1), r) {
            lemma_digits_tail(b, i + 2, r);
        }
    }
}

proof fn lemma_digits_end(b: Seq<u8>, i: int, r: Radix)
    requires
        0 <= i <= b.len(),
    ensures
        i <= digits_end(b, i, r) <= b.len(),
        digits_end(b, i, r) > i ==> i < b.len(),
{
    if in_radix(byte_at(b, i), r) {
        lemma_digits_tail(b, i + 1, r);
    }
}

/// Skipping continuation bytes stays within the input, and stops at its end
/// or before a byte that is no continuation byte.
pub proof fn lemma_cont_end(b: Seq<u8>, i: int)
    requires
        0 <= i <= b.len(),
    ensures
        i <= cont_end(b, i) <= b.len(),
        ascii_edge(b, cont_end(b, i)),
    decreases b.len() - i,
{
    if i < b.len() && is_cont(b[i] as int) {
        lemma_cont_end(b, i + 1);
    }
}

/// A character ends past its first byte, within the input, at an edge.
pub proof fn lemma_char_end(b: Seq<u8>, i: int)
    requires
        0 <= i < b.len(),
    ensures
        i < char_end(b, i) <= b.len(),
        ascii_edge(b, char_end(b, i)),
{
    lemma_cont_end(b, i + 1);
}

proof fn lemma_ident_tail(b: Seq<u8>, i: int)
    requires
        0 <= i <= b.len(),
    ensures
        i <= ident_tail(b, i) <= b.len(),
    decreases b.len() - i,
{
    let j = ident_step(b, i);
    if i < j <= b.len() {
        lemma_ident_tail(b, j);
    }
}

proof fn lemma_literal_body_end(b: Seq<u8>, i: int, q: int)
    requires
        0 <= i <= b.len(),
    ensures
        i <= literal_body_end(b, i, q) <= b.len(),
    decreases b.len() - i,
{
    if i < b.len() && b[i] as int != q {
        if b[i] == 92 {
            if i + 1 < b.len() {
                lemma_literal_body_end(b, i + 2, q);
            }
        } else if b[i] != 10 {
            lemma_literal_body_end(b, i + 1, q);
        }
    }
}

proof fn lemma_backtick_end(b: Seq<u8>, i: int)
    requires
        0 <= i <= b.len(),
    ensures
        i <= backtick_end(b, i) <= b.len(),
    decreases b.len() - i,
{
    if i < b.len() && b[i] != 96 {
        lemma_backtick_end(b, i + 1);
    }
}

proof fn lemma_exponents(b: Seq<u8>, i: int)
    requires
        0 <= i <= b.len(),
    ensures
        i <= exponent_end(b, i) <= b.len(),
        i <= binary_exponent_end(b, i) <= b.len(),
{
    if i + 2 <= b.len() {
        lemma_digits_end(b, i + 2, Radix::Dec);
    }
    if i + 1 <= b.len() {
        lemma_digits_end(b, i + 1, Radix::Dec);
    }
}

proof fn lemma_float_end(b: Seq<u8>, i: int)
    requires
        0 <= i < b.len(),
    ensures
        i <= float_end(b, i) <= b.len(),
{
    lemma_digits_end(b, i, Radix::Dec);
    let d = digits_end(b, i, Radix::Dec);
    if d < b.len() {
        lemma_digits_end(b, d + 1, Radix::Dec);
        lemma_exponents(b, d + 1);
        lemma_exponents(b, digits_end(b, d + 1, Radix::Dec));
    }
    lemma_exponents(b, d);
    if i + 2 <= b.len() {
        lemma_digits_end(b, i + 2, Radix::Hex);
        let h = digits_end(b, i + 2, Radix::Hex);
        lemma_exponents(b, h);
        if h < b.len() {
            lemma_digits_end(b, h + 1, Radix::Hex);
            lemma_exponents(b, h + 1);
            lemma_exponents(b, digits_end(b, h + 1, Radix::Hex));
        }
    }
}

proof fn lemma_int_end(b: Seq<u8>, i: int)
    requires
        0 <= i < b.len(),
    ensures
        i <= int_end(b, i) <= b.len(),
{
    lemma_digits_tail(b, i + 1, Radix::Oct);
    lemma_digits_tail(b, i + 1, Radix::Dec);
    if i + 2 <= b.len() {
        lemma_digits_end(b, i + 2, Radix::Hex);
        lemma_digits_end(b, i + 2, Radix::Bin);
        lemma_digits_end(b, i + 2, Radix::Oct);
    }
}

/// A token always consumes at least one byte and stays within the input.
pub proof fn lemma_scan_token(b: Seq<u8>, s: int)
    requires
        0 <= s < b.len(),
    ensures
        s < scan_token(b, s).1 <= b.len(),
{
    let sq = literal_quote(b, s, 34);
    let cq = literal_quote(b, s, 39);
    if sq >= 0 {
        lemma_literal_body_end(b, sq + 1, 34);
    }
    if cq >= 0 {
        lemma_literal_body_end(b, cq + 1, 39);
    }
    lemma_backtick_end(b, s + 1);
    lemma_ident_tail(b, s + 1);
    lemma_char_end(b, s);
    lemma_ident_tail(b, char_end(b, s));
    lemma_float_end(b, s);
    lemma_int_end(b, s);
}

/// A trivia step stays within the input.
pub proof fn lemma_trivia_step(b: Seq<u8>, i: int)
    requires
        0 <= i <= b.len(),
    ensures
        i <= trivia_step(b, i) <= b.len(),
{
    if i + 2 <= b.len() {
        lemma_line_comment_end(b, i + 2);
        lemma_block_comment_end(b, i + 2);
    }
    if i + 1 <= b.len() {
        lemma_directive_end(b, i + 1);
    }
    if i < b.len() {
        lemma_char_end(b, i);
    }
}

/// Skipping trivia stays within the input and ends where no trivia starts.
pub proof fn lemma_skip_trivia(b: Seq<u8>, i: int)
    requires
        0 <= i <= b.len(),
    ensures
        i <= skip_trivia(b, i) <= b.len(),
        trivia_step(b, skip_trivia(b, i)) == skip_trivia(b, i),
    decreases b.len() - i,
{
    lemma_trivia_step(b, i);
    let j = trivia_step(b, i);
    if i < j {
        lemma_skip_trivia(b, j);
    }
}

// =============================================================================
// Character boundaries
// =============================================================================

/// Position `p` is at the end of the input, before a byte that is no
/// continuation byte, or after an ASCII byte.
pub open spec fn ascii_edge(b: Seq<u8>, p: int) -> bool {
    ||| p == b.len()
    ||| (0 <= p < b.len() && !is_cont(b[p] as int))
    ||| (0 < p <= b.len() && b[p - 1] < 128)
}

/// Past an ASCII byte at a character boundary comes another boundary.
proof fn lemma_ascii_step(b: Seq<u8>, i: int)
    requires
        vstd::utf8::valid_utf8(b),
        0 <= i < b.len(),
        vstd::utf8::is_char_boundary(b, i),
        b[i] < 128,
    ensures
        vstd::utf8::is_char_boundary(b, i + 1),
    decreases b.len(),
{
    let l = vstd::utf8::length_of_first_scalar(b);
    let rest = vstd::utf8::pop_first_scalar(b);
    assert(vstd::utf8::valid_first_scalar(b) && vstd::utf8::valid_utf8(rest));
    if i == 0 {
        assert(l == 1);
        assert(vstd::utf8::is_char_boundary(rest, 0));
    } else {
        assert(vstd::utf8::is_char_boundary(rest, i - l));
        assert(i - l >= 0);
        assert(rest[i - l] == b[i]);
        lemma_ascii_step(rest, i - l);
    }
}

/// A position next to an ASCII byte is a character boundary.
pub proof fn lemma_ascii_edge_boundary(b: Seq<u8>, p: int)
    requires
        vstd::utf8::valid_utf8(b),
        p == 0 || ascii_edge(b, p),
    ensures
        vstd::utf8::is_char_boundary(b, p),
{
    if p == 0 {
    } else if p == b.len() {
        vstd::utf8::is_char_boundary_start_end_of_seq(b);
    } else if 0 <= p < b.len() && !is_cont(b[p] as int) {
        vstd::utf8::is_char_boundary_iff_not_is_continuation_byte(b, p);
    } else {
        vstd::utf8::is_char_boundary_iff_not_is_continuation_byte(b, p - 1);
        lemma_ascii_step(b, p - 1);
    }
}

proof fn lemma_line_comment_edge(b: Seq<u8>, i: int)
    requires
        0 <= i <= b.len(),
    ensures
        ascii_edge(b, line_comment_end(b, i)),
    decreases b.len() - i,
{
    if i < b.len() && b[i] != 10 {
        lemma_line_comment_edge(b, i + 1);
    }
}

proof fn lemma_block_comment_edge(b: Seq<u8>, i: int)
    requires
        0 <= i <= b.len(),
    ensures
        ascii_edge(b, block_comment_end(b, i)),
    decreases b.len() - i,
{
    if i < b.len() && !(b[i] == 42 && byte_at(b, i + 1) == 47) {
        lemma_block_comment_edge(b, i + 1);
    }
}

proof fn lemma_directive_edge(b: Seq<u8>, i: int)
    requires
        0 <= i <= b.len(),
    ensures
        ascii_edge(b, directive_end(b, i)),
    decreases b.len() - i,
{
    if i < b.len() && b[i] != 10 {
        lemma_directive_edge(b, i + 1);
    }
}

proof fn lemma_literal_body_edge(b: Seq<u8>, i: int, q: int)
    requires
        0 <= i <= b.len(),
        0 <= q < 128,
    ensures
        ascii_edge(b, literal_body_end(b, i, q)),
    decreases b.len() - i,
{
    if i < b.len() && b[i] as int != q {
        if b[i] == 92 {
            if i + 1 < b.len() {
                lemma_literal_body_edge(b, i + 2, q);
            }
        } else if b[i] != 10 {
            lemma_literal_body_edge(b, i + 1, q);
        }
    }
}

proof fn lemma_backtick_edge(b: Seq<u8>, i: int)
    requires
        0 <= i <= b.len(),
    ensures
        ascii_edge(b, backtick_end(b, i)),
    decreases b.len() - i,
{
    if i < b.len() && b[i] != 96 {
        lemma_backtick_edge(b, i + 1);
    }
}

proof fn lemma_ident_tail_edge(b: Seq<u8>, i: int)
    requires
        0 <= i <= b.len(),
        ascii_edge(b, i),
    ensures
        ascii_edge(b, ident_tail(b, i)),
    decreases b.len() - i,
{
    let j = ident_step(b, i);
    if i < j <= b.len() {
        if is_ident_continue(byte_at(b, i)) {
            assert(b[i] < 128);
        } else {
            lemma_char_end(b, i);
        }
        lemma_ident_tail_edge(b, j);
    }
}

/// A digit run that consumed something ends after a digit.
proof fn lemma_digits_tail_edge(b: Seq<u8>, i: int, r: Radix)
    requires
        0 < i <= b.len(),
        in_radix(b[i - 1] as int, r),
    ensures
        in_radix(b[digits_tail(b, i, r) - 1] as int, r),
        i <= digits_tail(b, i, r) <= b.len(),
    decreases b.len() - i,
{
    if i < b.len() {
        if in_radix(b[i] as int, r) {
            lemma_digits_tail_edge(b, i + 1, r);
        } else if b[i] == 39 && in_radix(byte_at(b, i + 1), r) {
            lemma_digits_tail_edge(b, i + 2, r);
        }
    }
}

proof fn lemma_digits_end_edge(b: Seq<u8>, i: int, r: Radix)
    requires
        0 <= i <= b.len(),
        digits_end(b, i, r) > i,
    ensures
        in_radix(b[digits_end(b, i, r) - 1] as int, r),
        digits_end(b, i, r) <= b.len(),
{
    lemma_digits_tail_edge(b, i + 1, r);
}

/// An exponent that is present ends after a decimal digit.
proof fn lemma_exponent_edge(b: Seq<u8>, i: int)
    requires
        0 <= i <= b.len(),
    ensures
        exponent_end(b, i) > i ==> 0 < exponent_end(b, i) <= b.len() && b[exponent_end(b, i) - 1]
            < 128,
        binary_exponent_end(b, i) > i ==> 0 < binary_exponent_end(b, i) <= b.len() && b[
        binary_exponent_end(b, i) - 1] < 128,
{
    let j1 = i + 1;
    let j2 = i + 2;
    if j1 <= b.len() && digits_end(b, j1, Radix::Dec) > j1 {
        lemma_digits_end_edge(b, j1, Radix::Dec);
    }
    if j2 <= b.len() && digits_end(b, j2, Radix::Dec) > j2 {
        lemma_digits_end_edge(b, j2, Radix::Dec);
    }
}

proof fn lemma_float_edge(b: Seq<u8>, s: int)
    requires
        0 <= s < b.len(),
        float_end(b, s) > s,
    ensures
        ascii_edge(b, float_end(b, s)),
{
    lemma_float_end(b, s);
    let h = hex_float_end(b, s);
    let m = if h > s {
        h
    } else {
        decimal_float_end(b, s)
    };
    // the mantissa and exponent end after an ASCII byte
    assert(m > s);
    assert(0 < m <= b.len() && b[m - 1] < 128) by {
        lemma_digits_end(b, s, Radix::Dec);
        let d = digits_end(b, s, Radix::Dec);
        if d > s {
            lemma_digits_end_edge(b, s, Radix::Dec);
        }
        if d < b.len() {
            lemma_digits_end(b, d + 1, Radix::Dec);
            let g = digits_end(b, d + 1, Radix::Dec);
            if g > d + 1 {
                lemma_digits_end_edge(b, d + 1, Radix::Dec);
            }
            lemma_exponent_edge(b, g);
            lemma_exponent_edge(b, d + 1);
        }
        lemma_exponent_edge(b, d);
        if s + 2 <= b.len() {
            lemma_digits_end(b, s + 2, Radix::Hex);
            let hh = digits_end(b, s + 2, Radix::Hex);
            lemma_exponent_edge(b, hh);
            if hh < b.len() {
                lemma_digits_end(b, hh + 1, Radix::Hex);
                let g = digits_end(b, hh + 1, Radix::Hex);
                lemma_exponent_edge(b, g);
                lemma_exponent_edge(b, hh + 1);
            }
        }
    }
}

proof fn lemma_int_edge(b: Seq<u8>, s: int)
    requires
        0 <= s < b.len(),
        int_end(b, s) > s,
    ensures
        ascii_edge(b, int_end(b, s)),
{
    lemma_int_end(b, s);
    let c0 = byte_at(b, s);
    if s + 2 <= b.len() {
        if digits_end(b, s + 2, Radix::Hex) > s + 2 {
            lemma_digits_end_edge(b, s + 2, Radix::Hex);
        }
        if digits_end(b, s + 2, Radix::Bin) > s + 2 {
            lemma_digits_end_edge(b, s + 2, Radix::Bin);
        }
        if digits_end(b, s + 2, Radix::Oct) > s + 2 {
            lemma_digits_end_edge(b, s + 2, Radix::Oct);
        }
    }
    if c0 == 48 {
        lemma_digits_tail_edge(b, s + 1, Radix::Oct);
    } else if 49 <= c0 <= 57 {
        lemma_digits_tail_edge(b, s + 1, Radix::Dec);
    }
}

/// The token that starts at `s` ends next to an ASCII byte.
pub proof fn lemma_scan_token_edge(b: Seq<u8>, s: int)
    requires
        0 <= s < b.len(),
    ensures
        ascii_edge(b, scan_token(b, s).1),
{
    let sq = literal_quote(b, s, 34);
    let cq = literal_quote(b, s, 39);
    lemma_scan_token(b, s);
    if sq >= 0 {
        lemma_literal_body_edge(b, sq + 1, 34);
    }
    if cq >= 0 {
        lemma_literal_body_edge(b, cq + 1, 39);
    }
    lemma_backtick_edge(b, s + 1);
    lemma_char_end(b, s);
    if is_ident_start(b[s] as int) {
        lemma_ident_tail_edge(b, s + 1);
    }
    lemma_ident_tail_edge(b, char_end(b, s));
    if float_end(b, s) > s {
        lemma_float_edge(b, s);
    }
    if int_end(b, s) > s {
        lemma_int_edge(b, s);
    }
    lemma_punct_edge(b, s);
    lemma_ident_tail(b, s + 1);
}

/// A punctuator ends after an ASCII byte.
proof fn lemma_punct_edge(b: Seq<u8>, s: int)
    requires
        0 <= s < b.len(),
    ensures
        punct_at(b, s).1 > 0 ==> s + punct_at(b, s).1 <= b.len() && b[s + punct_at(b, s).1 - 1]
            < 128,
{
}

/// Skipping trivia from a position next to an ASCII byte stops at one.
pub proof fn lemma_skip_trivia_edge(b: Seq<u8>, i: int)
    requires
        0 <= i <= b.len(),
        i == 0 || ascii_edge(b, i),
    ensures
        skip_trivia(b, i) == 0 || ascii_edge(b, skip_trivia(b, i)),
    decreases b.len() - i,
{
    lemma_trivia_step(b, i);
    let j = trivia_step(b, i);
    if i < j {
        if i + 2 <= b.len() {
            lemma_line_comment_edge(b, i + 2);
            lemma_block_comment_edge(b, i + 2);
        }
        if i + 1 <= b.len() {
            lemma_directive_edge(b, i + 1);
        }
        if i < b.len() {
            lemma_char_end(b, i);
        }
        assert(ascii_edge(b, j));
        lemma_skip_trivia_edge(b, j);
    }
}

/// Every token of `b` from `i` on starts and ends next to an ASCII byte (or
/// at the start of the input).
pub proof fn lemma_lex_from_edges(b: Seq<u8>, i: int)
    requires
        0 <= i <= b.len(),
        b.len() < u32::MAX,
        i == 0 || ascii_edge(b, i),
    ensures
        forall|k: int|
            0 <= k < lex_from(b, i).len() ==> {
                let t = #[trigger] lex_from(b, i)[k];
                &&& (t.start == 0 || ascii_edge(b, t.start as int))
                &&& ascii_edge(b, t.start + t.len)
            },
    decreases b.len() - i,
{
    let s = skip_trivia(b, i);
    lemma_skip_trivia(b, i);
    lemma_skip_trivia_edge(b, i);
    if s < b.len() {
        let t = scan_token(b, s);
        lemma_scan_token(b, s);
        lemma_scan_token_edge(b, s);
        lemma_lex_from_edges(b, t.1);
        let tok = RawToken { kind: t.0, start: s as u32, len: (t.1 - s) as u32 };
        let rest = lex_from(b, t.1);
        let all = lex_from(b, i);
        assert(all == seq![tok] + rest);
        assert forall|k: int| 0 <= k < all.len() implies {
            let t = #[trigger] all[k];
            &&& (t.start == 0 || ascii_edge(b, t.start as int))
            &&& ascii_edge(b, t.start + t.len)
        } by {
            if k > 0 {
                assert(all[k] == rest[k - 1]);
            }
        }
    }
}

// =============================================================================
// The scanner
// =============================================================================

/// Scans the bytes of a source text.
struct Lexer<'a> {
    src: &'a [u8],
}

impl<'a> Lexer<'a> {
    /// The byte at `i + k`, or -1 past the end.
    fn at(&self, i: usize, k: usize) -> (r: i32)
        ensures
            r == byte_at(self.src@, i + k),
    {
        if i < self.src.len() && k < self.src.len() - i {
            self.src[i + k] as i32
        } else {
            -1
        }
    }

    fn cont_end(&self, i: usize) -> (r: usize)
        requires
            i <= self.src.len(),
        ensures
            r == cont_end(self.src@, i as int),
            i <= r <= self.src@.len(),
    {
        let mut j = i;
        while j < self.src.len() && 128 <= self.src[j] && self.src[j] < 192
            invariant
                i <= j <= self.src@.len(),
                cont_end(self.src@, j as int) == cont_end(self.src@, i as int),
            decreases self.src@.len() - j,
        {
            j = j + 1;
        }
        j
    }

    fn char_end(&self, i: usize) -> (r: usize)
        requires
            i < self.src.len(),
        ensures
            r == char_end(self.src@, i as int),
            i < r <= self.src@.len(),
    {
        self.cont_end(i + 1)
    }

    fn code_at(&self, i: usize) -> (r: i64)
        requires
            i < self.src.len(),
        ensures
            r == code_at(self.src@, i as int),
            -1 <= r < 0x20_0000,
    {
        let e = self.char_end(i);
        let b0 = self.src[i];
        if e - i == 2 && 0xc0 <= b0 && b0 <= 0xdf {
            let b1 = self.src[i + 1];
            let v: u32 = (((b0 & 0x1F) as u32) << 6) | ((b1 & 0x3f) as u32);
            assert(v < 0x20_0000) by (bit_vector)
                requires
                    v == (((b0 & 0x1F) as u32) << 6) | ((b1 & 0x3f) as u32),
            ;
            v as i64
        } else if e - i == 3 && 0xe0 <= b0 && b0 <= 0xef {
            let b1 = self.src[i + 1];
            let b2 = self.src[i + 2];
            let v: u32 = (((b0 & 0x0F) as u32) << 12) | (((b1 & 0x3f) as u32) << 6) | ((b2 & 0x3f) as u32);
            assert(v < 0x20_0000) by (bit_vector)
                requires
                    v == (((b0 & 0x0F) as u32) << 12) | (((b1 & 0x3f) as u32) << 6) | ((b2 & 0x3f) as u32),
            ;
            v as i64
        } else if e - i == 4 && 0xf0 <= b0 && b0 <= 0xf7 {
            let b1 = self.src[i + 1];
            let b2 = self.src[i + 2];
            let b3 = self.src[i + 3];
            let v: u32 = (((b0 & 0x07) as u32) << 18) | (((b1 & 0x3f) as u32) << 12) | (((b2 & 0x3f) as u32)
                << 6) | ((b3 & 0x3f) as u32);
            assert(v < 0x20_0000) by (bit_vector)
                requires
                    v == (((b0 & 0x07) as u32) << 18) | (((b1 & 0x3f) as u32) << 12) | (((b2 & 0x3f) as u32)
                        << 6) | ((b3 & 0x3f) as u32),
            ;
            v as i64
        } else {
            -1
        }
    }

    fn wide_space_at(&self, i: usize) -> (r: bool)
        requires
            i <= self.src.len(),
        ensures
            r == wide_space_at(self.src@, i as int),
    {
        if i >= self.src.len() || self.src[i] < 128 {
            return false;
        }
        let v = self.code_at(i);
        v == 0x85 || v == 0xA0 || v == 0x1680 || (0x2000 <= v && v <= 0x200A) || v == 0x2028 || v == 0x2029
            || v == 0x202F || v == 0x205F || v == 0x3000
    }

    /// A non-ASCII character that may start (`start`) or continue an
    /// identifier starts at `i`.
    fn wide_ident(&self, i: usize, start: bool) -> (r: bool)
        requires
            i <= self.src.len(),
        ensures
            r == if start {
                wide_ident_start(self.src@, i as int)
            } else {
                wide_ident_continue(self.src@, i as int)
            },
    {
        if i >= self.src.len() || self.src[i] < 128 {
            return false;
        }
        let v = self.code_at(i);
        if v < 0 {
            proof {
                assert(scalar_char(v as int) is None);
            }
            return false;
        }
        match char_of(v as u128) {
            Some(c) => if start {
                is_xid_start(c)
            } else {
                is_xid_continue(c)
            },
            None => false,
        }
    }

    fn line_comment_end(&self, i: usize) -> (r: usize)
        requires
            i <= self.src.len(),
        ensures
            r == line_comment_end(self.src@, i as int),
    {
        let mut j = i;
        while j < self.src.len()
            invariant
                i <= j <= self.src@.len(),
                line_comment_end(self.src@, j as int) == line_comment_end(self.src@, i as int),
            decreases self.src@.len() - j,
        {
            if self.src[j] == 10 {
                return j;
            }
            j = j + 1;
        }
        j
    }

    fn block_comment_end(&self, i: usize) -> (r: usize)
        requires
            i <= self.src.len(),
        ensures
            r == block_comment_end(self.src@, i as int),
    {
        let mut j = i;
        while j < self.src.len()
            invariant
                i <= j <= self.src@.len(),
                block_comment_end(self.src@, j as int) == block_comment_end(self.src@, i as int),
            decreases self.src@.len() - j,
        {
            if self.src[j] == 42 && self.at(j, 1) == 47 {
                return j + 2;
            }
            j = j + 1;
        }
        j
    }

    fn directive_end(&self, i: usize) -> (r: usize)
        requires
            i <= self.src.len(),
        ensures
            r == directive_end(self.src@, i as int),
    {
        let mut j = i;
        while j < self.src.len()
            invariant
                i <= j <= self.src@.len(),
                directive_end(self.src@, j as int) == directive_end(self.src@, i as int),
            decreases self.src@.len() - j,
        {
            if self.src[j] == 10 {
                return j + 1;
            }
            j = j + 1;
        }
        j
    }

    fn cont_start(&self, j: usize) -> (r: usize)
        requires
            j < self.src.len(),
        ensures
            r == cont_start(self.src@, j as int),
            r <= j,
    {
        let mut h = j;
        while h > 0 && 128 <= self.src[h] && self.src[h] < 192
            invariant
                h <= j < self.src@.len(),
                cont_start(self.src@, h as int) == cont_start(self.src@, j as int),
            decreases h,
        {
            h = h - 1;
        }
        h
    }

    fn at_line_begin(&self, p: usize) -> (r: bool)
        requires
            p <= self.src.len(),
        ensures
            r == at_line_begin(self.src@, p as int),
    {
        let mut q = p;
        while q > 0
            invariant
                q <= p <= self.src@.len(),
                at_line_begin(self.src@, q as int) == at_line_begin(self.src@, p as int),
            decreases q,
        {
            let c = self.src[q - 1];
            if c == 10 {
                return true;
            }
            if c == 32 || (9 <= c && c <= 13) {
                q = q - 1;
            } else if c >= 128 {
                let h = self.cont_start(q - 1);
                if h < q && self.char_end(h) == q && self.wide_space_at(h) {
                    q = h;
                } else {
                    return false;
                }
            } else {
                return false;
            }
        }
        true
    }

    fn trivia_step(&self, i: usize) -> (r: usize)
        requires
            i <= self.src.len(),
        ensures
            r == trivia_step(self.src@, i as int),
    {
        let c = self.at(i, 0);
        if c == 32 || (9 <= c && c <= 13) {
            i + 1
        } else if c == 47 && self.at(i, 1) == 47 {
            self.line_comment_end(i + 2)
        } else if c == 47 && self.at(i, 1) == 42 {
            self.block_comment_end(i + 2)
        } else if c == 35 && self.at_line_begin(i) {
            self.directive_end(i + 1)
        } else if self.wide_space_at(i) {
            self.char_end(i)
        } else {
            i
        }
    }

    fn skip_trivia(&self, i: usize) -> (r: usize)
        requires
            i <= self.src.len(),
        ensures
            r == skip_trivia(self.src@, i as int),
            i <= r <= self.src@.len(),
    {
        let mut j = i;
        loop
            invariant
                i <= j <= self.src@.len(),
                skip_trivia(self.src@, j as int) == skip_trivia(self.src@, i as int),
            decreases self.src@.len() - j,
        {
            proof {
                lemma_trivia_step(self.src@, j as int);
            }
            let k = self.trivia_step(j);
            if k == j {
                proof {
                    lemma_skip_trivia(self.src@, i as int);
                }
                return j;
            }
            j = k;
        }
    }

    fn skip_spaces(&self, i: usize, e: usize) -> (r: usize)
        requires
            i <= e <= self.src.len(),
        ensures
            r == skip_spaces(self.src@, i as int, e as int),
            i <= r <= e,
    {
        let mut j = i;
        while j < e
            invariant
                i <= j <= e <= self.src.len(),
                skip_spaces(self.src@, j as int, e as int) == skip_spaces(self.src@, i as int, e as int),
            decreases e - j,
        {
            let c = self.src[j];
            if c == 32 || (9 <= c && c <= 13) {
                j = j + 1;
            } else if self.wide_space_at(j) {
                let k = self.char_end(j);
                if k <= e {
                    j = k;
                } else {
                    return j;
                }
            } else {
                return j;
            }
        }
        j
    }

    fn word_end(&self, i: usize, e: usize) -> (r: usize)
        requires
            i <= e <= self.src.len(),
        ensures
            r == word_end(self.src@, i as int, e as int),
            i <= r <= e,
    {
        let mut j = i;
        while j < e
            invariant
                i <= j <= e <= self.src.len(),
                word_end(self.src@, j as int, e as int) == word_end(self.src@, i as int, e as int),
            decreases e - j,
        {
            let c = self.src[j];
            if c == 32 || (9 <= c && c <= 13) || self.wide_space_at(j) {
                return j;
            }
            j = j + 1;
        }
        j
    }

    fn trim_quotes(&self, i: usize, e: usize) -> (r: (usize, usize))
        requires
            i <= e <= self.src.len(),
        ensures
            r.0 == trim_quotes_start(self.src@, i as int, e as int),
            r.1 == trim_quotes_end(self.src@, r.0 as int, e as int),
            i <= r.0 <= r.1 <= e,
    {
        let mut a = i;
        while a < e && self.src[a] == 34
            invariant
                i <= a <= e <= self.src.len(),
                trim_quotes_start(self.src@, a as int, e as int) == trim_quotes_start(self.src@, i as int, e as int),
            decreases e - a,
        {
            a = a + 1;
        }
        let mut z = e;
        while a < z && self.src[z - 1] == 34
            invariant
                a <= z <= e <= self.src.len(),
                trim_quotes_end(self.src@, a as int, z as int) == trim_quotes_end(self.src@, a as int, e as int),
            decreases z - a,
        {
            z = z - 1;
        }
        (a, z)
    }

    /// Advance the count of line feeds from position `*pos` to `to`.
    fn count_newlines(&self, pos: &mut usize, count: &mut usize, to: usize)
        requires
            *old(pos) <= to <= self.src.len(),
            *old(count) == newlines(self.src@.subrange(0, *old(pos) as int)),
            *old(count) <= *old(pos),
        ensures
            *final(pos) == to,
            *final(count) == newlines(self.src@.subrange(0, to as int)),
            *final(count) <= to,
    {
        while *pos < to
            invariant
                *pos <= to <= self.src.len(),
                *count == newlines(self.src@.subrange(0, *pos as int)),
                *count <= *pos,
            decreases to - *pos,
        {
            proof {
                assert(self.src@.subrange(0, *pos + 1).drop_last() =~= self.src@.subrange(0, *pos as int));
            }
            if self.src[*pos] == 10 {
                *count = *count + 1;
            }
            *pos = *pos + 1;
        }
    }

    /// The `i32` that the bytes `s..e` write (see [`parse_i32`]).
    fn parse_i32(&self, s: usize, e: usize) -> (r: Option<i32>)
        requires
            s <= e <= self.src.len(),
        ensures
            r == parse_i32(self.src@, s as int, e as int),
    {
        let neg = s < e && self.src[s] == 45;
        let signed = s < e && (self.src[s] == 43 || self.src[s] == 45);
        let d = if signed {
            s + 1
        } else {
            s
        };
        if d >= e {
            return None;
        }
        let mut acc: u64 = 0;
        let mut big = false;
        let mut j = d;
        proof {
            assert(self.src@.subrange(d as int, d as int) =~= Seq::<u8>::empty());
        }
        while j < e
            invariant
                d <= j <= e <= self.src.len(),
                signed == (s < e && (byte_at(self.src@, s as int) == 43 || byte_at(self.src@, s as int) == 45)),
                neg == (s < e && byte_at(self.src@, s as int) == 45),
                d == if signed {
                    s + 1
                } else {
                    s as int
                },
                forall|k: int| d <= k < j ==> is_digit(byte_at(self.src@, k)),
                !big ==> acc == decimal_value(self.src@.subrange(d as int, j as int)) && acc <= 0x8000_0000,
                big ==> decimal_value(self.src@.subrange(d as int, j as int)) > 0x8000_0000,
            decreases e - j,
        {
            let c = self.src[j];
            if !(48 <= c && c <= 57) {
                proof {
                    assert(!is_digit(byte_at(self.src@, j as int)));
                }
                return None;
            }
            let ghost before = self.src@.subrange(d as int, j as int);
            proof {
                assert(self.src@.subrange(d as int, j + 1).drop_last() =~= before);
                assert(self.src@.subrange(d as int, j + 1).last() == c);
                lemma_decimal_nonneg(self.src@, d as int, j as int);
            }
            if !big {
                let next = acc * 10 + (c - 48) as u64;
                if next > 0x8000_0000 {
                    big = true;
                } else {
                    acc = next;
                }
            } else {
                proof {
                    let v = decimal_value(before);
                    assert(v * 10 + (c - 48) >= v) by (nonlinear_arith)
                        requires
                            v >= 0,
                            c >= 48,
                    ;
                }
            }
            j = j + 1;
        }
        if big {
            None
        } else if neg {
            let v: i64 = -(acc as i64);
            Some(v as i32)
        } else if acc <= 0x7fff_ffff {
            Some(acc as i32)
        } else {
            None
        }
    }

    /// The line marker of the directive at `p` (see [`line_marker`]).
    fn line_marker(&self, p: usize) -> (r: Option<(i32, usize, usize)>)
        requires
            p < self.src.len(),
        ensures
            r is None <==> line_marker(self.src@, p as int) is None,
            r matches Some(m) ==> line_marker(self.src@, p as int) == Some((m.0, m.1 as int, m.2 as int)),
    {
        proof {
            lemma_line_comment_end(self.src@, p + 1);
        }
        let le = self.line_comment_end(p + 1);
        let s1 = self.skip_spaces(p + 1, le);
        let e1 = self.word_end(s1, le);
        let s2 = self.skip_spaces(e1, le);
        let e2 = self.word_end(s2, le);
        let (fs, fe) = self.trim_quotes(s2, e2);
        if s1 < e1 && s2 < e2 {
            match self.parse_i32(s1, e1) {
                Some(n) => Some((n, fs, fe)),
                None => None,
            }
        } else {
            None
        }
    }

    fn in_radix(c: i32, r: Radix) -> (res: bool)
        ensures
            res == in_radix(c as int, r),
    {
        match r {
            Radix::Bin => c == 48 || c == 49,
            Radix::Oct => 48 <= c && c <= 55,
            Radix::Dec => 48 <= c && c <= 57,
            Radix::Hex => (48 <= c && c <= 57) || (65 <= c && c <= 70) || (97 <= c && c <= 102),
        }
    }

    fn digits_tail(&self, i: usize, r: Radix) -> (res: usize)
        requires
            i <= self.src.len(),
        ensures
            res == digits_tail(self.src@, i as int, r),
            i <= res <= self.src@.len(),
    {
        let mut j = i;
        while j < self.src.len()
            invariant
                i <= j <= self.src@.len(),
                digits_tail(self.src@, j as int, r) == digits_tail(self.src@, i as int, r),
            decreases self.src@.len() - j,
        {
            if Self::in_radix(self.src[j] as i32, r) {
                j = j + 1;
            } else if self.src[j] == 39 && Self::in_radix(self.at(j, 1), r) {
                j = j + 2;
            } else {
                return j;
            }
        }
        j
    }

    fn digits_end(&self, i: usize, r: Radix) -> (res: usize)
        requires
            i <= self.src.len(),
        ensures
            res == digits_end(self.src@, i as int, r),
            i <= res <= self.src@.len(),
    {
        if Self::in_radix(self.at(i, 0), r) {
            self.digits_tail(i + 1, r)
        } else {
            i
        }
    }

    fn exponent_end(&self, i: usize, lower: i32, upper: i32) -> (r: usize)
        requires
            i <= self.src.len(),
            (lower == 101 && upper == 69) || (lower == 112 && upper == 80),
        ensures
            lower == 101 ==> r == exponent_end(self.src@, i as int),
            lower == 112 ==> r == binary_exponent_end(self.src@, i as int),
            i <= r <= self.src@.len(),
    {
        let c = self.at(i, 0);
        if !(c == lower || c == upper) {
            return i;
        }
        let s = self.at(i, 1);
        let j = if s == 43 || s == 45 {
            i + 2
        } else {
            i + 1
        };
        let d = self.digits_end(j, Radix::Dec);
        if d > j {
            d
        } else {
            i
        }
    }

    fn decimal_float_end(&self, i: usize) -> (r: usize)
        requires
            i <= self.src.len(),
        ensures
            r == decimal_float_end(self.src@, i as int),
            i <= r <= self.src@.len(),
    {
        let d = self.digits_end(i, Radix::Dec);
        if self.at(d, 0) == 46 {
            let g = self.digits_end(d + 1, Radix::Dec);
            if g > d + 1 {
                return self.exponent_end(g, 101, 69);
            }
            if d > i {
                return self.exponent_end(d + 1, 101, 69);
            }
            return i;
        }
        proof {
            if d < self.src@.len() {
                lemma_digits_end(self.src@, d + 1, Radix::Dec);
            }
        }
        if d > i {
            let e = self.exponent_end(d, 101, 69);
            if e > d {
                return e;
            }
        }
        i
    }

    fn hex_float_end(&self, i: usize) -> (r: usize)
        requires
            i <= self.src.len(),
        ensures
            r == hex_float_end(self.src@, i as int),
            i <= r <= self.src@.len(),
    {
        let c1 = self.at(i, 1);
        if !(self.at(i, 0) == 48 && (c1 == 120 || c1 == 88)) {
            return i;
        }
        let s = i + 2;
        let h = self.digits_end(s, Radix::Hex);
        if self.at(h, 0) == 46 {
            let g = self.digits_end(h + 1, Radix::Hex);
            if g > h + 1 {
                let e = self.exponent_end(g, 112, 80);
                if e > g {
                    return e;
                }
            }
            if h > s {
                let e = self.exponent_end(h + 1, 112, 80);
                if e > h + 1 {
                    return e;
                }
            }
        }
        proof {
            if h < self.src@.len() {
                lemma_digits_end(self.src@, h + 1, Radix::Hex);
            }
        }
        if h > s {
            let e = self.exponent_end(h, 112, 80);
            if e > h {
                return e;
            }
        }
        i
    }

    fn float_suffix_end(&self, i: usize) -> (r: usize)
        requires
            i <= self.src.len(),
        ensures
            r == float_suffix_end(self.src@, i as int),
    {
        let c0 = self.at(i, 0);
        let c1 = self.at(i, 1);
        if (c0 == 100 && (c1 == 102 || c1 == 100 || c1 == 108)) || (c0 == 68 && (c1 == 70 || c1
            == 68 || c1 == 76)) {
            i + 2
        } else if c0 == 102 || c0 == 70 || c0 == 108 || c0 == 76 {
            i + 1
        } else {
            i
        }
    }

    fn float_end(&self, i: usize) -> (r: usize)
        requires
            i < self.src.len(),
        ensures
            r == float_end(self.src@, i as int),
    {
        let h = self.hex_float_end(i);
        let m = if h > i {
            h
        } else {
            self.decimal_float_end(i)
        };
        if m > i {
            self.float_suffix_end(m)
        } else {
            i
        }
    }

    fn ll_at(&self, i: usize) -> (r: bool)
        ensures
            r == ll_at(self.src@, i as int),
    {
        let c0 = self.at(i, 0);
        let c1 = self.at(i, 1);
        (c0 == 108 && c1 == 108) || (c0 == 76 && c1 == 76)
    }

    fn wb_at(&self, i: usize) -> (r: bool)
        ensures
            r == wb_at(self.src@, i as int),
    {
        let c0 = self.at(i, 0);
        let c1 = self.at(i, 1);
        (c0 == 119 && c1 == 98) || (c0 == 87 && c1 == 66)
    }

    fn int_suffix_end(&self, i: usize) -> (r: usize)
        requires
            i <= self.src.len(),
        ensures
            r == int_suffix_end(self.src@, i as int),
    {
        let c0 = self.at(i, 0);
        let c1 = self.at(i, 1);
        let c2 = self.at(i, 2);
        let u0 = c0 == 117 || c0 == 85;
        let u1 = c1 == 117 || c1 == 85;
        let u2 = c2 == 117 || c2 == 85;
        let l0 = c0 == 108 || c0 == 76;
        let l1 = c1 == 108 || c1 == 76;
        if (u0 && self.ll_at(i + 1)) || (self.ll_at(i) && u2) {
            i + 3
        } else if (u0 && l1) || (l0 && u1) {
            i + 2
        } else if (u0 && self.wb_at(i + 1)) || (self.wb_at(i) && u2) {
            i + 3
        } else if u0 {
            i + 1
        } else if self.ll_at(i) {
            i + 2
        } else if l0 {
            i + 1
        } else if self.wb_at(i) {
            i + 2
        } else {
            i
        }
    }

    fn int_end(&self, i: usize) -> (r: usize)
        requires
            i < self.src.len(),
        ensures
            r == int_end(self.src@, i as int),
    {
        let c0 = self.at(i, 0);
        let c1 = self.at(i, 1);
        let mut m = i;
        if c0 == 48 && (c1 == 120 || c1 == 88) {
            m = self.digits_end(i + 2, Radix::Hex);
            if m == i + 2 {
                m = i;
            }
        }
        if m == i && c0 == 48 && (c1 == 98 || c1 == 66) {
            m = self.digits_end(i + 2, Radix::Bin);
            if m == i + 2 {
                m = i;
            }
        }
        if m == i && c0 == 48 && (c1 == 111 || c1 == 79) {
            m = self.digits_end(i + 2, Radix::Oct);
            if m == i + 2 {
                m = i;
            }
        }
        if m == i && c0 == 48 {
            m = self.digits_tail(i + 1, Radix::Oct);
        } else if m == i && 49 <= c0 && c0 <= 57 {
            m = self.digits_tail(i + 1, Radix::Dec);
        }
        if m > i {
            self.int_suffix_end(m)
        } else {
            i
        }
    }

    fn ident_tail(&self, i: usize) -> (r: usize)
        requires
            i <= self.src.len(),
        ensures
            r == ident_tail(self.src@, i as int),
            i <= r <= self.src@.len(),
    {
        let mut j = i;
        while j < self.src.len()
            invariant
                i <= j <= self.src@.len(),
                ident_tail(self.src@, j as int) == ident_tail(self.src@, i as int),
            decreases self.src@.len() - j,
        {
            let c = self.src[j];
            if (65 <= c && c <= 90) || (97 <= c && c <= 122) || c == 95 || (48 <= c && c <= 57) {
                j = j + 1;
            } else if self.wide_ident(j, false) {
                j = self.char_end(j);
            } else {
                return j;
            }
        }
        j
    }

    fn ident_end(&self, i: usize) -> (r: usize)
        requires
            i <= self.src.len(),
        ensures
            r == ident_end(self.src@, i as int),
            i <= r <= self.src@.len(),
    {
        let c = self.at(i, 0);
        if (65 <= c && c <= 90) || (97 <= c && c <= 122) || c == 95 {
            self.ident_tail(i + 1)
        } else if self.wide_ident(i, true) {
            let e = self.char_end(i);
            self.ident_tail(e)
        } else {
            i
        }
    }

    fn predefined_end(&self, i: usize) -> (r: usize)
        requires
            i <= self.src.len(),
        ensures
            r == predefined_end(self.src@, i as int),
    {
        let e = self.ident_end(i);
        let b = self.src;
        let ghost t = b@.subrange(i as int, e as int);
        let n = e - i;
        if n == 4 && b[i] == 116 && b[i + 1] == 114 && b[i + 2] == 117 && b[i + 3] == 101 {
            assert(t =~= seq![116u8, 114u8, 117u8, 101u8]);
            return e;
        }
        if n == 5 && b[i] == 102 && b[i + 1] == 97 && b[i + 2] == 108 && b[i + 3] == 115 && b[i + 4]
            == 101 {
            assert(t =~= seq![102u8, 97u8, 108u8, 115u8, 101u8]);
            return e;
        }
        if n == 7 && b[i] == 110 && b[i + 1] == 117 && b[i + 2] == 108 && b[i + 3] == 108 && b[i
            + 4] == 112 && b[i + 5] == 116 && b[i + 6] == 114 {
            assert(t =~= seq![110u8, 117u8, 108u8, 108u8, 112u8, 116u8, 114u8]);
            return e;
        }
        proof {
            if t.len() >= 1 {
                assert(t[0] == b@[i as int]);
            }
            if t.len() >= 2 {
                assert(t[1] == b@[i + 1]);
            }
            if t.len() >= 3 {
                assert(t[2] == b@[i + 2]);
            }
            if t.len() >= 4 {
                assert(t[3] == b@[i + 3]);
            }
            if t.len() >= 5 {
                assert(t[4] == b@[i + 4]);
            }
            if t.len() >= 6 {
                assert(t[5] == b@[i + 5]);
            }
            if t.len() >= 7 {
                assert(t[6] == b@[i + 6]);
            }
        }
        i
    }

    fn literal_quote(&self, i: usize, q: i32) -> (r: Option<usize>)
        requires
            i <= self.src.len(),
            q >= 0,
        ensures
            match r {
                Some(p) => p == literal_quote(self.src@, i as int, q as int) && i <= p < self.src@.len(),
                None => literal_quote(self.src@, i as int, q as int) < 0,
            },
    {
        let c0 = self.at(i, 0);
        let c1 = self.at(i, 1);
        if c0 == 117 && c1 == 56 {
            if self.at(i, 2) == q {
                Some(i + 2)
            } else {
                None
            }
        } else if c0 == 117 || c0 == 85 || c0 == 76 {
            if c1 == q {
                Some(i + 1)
            } else {
                None
            }
        } else if c0 == q {
            Some(i)
        } else {
            None
        }
    }

    fn literal_body_end(&self, i: usize, q: i32) -> (r: usize)
        requires
            i <= self.src.len(),
        ensures
            r == literal_body_end(self.src@, i as int, q as int),
    {
        let mut j = i;
        while j < self.src.len()
            invariant
                i <= j <= self.src@.len(),
                literal_body_end(self.src@, j as int, q as int) == literal_body_end(
                    self.src@,
                    i as int,
                    q as int,
                ),
            decreases self.src@.len() - j,
        {
            let c = self.src[j];
            if c as i32 == q {
                return j + 1;
            } else if c == 92 {
                if j + 1 >= self.src.len() {
                    return j + 1;
                }
                j = j + 2;
            } else if c == 10 {
                return j;
            } else {
                j = j + 1;
            }
        }
        j
    }

    fn backtick_end(&self, i: usize) -> (r: usize)
        requires
            i <= self.src.len(),
        ensures
            r == backtick_end(self.src@, i as int),
    {
        let mut j = i;
        while j < self.src.len()
            invariant
                i <= j <= self.src@.len(),
                backtick_end(self.src@, j as int) == backtick_end(self.src@, i as int),
            decreases self.src@.len() - j,
        {
            if self.src[j] == 96 {
                return j + 1;
            }
            j = j + 1;
        }
        j
    }

    fn punct(&self, i: usize) -> (r: (SyntaxKind, usize))
        ensures
            r.0 == punct_at(self.src@, i as int).0,
            r.1 == punct_at(self.src@, i as int).1,
    {
        let c0 = self.at(i, 0);
        let c1 = self.at(i, 1);
        let c2 = self.at(i, 2);
        if c0 == 60 && c1 == 60 && c2 == 61 {
            (SyntaxKind::LeftShiftAssign, 3)
        } else if c0 == 62 && c1 == 62 && c2 == 61 {
            (SyntaxKind::RightShiftAssign, 3)
        } else if c0 == 46 && c1 == 46 && c2 == 46 {
            (SyntaxKind::Ellipsis, 3)
        } else if c0 == 42 && c1 == 61 {
            (SyntaxKind::MulAssign, 2)
        } else if c0 == 47 && c1 == 61 {
            (SyntaxKind::DivAssign, 2)
        } else if c0 == 37 && c1 == 61 {
            (SyntaxKind::ModAssign, 2)
        } else if c0 == 43 && c1 == 61 {
            (SyntaxKind::AddAssign, 2)
        } else if c0 == 45 && c1 == 61 {
            (SyntaxKind::SubAssign, 2)
        } else if c0 == 38 && c1 == 61 {
            (SyntaxKind::AndAssign, 2)
        } else if c0 == 94 && c1 == 61 {
            (SyntaxKind::XorAssign, 2)
        } else if c0 == 124 && c1 == 61 {
            (SyntaxKind::OrAssign, 2)
        } else if c0 == 35 && c1 == 35 {
            (SyntaxKind::HashHash, 2)
        } else if c0 == 43 && c1 == 43 {
            (SyntaxKind::Increment, 2)
        } else if c0 == 45 && c1 == 45 {
            (SyntaxKind::Decrement, 2)
        } else if c0 == 60 && c1 == 60 {
            (SyntaxKind::LeftShift, 2)
        } else if c0 == 62 && c1 == 62 {
            (SyntaxKind::RightShift, 2)
        } else if c0 == 60 && c1 == 61 {
            (SyntaxKind::LessEqual, 2)
        } else if c0 == 62 && c1 == 61 {
            (SyntaxKind::GreaterEqual, 2)
        } else if c0 == 61 && c1 == 61 {
            (SyntaxKind::Equal, 2)
        } else if c0 == 33 && c1 == 61 {
            (SyntaxKind::NotEqual, 2)
        } else if c0 == 38 && c1 == 38 {
            (SyntaxKind::LogicalAnd, 2)
        } else if c0 == 124 && c1 == 124 {
            (SyntaxKind::LogicalOr, 2)
        } else if c0 == 45 && c1 == 62 {
            (SyntaxKind::Arrow, 2)
        } else if c0 == 58 && c1 == 58 {
            (SyntaxKind::Scope, 2)
        } else if c0 == 46 {
            (SyntaxKind::Dot, 1)
        } else if c0 == 38 {
            (SyntaxKind::Ampersand, 1)
        } else if c0 == 42 {
            (SyntaxKind::Star, 1)
        } else if c0 == 43 {
            (SyntaxKind::Plus, 1)
        } else if c0 == 45 {
            (SyntaxKind::Minus, 1)
        } else if c0 == 126 {
            (SyntaxKind::Tilde, 1)
        } else if c0 == 33 {
            (SyntaxKind::Bang, 1)
        } else if c0 == 47 {
            (SyntaxKind::Slash, 1)
        } else if c0 == 37 {
            (SyntaxKind::Percent, 1)
        } else if c0 == 60 {
            (SyntaxKind::Less, 1)
        } else if c0 == 62 {
            (SyntaxKind::Greater, 1)
        } else if c0 == 94 {
            (SyntaxKind::Caret, 1)
        } else if c0 == 124 {
            (SyntaxKind::Pipe, 1)
        } else if c0 == 63 {
            (SyntaxKind::Question, 1)
        } else if c0 == 58 {
            (SyntaxKind::Colon, 1)
        } else if c0 == 59 {
            (SyntaxKind::Semicolon, 1)
        } else if c0 == 61 {
            (SyntaxKind::Assign, 1)
        } else if c0 == 44 {
            (SyntaxKind::Comma, 1)
        } else if c0 == 35 {
            (SyntaxKind::Hash, 1)
        } else {
            (SyntaxKind::Unknown, 0)
        }    }

    /// The kind and end of the token that starts at `s`.
    fn scan_token(&self, s: usize) -> (r: (SyntaxKind, usize))
        requires
            s < self.src.len(),
        ensures
            r.0 == scan_token(self.src@, s as int).0,
            r.1 == scan_token(self.src@, s as int).1,
    {
        let c = self.at(s, 0);
        if c == 40 {
            return (SyntaxKind::LeftParen, s + 1);
        } else if c == 41 {
            return (SyntaxKind::RightParen, s + 1);
        } else if c == 91 {
            return (SyntaxKind::LeftBracket, s + 1);
        } else if c == 93 {
            return (SyntaxKind::RightBracket, s + 1);
        } else if c == 123 {
            return (SyntaxKind::LeftBrace, s + 1);
        } else if c == 125 {
            return (SyntaxKind::RightBrace, s + 1);
        }
        if let Some(q) = self.literal_quote(s, 34) {
            return (SyntaxKind::StringLiteral, self.literal_body_end(q + 1, 34));
        }
        if c == 96 {
            return (SyntaxKind::QuotedString, self.backtick_end(s + 1));
        }
        let p = self.predefined_end(s);
        if p > s {
            return (SyntaxKind::PredefinedConst, p);
        }
        let f = self.float_end(s);
        if f > s {
            return (SyntaxKind::FloatConst, f);
        }
        if let Some(q) = self.literal_quote(s, 39) {
            return (SyntaxKind::CharConst, self.literal_body_end(q + 1, 39));
        }
        let n = self.int_end(s);
        if n > s {
            return (SyntaxKind::IntegerConst, n);
        }
        let e = self.ident_end(s);
        if e > s {
            return (SyntaxKind::Ident, e);
        }
        let (k, len) = self.punct(s);
        if len > 0 {
            return (k, s + len);
        }
        if c >= 128 {
            return (SyntaxKind::Unknown, self.char_end(s));
        }
        (SyntaxKind::Unknown, s + 1)
    }
}

/// Splits the bytes of a source text into tokens.
///
/// Trivia (whitespace, comments, line directives) yields no token; the
/// result is exactly [`lex_spec`] of the bytes.
pub fn lex_bytes(src: &[u8]) -> (r: Vec<RawToken>)
    requires
        src@.len() < u32::MAX,
    ensures
        r@ == lex_spec(src@),
{
    let lx = Lexer { src };
    let mut out: Vec<RawToken> = Vec::new();
    let mut i: usize = 0;
    assert(out@ + lex_from(src@, 0) =~= lex_spec(src@));
    loop
        invariant
            lx.src == src,
            src@.len() < u32::MAX,
            i <= src@.len(),
            out@ + lex_from(src@, i as int) == lex_spec(src@),
        decreases src@.len() - i,
    {
        let s = lx.skip_trivia(i);
        if s >= src.len() {
            proof {
                assert(lex_from(src@, i as int) =~= Seq::<RawToken>::empty());
                assert(out@ + lex_from(src@, i as int) =~= out@);
            }
            return out;
        }
        proof {
            lemma_scan_token(src@, s as int);
        }
        let (k, e) = lx.scan_token(s);
        let tok = RawToken { kind: k, start: s as u32, len: (e - s) as u32 };
        proof {
            assert(lex_from(src@, i as int) == seq![tok] + lex_from(src@, e as int));
            assert(out@.push(tok) + lex_from(src@, e as int) =~= out@ + (seq![tok] + lex_from(
                src@,
                e as int,
            )));
        }
        out.push(tok);
        i = e;
    }
}

// =============================================================================
// Line directives
// =============================================================================

/// A line directive starts at `p`: a `#` with only whitespace before it on
/// its line.
pub open spec fn directive_at(b: Seq<u8>, p: int) -> bool {
    byte_at(b, p) == 35 && at_line_begin(b, p)
}

/// The starts of the line directives among the trivia items from `i` on.
pub open spec fn gap_directives(b: Seq<u8>, i: int) -> Seq<int>
    decreases b.len() - i,
{
    let j = trivia_step(b, i);
    if 0 <= i < j <= b.len() {
        (if directive_at(b, i) {
            seq![i]
        } else {
            Seq::empty()
        }) + gap_directives(b, j)
    } else {
        Seq::empty()
    }
}

/// The starts of the line directives in the trivia before each of the next
/// `n` tokens from `i`; past the last token, in the trivia that ends the
/// input.
pub open spec fn directives_upto(b: Seq<u8>, i: int, n: nat) -> Seq<int>
    decreases n,
{
    if n == 0 {
        Seq::empty()
    } else {
        let s = skip_trivia(b, i);
        let t = scan_token(b, s);
        if i <= s < t.1 <= b.len() {
            gap_directives(b, i) + directives_upto(b, t.1, (n - 1) as nat)
        } else {
            gap_directives(b, i)
        }
    }
}

/// Where the next `n` tokens from `i` end (`i` itself for none).
pub open spec fn pos_after(b: Seq<u8>, i: int, n: nat) -> int
    decreases n,
{
    if n == 0 {
        i
    } else {
        let s = skip_trivia(b, i);
        let t = scan_token(b, s);
        if i <= s < t.1 <= b.len() {
            pos_after(b, t.1, (n - 1) as nat)
        } else {
            i
        }
    }
}

/// The first position from `i` on, before `e`, that is not whitespace.
pub open spec fn skip_spaces(b: Seq<u8>, i: int, e: int) -> int
    decreases e - i,
{
    if i < e && is_space(byte_at(b, i)) {
        skip_spaces(b, i + 1, e)
    } else if i < e && wide_space_at(b, i) && i < char_end(b, i) <= e {
        skip_spaces(b, char_end(b, i), e)
    } else {
        i
    }
}

/// The first position from `i` on, before `e`, where whitespace starts.
pub open spec fn word_end(b: Seq<u8>, i: int, e: int) -> int
    decreases e - i,
{
    if i < e && !is_space(byte_at(b, i)) && !wide_space_at(b, i) {
        word_end(b, i + 1, e)
    } else {
        i
    }
}

/// The number that the decimal digits `ds` write.
pub open spec fn decimal_value(ds: Seq<u8>) -> int
    decreases ds.len(),
{
    if ds.len() == 0 {
        0
    } else {
        decimal_value(ds.drop_last()) * 10 + (ds.last() - 48)
    }
}

/// The `i32` that the bytes `s..e` of `b` write: an optional `+` or `-` and
/// at least one decimal digit, within the range of `i32`.
pub open spec fn parse_i32(b: Seq<u8>, s: int, e: int) -> Option<i32> {
    let signed = s < e && (byte_at(b, s) == 43 || byte_at(b, s) == 45);
    let d = if signed {
        s + 1
    } else {
        s
    };
    let v = if signed && byte_at(b, s) == 45 {
        -decimal_value(b.subrange(d, e))
    } else {
        decimal_value(b.subrange(d, e))
    };
    if d < e && (forall|k: int| d <= k < e ==> is_digit(byte_at(b, k))) && i32::MIN <= v <= i32::MAX {
        Some(v as i32)
    } else {
        None
    }
}

/// Past the double quotes that start the range `i..e`.
pub open spec fn trim_quotes_start(b: Seq<u8>, i: int, e: int) -> int
    decreases e - i,
{
    if i < e && byte_at(b, i) == 34 {
        trim_quotes_start(b, i + 1, e)
    } else {
        i
    }
}

/// Before the double quotes that end the range `s..e`.
pub open spec fn trim_quotes_end(b: Seq<u8>, s: int, e: int) -> int
    decreases e - s,
{
    if s < e && byte_at(b, e - 1) == 34 {
        trim_quotes_end(b, s, e - 1)
    } else {
        e
    }
}

/// The line marker of the directive at `p`, if it is one: a directive whose
/// first two words (separated by whitespace) are an `i32` line number and a
/// name. Gives the line number and the byte range of the name without the
/// double quotes around it.
pub open spec fn line_marker(b: Seq<u8>, p: int) -> Option<(i32, int, int)> {
    let le = line_comment_end(b, p + 1);
    let s1 = skip_spaces(b, p + 1, le);
    let e1 = word_end(b, s1, le);
    let s2 = skip_spaces(b, e1, le);
    let e2 = word_end(b, s2, le);
    let fs = trim_quotes_start(b, s2, e2);
    if s1 < e1 && s2 < e2 && parse_i32(b, s1, e1) is Some {
        Some((parse_i32(b, s1, e1)->0, fs, trim_quotes_end(b, fs, e2)))
    } else {
        None
    }
}

/// The number of line feeds in `s`.
pub open spec fn newlines(s: Seq<u8>) -> int
    decreases s.len(),
{
    if s.len() == 0 {
        0
    } else {
        newlines(s.drop_last()) + if s.last() == 10 {
            1int
        } else {
            0int
        }
    }
}

/// The number of the line that follows the directive at `p`.
pub open spec fn line_after(b: Seq<u8>, p: int) -> int {
    1 + newlines(b.subrange(0, directive_end(b, p + 1)))
}

/// The line markers among the directives `ds`.
pub open spec fn markers(b: Seq<u8>, ds: Seq<int>) -> Seq<int>
    decreases ds.len(),
{
    if ds.len() == 0 {
        Seq::empty()
    } else {
        markers(b, ds.drop_last()) + if line_marker(b, ds.last()) is Some {
            seq![ds.last()]
        } else {
            Seq::empty()
        }
    }
}

/// `c` is the context that the line marker at `p` introduces: it is named
/// by the marker's name, and its line offset is the number of the line after
/// the marker less the marker's line number (wrapping around).
pub open spec fn marker_context(c: SourceContext, b: Seq<u8>, p: int) -> bool {
    let m = line_marker(b, p)->0;
    &&& c.filename@ == vstd::utf8::decode_utf8(b.subrange(m.1, m.2))
    &&& c.line_offset == (line_after(b, p) as i32).wrapping_sub(m.0)
}

/// `cs` are the contexts that the line markers `ms` introduce, in order.
pub open spec fn contexts_for(cs: Seq<SourceContext>, b: Seq<u8>, ms: Seq<int>) -> bool {
    &&& cs.len() == ms.len()
    &&& forall|k: int| 0 <= k < cs.len() ==> marker_context(#[trigger] cs[k], b, ms[k])
}

proof fn lemma_skip_spaces(b: Seq<u8>, i: int, e: int)
    requires
        0 <= i <= e <= b.len(),
    ensures
        i <= skip_spaces(b, i, e) <= e,
        skip_spaces(b, i, e) > i ==> ascii_edge(b, skip_spaces(b, i, e)),
    decreases e - i,
{
    if i < e && is_space(byte_at(b, i)) {
        lemma_skip_spaces(b, i + 1, e);
    } else if i < e && wide_space_at(b, i) && i < char_end(b, i) <= e {
        lemma_char_end(b, i);
        lemma_skip_spaces(b, char_end(b, i), e);
    }
}

proof fn lemma_word_end(b: Seq<u8>, i: int, e: int)
    requires
        0 <= i <= e <= b.len(),
    ensures
        i <= word_end(b, i, e) <= e,
        word_end(b, i, e) < e ==> ascii_edge(b, word_end(b, i, e)),
    decreases e - i,
{
    if i < e && !is_space(byte_at(b, i)) && !wide_space_at(b, i) {
        lemma_word_end(b, i + 1, e);
    }
}

proof fn lemma_trim_quotes(b: Seq<u8>, i: int, e: int)
    requires
        i <= e,
    ensures
        i <= trim_quotes_start(b, i, e) <= e,
        trim_quotes_start(b, i, e) > i ==> byte_at(b, trim_quotes_start(b, i, e) - 1) == 34,
        i <= trim_quotes_end(b, i, e) <= e,
        trim_quotes_end(b, i, e) < e ==> byte_at(b, trim_quotes_end(b, i, e)) == 34,
    decreases e - i,
{
    if i < e && byte_at(b, i) == 34 {
        lemma_trim_quotes(b, i + 1, e);
    }
    if i < e && byte_at(b, e - 1) == 34 {
        lemma_trim_quotes(b, i, e - 1);
    }
}

proof fn lemma_line_comment_stop(b: Seq<u8>, i: int)
    requires
        0 <= i <= b.len(),
    ensures
        line_comment_end(b, i) == b.len() || b[line_comment_end(b, i)] == 10,
    decreases b.len() - i,
{
    if i < b.len() && b[i] != 10 {
        lemma_line_comment_stop(b, i + 1);
    }
}

/// The name of a line marker lies within the input, between character
/// boundaries.
proof fn lemma_marker_name(b: Seq<u8>, p: int)
    requires
        vstd::utf8::valid_utf8(b),
        0 <= p < b.len(),
        line_marker(b, p) is Some,
    ensures
        0 <= (line_marker(b, p)->0).1 <= (line_marker(b, p)->0).2 <= b.len(),
        vstd::utf8::is_char_boundary(b, (line_marker(b, p)->0).1),
        vstd::utf8::is_char_boundary(b, (line_marker(b, p)->0).2),
{
    let le = line_comment_end(b, p + 1);
    lemma_line_comment_end(b, p + 1);
    lemma_line_comment_stop(b, p + 1);
    let s1 = skip_spaces(b, p + 1, le);
    lemma_skip_spaces(b, p + 1, le);
    let e1 = word_end(b, s1, le);
    lemma_word_end(b, s1, le);
    let s2 = skip_spaces(b, e1, le);
    lemma_skip_spaces(b, e1, le);
    let e2 = word_end(b, s2, le);
    lemma_word_end(b, s2, le);
    let fs = trim_quotes_start(b, s2, e2);
    lemma_trim_quotes(b, s2, e2);
    let fe = trim_quotes_end(b, fs, e2);
    lemma_trim_quotes(b, fs, e2);
    assert(e1 < le);
    assert(ascii_edge(b, fs));
    assert(ascii_edge(b, fe));
    lemma_ascii_edge_boundary(b, fs);
    lemma_ascii_edge_boundary(b, fe);
}

proof fn lemma_decimal_nonneg(b: Seq<u8>, d: int, j: int)
    requires
        0 <= d <= j <= b.len(),
        forall|k: int| d <= k < j ==> is_digit(byte_at(b, k)),
    ensures
        decimal_value(b.subrange(d, j)) >= 0,
    decreases j - d,
{
    if j > d {
        lemma_decimal_nonneg(b, d, j - 1);
        assert(b.subrange(d, j).drop_last() =~= b.subrange(d, j - 1));
        assert(b.subrange(d, j).last() == b[j - 1]);
        assert(is_digit(byte_at(b, j - 1)));
        let v = decimal_value(b.subrange(d, j - 1));
        assert(v * 10 >= 0) by (nonlinear_arith)
            requires
                v >= 0,
        ;
    }
}

proof fn lemma_markers_push(b: Seq<u8>, ds: Seq<int>, q: int)
    ensures
        markers(b, ds.push(q)) == markers(b, ds) + if line_marker(b, q) is Some {
            seq![q]
        } else {
            Seq::<int>::empty()
        },
{
    assert(ds.push(q).drop_last() =~= ds);
}

proof fn lemma_markers_len(b: Seq<u8>, ds: Seq<int>)
    ensures
        markers(b, ds).len() <= ds.len(),
    decreases ds.len(),
{
    if ds.len() > 0 {
        lemma_markers_len(b, ds.drop_last());
    }
}

// =============================================================================
// Lexing into tokens with values
// =============================================================================

/// The characters of the text of raw token `t` of `b`.
pub open spec fn raw_text(b: Seq<u8>, t: RawToken) -> Seq<char> {
    vstd::utf8::decode_utf8(b.subrange(t.start as int, t.start + t.len))
}

/// End of the run of string literals that starts at raw token `i`; just
/// `i + 1` for a token of another kind.
pub open spec fn literal_run_end(ts: Seq<RawToken>, i: int) -> int
    decreases ts.len() - i,
{
    if 0 <= i && i + 1 < ts.len() && ts[i].kind == SyntaxKind::StringLiteral && ts[i + 1].kind
        == SyntaxKind::StringLiteral {
        literal_run_end(ts, i + 1)
    } else {
        i + 1
    }
}

/// The raw tokens from `i` on, grouped into the tokens they make, as index
/// ranges: adjacent string literals make one token, every other raw token
/// one token of its own.
pub open spec fn token_groups(ts: Seq<RawToken>, i: int) -> Seq<(int, int)>
    decreases ts.len() - i,
{
    if 0 <= i < ts.len() && i < literal_run_end(ts, i) <= ts.len() {
        seq![(i, literal_run_end(ts, i))] + token_groups(ts, literal_run_end(ts, i))
    } else {
        Seq::empty()
    }
}

/// `t` is the token that the raw tokens `ts[a..e]` of `b` make, in the
/// context numbered `ctx`: it spans them all, and stands for the concatenated string literals
/// they write, or for what the single raw token stands for.
pub open spec fn lexed(
    t: Spanned<BalancedToken>,
    b: Seq<u8>,
    ts: Seq<RawToken>,
    a: int,
    e: int,
    ctx: int,
) -> bool {
    &&& t.span.spec_start() == ts[a].start
    &&& t.span.spec_end() == ts[e - 1].start + ts[e - 1].len
    &&& t.span.spec_context().value() == ctx
    &&& if ts[a].kind == SyntaxKind::StringLiteral {
        &&& t.value matches BalancedToken::StringLiteral(sl)
        &&& sl.0@.len() == e - a
        &&& forall|m: int| 0 <= m < e - a ==> string_literal_of(#[trigger] sl.0@[m], raw_text(b, ts[a + m]))
    } else {
        e == a + 1 && token_reads(t.value, ts[a].kind, raw_text(b, ts[a]))
    }
}

proof fn lemma_literal_run_end(ts: Seq<RawToken>, i: int)
    requires
        0 <= i < ts.len(),
    ensures
        i < literal_run_end(ts, i) <= ts.len(),
        forall|m: int| i <= m < literal_run_end(ts, i) && ts[i].kind == SyntaxKind::StringLiteral ==> (
        #[trigger] ts[m]).kind == SyntaxKind::StringLiteral,
        ts[i].kind != SyntaxKind::StringLiteral ==> literal_run_end(ts, i) == i + 1,
    decreases ts.len() - i,
{
    if i + 1 < ts.len() && ts[i].kind == SyntaxKind::StringLiteral && ts[i + 1].kind
        == SyntaxKind::StringLiteral {
        lemma_literal_run_end(ts, i + 1);
    }
}

/// Tokens that follow each other start at increasing positions.
proof fn lemma_starts_increase(ts: Seq<RawToken>, n: int, a: int, c: int)
    requires
        tokens_within(ts, n),
        0 <= a <= c < ts.len(),
    ensures
        ts[a].start <= ts[c].start,
    decreases c - a,
{
    if a < c {
        lemma_starts_increase(ts, n, a, c - 1);
        assert(ts[c - 1].start + ts[c - 1].len <= ts[c].start);
    }
}

/// Every token the scanner finds is read back into a token.
proof fn lemma_scan_token_carries(b: Seq<u8>, s: int)
    ensures
        scan_token(b, s).1 > s ==> carries(scan_token(b, s).0),
{
}

/// Every raw token of the source is read back into a token, and lies on
/// character boundaries of it.
pub proof fn lemma_raw_tokens(b: Seq<u8>, i: int)
    requires
        vstd::utf8::valid_utf8(b),
        b.len() < u32::MAX,
        0 <= i <= b.len(),
        i == 0 || ascii_edge(b, i),
    ensures
        forall|k: int|
            0 <= k < lex_from(b, i).len() ==> {
                let t = #[trigger] lex_from(b, i)[k];
                &&& carries(t.kind)
                &&& t.start + t.len <= b.len()
                &&& vstd::utf8::is_char_boundary(b, t.start as int)
                &&& vstd::utf8::is_char_boundary(b, t.start + t.len)
            },
    decreases b.len() - i,
{
    lemma_lex_from_edges(b, i);
    lemma_lex_from_within(b, i);
    let s = skip_trivia(b, i);
    lemma_skip_trivia(b, i);
    let t = scan_token(b, s);
    if i <= s < t.1 <= b.len() {
        lemma_scan_token_carries(b, s);
        lemma_scan_token_edge(b, s);
        lemma_raw_tokens(b, t.1);
        let head = RawToken { kind: t.0, start: s as u32, len: (t.1 - s) as u32 };
        assert(lex_from(b, i) == seq![head] + lex_from(b, t.1));
        assert forall|k: int| 0 <= k < lex_from(b, i).len() implies {
            let tk = #[trigger] lex_from(b, i)[k];
            &&& carries(tk.kind)
            &&& tk.start + tk.len <= b.len()
            &&& vstd::utf8::is_char_boundary(b, tk.start as int)
            &&& vstd::utf8::is_char_boundary(b, tk.start + tk.len)
        } by {
            let tk = lex_from(b, i)[k];
            assert(tk.start == 0 || ascii_edge(b, tk.start as int));
            assert(ascii_edge(b, tk.start + tk.len));
            lemma_ascii_edge_boundary(b, tk.start as int);
            lemma_ascii_edge_boundary(b, tk.start + tk.len);
            if k > 0 {
                assert(tk == lex_from(b, t.1)[k - 1]);
            }
        }
    }
}

/// The characters of the text of raw token `t` of `source`.
fn raw_chars(source: &str, t: RawToken) -> (r: Vec<char>)
    requires
        t.start + t.len <= source.spec_bytes().len(),
        vstd::utf8::is_char_boundary(source.spec_bytes(), t.start as int),
        vstd::utf8::is_char_boundary(source.spec_bytes(), t.start + t.len),
    ensures
        r@ == raw_text(source.spec_bytes(), t),
{
    let _len = source.as_bytes().len();
    let piece = crate::red::str_slice(source, t.start as usize, t.start as usize + t.len as usize);
    proof {
        vstd::utf8::encode_utf8_decode_utf8(piece@);
    }
    chars_of(piece)
}

/// The requirements of the readers on the raw tokens of `b`: each is read
/// back into a token, and its text lies on character boundaries of `b`.
pub open spec fn raw_tokens_readable(ts: Seq<RawToken>, b: Seq<u8>) -> bool {
    forall|k: int|
        0 <= k < ts.len() ==> {
            let t = #[trigger] ts[k];
            &&& carries(t.kind)
            &&& t.start + t.len <= b.len()
            &&& vstd::utf8::is_char_boundary(b, t.start as int)
            &&& vstd::utf8::is_char_boundary(b, t.start + t.len)
        }
}

/// The string literals of the run of raw tokens that starts at `i`, and the
/// index of the first raw token after the run.
fn lex_literals(source: &str, raw: &Vec<RawToken>, i: usize) -> (r: (Vec<StringLiteral>, usize))
    requires
        i < raw.len(),
        raw@[i as int].kind == SyntaxKind::StringLiteral,
        raw_tokens_readable(raw@, source.spec_bytes()),
    ensures
        r.1 == literal_run_end(raw@, i as int),
        r.0@.len() == r.1 - i,
        forall|m: int|
            0 <= m < r.1 - i ==> string_literal_of(
                #[trigger] r.0@[m],
                raw_text(source.spec_bytes(), raw@[i + m]),
            ),
{
    let ghost b = source.spec_bytes();
    let ghost ts = raw@;
    let mut lits: Vec<StringLiteral> = Vec::new();
    let mut j = i;
    loop
        invariant_except_break
            lits@.len() == j - i,
            forall|m: int| 0 <= m < j - i ==> string_literal_of(#[trigger] lits@[m], raw_text(b, ts[i + m])),
        invariant
            raw@ == ts,
            b == source.spec_bytes(),
            i <= j < raw.len(),
            ts[j as int].kind == SyntaxKind::StringLiteral,
            literal_run_end(ts, i as int) == literal_run_end(ts, j as int),
            raw_tokens_readable(ts, b),
        ensures
            literal_run_end(ts, i as int) == j + 1,
            lits@.len() == j + 1 - i,
            forall|m: int| 0 <= m < j + 1 - i ==> string_literal_of(#[trigger] lits@[m], raw_text(b, ts[i + m])),
        decreases raw.len() - j,
    {
        proof {
            assert(carries(ts[j as int].kind));
        }
        let cs = raw_chars(source, raw[j]);
        lits.push(crate::value::string_literal(cs.as_slice()));
        if j + 1 < raw.len() && raw[j + 1].kind == SyntaxKind::StringLiteral {
            j = j + 1;
        } else {
            break;
        }
    }
    (lits, j + 1)
}

/// The token that the raw tokens from `i` on make (see [`lexed`]), and the
/// index of the first raw token after them.
#[verifier::rlimit(30)]
#[verifier::spinoff_prover]
fn lex_group(source: &str, raw: &Vec<RawToken>, i: usize, ctx: ContextId) -> (r: (Spanned<BalancedToken>, usize))
    requires
        i < raw.len(),
        raw@ == lex_spec(source.spec_bytes()),
        source.spec_bytes().len() < u32::MAX,
        raw_tokens_readable(raw@, source.spec_bytes()),
    ensures
        r.1 == literal_run_end(raw@, i as int),
        lexed(r.0, source.spec_bytes(), raw@, i as int, r.1 as int, ctx.value()),
{
    let ghost b = source.spec_bytes();
    let ghost ts = raw@;
    proof {
        lemma_literal_run_end(ts, i as int);
    }
    let first = raw[i];
    let (value, end): (BalancedToken, usize) = if first.kind == SyntaxKind::StringLiteral {
        let (lits, end) = lex_literals(source, raw, i);
        (BalancedToken::StringLiteral(StringLiterals(lits)), end)
    } else {
        proof {
            assert(carries(ts[i as int].kind));
        }
        let cs = raw_chars(source, first);
        let t = read_token(first.kind, cs.as_slice());
        (t.unwrap(), i + 1)
    };
    let last = raw[end - 1];
    proof {
        lemma_lex_within(b);
        lemma_starts_increase(ts, b.len() as int, i as int, end - 1);
    }
    let span = Span::new(first.start as usize..last.start as usize + last.len as usize, ctx);
    (Spanned::new(value, span), end)
}

proof fn lemma_markers_concat(b: Seq<u8>, a: Seq<int>, c: Seq<int>)
    ensures
        markers(b, a + c) == markers(b, a) + markers(b, c),
    decreases c.len(),
{
    if c.len() == 0 {
        assert(a + c =~= a);
        assert(markers(b, a) + Seq::<int>::empty() =~= markers(b, a));
    } else {
        assert((a + c).drop_last() =~= a + c.drop_last());
        assert((a + c).last() == c.last());
        lemma_markers_concat(b, a, c.drop_last());
        let tail = if line_marker(b, c.last()) is Some {
            seq![c.last()]
        } else {
            Seq::<int>::empty()
        };
        assert(markers(b, a) + markers(b, c.drop_last()) + tail =~= markers(b, a) + (markers(
            b,
            c.drop_last(),
        ) + tail));
    }
}

/// Contexts appended after those of the markers `m1` are those of `m1 + m2`.
proof fn lemma_contexts_concat(
    c1: Seq<SourceContext>,
    c2: Seq<SourceContext>,
    base: int,
    b: Seq<u8>,
    m1: Seq<int>,
    m2: Seq<int>,
)
    requires
        0 <= base <= c1.len() <= c2.len(),
        c2.take(c1.len() as int) == c1,
        contexts_for(c1.skip(base), b, m1),
        contexts_for(c2.skip(c1.len() as int), b, m2),
    ensures
        contexts_for(c2.skip(base), b, m1 + m2),
        c2.take(base) == c1.take(base),
        c2.len() == c1.len() + m2.len(),
{
    assert(c2.take(base) =~= c1.take(base)) by {
        assert forall|k: int| 0 <= k < base implies c2.take(base)[k] == c1.take(base)[k] by {
            assert(c2.take(c1.len() as int)[k] == c2[k]);
        }
    }
    let cs = c2.skip(base);
    let ms = m1 + m2;
    assert forall|k: int| 0 <= k < cs.len() implies marker_context(#[trigger] cs[k], b, ms[k]) by {
        if k < m1.len() {
            assert(cs[k] == c1.skip(base)[k]) by {
                assert(c2.take(c1.len() as int)[base + k] == c2[base + k]);
            }
            assert(ms[k] == m1[k]);
        } else {
            assert(cs[k] == c2.skip(c1.len() as int)[k - m1.len()]);
            assert(ms[k] == m2[k - m1.len()]);
        }
    }
}

/// Walking `n` tokens from `i`: what is left to lex, the directives met,
/// and where the walk stands.
proof fn lemma_walk(b: Seq<u8>, i: int, n: nat)
    requires
        0 <= i <= b.len(),
        b.len() < u32::MAX,
        n <= lex_from(b, i).len(),
    ensures
        i <= pos_after(b, i, n) <= b.len(),
        lex_from(b, pos_after(b, i, n)) == lex_from(b, i).skip(n as int),
        directives_upto(b, i, n + 1) == directives_upto(b, i, n) + gap_directives(b, pos_after(b, i, n)),
        n < lex_from(b, i).len() ==> pos_after(b, i, n + 1) == lex_from(b, i)[n as int].start + lex_from(
            b,
            i,
        )[n as int].len,
    decreases n,
{
    let s = skip_trivia(b, i);
    lemma_skip_trivia(b, i);
    if s < b.len() {
        lemma_scan_token(b, s);
    }
    let t = scan_token(b, s);
    if n == 0 {
        assert(lex_from(b, i).skip(0) =~= lex_from(b, i));
        if i <= s < t.1 <= b.len() {
            let head = RawToken { kind: t.0, start: s as u32, len: (t.1 - s) as u32 };
            assert(lex_from(b, i) == seq![head] + lex_from(b, t.1));
            assert(lex_from(b, i)[0] == head);
            assert(head.start + head.len == t.1);
            assert(pos_after(b, i, 1) == pos_after(b, t.1, 0));
            assert(directives_upto(b, i, 1) == gap_directives(b, i) + directives_upto(b, t.1, 0));
            assert(gap_directives(b, i) + Seq::<int>::empty() =~= gap_directives(b, i));
        }
        assert(Seq::<int>::empty() + gap_directives(b, i) =~= gap_directives(b, i));
    } else {
        assert(i <= s < t.1 <= b.len());
        let head = RawToken { kind: t.0, start: s as u32, len: (t.1 - s) as u32 };
        assert(lex_from(b, i) == seq![head] + lex_from(b, t.1));
        lemma_walk(b, t.1, (n - 1) as nat);
        assert(pos_after(b, i, n) == pos_after(b, t.1, (n - 1) as nat));
        assert(lex_from(b, i).skip(n as int) =~= lex_from(b, t.1).skip(n - 1));
        assert(directives_upto(b, i, n + 1) == gap_directives(b, i) + directives_upto(b, t.1, n));
        assert(directives_upto(b, i, n) == gap_directives(b, i) + directives_upto(b, t.1, (n - 1) as nat));
        assert(gap_directives(b, i) + (directives_upto(b, t.1, (n - 1) as nat) + gap_directives(
            b,
            pos_after(b, i, n),
        )) =~= (gap_directives(b, i) + directives_upto(b, t.1, (n - 1) as nat)) + gap_directives(
            b,
            pos_after(b, i, n),
        ));
        if n < lex_from(b, i).len() {
            assert(lex_from(b, i)[n as int] == lex_from(b, t.1)[n - 1]);
            assert(pos_after(b, i, n + 1) == pos_after(b, t.1, n));
        }
    }
}

/// Insert into `map` the context of each line marker among the trivia items
/// from `pos` on; returns where the trivia ends. `*nl_count` counts the line
/// feeds before `*nl_pos`.
fn gap_contexts(
    lx: &Lexer,
    source: &str,
    pos: usize,
    map: &mut ContextMapping,
    nl_pos: &mut usize,
    nl_count: &mut usize,
) -> (r: usize)
    requires
        lx.src@ == source.spec_bytes(),
        vstd::utf8::valid_utf8(lx.src@),
        lx.src@.len() < i32::MAX - 1,
        pos <= lx.src@.len(),
        *old(nl_pos) <= pos,
        *old(nl_count) == newlines(lx.src@.subrange(0, *old(nl_pos) as int)),
        *old(nl_count) <= *old(nl_pos),
        old(map).contexts().len() <= 1 + pos,
    ensures
        r == skip_trivia(lx.src@, pos as int),
        final(map).source_text() == old(map).source_text(),
        final(map).contexts().len() >= old(map).contexts().len(),
        final(map).contexts().take(old(map).contexts().len() as int) == old(map).contexts(),
        contexts_for(
            final(map).contexts().skip(old(map).contexts().len() as int),
            lx.src@,
            markers(lx.src@, gap_directives(lx.src@, pos as int)),
        ),
        final(map).contexts().len() <= 1 + r,
        *final(nl_pos) <= r,
        *final(nl_count) == newlines(lx.src@.subrange(0, *final(nl_pos) as int)),
        *final(nl_count) <= *final(nl_pos),
{
    let ghost b = lx.src@;
    let ghost c0 = map.contexts();
    let mut q = pos;
    let ghost mut g: Seq<int> = Seq::empty();
    proof {
        assert(map.contexts().take(c0.len() as int) =~= c0);
        assert(map.contexts().skip(c0.len() as int) =~= Seq::<SourceContext>::empty());
        assert(Seq::<int>::empty() + gap_directives(b, q as int) =~= gap_directives(b, q as int));
    }
    loop
        invariant
            pos <= q <= b.len(),
            b == lx.src@,
            b == source.spec_bytes(),
            vstd::utf8::valid_utf8(b),
            b.len() < i32::MAX - 1,
            gap_directives(b, pos as int) == g + gap_directives(b, q as int),
            skip_trivia(b, pos as int) == skip_trivia(b, q as int),
            map.source_text() == old(map).source_text(),
            map.contexts().len() >= c0.len(),
            map.contexts().take(c0.len() as int) == c0,
            c0 == old(map).contexts(),
            contexts_for(map.contexts().skip(c0.len() as int), b, markers(b, g)),
            map.contexts().len() <= 1 + q,
            *nl_pos <= q,
            *nl_count == newlines(b.subrange(0, *nl_pos as int)),
            *nl_count <= *nl_pos,
        decreases b.len() - q,
    {
        proof {
            lemma_trivia_step(b, q as int);
        }
        let j = lx.trivia_step(q);
        if j == q {
            proof {
                assert(gap_directives(b, q as int) == Seq::<int>::empty());
                assert(g + Seq::<int>::empty() =~= g);
            }
            return q;
        }
        let ghost before = map.contexts();
        proof {
            assert(gap_directives(b, q as int) == (if directive_at(b, q as int) {
                seq![q as int]
            } else {
                Seq::<int>::empty()
            }) + gap_directives(b, j as int));
        }
        if lx.src[q] == 35 && lx.at_line_begin(q) {
            proof {
                assert(directive_at(b, q as int));
                assert(j == directive_end(b, q + 1));
                lemma_markers_push(b, g, q as int);
            }
            match lx.line_marker(q) {
                Some((n, fs, fe)) => {
                    lx.count_newlines(nl_pos, nl_count, j);
                    let lineno = (*nl_count + 1) as i32;
                    proof {
                        lemma_marker_name(b, q as int);
                    }
                    let name = String::from_str(crate::red::str_slice(source, fs, fe));
                    proof {
                        vstd::utf8::encode_utf8_decode_utf8(name@);
                    }
                    let ctx = SourceContext { filename: name, line_offset: lineno.wrapping_sub(n) };
                    map.insert_context(ctx);
                    proof {
                        assert(map.contexts() == before.push(ctx));
                        assert(map.contexts().take(c0.len() as int) =~= before.take(c0.len() as int));
                        assert(map.contexts().skip(c0.len() as int) =~= before.skip(c0.len() as int).push(ctx));
                        assert(marker_context(ctx, b, q as int));
                        let cs = map.contexts().skip(c0.len() as int);
                        let ms = markers(b, g.push(q as int));
                        assert(ms == markers(b, g).push(q as int));
                        assert forall|k: int| 0 <= k < cs.len() implies marker_context(#[trigger] cs[k], b, ms[k]) by {
                            if k < cs.len() - 1 {
                                assert(cs[k] == before.skip(c0.len() as int)[k]);
                                assert(ms[k] == markers(b, g)[k]);
                            }
                        }
                    }
                },
                None => {
                    proof {
                        assert(markers(b, g.push(q as int)) =~= markers(b, g));
                    }
                },
            }
            proof {
                assert(g.push(q as int) + gap_directives(b, j as int) =~= g + (seq![q as int] + gap_directives(
                    b,
                    j as int,
                )));
                g = g.push(q as int);
            }
        } else {
            proof {
                assert(!directive_at(b, q as int));
                assert(g + (Seq::<int>::empty() + gap_directives(b, j as int)) =~= g + gap_directives(
                    b,
                    j as int,
                ));
            }
        }
        q = j;
    }
}

/// One step of the walk over the raw tokens `ts` of `b`: from `pos`, where
/// raw token `j` is next, to its end.
#[verifier::rlimit(40)]
#[verifier::spinoff_prover]
proof fn lemma_walk_step(b: Seq<u8>, ts: Seq<RawToken>, j: int, pos: int)
    requires
        ts == lex_from(b, 0),
        b.len() < u32::MAX,
        0 <= j < ts.len(),
        pos == pos_after(b, 0, j as nat),
        lex_from(b, pos) == ts.skip(j),
    ensures
        skip_trivia(b, pos) == ts[j].start,
        pos <= ts[j].start < ts[j].start + ts[j].len <= b.len(),
        pos_after(b, 0, (j + 1) as nat) == ts[j].start + ts[j].len,
        lex_from(b, ts[j].start + ts[j].len) == ts.skip(j + 1),
        directives_upto(b, 0, (j + 1) as nat) == directives_upto(b, 0, j as nat) + gap_directives(b, pos),
{
    lemma_walk(b, 0, j as nat);
    lemma_walk(b, 0, (j + 1) as nat);
    lemma_lex_from_within(b, 0);
    lemma_skip_trivia(b, pos);
    let s = skip_trivia(b, pos);
    assert(ts.skip(j)[0] == ts[j]);
    assert(ts.skip(j).skip(1) =~= ts.skip(j + 1));
    if s < b.len() {
        lemma_scan_token(b, s);
    }
    let t = scan_token(b, s);
    assert(lex_from(b, pos).len() > 0);
    assert(pos <= s < t.1 <= b.len());
    let head = RawToken { kind: t.0, start: s as u32, len: (t.1 - s) as u32 };
    assert(lex_from(b, pos) == seq![head] + lex_from(b, t.1));
    assert(lex_from(b, pos)[0] == head);
}

/// Insert into `map` the contexts of the line markers in the trivia before
/// each raw token of the group that starts at raw token `i`; returns where
/// the group ends.
#[verifier::rlimit(60)]
#[verifier::spinoff_prover]
fn group_contexts(
    lx: &Lexer,
    source: &str,
    raw: &Vec<RawToken>,
    i: usize,
    pos: usize,
    map: &mut ContextMapping,
    nl_pos: &mut usize,
    nl_count: &mut usize,
    Ghost(base): Ghost<int>,
) -> (r: usize)
    requires
        raw@ == lex_from(source.spec_bytes(), 0),
        lx.src@ == source.spec_bytes(),
        vstd::utf8::valid_utf8(lx.src@),
        lx.src@.len() < i32::MAX - 1,
        i < raw.len(),
        pos == pos_after(lx.src@, 0, i as nat),
        pos <= lx.src@.len(),
        lex_from(lx.src@, pos as int) == raw@.skip(i as int),
        0 <= base <= old(map).contexts().len(),
        old(map).contexts().len() == base + markers(lx.src@, directives_upto(lx.src@, 0, i as nat)).len(),
        contexts_for(old(map).contexts().skip(base), lx.src@, markers(lx.src@, directives_upto(lx.src@, 0, i as nat))),
        old(map).contexts().len() <= 1 + pos,
        *old(nl_pos) <= pos,
        *old(nl_count) == newlines(lx.src@.subrange(0, *old(nl_pos) as int)),
        *old(nl_count) <= *old(nl_pos),
    ensures
        ({
            let b = lx.src@;
            let e = literal_run_end(raw@, i as int);
            &&& r == pos_after(b, 0, e as nat)
            &&& r <= b.len()
            &&& lex_from(b, r as int) == raw@.skip(e)
            &&& final(map).source_text() == old(map).source_text()
            &&& final(map).contexts().len() == base + markers(b, directives_upto(b, 0, e as nat)).len()
            &&& final(map).contexts().take(base) == old(map).contexts().take(base)
            &&& contexts_for(final(map).contexts().skip(base), b, markers(b, directives_upto(b, 0, e as nat)))
            &&& final(map).contexts().len() <= 1 + r
            &&& *final(nl_pos) <= r
            &&& *final(nl_count) == newlines(b.subrange(0, *final(nl_pos) as int))
            &&& *final(nl_count) <= *final(nl_pos)
        }),
{
    let ghost b = lx.src@;
    let ghost ts = raw@;
    let ghost c0 = map.contexts();
    proof {
        lemma_literal_run_end(ts, i as int);
    }
    let ghost e = literal_run_end(ts, i as int);
    let mut j = i;
    let mut pos = pos;
    loop
        invariant_except_break
            pos == pos_after(b, 0, j as nat),
            pos <= b.len(),
            lex_from(b, pos as int) == ts.skip(j as int),
            map.contexts().len() == base + markers(b, directives_upto(b, 0, j as nat)).len(),
            contexts_for(map.contexts().skip(base), b, markers(b, directives_upto(b, 0, j as nat))),
            map.contexts().len() <= 1 + pos,
            *nl_pos <= pos,
        invariant
            raw@ == ts,
            ts == lex_from(b, 0),
            lx.src@ == b,
            b == source.spec_bytes(),
            vstd::utf8::valid_utf8(b),
            b.len() < i32::MAX - 1,
            i <= j < raw.len(),
            e == literal_run_end(ts, i as int),
            j < e,
            literal_run_end(ts, i as int) == literal_run_end(ts, j as int),
            ts[j as int].kind == SyntaxKind::StringLiteral || j == i,
            0 <= base <= c0.len(),
            map.source_text() == old(map).source_text(),
            map.contexts().take(base) == c0.take(base),
            *nl_count == newlines(b.subrange(0, *nl_pos as int)),
            *nl_count <= *nl_pos,
        ensures
            j + 1 == e,
            pos == pos_after(b, 0, e as nat),
            pos <= b.len(),
            lex_from(b, pos as int) == ts.skip(e),
            map.source_text() == old(map).source_text(),
            map.contexts().len() == base + markers(b, directives_upto(b, 0, e as nat)).len(),
            map.contexts().take(base) == c0.take(base),
            contexts_for(map.contexts().skip(base), b, markers(b, directives_upto(b, 0, e as nat))),
            map.contexts().len() <= 1 + pos,
            *nl_pos <= pos,
            *nl_count == newlines(b.subrange(0, *nl_pos as int)),
            *nl_count <= *nl_pos,
        decreases raw.len() - j,
    {
        proof {
            lemma_walk_step(b, ts, j as int, pos as int);
        }
        let ghost c_before = map.contexts();
        let ghost d_before = directives_upto(b, 0, j as nat);
        let _ = gap_contexts(lx, source, pos, map, nl_pos, nl_count);
        proof {
            lemma_markers_concat(b, d_before, gap_directives(b, pos as int));
            lemma_contexts_concat(
                c_before,
                map.contexts(),
                base,
                b,
                markers(b, d_before),
                markers(b, gap_directives(b, pos as int)),
            );
        }
        let t = raw[j];
        pos = t.start as usize + t.len as usize;
        if j + 1 < raw.len() && raw[j].kind == SyntaxKind::StringLiteral && raw[j + 1].kind
            == SyntaxKind::StringLiteral {
            proof {
                lemma_literal_run_end(ts, j + 1);
            }
            j = j + 1;
        } else {
            break;
        }
    }
    pos
}

/// Insert into `map` the contexts of the line markers in the trivia that
/// ends the input, after the last raw token.
fn tail_contexts(
    lx: &Lexer,
    source: &str,
    raw: &Vec<RawToken>,
    pos: usize,
    map: &mut ContextMapping,
    nl_pos: &mut usize,
    nl_count: &mut usize,
    Ghost(base): Ghost<int>,
)
    requires
        raw@ == lex_from(source.spec_bytes(), 0),
        lx.src@ == source.spec_bytes(),
        vstd::utf8::valid_utf8(lx.src@),
        lx.src@.len() < i32::MAX - 1,
        pos == pos_after(lx.src@, 0, raw@.len() as nat),
        pos <= lx.src@.len(),
        0 <= base <= old(map).contexts().len(),
        old(map).contexts().len() == base + markers(lx.src@, directives_upto(lx.src@, 0, raw@.len() as nat)).len(),
        contexts_for(
            old(map).contexts().skip(base),
            lx.src@,
            markers(lx.src@, directives_upto(lx.src@, 0, raw@.len() as nat)),
        ),
        old(map).contexts().len() <= 1 + pos,
        *old(nl_pos) <= pos,
        *old(nl_count) == newlines(lx.src@.subrange(0, *old(nl_pos) as int)),
        *old(nl_count) <= *old(nl_pos),
    ensures
        ({
            let b = lx.src@;
            let all = markers(b, directives_upto(b, 0, (raw@.len() + 1) as nat));
            &&& final(map).source_text() == old(map).source_text()
            &&& final(map).contexts().len() == base + all.len()
            &&& final(map).contexts().take(base) == old(map).contexts().take(base)
            &&& contexts_for(final(map).contexts().skip(base), b, all)
            &&& final(map).contexts().len() <= 1 + b.len()
        }),
{
    let ghost b = lx.src@;
    proof {
        lemma_lex_from_within(b, 0);
        lemma_walk(b, 0, raw@.len() as nat);
        lemma_skip_trivia(b, pos as int);
    }
    let ghost c_before = map.contexts();
    let ghost d_before = directives_upto(b, 0, raw@.len() as nat);
    let _ = gap_contexts(lx, source, pos, map, nl_pos, nl_count);
    proof {
        lemma_markers_concat(b, d_before, gap_directives(b, pos as int));
        lemma_contexts_concat(
            c_before,
            map.contexts(),
            base,
            b,
            markers(b, d_before),
            markers(b, gap_directives(b, pos as int)),
        );
    }
}

/// The number of the context that the tokens ending with raw token `e - 1`
/// (and the line markers before them) leave current: `base - 1` plus the
/// number of line markers met so far.
pub open spec fn context_upto(b: Seq<u8>, base: int, e: int) -> int {
    base + markers(b, directives_upto(b, 0, e as nat)).len() - 1
}

/// Lexes the input source code into a flat sequence of tokens, each with its
/// value and span, and the mapping of the source's contexts.
///
/// Whitespace, comments and line directives separate tokens; adjacent string
/// literals are concatenated into one token. When a file name is given, it
/// is the first context. Each line marker (`# <line> <name>`) opens a new
/// context, to which the tokens after it belong.
#[verifier::rlimit(60)]
#[verifier::spinoff_prover]
pub fn lex<'a>(source: &'a str, filename: Option<&str>) -> (r: (BalancedTokenSequence, ContextMapping<'a>))
    requires
        source.spec_bytes().len() < i32::MAX - 1,
    ensures
        ({
            let b = source.spec_bytes();
            let ts = lex_spec(b);
            let gs = token_groups(ts, 0);
            let base: int = if filename is Some {
                1
            } else {
                0
            };
            let all = markers(b, directives_upto(b, 0, (ts.len() + 1) as nat));
            &&& r.0.tokens@.len() == gs.len()
            &&& forall|k: int|
                0 <= k < gs.len() ==> lexed(
                    #[trigger] r.0.tokens@[k],
                    b,
                    ts,
                    gs[k].0,
                    gs[k].1,
                    context_upto(b, base, gs[k].1),
                )
            &&& r.0.eoi.spec_start() == b.len()
            &&& r.0.eoi.spec_end() == b.len()
            &&& r.0.eoi.spec_context().value() == base + all.len() - 1
            &&& r.1.source_text() == source
            &&& r.1.contexts().len() == base + all.len()
            &&& contexts_for(r.1.contexts().skip(base), b, all)
            &&& (filename matches Some(f) ==> r.1.contexts()[0].filename@ == f@
                && r.1.contexts()[0].line_offset == 0)
        }),
{
    let ghost b = source.spec_bytes();
    let bytes = source.as_bytes();
    let raw = lex_bytes(bytes);
    let ghost ts = raw@;
    let lx = Lexer { src: bytes };
    proof {
        vstd::utf8::encode_utf8_valid_utf8(source@);
        lemma_raw_tokens(b, 0);
    }
    let mut ctx_map = ContextMapping::new(source);
    match filename {
        Some(f) => {
            ctx_map.insert_context(SourceContext { filename: String::from_str(f), line_offset: 0 });
        },
        None => {},
    }
    let ghost base: int = ctx_map.contexts().len() as int;
    let ghost first_ctx = ctx_map.contexts();
    let mut tokens: Vec<Spanned<BalancedToken>> = Vec::new();
    let ghost mut g: Seq<(int, int)> = Seq::empty();
    let ghost mut dd: Seq<int> = Seq::empty();
    let mut i: usize = 0;
    let mut pos: usize = 0;
    let mut nl_pos: usize = 0;
    let mut nl_count: usize = 0;
    proof {
        assert(lex_from(b, 0).skip(0) =~= lex_from(b, 0));
        assert(ctx_map.contexts().skip(base) =~= Seq::<SourceContext>::empty());
        assert(b.subrange(0, 0) =~= Seq::<u8>::empty());
    }
    while i < raw.len()
        invariant
            raw@ == ts,
            ts == lex_spec(b),
            ts == lex_from(b, 0),
            lx.src@ == b,
            b == source.spec_bytes(),
            vstd::utf8::valid_utf8(b),
            b.len() < i32::MAX - 1,
            base == (if filename is Some {
                1int
            } else {
                0int
            }),
            i <= raw.len(),
            pos == pos_after(b, 0, i as nat),
            pos <= b.len(),
            lex_from(b, pos as int) == ts.skip(i as int),
            dd == directives_upto(b, 0, i as nat),
            token_groups(ts, 0) == g + token_groups(ts, i as int),
            tokens@.len() == g.len(),
            forall|k: int|
                0 <= k < g.len() ==> lexed(#[trigger] tokens@[k], b, ts, g[k].0, g[k].1, context_upto(b, base, g[k].1)),
            raw_tokens_readable(ts, b),
            ctx_map.source_text() == source,
            ctx_map.contexts().len() == base + markers(b, dd).len(),
            ctx_map.contexts().take(base) == first_ctx,
            first_ctx.len() == base,
            filename matches Some(f) ==> first_ctx[0].filename@ == f@ && first_ctx[0].line_offset == 0,
            contexts_for(ctx_map.contexts().skip(base), b, markers(b, dd)),
            ctx_map.contexts().len() <= 1 + pos,
            nl_pos <= pos,
            nl_count == newlines(b.subrange(0, nl_pos as int)),
            nl_count <= nl_pos,
        decreases raw.len() - i,
    {
        proof {
            lemma_literal_run_end(ts, i as int);
        }
        let ghost e = literal_run_end(ts, i as int);
        pos = group_contexts(&lx, source, &raw, i, pos, &mut ctx_map, &mut nl_pos, &mut nl_count, Ghost(base));
        proof {
            dd = directives_upto(b, 0, e as nat);
        }
        let ctx = if ctx_map.contexts_len() == 0 {
            ContextId::none()
        } else {
            ContextId::from_index(ctx_map.contexts_len() - 1)
        };
        let (tok, end) = lex_group(source, &raw, i, ctx);
        let ghost before = tokens@;
        tokens.push(tok);
        proof {
            assert(token_groups(ts, i as int) == seq![(i as int, e)] + token_groups(ts, e));
            assert(g.push((i as int, e)) + token_groups(ts, e) =~= g + (seq![(i as int, e)] + token_groups(
                ts,
                e,
            )));
            g = g.push((i as int, e));
            assert forall|k: int| 0 <= k < g.len() implies lexed(
                #[trigger] tokens@[k],
                b,
                ts,
                g[k].0,
                g[k].1,
                context_upto(b, base, g[k].1),
            ) by {
                if k < g.len() - 1 {
                    assert(tokens@[k] == before[k]);
                }
            }
        }
        i = end;
    }
    proof {
        assert(g + Seq::<(int, int)>::empty() =~= g);
    }
    tail_contexts(&lx, source, &raw, pos, &mut ctx_map, &mut nl_pos, &mut nl_count, Ghost(base));
    let ctx = if ctx_map.contexts_len() == 0 {
        ContextId::none()
    } else {
        ContextId::from_index(ctx_map.contexts_len() - 1)
    };
    let eoi = Span::new_eoi(bytes.len(), ctx);
    (BalancedTokenSequence { tokens, eoi }, ctx_map)
}

} // verus!
