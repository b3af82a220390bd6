//! The C spelling of tokens and constants, as a printer writes them.

use vstd::prelude::*;
use vstd::string::{StringExecFns, StringSliceAdditionalSpecFns};

use crate::token::{
    CharacterConstant, Constant, EncodingPrefix, FloatingSuffix, IntegerConstant, IntegerSuffix,
    PredefinedConstant, Punctuator,
};
use crate::lexer::scan_token;
use crate::syntax::SyntaxKind;
use crate::token::{predefined_named, punctuator_of, BalancedToken};
use crate::value::{
    body_value, char_constant_of, chars_of, digit_at, digit_run_end, digit_value, escape_at, has,
    int_constant_of, int_suffix_at, literal_prefix, number_of, octal_escape_len, token_reads,
};

verus! {

/// The C spelling of a punctuator.
pub open spec fn punctuator_spelling(x: Punctuator) -> Seq<char> {
    match x {
        Punctuator::LeftBracket => seq!['['],
        Punctuator::RightBracket => seq![']'],
        Punctuator::LeftParen => seq!['('],
        Punctuator::RightParen => seq![')'],
        Punctuator::LeftBrace => seq!['{'],
        Punctuator::RightBrace => seq!['}'],
        Punctuator::Dot => seq!['.'],
        Punctuator::Arrow => seq!['-', '>'],
        Punctuator::Increment => seq!['+', '+'],
        Punctuator::Decrement => seq!['-', '-'],
        Punctuator::Ampersand => seq!['&'],
        Punctuator::Star => seq!['*'],
        Punctuator::Plus => seq!['+'],
        Punctuator::Minus => seq!['-'],
        Punctuator::Tilde => seq!['~'],
        Punctuator::Bang => seq!['!'],
        Punctuator::Slash => seq!['/'],
        Punctuator::Percent => seq!['%'],
        Punctuator::LeftShift => seq!['<', '<'],
        Punctuator::RightShift => seq!['>', '>'],
        Punctuator::Less => seq!['<'],
        Punctuator::Greater => seq!['>'],
        Punctuator::LessEqual => seq!['<', '='],
        Punctuator::GreaterEqual => seq!['>', '='],
        Punctuator::Equal => seq!['=', '='],
        Punctuator::NotEqual => seq!['!', '='],
        Punctuator::Caret => seq!['^'],
        Punctuator::Pipe => seq!['|'],
        Punctuator::LogicalAnd => seq!['&', '&'],
        Punctuator::LogicalOr => seq!['|', '|'],
        Punctuator::Question => seq!['?'],
        Punctuator::Colon => seq![':'],
        Punctuator::Scope => seq![':', ':'],
        Punctuator::Semicolon => seq![';'],
        Punctuator::Ellipsis => seq!['.', '.', '.'],
        Punctuator::Assign => seq!['='],
        Punctuator::MulAssign => seq!['*', '='],
        Punctuator::DivAssign => seq!['/', '='],
        Punctuator::ModAssign => seq!['%', '='],
        Punctuator::AddAssign => seq!['+', '='],
        Punctuator::SubAssign => seq!['-', '='],
        Punctuator::LeftShiftAssign => seq!['<', '<', '='],
        Punctuator::RightShiftAssign => seq!['>', '>', '='],
        Punctuator::AndAssign => seq!['&', '='],
        Punctuator::XorAssign => seq!['^', '='],
        Punctuator::OrAssign => seq!['|', '='],
        Punctuator::Comma => seq![','],
        Punctuator::Hash => seq!['#'],
        Punctuator::HashHash => seq!['#', '#'],
    }
}

/// The C spelling of `x` (see [`punctuator_spelling`]).
pub fn punctuator_text(x: Punctuator) -> (r: &'static str)
    ensures
        r@ == punctuator_spelling(x),
{
    match x {
        Punctuator::LeftBracket => {
            proof {
                reveal_strlit("[");
                assert("["@ =~= seq!['[']);
            }
            "["
        },
        Punctuator::RightBracket => {
            proof {
                reveal_strlit("]");
                assert("]"@ =~= seq![']']);
            }
            "]"
        },
        Punctuator::LeftParen => {
            proof {
                reveal_strlit("(");
                assert("("@ =~= seq!['(']);
            }
            "("
        },
        Punctuator::RightParen => {
            proof {
                reveal_strlit(")");
                assert(")"@ =~= seq![')']);
            }
            ")"
        },
        Punctuator::LeftBrace => {
            proof {
                reveal_strlit("{");
                assert("{"@ =~= seq!['{']);
            }
            "{"
        },
        Punctuator::RightBrace => {
            proof {
                reveal_strlit("}");
                assert("}"@ =~= seq!['}']);
            }
            "}"
        },
        Punctuator::Dot => {
            proof {
                reveal_strlit(".");
                assert("."@ =~= seq!['.']);
            }
            "."
        },
        Punctuator::Arrow => {
            proof {
                reveal_strlit("->");
                assert("->"@ =~= seq!['-', '>']);
            }
            "->"
        },
        Punctuator::Increment => {
            proof {
                reveal_strlit("++");
                assert("++"@ =~= seq!['+', '+']);
            }
            "++"
        },
        Punctuator::Decrement => {
            proof {
                reveal_strlit("--");
                assert("--"@ =~= seq!['-', '-']);
            }
            "--"
        },
        Punctuator::Ampersand => {
            proof {
                reveal_strlit("&");
                assert("&"@ =~= seq!['&']);
            }
            "&"
        },
        Punctuator::Star => {
            proof {
                reveal_strlit("*");
                assert("*"@ =~= seq!['*']);
            }
            "*"
        },
        Punctuator::Plus => {
            proof {
                reveal_strlit("+");
                assert("+"@ =~= seq!['+']);
            }
            "+"
        },
        Punctuator::Minus => {
            proof {
                reveal_strlit("-");
                assert("-"@ =~= seq!['-']);
            }
            "-"
        },
        Punctuator::Tilde => {
            proof {
                reveal_strlit("~");
                assert("~"@ =~= seq!['~']);
            }
            "~"
        },
        Punctuator::Bang => {
            proof {
                reveal_strlit("!");
                assert("!"@ =~= seq!['!']);
            }
            "!"
        },
        Punctuator::Slash => {
            proof {
                reveal_strlit("/");
                assert("/"@ =~= seq!['/']);
            }
            "/"
        },
        Punctuator::Percent => {
            proof {
                reveal_strlit("%");
                assert("%"@ =~= seq!['%']);
            }
            "%"
        },
        Punctuator::LeftShift => {
            proof {
                reveal_strlit("<<");
                assert("<<"@ =~= seq!['<', '<']);
            }
            "<<"
        },
        Punctuator::RightShift => {
            proof {
                reveal_strlit(">>");
                assert(">>"@ =~= seq!['>', '>']);
            }
            ">>"
        },
        Punctuator::Less => {
            proof {
                reveal_strlit("<");
                assert("<"@ =~= seq!['<']);
            }
            "<"
        },
        Punctuator::Greater => {
            proof {
                reveal_strlit(">");
                assert(">"@ =~= seq!['>']);
            }
            ">"
        },
        Punctuator::LessEqual => {
            proof {
                reveal_strlit("<=");
                assert("<="@ =~= seq!['<', '=']);
            }
            "<="
        },
        Punctuator::GreaterEqual => {
            proof {
                reveal_strlit(">=");
                assert(">="@ =~= seq!['>', '=']);
            }
            ">="
        },
        Punctuator::Equal => {
            proof {
                reveal_strlit("==");
                assert("=="@ =~= seq!['=', '=']);
            }
            "=="
        },
        Punctuator::NotEqual => {
            proof {
                reveal_strlit("!=");
                assert("!="@ =~= seq!['!', '=']);
            }
            "!="
        },
        Punctuator::Caret => {
            proof {
                reveal_strlit("^");
                assert("^"@ =~= seq!['^']);
            }
            "^"
        },
        Punctuator::Pipe => {
            proof {
                reveal_strlit("|");
                assert("|"@ =~= seq!['|']);
            }
            "|"
        },
        Punctuator::LogicalAnd => {
            proof {
                reveal_strlit("&&");
                assert("&&"@ =~= seq!['&', '&']);
            }
            "&&"
        },
        Punctuator::LogicalOr => {
            proof {
                reveal_strlit("||");
                assert("||"@ =~= seq!['|', '|']);
            }
            "||"
        },
        Punctuator::Question => {
            proof {
                reveal_strlit("?");
                assert("?"@ =~= seq!['?']);
            }
            "?"
        },
        Punctuator::Colon => {
            proof {
                reveal_strlit(":");
                assert(":"@ =~= seq![':']);
            }
            ":"
        },
        Punctuator::Scope => {
            proof {
                reveal_strlit("::");
                assert("::"@ =~= seq![':', ':']);
            }
            "::"
        },
        Punctuator::Semicolon => {
            proof {
                reveal_strlit(";");
                assert(";"@ =~= seq![';']);
            }
            ";"
        },
        Punctuator::Ellipsis => {
            proof {
                reveal_strlit("...");
                assert("..."@ =~= seq!['.', '.', '.']);
            }
            "..."
        },
        Punctuator::Assign => {
            proof {
                reveal_strlit("=");
                assert("="@ =~= seq!['=']);
            }
            "="
        },
        Punctuator::MulAssign => {
            proof {
                reveal_strlit("*=");
                assert("*="@ =~= seq!['*', '=']);
            }
            "*="
        },
        Punctuator::DivAssign => {
            proof {
                reveal_strlit("/=");
                assert("/="@ =~= seq!['/', '=']);
            }
            "/="
        },
        Punctuator::ModAssign => {
            proof {
                reveal_strlit("%=");
                assert("%="@ =~= seq!['%', '=']);
            }
            "%="
        },
        Punctuator::AddAssign => {
            proof {
                reveal_strlit("+=");
                assert("+="@ =~= seq!['+', '=']);
            }
            "+="
        },
        Punctuator::SubAssign => {
            proof {
                reveal_strlit("-=");
                assert("-="@ =~= seq!['-', '=']);
            }
            "-="
        },
        Punctuator::LeftShiftAssign => {
            proof {
                reveal_strlit("<<=");
                assert("<<="@ =~= seq!['<', '<', '=']);
            }
            "<<="
        },
        Punctuator::RightShiftAssign => {
            proof {
                reveal_strlit(">>=");
                assert(">>="@ =~= seq!['>', '>', '=']);
            }
            ">>="
        },
        Punctuator::AndAssign => {
            proof {
                reveal_strlit("&=");
                assert("&="@ =~= seq!['&', '=']);
            }
            "&="
        },
        Punctuator::XorAssign => {
            proof {
                reveal_strlit("^=");
                assert("^="@ =~= seq!['^', '=']);
            }
            "^="
        },
        Punctuator::OrAssign => {
            proof {
                reveal_strlit("|=");
                assert("|="@ =~= seq!['|', '=']);
            }
            "|="
        },
        Punctuator::Comma => {
            proof {
                reveal_strlit(",");
                assert(","@ =~= seq![',']);
            }
            ","
        },
        Punctuator::Hash => {
            proof {
                reveal_strlit("#");
                assert("#"@ =~= seq!['#']);
            }
            "#"
        },
        Punctuator::HashHash => {
            proof {
                reveal_strlit("##");
                assert("##"@ =~= seq!['#', '#']);
            }
            "##"
        },
    }
}

/// How an integer suffix is written after the value.
pub open spec fn integer_suffix_spelling(x: IntegerSuffix) -> Seq<char> {
    match x {
        IntegerSuffix::Unsigned => seq!['U'],
        IntegerSuffix::Long => seq!['L'],
        IntegerSuffix::LongLong => seq!['L', 'L'],
        IntegerSuffix::UnsignedLong => seq!['U', 'L'],
        IntegerSuffix::UnsignedLongLong => seq!['U', 'L', 'L'],
        IntegerSuffix::BitPrecise => seq!['w', 'b'],
        IntegerSuffix::UnsignedBitPrecise => seq!['u', 'w', 'b'],
    }
}

/// How `x` is written (see [`integer_suffix_spelling`]).
pub fn integer_suffix_text(x: IntegerSuffix) -> (r: &'static str)
    ensures
        r@ == integer_suffix_spelling(x),
{
    match x {
        IntegerSuffix::Unsigned => {
            proof {
                reveal_strlit("U");
                assert("U"@ =~= seq!['U']);
            }
            "U"
        },
        IntegerSuffix::Long => {
            proof {
                reveal_strlit("L");
                assert("L"@ =~= seq!['L']);
            }
            "L"
        },
        IntegerSuffix::LongLong => {
            proof {
                reveal_strlit("LL");
                assert("LL"@ =~= seq!['L', 'L']);
            }
            "LL"
        },
        IntegerSuffix::UnsignedLong => {
            proof {
                reveal_strlit("UL");
                assert("UL"@ =~= seq!['U', 'L']);
            }
            "UL"
        },
        IntegerSuffix::UnsignedLongLong => {
            proof {
                reveal_strlit("ULL");
                assert("ULL"@ =~= seq!['U', 'L', 'L']);
            }
            "ULL"
        },
        IntegerSuffix::BitPrecise => {
            proof {
                reveal_strlit("wb");
                assert("wb"@ =~= seq!['w', 'b']);
            }
            "wb"
        },
        IntegerSuffix::UnsignedBitPrecise => {
            proof {
                reveal_strlit("uwb");
                assert("uwb"@ =~= seq!['u', 'w', 'b']);
            }
            "uwb"
        },
    }
}

/// How a floating suffix is written after the value.
pub open spec fn floating_suffix_spelling(x: FloatingSuffix) -> Seq<char> {
    match x {
        FloatingSuffix::F => seq!['f'],
        FloatingSuffix::L => seq!['l'],
        FloatingSuffix::DF => seq!['d', 'f'],
        FloatingSuffix::DD => seq!['d', 'd'],
        FloatingSuffix::DL => seq!['d', 'l'],
    }
}

/// How `x` is written (see [`floating_suffix_spelling`]).
pub fn floating_suffix_text(x: FloatingSuffix) -> (r: &'static str)
    ensures
        r@ == floating_suffix_spelling(x),
{
    match x {
        FloatingSuffix::F => {
            proof {
                reveal_strlit("f");
                assert("f"@ =~= seq!['f']);
            }
            "f"
        },
        FloatingSuffix::L => {
            proof {
                reveal_strlit("l");
                assert("l"@ =~= seq!['l']);
            }
            "l"
        },
        FloatingSuffix::DF => {
            proof {
                reveal_strlit("df");
                assert("df"@ =~= seq!['d', 'f']);
            }
            "df"
        },
        FloatingSuffix::DD => {
            proof {
                reveal_strlit("dd");
                assert("dd"@ =~= seq!['d', 'd']);
            }
            "dd"
        },
        FloatingSuffix::DL => {
            proof {
                reveal_strlit("dl");
                assert("dl"@ =~= seq!['d', 'l']);
            }
            "dl"
        },
    }
}

/// How an encoding prefix is written before a character constant.
pub open spec fn encoding_prefix_spelling(x: EncodingPrefix) -> Seq<char> {
    match x {
        EncodingPrefix::U8 => seq!['u', '8'],
        EncodingPrefix::U => seq!['u'],
        EncodingPrefix::CapitalU => seq!['U'],
        EncodingPrefix::L => seq!['L'],
    }
}

/// How `x` is written (see [`encoding_prefix_spelling`]).
pub fn encoding_prefix_text(x: EncodingPrefix) -> (r: &'static str)
    ensures
        r@ == encoding_prefix_spelling(x),
{
    match x {
        EncodingPrefix::U8 => {
            proof {
                reveal_strlit("u8");
                assert("u8"@ =~= seq!['u', '8']);
            }
            "u8"
        },
        EncodingPrefix::U => {
            proof {
                reveal_strlit("u");
                assert("u"@ =~= seq!['u']);
            }
            "u"
        },
        EncodingPrefix::CapitalU => {
            proof {
                reveal_strlit("U");
                assert("U"@ =~= seq!['U']);
            }
            "U"
        },
        EncodingPrefix::L => {
            proof {
                reveal_strlit("L");
                assert("L"@ =~= seq!['L']);
            }
            "L"
        },
    }
}

/// How a predefined constant is written.
pub open spec fn predefined_spelling(x: PredefinedConstant) -> Seq<char> {
    match x {
        PredefinedConstant::False => seq!['f', 'a', 'l', 's', 'e'],
        PredefinedConstant::True => seq!['t', 'r', 'u', 'e'],
        PredefinedConstant::Nullptr => seq!['n', 'u', 'l', 'l', 'p', 't', 'r'],
    }
}

/// How `x` is written (see [`predefined_spelling`]).
pub fn predefined_text(x: PredefinedConstant) -> (r: &'static str)
    ensures
        r@ == predefined_spelling(x),
{
    match x {
        PredefinedConstant::False => {
            proof {
                reveal_strlit("false");
                assert("false"@ =~= seq!['f', 'a', 'l', 's', 'e']);
            }
            "false"
        },
        PredefinedConstant::True => {
            proof {
                reveal_strlit("true");
                assert("true"@ =~= seq!['t', 'r', 'u', 'e']);
            }
            "true"
        },
        PredefinedConstant::Nullptr => {
            proof {
                reveal_strlit("nullptr");
                assert("nullptr"@ =~= seq!['n', 'u', 'l', 'l', 'p', 't', 'r']);
            }
            "nullptr"
        },
    }
}

/// The decimal digit `d` (below ten).
pub open spec fn digit_char(d: int) -> char {
    if d == 0 {
        '0'
    } else if d == 1 {
        '1'
    } else if d == 2 {
        '2'
    } else if d == 3 {
        '3'
    } else if d == 4 {
        '4'
    } else if d == 5 {
        '5'
    } else if d == 6 {
        '6'
    } else if d == 7 {
        '7'
    } else if d == 8 {
        '8'
    } else {
        '9'
    }
}

/// The decimal digits of `n`, most significant first, with no leading zero.
pub open spec fn decimal(n: nat) -> Seq<char>
    decreases n,
{
    if n < 10 {
        seq![digit_char(n as int)]
    } else {
        decimal(n / 10).push(digit_char((n % 10) as int))
    }
}

/// How the integer `v` is written: its decimal digits, after a `-` when it
/// is negative.
pub open spec fn signed_decimal(v: int) -> Seq<char> {
    if v < 0 {
        seq!['-'] + decimal((-v) as nat)
    } else {
        decimal(v as nat)
    }
}

/// How the character `c` is written inside a character constant: the
/// backslash, both quotes and the control characters that have a letter
/// escape are written as escape sequences; the null and escape characters
/// as three-digit octal escapes (which no following digit can extend);
/// every other character as it is.
pub open spec fn escape_char(c: char) -> Seq<char> {
    if c == '\\' {
        seq!['\\', '\\']
    } else if c == '\'' {
        seq!['\\', '\'']
    } else if c == '"' {
        seq!['\\', '"']
    } else if c == '\n' {
        seq!['\\', 'n']
    } else if c == '\r' {
        seq!['\\', 'r']
    } else if c == '\t' {
        seq!['\\', 't']
    } else if c == '\0' {
        seq!['\\', '0', '0', '0']
    } else if c == '\x07' {
        seq!['\\', 'a']
    } else if c == '\x08' {
        seq!['\\', 'b']
    } else if c == '\x0c' {
        seq!['\\', 'f']
    } else if c == '\x0b' {
        seq!['\\', 'v']
    } else if c == '\x1b' {
        seq!['\\', '0', '3', '3']
    } else {
        seq![c]
    }
}

/// The characters `cs`, each written as [`escape_char`] writes it.
pub open spec fn escaped(cs: Seq<char>) -> Seq<char>
    decreases cs.len(),
{
    if cs.len() == 0 {
        Seq::empty()
    } else {
        escaped(cs.drop_last()) + escape_char(cs.last())
    }
}

/// How an integer constant is written: its value in decimal, then its
/// suffix.
pub open spec fn integer_spelling(i: IntegerConstant) -> Seq<char> {
    signed_decimal(i.value as int) + match i.suffix {
        Some(s) => integer_suffix_spelling(s),
        None => Seq::empty(),
    }
}

/// How a character constant is written: its encoding prefix, then its
/// characters escaped between single quotes.
pub open spec fn character_spelling(c: CharacterConstant) -> Seq<char> {
    let prefix = match c.encoding_prefix {
        Some(e) => encoding_prefix_spelling(e),
        None => Seq::empty(),
    };
    prefix + seq!['\''] + escaped(c.value@) + seq!['\'']
}

/// How the constant `c` is written; `None` for a floating constant, whose
/// value is not held (its suffix is [`floating_suffix_spelling`]).
pub open spec fn constant_spelling(c: Constant) -> Option<Seq<char>> {
    match c {
        Constant::Integer(i) => Some(integer_spelling(i)),
        Constant::Floating(_) => None,
        Constant::Character(ch) => Some(character_spelling(ch)),
        Constant::Predefined(p) => Some(predefined_spelling(p)),
    }
}

/// The decimal digit `d`.
fn digit(d: u128) -> (r: char)
    requires
        d < 10,
    ensures
        r == digit_char(d as int),
{
    if d == 0 {
        '0'
    } else if d == 1 {
        '1'
    } else if d == 2 {
        '2'
    } else if d == 3 {
        '3'
    } else if d == 4 {
        '4'
    } else if d == 5 {
        '5'
    } else if d == 6 {
        '6'
    } else if d == 7 {
        '7'
    } else if d == 8 {
        '8'
    } else {
        '9'
    }
}

/// Append the decimal digits of `n`.
fn push_decimal(out: &mut String, n: u128)
    ensures
        final(out)@ == old(out)@ + decimal(n as nat),
    decreases n,
{
    if n >= 10 {
        push_decimal(out, n / 10);
    }
    let ghost mid = out@;
    out.push(digit(n % 10));
    proof {
        if n >= 10 {
            assert(out@ =~= old(out)@ + decimal((n / 10) as nat).push(digit_char((n % 10) as int)));
        } else {
            assert(out@ =~= old(out)@ + seq![digit_char(n as int)]);
        }
    }
}

/// Append the characters of `s`.
fn push_all(out: &mut String, s: &str)
    ensures
        final(out)@ == old(out)@ + s@,
{
    out.append(s);
}

/// Append `c` as a character constant writes it.
fn push_escaped(out: &mut String, c: char)
    ensures
        final(out)@ == old(out)@ + escape_char(c),
{
    let ghost before = out@;
    if c == '\\' || c == '\'' || c == '"' {
        out.push('\\');
        out.push(c);
    } else if c == '\n' {
        out.push('\\');
        out.push('n');
    } else if c == '\r' {
        out.push('\\');
        out.push('r');
    } else if c == '\t' {
        out.push('\\');
        out.push('t');
    } else if c == '\0' {
        out.push('\\');
        out.push('0');
        out.push('0');
        out.push('0');
    } else if c == '\x07' {
        out.push('\\');
        out.push('a');
    } else if c == '\x08' {
        out.push('\\');
        out.push('b');
    } else if c == '\x0c' {
        out.push('\\');
        out.push('f');
    } else if c == '\x0b' {
        out.push('\\');
        out.push('v');
    } else if c == '\x1b' {
        out.push('\\');
        out.push('0');
        out.push('3');
        out.push('3');
    } else {
        out.push(c);
    }
    proof {
        assert(out@ =~= before + escape_char(c));
    }
}

/// How the integer constant `i` is written (see [`integer_spelling`]).
pub fn integer_text(i: IntegerConstant) -> (r: String)
    ensures
        r@ == integer_spelling(i),
{
    let mut out = String::new();
    let v = i.value;
    if v < 0 {
        out.push('-');
        let m: u128 = (-(v + 1)) as u128 + 1;
        push_decimal(&mut out, m);
    } else {
        push_decimal(&mut out, v as u128);
    }
    let ghost digits = out@;
    match i.suffix {
        Some(s) => push_all(&mut out, integer_suffix_text(s)),
        None => {},
    }
    proof {
        assert(digits =~= signed_decimal(i.value as int));
        assert(out@ =~= integer_spelling(i));
    }
    out
}

/// How the character constant `c` is written (see [`character_spelling`]).
pub fn character_text(c: &CharacterConstant) -> (r: String)
    ensures
        r@ == character_spelling(*c),
{
    let mut out = String::new();
    match c.encoding_prefix {
        Some(e) => push_all(&mut out, encoding_prefix_text(e)),
        None => {},
    }
    out.push('\'');
    let ghost head = out@;
    let cs = chars_of(c.value.as_str());
    let mut j: usize = 0;
    while j < cs.len()
        invariant
            j <= cs@.len(),
            cs@ == c.value@,
            out@ == head + escaped(cs@.take(j as int)),
        decreases cs.len() - j,
    {
        push_escaped(&mut out, cs[j]);
        proof {
            assert(cs@.take(j + 1).drop_last() =~= cs@.take(j as int));
            assert(out@ =~= head + escaped(cs@.take(j + 1)));
        }
        j = j + 1;
    }
    out.push('\'');
    proof {
        assert(cs@.take(j as int) =~= cs@);
        assert(out@ =~= character_spelling(*c));
    }
    out
}

/// How the constant `c` is written (see [`constant_spelling`]); `None` for
/// a floating constant, whose value is not held.
pub fn constant_text(c: &Constant) -> (r: Option<String>)
    ensures
        r is Some == constant_spelling(*c) is Some,
        r matches Some(s) ==> s@ == constant_spelling(*c)->0,
{
    match c {
        Constant::Integer(i) => Some(integer_text(*i)),
        Constant::Floating(_) => None,
        Constant::Character(ch) => Some(character_text(ch)),
        Constant::Predefined(p) => {
            let mut out = String::new();
            push_all(&mut out, predefined_text(*p));
            proof {
                assert(out@ =~= predefined_spelling(*p));
            }
            Some(out)
        },
    }
}

// =============================================================================
// Reading a printed constant back
// =============================================================================

proof fn lemma_digit_char(d: int)
    requires
        0 <= d < 10,
    ensures
        digit_value(digit_char(d), 10) == d,
        digit_value(digit_char(d), 8) >= 0 <==> d < 8,
        d > 0 ==> digit_char(d) != '0',
        digit_char(d) != '\'',
{
}

/// The decimal digits of `n` are digits, write `n`, and start with `0`
/// only for `n` itself zero.
proof fn lemma_decimal(n: nat)
    ensures
        decimal(n).len() >= 1,
        forall|j: int| 0 <= j < decimal(n).len() ==> digit_value(#[trigger] decimal(n)[j], 10) >= 0,
        number_of(decimal(n), 10) == n,
        n > 0 ==> decimal(n)[0] != '0',
        n == 0 ==> decimal(n) == seq!['0'],
    decreases n,
{
    if n < 10 {
        lemma_digit_char(n as int);
        reveal_with_fuel(number_of, 2);
        assert(seq![digit_char(n as int)].drop_last() =~= Seq::<char>::empty());
        if n == 0 {
            assert(decimal(n) =~= seq!['0']);
        }
    } else {
        let m = (n / 10) as nat;
        let d = (n % 10) as int;
        lemma_decimal(m);
        lemma_digit_char(d);
        let ds = decimal(m);
        assert(decimal(n) == ds.push(digit_char(d)));
        assert(decimal(n).drop_last() =~= ds);
        assert(forall|j: int| 0 <= j < ds.len() ==> decimal(n)[j] == ds[j]);
        assert(number_of(decimal(n), 10) == number_of(ds, 10) * 10 + d);
    }
}

/// A run of radix-`r` digits from `i` to `e`, followed by neither a digit
/// nor a separator, ends at `e`.
proof fn lemma_run_over_digits(cs: Seq<char>, i: int, e: int, r: int)
    requires
        0 <= i <= e <= cs.len(),
        forall|j: int| i <= j < e ==> digit_at(cs, j, r),
        e == cs.len() || (!digit_at(cs, e, r) && cs[e] != '\''),
    ensures
        digit_run_end(cs, i, r) == e,
    decreases e - i,
{
    if i < e {
        lemma_run_over_digits(cs, i + 1, e, r);
    }
}

/// How an integer suffix is written, or nothing.
pub open spec fn suffix_part(s: Option<IntegerSuffix>) -> Seq<char> {
    match s {
        Some(x) => integer_suffix_spelling(x),
        None => Seq::empty(),
    }
}

/// A printed integer constant reads back as itself: the value (which a
/// lexed constant never has negative) and the suffix.
pub proof fn lemma_integer_round_trip(i: IntegerConstant)
    requires
        i.value >= 0,
    ensures
        int_constant_of(integer_spelling(i)) == i,
{
    let n = i.value as nat;
    let ds = decimal(n);
    let sp = suffix_part(i.suffix);
    let cs = integer_spelling(i);
    lemma_decimal(n);
    assert(signed_decimal(i.value as int) == ds);
    assert(cs == ds + sp);
    let e = ds.len() as int;
    assert forall|j: int| 0 <= j < e implies cs[j] == ds[j] by {}
    assert forall|k: int| 0 <= k < sp.len() implies cs[e + k] == sp[k] by {}
    assert(cs.len() == e + sp.len());
    assert(sp.len() == 0 || sp[0] == 'U' || sp[0] == 'L' || sp[0] == 'w' || sp[0] == 'u');
    assert(sp.len() > 0 ==> !digit_at(cs, e, 16) || sp[0] != 'b');
    let r: int = if n == 0 { 8 } else { 10 };
    assert(crate::value::int_radix_start(cs) == (r, 0int));
    assert forall|j: int| 0 <= j < e implies digit_at(cs, j, r) by {
        if n == 0 {
            assert(ds[j] == '0');
        }
    }
    lemma_run_over_digits(cs, 0, e, r);
    assert(cs.subrange(0, e) =~= ds);
    if n == 0 {
        reveal_with_fuel(number_of, 2);
        assert(ds.drop_last() =~= Seq::<char>::empty());
    }
    assert(number_of(cs.subrange(0, e), r) == n);
    assert(int_suffix_at(cs, e) == i.suffix);
}

/// Escaping a run that starts with `c` writes `c` first.
proof fn lemma_escaped_cons(c: char, s: Seq<char>)
    ensures
        escaped(seq![c] + s) == escape_char(c) + escaped(s),
    decreases s.len(),
{
    if s.len() == 0 {
        reveal_with_fuel(escaped, 2);
        assert(seq![c] + s =~= seq![c]);
        assert(seq![c].drop_last() =~= Seq::<char>::empty());
        assert(Seq::<char>::empty() + escape_char(c) =~= escape_char(c));
        assert(escape_char(c) + Seq::<char>::empty() =~= escape_char(c));
    } else {
        lemma_escaped_cons(c, s.drop_last());
        assert((seq![c] + s).drop_last() =~= seq![c] + s.drop_last());
        assert((seq![c] + s).last() == s.last());
        assert(escape_char(c) + escaped(s.drop_last()) + escape_char(s.last()) =~= escape_char(c) + (escaped(
            s.drop_last(),
        ) + escape_char(s.last())));
    }
}

/// An escaped run followed by a closing quote reads back as the run.
proof fn lemma_body_of_escaped(cs: Seq<char>, i: int, v: Seq<char>)
    requires
        0 <= i,
        i + escaped(v).len() < cs.len(),
        cs.subrange(i, i + escaped(v).len()) == escaped(v),
        cs[i + escaped(v).len()] == '\'',
    ensures
        body_value(cs, i, '\'') == v,
    decreases v.len(),
{
    if v.len() == 0 {
        assert(escaped(v) == Seq::<char>::empty());
    } else {
        let c = v[0];
        let rest = v.drop_first();
        assert(v =~= seq![c] + rest);
        lemma_escaped_cons(c, rest);
        let ec = escape_char(c);
        let m = ec.len() as int;
        let er = escaped(rest);
        assert(escaped(v) == ec + er);
        assert forall|k: int| 0 <= k < m implies cs[i + k] == ec[k] by {
            assert(cs.subrange(i, i + escaped(v).len())[k] == escaped(v)[k]);
        }
        assert(cs.subrange(i + m, i + m + er.len()) =~= er) by {
            assert forall|k: int| 0 <= k < er.len() implies cs.subrange(i + m, i + m + er.len())[k] == er[k] by {
                assert(cs.subrange(i, i + escaped(v).len())[m + k] == escaped(v)[m + k]);
            }
        }
        lemma_body_of_escaped(cs, i + m, rest);
        if m == 1 {
            assert(cs[i] == c);
            assert(c != '\'' && c != '\n' && c != '\\');
        } else if m == 2 {
            assert(cs[i] == '\\');
            assert(escape_at(cs, i + 1) == (Some(c), i + 2));
        } else {
            assert(m == 4);
            assert(cs[i] == '\\');
            assert(cs[i + 1] == '0');
            assert(octal_escape_len(cs, i + 1) == 3);
            reveal_with_fuel(number_of, 4);
            let ds = cs.subrange(i + 1, i + 4);
            assert(ds.drop_last().drop_last().drop_last() =~= Seq::<char>::empty());
            assert(ds.drop_last().drop_last().last() == cs[i + 1]);
            assert(ds.drop_last().last() == cs[i + 2]);
            assert(ds.last() == cs[i + 3]);
            assert(escape_at(cs, i + 1) == (Some(c), i + 4));
        }
    }
}

/// A printed character constant reads back as itself: its prefix and its
/// characters.
pub proof fn lemma_character_round_trip(c: CharacterConstant)
    ensures
        char_constant_of(c, character_spelling(c)),
{
    let prefix = match c.encoding_prefix {
        Some(e) => encoding_prefix_spelling(e),
        None => Seq::empty(),
    };
    let ev = escaped(c.value@);
    let cs = character_spelling(c);
    assert(cs == prefix + seq!['\''] + ev + seq!['\'']);
    let n = prefix.len() as int;
    assert forall|k: int| 0 <= k < n implies cs[k] == prefix[k] by {}
    assert(cs[n] == '\'');
    assert(literal_prefix(cs) == (c.encoding_prefix, n));
    assert(cs.subrange(n + 1, n + 1 + ev.len()) =~= ev);
    assert(cs[n + 1 + ev.len()] == '\'');
    lemma_body_of_escaped(cs, n + 1, c.value@);
}

/// A printed predefined constant reads back as itself.
pub proof fn lemma_predefined_round_trip(p: PredefinedConstant)
    ensures
        predefined_named(predefined_spelling(p)) == p,
{
    match p {
        PredefinedConstant::False => {
            assert(predefined_spelling(p) != seq!['t', 'r', 'u', 'e']) by {
                assert(predefined_spelling(p)[0] == 'f');
            }
        },
        PredefinedConstant::True => {},
        PredefinedConstant::Nullptr => {
            assert(predefined_spelling(p) != seq!['t', 'r', 'u', 'e']) by {
                assert(predefined_spelling(p)[0] == 'n');
            }
            assert(predefined_spelling(p) != seq!['f', 'a', 'l', 's', 'e']) by {
                assert(predefined_spelling(p)[0] == 'n');
            }
        },
    }
}

/// The kind of token that writes a constant.
pub open spec fn constant_kind(c: Constant) -> SyntaxKind {
    match c {
        Constant::Integer(_) => SyntaxKind::IntegerConst,
        Constant::Floating(_) => SyntaxKind::FloatConst,
        Constant::Character(_) => SyntaxKind::CharConst,
        Constant::Predefined(_) => SyntaxKind::PredefinedConst,
    }
}

/// Printing a constant and reading the text back as a token of its kind
/// gives the constant again (floating constants, whose value is not held,
/// are not printed; integer constants read from text are never negative).
pub proof fn lemma_constant_round_trip(c: Constant)
    requires
        constant_spelling(c) is Some,
        c matches Constant::Integer(i) ==> i.value >= 0,
    ensures
        token_reads(BalancedToken::Constant(c), constant_kind(c), constant_spelling(c)->0),
{
    match c {
        Constant::Integer(i) => lemma_integer_round_trip(i),
        Constant::Floating(_) => {},
        Constant::Character(ch) => lemma_character_round_trip(ch),
        Constant::Predefined(p) => lemma_predefined_round_trip(p),
    }
}

/// The bytes of the spelling of a punctuator.
pub open spec fn punctuator_bytes(p: Punctuator) -> Seq<u8> {
    punctuator_spelling(p).map_values(|c: char| c as u8)
}

/// A printed punctuator scans back as itself: the token scanner reads the
/// whole spelling of `p` as one token, whose kind is that of `p`.
pub proof fn lemma_punctuator_scans_back(p: Punctuator)
    ensures
        scan_token(punctuator_bytes(p), 0).1 == punctuator_bytes(p).len(),
        punctuator_of(scan_token(punctuator_bytes(p), 0).0) == Some(p),
{
    let b = punctuator_bytes(p);
    assert(b.len() == punctuator_spelling(p).len());
    assert(forall|i: int| 0 <= i < b.len() ==> b[i] == punctuator_spelling(p)[i] as u8);
    match p {
        Punctuator::LeftBracket => {
        },
        Punctuator::RightBracket => {
        },
        Punctuator::LeftParen => {
        },
        Punctuator::RightParen => {
        },
        Punctuator::LeftBrace => {
        },
        Punctuator::RightBrace => {
        },
        Punctuator::Dot => {
            crate::lexer::lemma_scan_punct(b);
        },
        Punctuator::Arrow => {
            crate::lexer::lemma_scan_punct(b);
        },
        Punctuator::Increment => {
            crate::lexer::lemma_scan_punct(b);
        },
        Punctuator::Decrement => {
            crate::lexer::lemma_scan_punct(b);
        },
        Punctuator::Ampersand => {
            crate::lexer::lemma_scan_punct(b);
        },
        Punctuator::Star => {
            crate::lexer::lemma_scan_punct(b);
        },
        Punctuator::Plus => {
            crate::lexer::lemma_scan_punct(b);
        },
        Punctuator::Minus => {
            crate::lexer::lemma_scan_punct(b);
        },
        Punctuator::Tilde => {
            crate::lexer::lemma_scan_punct(b);
        },
        Punctuator::Bang => {
            crate::lexer::lemma_scan_punct(b);
        },
        Punctuator::Slash => {
            crate::lexer::lemma_scan_punct(b);
        },
        Punctuator::Percent => {
            crate::lexer::lemma_scan_punct(b);
        },
        Punctuator::LeftShift => {
            crate::lexer::lemma_scan_punct(b);
        },
        Punctuator::RightShift => {
            crate::lexer::lemma_scan_punct(b);
        },
        Punctuator::Less => {
            crate::lexer::lemma_scan_punct(b);
        },
        Punctuator::Greater => {
            crate::lexer::lemma_scan_punct(b);
        },
        Punctuator::LessEqual => {
            crate::lexer::lemma_scan_punct(b);
        },
        Punctuator::GreaterEqual => {
            crate::lexer::lemma_scan_punct(b);
        },
        Punctuator::Equal => {
            crate::lexer::lemma_scan_punct(b);
        },
        Punctuator::NotEqual => {
            crate::lexer::lemma_scan_punct(b);
        },
        Punctuator::Caret => {
            crate::lexer::lemma_scan_punct(b);
        },
        Punctuator::Pipe => {
            crate::lexer::lemma_scan_punct(b);
        },
        Punctuator::LogicalAnd => {
            crate::lexer::lemma_scan_punct(b);
        },
        Punctuator::LogicalOr => {
            crate::lexer::lemma_scan_punct(b);
        },
        Punctuator::Question => {
            crate::lexer::lemma_scan_punct(b);
        },
        Punctuator::Colon => {
            crate::lexer::lemma_scan_punct(b);
        },
        Punctuator::Scope => {
            crate::lexer::lemma_scan_punct(b);
        },
        Punctuator::Semicolon => {
            crate::lexer::lemma_scan_punct(b);
        },
        Punctuator::Ellipsis => {
            crate::lexer::lemma_scan_punct(b);
        },
        Punctuator::Assign => {
            crate::lexer::lemma_scan_punct(b);
        },
        Punctuator::MulAssign => {
            crate::lexer::lemma_scan_punct(b);
        },
        Punctuator::DivAssign => {
            crate::lexer::lemma_scan_punct(b);
        },
        Punctuator::ModAssign => {
            crate::lexer::lemma_scan_punct(b);
        },
        Punctuator::AddAssign => {
            crate::lexer::lemma_scan_punct(b);
        },
        Punctuator::SubAssign => {
            crate::lexer::lemma_scan_punct(b);
        },
        Punctuator::LeftShiftAssign => {
            crate::lexer::lemma_scan_punct(b);
        },
        Punctuator::RightShiftAssign => {
            crate::lexer::lemma_scan_punct(b);
        },
        Punctuator::AndAssign => {
            crate::lexer::lemma_scan_punct(b);
        },
        Punctuator::XorAssign => {
            crate::lexer::lemma_scan_punct(b);
        },
        Punctuator::OrAssign => {
            crate::lexer::lemma_scan_punct(b);
        },
        Punctuator::Comma => {
            crate::lexer::lemma_scan_punct(b);
        },
        Punctuator::Hash => {
            crate::lexer::lemma_scan_punct(b);
        },
        Punctuator::HashHash => {
            crate::lexer::lemma_scan_punct(b);
        },
    }
}

} // verus!
