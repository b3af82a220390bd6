//! Reading a token's value from its text: integer values and suffixes,
//! escape sequences, the contents of character constants, string literals
//! and quoted strings.
//!
//! Every reader works on the characters of one token's text, as the lexer
//! delimits it, and is specified by a spec function over that text.

#![allow(missing_docs)]

use vstd::prelude::*;
use vstd::std_specs::iter::IteratorSpec;

use vstd::string::StringExecFns;

use crate::syntax::SyntaxKind;
use crate::token::{
    carries, predefined_named, punctuator_of, syntax_kind_to_punctuator, BalancedToken, CharacterConstant,
    Constant, EncodingPrefix, FloatingConstant, FloatingSuffix, Identifier, IntegerConstant, IntegerSuffix,
    PredefinedConstant, StringLiteral, StringLiterals,
};

verus! {

/// The characters of `s`, in order.
pub fn chars_of(s: &str) -> (r: Vec<char>)
    ensures
        r@ == s@,
{
    broadcast use vstd::string::group_string_axioms;
    let mut it = s.chars();
    let mut out: Vec<char> = Vec::new();
    loop
        invariant
            out@ + it.remaining() == s@,
            it.decrease() is Some,
        ensures
            out@ == s@,
        decreases it.decrease()->0,
    {
        match it.next() {
            Some(c) => {
                out.push(c);
            },
            None => {
                proof {
                    assert(out@ + Seq::<char>::empty() =~= out@);
                }
                break;
            },
        }
    }
    out
}

// =============================================================================
// Characters of a text
// =============================================================================

/// `cs[i]` is `c`.
pub open spec fn has(cs: Seq<char>, i: int, c: char) -> bool {
    0 <= i < cs.len() && cs[i] == c
}

/// The value of `c` as a digit of radix `r` (2, 8, 10 or 16), or -1 when it
/// is none.
pub open spec fn digit_value(c: char, r: int) -> int {
    let n = c as int;
    let v = if 48 <= n <= 57 {
        n - 48
    } else if 97 <= n <= 102 {
        n - 87
    } else if 65 <= n <= 70 {
        n - 55
    } else {
        -1
    };
    if 0 <= v < r {
        v
    } else {
        -1
    }
}

/// `cs[i]` is a digit of radix `r`.
pub open spec fn digit_at(cs: Seq<char>, i: int, r: int) -> bool {
    0 <= i < cs.len() && digit_value(cs[i], r) >= 0
}

/// End of a run of radix-`r` digits continuing at `i`, each digit optionally
/// preceded by one `'` separator.
pub open spec fn digit_run_end(cs: Seq<char>, i: int, r: int) -> int
    decreases cs.len() - i,
{
    if i < 0 || i >= cs.len() {
        i
    } else if digit_at(cs, i, r) {
        digit_run_end(cs, i + 1, r)
    } else if cs[i] == '\'' && digit_at(cs, i + 1, r) {
        digit_run_end(cs, i + 2, r)
    } else {
        i
    }
}

/// End of a run of radix-`r` digits (no separators) continuing at `i`.
pub open spec fn plain_run_end(cs: Seq<char>, i: int, r: int) -> int
    decreases cs.len() - i,
{
    if digit_at(cs, i, r) {
        plain_run_end(cs, i + 1, r)
    } else {
        i
    }
}

/// The number the digits of `ds` write in radix `r`; other characters (the
/// `'` separators) are skipped.
pub open spec fn number_of(ds: Seq<char>, r: int) -> int
    decreases ds.len(),
{
    if ds.len() == 0 {
        0
    } else if digit_value(ds.last(), r) >= 0 {
        number_of(ds.drop_last(), r) * r + digit_value(ds.last(), r)
    } else {
        number_of(ds.drop_last(), r)
    }
}

// =============================================================================
// Integer constants
// =============================================================================

/// The radix of an integer constant and where its digits start: `0x`/`0X`
/// hexadecimal, `0b`/`0B` binary and `0o`/`0O` octal prefixes (each followed
/// by a digit), a leading `0` octal, otherwise decimal.
pub open spec fn int_radix_start(cs: Seq<char>) -> (int, int) {
    if has(cs, 0, '0') && (has(cs, 1, 'x') || has(cs, 1, 'X')) && digit_at(cs, 2, 16) {
        (16, 2)
    } else if has(cs, 0, '0') && (has(cs, 1, 'b') || has(cs, 1, 'B')) && digit_at(cs, 2, 2) {
        (2, 2)
    } else if has(cs, 0, '0') && (has(cs, 1, 'o') || has(cs, 1, 'O')) && digit_at(cs, 2, 8) {
        (8, 2)
    } else if has(cs, 0, '0') {
        (8, 0)
    } else {
        (10, 0)
    }
}

pub open spec fn u_at(cs: Seq<char>, i: int) -> bool {
    has(cs, i, 'u') || has(cs, i, 'U')
}

pub open spec fn l_at(cs: Seq<char>, i: int) -> bool {
    has(cs, i, 'l') || has(cs, i, 'L')
}

/// `ll` or `LL` at `i`.
pub open spec fn ll_at(cs: Seq<char>, i: int) -> bool {
    (has(cs, i, 'l') && has(cs, i + 1, 'l')) || (has(cs, i, 'L') && has(cs, i + 1, 'L'))
}

/// `wb` or `WB` at `i`.
pub open spec fn wb_at(cs: Seq<char>, i: int) -> bool {
    (has(cs, i, 'w') && has(cs, i + 1, 'b')) || (has(cs, i, 'W') && has(cs, i + 1, 'B'))
}

/// The integer suffix that starts at `i`, tried in this order: `u` with
/// `ll`, `u` with `l`, `u` with `wb` (either way round), `u`, `ll`, `l`, `wb`.
pub open spec fn int_suffix_at(cs: Seq<char>, i: int) -> Option<IntegerSuffix> {
    if (u_at(cs, i) && ll_at(cs, i + 1)) || (ll_at(cs, i) && u_at(cs, i + 2)) {
        Some(IntegerSuffix::UnsignedLongLong)
    } else if (u_at(cs, i) && l_at(cs, i + 1)) || (l_at(cs, i) && u_at(cs, i + 1)) {
        Some(IntegerSuffix::UnsignedLong)
    } else if (u_at(cs, i) && wb_at(cs, i + 1)) || (wb_at(cs, i) && u_at(cs, i + 2)) {
        Some(IntegerSuffix::UnsignedBitPrecise)
    } else if u_at(cs, i) {
        Some(IntegerSuffix::Unsigned)
    } else if ll_at(cs, i) {
        Some(IntegerSuffix::LongLong)
    } else if l_at(cs, i) {
        Some(IntegerSuffix::Long)
    } else if wb_at(cs, i) {
        Some(IntegerSuffix::BitPrecise)
    } else {
        None
    }
}

/// The largest `i128`, as a number.
pub open spec fn i128_max() -> int {
    0x7fff_ffff_ffff_ffff_ffff_ffff_ffff_ffff
}

/// The integer constant written by `cs`: the number its digits write in its
/// radix (`i128::MAX` when it is larger), and the suffix after the digits.
pub open spec fn int_constant_of(cs: Seq<char>) -> IntegerConstant {
    let (r, s) = int_radix_start(cs);
    let e = digit_run_end(cs, s, r);
    let v = number_of(cs.subrange(s, e), r);
    IntegerConstant {
        value: if v <= i128_max() {
            v as i128
        } else {
            i128::MAX
        },
        suffix: int_suffix_at(cs, e),
    }
}

proof fn lemma_digit_run_end(cs: Seq<char>, i: int, r: int)
    requires
        0 <= i <= cs.len(),
    ensures
        i <= digit_run_end(cs, i, r) <= cs.len(),
    decreases cs.len() - i,
{
    if i < cs.len() {
        if digit_at(cs, i, r) {
            lemma_digit_run_end(cs, i + 1, r);
        } else if cs[i] == '\'' && digit_at(cs, i + 1, r) {
            lemma_digit_run_end(cs, i + 2, r);
        }
    }
}

proof fn lemma_plain_run_end(cs: Seq<char>, i: int, r: int)
    requires
        0 <= i <= cs.len(),
    ensures
        i <= plain_run_end(cs, i, r) <= cs.len(),
        forall|j: int| i <= j < plain_run_end(cs, i, r) ==> digit_at(cs, j, r),
    decreases cs.len() - i,
{
    if digit_at(cs, i, r) {
        lemma_plain_run_end(cs, i + 1, r);
    }
}

/// Numbers are not negative, and appending a character never makes one
/// smaller.
proof fn lemma_number_grows(ds: Seq<char>, c: char, r: int)
    requires
        r >= 1,
    ensures
        number_of(ds, r) >= 0,
        number_of(ds.push(c), r) >= number_of(ds, r),
        digit_value(c, r) >= 0 ==> number_of(ds.push(c), r) == number_of(ds, r) * r + digit_value(c, r),
        digit_value(c, r) < 0 ==> number_of(ds.push(c), r) == number_of(ds, r),
    decreases ds.len(),
{
    assert(ds.push(c).drop_last() =~= ds);
    assert(ds.push(c).last() == c);
    if ds.len() > 0 {
        lemma_number_grows(ds.drop_last(), ds.last(), r);
        assert(ds.drop_last().push(ds.last()) =~= ds);
    }
    let n = number_of(ds, r);
    assert(n * r >= n) by (nonlinear_arith)
        requires
            n >= 0,
            r >= 1,
    ;
}

/// The value of `c` as a digit of radix `r`, if it is one.
fn digit_of(c: char, r: u32) -> (v: Option<u32>)
    requires
        r <= 16,
    ensures
        v is Some <==> digit_value(c, r as int) >= 0,
        v matches Some(x) ==> x == digit_value(c, r as int),
{
    let n = c as u32;
    let d: u32 = if 48 <= n && n <= 57 {
        n - 48
    } else if 97 <= n && n <= 102 {
        n - 87
    } else if 65 <= n && n <= 70 {
        n - 55
    } else {
        return None;
    };
    if d < r {
        Some(d)
    } else {
        None
    }
}

/// `cs[i]` is a digit of radix `r`.
fn is_digit_at(cs: &[char], i: usize, r: u32) -> (b: bool)
    requires
        r <= 16,
    ensures
        b == digit_at(cs@, i as int, r as int),
{
    i < cs.len() && digit_of(cs[i], r).is_some()
}

/// `cs[i]` is `c`.
fn has_at(cs: &[char], i: usize, c: char) -> (b: bool)
    ensures
        b == has(cs@, i as int, c),
{
    i < cs.len() && cs[i] == c
}

/// End of the digit run (separators allowed) continuing at `i`.
fn run_end(cs: &[char], i: usize, r: u32) -> (e: usize)
    requires
        i <= cs.len(),
        r <= 16,
    ensures
        e == digit_run_end(cs@, i as int, r as int),
{
    let mut j = i;
    while j < cs.len()
        invariant
            i <= j <= cs.len(),
            r <= 16,
            digit_run_end(cs@, i as int, r as int) == digit_run_end(cs@, j as int, r as int),
        decreases cs.len() - j,
    {
        if is_digit_at(cs, j, r) {
            j = j + 1;
        } else if cs[j] == '\'' && is_digit_at(cs, j + 1, r) {
            j = j + 2;
        } else {
            return j;
        }
    }
    j
}

/// End of the digit run (no separators) continuing at `i`.
fn plain_end(cs: &[char], i: usize, r: u32) -> (e: usize)
    requires
        i <= cs.len(),
        r <= 16,
    ensures
        e == plain_run_end(cs@, i as int, r as int),
{
    let mut j = i;
    while is_digit_at(cs, j, r)
        invariant
            i <= j <= cs.len(),
            r <= 16,
            plain_run_end(cs@, i as int, r as int) == plain_run_end(cs@, j as int, r as int),
        decreases cs.len() - j,
    {
        j = j + 1;
    }
    j
}

/// The number `cs[s..e]` writes in radix `r`, or `None` when it exceeds
/// `limit`.
fn number_upto(cs: &[char], s: usize, e: usize, r: u32, limit: u128) -> (v: Option<u128>)
    requires
        s <= e <= cs.len(),
        2 <= r <= 16,
    ensures
        v matches Some(x) ==> x == number_of(cs@.subrange(s as int, e as int), r as int) && x <= limit,
        v is None ==> number_of(cs@.subrange(s as int, e as int), r as int) > limit,
{
    let mut acc: u128 = 0;
    let mut over = false;
    let mut j = s;
    proof {
        assert(cs@.subrange(s as int, s as int) =~= Seq::<char>::empty());
    }
    while j < e
        invariant
            s <= j <= e <= cs.len(),
            2 <= r <= 16,
            !over ==> acc == number_of(cs@.subrange(s as int, j as int), r as int) && acc <= limit,
            over ==> number_of(cs@.subrange(s as int, j as int), r as int) > limit,
        decreases e - j,
    {
        let ghost before = cs@.subrange(s as int, j as int);
        proof {
            assert(cs@.subrange(s as int, j + 1) =~= before.push(cs@[j as int]));
            lemma_number_grows(before, cs@[j as int], r as int);
        }
        if !over {
            match digit_of(cs[j], r) {
                Some(d) => {
                    match acc.checked_mul(r as u128) {
                        Some(m) => match m.checked_add(d as u128) {
                            Some(n) => {
                                if n <= limit {
                                    acc = n;
                                } else {
                                    over = true;
                                }
                            },
                            None => {
                                over = true;
                            },
                        },
                        None => {
                            proof {
                                let nb = number_of(before, r as int);
                                assert(nb * r + d >= nb * r);
                            }
                            over = true;
                        },
                    }
                },
                None => {},
            }
        }
        j = j + 1;
    }
    if over {
        None
    } else {
        Some(acc)
    }
}

/// The suffix of an integer constant that starts at `i` (see [`int_suffix_at`]).
fn int_suffix(cs: &[char], i: usize) -> (r: Option<IntegerSuffix>)
    requires
        i <= cs.len(),
    ensures
        r == int_suffix_at(cs@, i as int),
{
    let u0 = has_at(cs, i, 'u') || has_at(cs, i, 'U');
    let u1 = i < cs.len() && (has_at(cs, i + 1, 'u') || has_at(cs, i + 1, 'U'));
    let u2 = i < cs.len() && i + 1 < cs.len() && (has_at(cs, i + 2, 'u') || has_at(cs, i + 2, 'U'));
    let l0 = has_at(cs, i, 'l') || has_at(cs, i, 'L');
    let l1 = i < cs.len() && (has_at(cs, i + 1, 'l') || has_at(cs, i + 1, 'L'));
    let ll0 = i < cs.len() && ((has_at(cs, i, 'l') && has_at(cs, i + 1, 'l')) || (has_at(cs, i, 'L')
        && has_at(cs, i + 1, 'L')));
    let ll1 = i < cs.len() && i + 1 < cs.len() && ((has_at(cs, i + 1, 'l') && has_at(cs, i + 2, 'l')) || (has_at(
        cs,
        i + 1,
        'L',
    ) && has_at(cs, i + 2, 'L')));
    let wb0 = i < cs.len() && ((has_at(cs, i, 'w') && has_at(cs, i + 1, 'b')) || (has_at(cs, i, 'W')
        && has_at(cs, i + 1, 'B')));
    let wb1 = i < cs.len() && i + 1 < cs.len() && ((has_at(cs, i + 1, 'w') && has_at(cs, i + 2, 'b')) || (has_at(
        cs,
        i + 1,
        'W',
    ) && has_at(cs, i + 2, 'B')));
    if (u0 && ll1) || (ll0 && u2) {
        Some(IntegerSuffix::UnsignedLongLong)
    } else if (u0 && l1) || (l0 && u1) {
        Some(IntegerSuffix::UnsignedLong)
    } else if (u0 && wb1) || (wb0 && u2) {
        Some(IntegerSuffix::UnsignedBitPrecise)
    } else if u0 {
        Some(IntegerSuffix::Unsigned)
    } else if ll0 {
        Some(IntegerSuffix::LongLong)
    } else if l0 {
        Some(IntegerSuffix::Long)
    } else if wb0 {
        Some(IntegerSuffix::BitPrecise)
    } else {
        None
    }
}

/// The integer constant that the text `cs` writes (see [`int_constant_of`]).
pub fn integer_constant(cs: &[char]) -> (r: IntegerConstant)
    ensures
        r == int_constant_of(cs@),
{
    let zero = has_at(cs, 0, '0');
    let (r, s): (u32, usize) = if zero && (has_at(cs, 1, 'x') || has_at(cs, 1, 'X')) && is_digit_at(cs, 2, 16) {
        (16, 2)
    } else if zero && (has_at(cs, 1, 'b') || has_at(cs, 1, 'B')) && is_digit_at(cs, 2, 2) {
        (2, 2)
    } else if zero && (has_at(cs, 1, 'o') || has_at(cs, 1, 'O')) && is_digit_at(cs, 2, 8) {
        (8, 2)
    } else if zero {
        (8, 0)
    } else {
        (10, 0)
    };
    let e = run_end(cs, s, r);
    proof {
        lemma_digit_run_end(cs@, s as int, r as int);
    }
    let limit: u128 = 0x7fff_ffff_ffff_ffff_ffff_ffff_ffff_ffffu128;
    let value: i128 = match number_upto(cs, s, e, r, limit) {
        Some(x) => x as i128,
        None => i128::MAX,
    };
    IntegerConstant { value, suffix: int_suffix(cs, e) }
}

// =============================================================================
// Escape sequences
// =============================================================================

/// `char::from_u32` (std): documented to return the character whose code
/// point is `i` when `i` is a Unicode scalar value (not a surrogate, at most
/// `0x10FFFF`), and `None` otherwise.
pub assume_specification[ core::char::from_u32 ](i: u32) -> (r: Option<char>)
    ensures
        r == (if i < 0xD800 || (0xE000 <= i && i <= 0x10FFFF) {
            Some(i as char)
        } else {
            None
        }),
;

/// `String::push` (std): documented to append the character `ch` to the end
/// of the string.
pub assume_specification[ String::push ](s: &mut String, ch: char)
    ensures
        final(s)@ == old(s)@.push(ch),
;

/// The character whose code point is `v`, if `v` is a Unicode scalar value.
pub open spec fn scalar_char(v: int) -> Option<char> {
    if (0 <= v < 0xD800) || (0xE000 <= v <= 0x10FFFF) {
        Some(v as char)
    } else {
        None
    }
}

/// `n` hexadecimal digits start at `i`.
pub open spec fn hex_digits_at(cs: Seq<char>, i: int, n: int) -> bool {
    forall|j: int| i <= j < i + n ==> digit_at(cs, j, 16)
}

/// The number of octal digits (one to three) of an octal escape whose first
/// digit is at `k`.
pub open spec fn octal_escape_len(cs: Seq<char>, k: int) -> int {
    if digit_at(cs, k + 1, 8) && digit_at(cs, k + 2, 8) {
        3
    } else if digit_at(cs, k + 1, 8) {
        2
    } else {
        1
    }
}

/// The escape sequence whose text continues at `k`, just after its
/// backslash: the character it stands for, if any, and where it ends.
///
/// `\' \" \? \\ \a \b \f \n \r \t \v` stand for the usual characters; one to
/// three octal digits, `\x` with a run of hexadecimal digits (at most
/// `u32::MAX`), `\u` with four and `\U` with eight hexadecimal digits for the
/// character with that code point, when there is one; any other character
/// stands for itself. A backslash at the end of the text stands for nothing.
pub open spec fn escape_at(cs: Seq<char>, k: int) -> (Option<char>, int) {
    if k < 0 || k >= cs.len() {
        (None, k)
    } else {
        let c = cs[k];
        if c == '\'' || c == '"' || c == '?' || c == '\\' {
            (Some(c), k + 1)
        } else if c == 'a' {
            (Some('\x07'), k + 1)
        } else if c == 'b' {
            (Some('\x08'), k + 1)
        } else if c == 'f' {
            (Some('\x0C'), k + 1)
        } else if c == 'n' {
            (Some('\n'), k + 1)
        } else if c == 'r' {
            (Some('\r'), k + 1)
        } else if c == 't' {
            (Some('\t'), k + 1)
        } else if c == 'v' {
            (Some('\x0B'), k + 1)
        } else if digit_value(c, 8) >= 0 {
            let n = octal_escape_len(cs, k);
            (scalar_char(number_of(cs.subrange(k, k + n), 8)), k + n)
        } else if c == 'x' {
            let e = plain_run_end(cs, k + 1, 16);
            let v = number_of(cs.subrange(k + 1, e), 16);
            if e == k + 1 {
                (None, k + 1)
            } else if v <= u32::MAX {
                (scalar_char(v), e)
            } else {
                (None, e)
            }
        } else if c == 'u' {
            if hex_digits_at(cs, k + 1, 4) {
                (scalar_char(number_of(cs.subrange(k + 1, k + 5), 16)), k + 5)
            } else {
                (None, k + 1)
            }
        } else if c == 'U' {
            if hex_digits_at(cs, k + 1, 8) {
                (scalar_char(number_of(cs.subrange(k + 1, k + 9), 16)), k + 9)
            } else {
                (None, k + 1)
            }
        } else {
            (Some(c), k + 1)
        }
    }
}

/// The character with code point `v`, if there is one.
pub(crate) fn char_of(v: u128) -> (r: Option<char>)
    ensures
        r == scalar_char(v as int),
{
    if v > 0x10FFFF {
        return None;
    }
    let w = v as u32;
    assert(w == v);
    core::char::from_u32(w)
}

/// Decode the escape sequence whose text continues at `k`, just after its
/// backslash (see [`escape_at`]).
pub fn escape_sequence(cs: &[char], k: usize) -> (r: (Option<char>, usize))
    requires
        k <= cs.len(),
    ensures
        (r.0, r.1 as int) == escape_at(cs@, k as int),
        k <= r.1 <= cs.len(),
{
    if k >= cs.len() {
        return (None, k);
    }
    let c = cs[k];
    if c == '\'' || c == '"' || c == '?' || c == '\\' {
        (Some(c), k + 1)
    } else if c == 'a' {
        (Some('\x07'), k + 1)
    } else if c == 'b' {
        (Some('\x08'), k + 1)
    } else if c == 'f' {
        (Some('\x0C'), k + 1)
    } else if c == 'n' {
        (Some('\n'), k + 1)
    } else if c == 'r' {
        (Some('\r'), k + 1)
    } else if c == 't' {
        (Some('\t'), k + 1)
    } else if c == 'v' {
        (Some('\x0B'), k + 1)
    } else if digit_of(c, 8).is_some() {
        let n: usize = if is_digit_at(cs, k + 1, 8) && is_digit_at(cs, k + 2, 8) {
            3
        } else if is_digit_at(cs, k + 1, 8) {
            2
        } else {
            1
        };
        let v = number_upto(cs, k, k + n, 8, 0xffff_ffff);
        match v {
            Some(x) => (char_of(x), k + n),
            None => {
                proof {
                    lemma_octal_small(cs@, k as int, n as int);
                }
                (None, k + n)
            },
        }
    } else if c == 'x' {
        let e = plain_end(cs, k + 1, 16);
        proof {
            lemma_plain_run_end(cs@, k + 1, 16);
        }
        if e == k + 1 {
            (None, k + 1)
        } else {
            match number_upto(cs, k + 1, e, 16, 0xffff_ffff) {
                Some(x) => (char_of(x), e),
                None => (None, e),
            }
        }
    } else if c == 'u' || c == 'U' {
        let n: usize = if c == 'u' {
            4
        } else {
            8
        };
        if n < cs.len() - k && all_hex(cs, k + 1, n) {
            match number_upto(cs, k + 1, k + 1 + n, 16, 0xffff_ffff) {
                Some(x) => (char_of(x), k + 1 + n),
                None => {
                    proof {
                        lemma_hex_small(cs@, k + 1, n as int);
                    }
                    (None, k + 1 + n)
                },
            }
        } else {
            proof {
                if n < cs.len() - k {
                } else {
                    assert(!digit_at(cs@, cs.len() as int, 16));
                }
            }
            (None, k + 1)
        }
    } else {
        (Some(c), k + 1)
    }
}

/// `n` hexadecimal digits start at `i` (which leaves room for them).
fn all_hex(cs: &[char], i: usize, n: usize) -> (b: bool)
    requires
        i + n <= cs.len(),
    ensures
        b == hex_digits_at(cs@, i as int, n as int),
{
    let mut j = i;
    while j < i + n
        invariant
            i <= j <= i + n <= cs.len(),
            forall|q: int| i <= q < j ==> digit_at(cs@, q, 16),
        decreases i + n - j,
    {
        if !is_digit_at(cs, j, 16) {
            return false;
        }
        j = j + 1;
    }
    true
}

/// At most `n` digits of radix `r` write a number below `r` to the `n`.
proof fn lemma_digits_bound(ds: Seq<char>, r: int)
    requires
        r >= 2,
    ensures
        0 <= number_of(ds, r) < vstd::arithmetic::power::pow(r, ds.len() as nat),
    decreases ds.len(),
{
    vstd::arithmetic::power::lemma_pow_positive(r, ds.len() as nat);
    if ds.len() > 0 {
        lemma_digits_bound(ds.drop_last(), r);
        let n = number_of(ds.drop_last(), r);
        let p = vstd::arithmetic::power::pow(r, (ds.len() - 1) as nat);
        vstd::arithmetic::power::lemma_pow_adds(r, (ds.len() - 1) as nat, 1);
        vstd::arithmetic::power::lemma_pow1(r);
        assert(p * r == vstd::arithmetic::power::pow(r, ds.len() as nat));
        let d = digit_value(ds.last(), r);
        if d >= 0 {
            assert(d < r);
            assert(0 <= n * r + d < p * r) by (nonlinear_arith)
                requires
                    0 <= n < p,
                    0 <= d < r,
            ;
        } else {
            assert(n < p * r) by (nonlinear_arith)
                requires
                    0 <= n < p,
                    r >= 2,
            ;
        }
    }
}

/// An octal escape (at most three digits) is below `u32::MAX`.
proof fn lemma_octal_small(cs: Seq<char>, k: int, n: int)
    requires
        1 <= n <= 3,
        0 <= k,
        k + n <= cs.len(),
    ensures
        number_of(cs.subrange(k, k + n), 8) <= 0xffff_ffff,
{
    lemma_digits_bound(cs.subrange(k, k + n), 8);
    vstd::arithmetic::power::lemma_pow_increases(8, n as nat, 3);
    assert(vstd::arithmetic::power::pow(8, 3) == 512) by {
        reveal_with_fuel(vstd::arithmetic::power::pow, 4);
    }
}

/// Four or eight hexadecimal digits write a number of at most `u32::MAX`.
proof fn lemma_hex_small(cs: Seq<char>, i: int, n: int)
    requires
        n == 4 || n == 8,
        0 <= i,
        i + n <= cs.len(),
    ensures
        number_of(cs.subrange(i, i + n), 16) <= 0xffff_ffff,
{
    lemma_digits_bound(cs.subrange(i, i + n), 16);
    vstd::arithmetic::power::lemma_pow_increases(16, n as nat, 8);
    assert(vstd::arithmetic::power::pow(16, 8) == 0x1_0000_0000) by {
        reveal_with_fuel(vstd::arithmetic::power::pow, 9);
    }
}

// =============================================================================
// Character constants, string literals and quoted strings
// =============================================================================

/// The encoding prefix of a literal and its length: `u8`, `u`, `U` or `L`.
pub open spec fn literal_prefix(cs: Seq<char>) -> (Option<EncodingPrefix>, int) {
    if has(cs, 0, 'u') && has(cs, 1, '8') {
        (Some(EncodingPrefix::U8), 2)
    } else if has(cs, 0, 'u') {
        (Some(EncodingPrefix::U), 1)
    } else if has(cs, 0, 'U') {
        (Some(EncodingPrefix::CapitalU), 1)
    } else if has(cs, 0, 'L') {
        (Some(EncodingPrefix::L), 1)
    } else {
        (None, 0)
    }
}

/// The characters of a literal body continuing at `i` and closed by `q`:
/// escape sequences are decoded (one that stands for nothing is dropped),
/// and the body ends at the closing quote, a line feed or the end of the text.
pub open spec fn body_value(cs: Seq<char>, i: int, q: char) -> Seq<char>
    decreases cs.len() - i,
{
    if i < 0 || i >= cs.len() || cs[i] == q || cs[i] == '\n' {
        Seq::empty()
    } else if cs[i] == '\\' {
        let (c, j) = escape_at(cs, i + 1);
        let head = match c {
            Some(ch) => seq![ch],
            None => Seq::empty(),
        };
        if i < j <= cs.len() {
            head + body_value(cs, j, q)
        } else {
            head
        }
    } else {
        seq![cs[i]] + body_value(cs, i + 1, q)
    }
}

/// `c` is the character constant written by `cs`: its prefix and the
/// decoded characters between its quotes.
pub open spec fn char_constant_of(c: CharacterConstant, cs: Seq<char>) -> bool {
    let (p, n) = literal_prefix(cs);
    c.encoding_prefix == p && c.value@ == body_value(cs, n + 1, '\'')
}

/// `l` is the string literal written by `cs`: its prefix and the decoded
/// characters between its double quotes.
pub open spec fn string_literal_of(l: StringLiteral, cs: Seq<char>) -> bool {
    let (p, n) = literal_prefix(cs);
    l.encoding_prefix == p && l.value@ == body_value(cs, n + 1, '"')
}

/// The characters of a quoted string continuing at `i`, up to its closing
/// backtick or the end of the text.
pub open spec fn backtick_body(cs: Seq<char>, i: int) -> Seq<char>
    decreases cs.len() - i,
{
    if i < 0 || i >= cs.len() || cs[i] == '`' {
        Seq::empty()
    } else {
        seq![cs[i]] + backtick_body(cs, i + 1)
    }
}

/// The floating suffix at the end of a floating constant: `df`, `dd`, `dl`
/// (either case), else `f` or `l` (either case).
pub open spec fn float_suffix_of(cs: Seq<char>) -> Option<FloatingSuffix> {
    let n = cs.len() as int;
    if (has(cs, n - 2, 'd') && has(cs, n - 1, 'f')) || (has(cs, n - 2, 'D') && has(cs, n - 1, 'F')) {
        Some(FloatingSuffix::DF)
    } else if (has(cs, n - 2, 'd') && has(cs, n - 1, 'd')) || (has(cs, n - 2, 'D') && has(
        cs,
        n - 1,
        'D',
    )) {
        Some(FloatingSuffix::DD)
    } else if (has(cs, n - 2, 'd') && has(cs, n - 1, 'l')) || (has(cs, n - 2, 'D') && has(
        cs,
        n - 1,
        'L',
    )) {
        Some(FloatingSuffix::DL)
    } else if has(cs, n - 1, 'f') || has(cs, n - 1, 'F') {
        Some(FloatingSuffix::F)
    } else if has(cs, n - 1, 'l') || has(cs, n - 1, 'L') {
        Some(FloatingSuffix::L)
    } else {
        None
    }
}

/// The hexadecimal digit `d` (below sixteen), written in lower case, or
/// with `upper` in upper case.
pub open spec fn hex_char(d: int, upper: bool) -> char {
    if d == 0 {
        '0'
    } else if d == 1 {
        '1'
    } else if d == 2 {
        '2'
    } else if d == 3 {
        '3'
    } else if d == 4 {
        '4'
    } else if d == 5 {
        '5'
    } else if d == 6 {
        '6'
    } else if d == 7 {
        '7'
    } else if d == 8 {
        '8'
    } else if d == 9 {
        '9'
    } else if d == 10 {
        if upper {
            'A'
        } else {
            'a'
        }
    } else if d == 11 {
        if upper {
            'B'
        } else {
            'b'
        }
    } else if d == 12 {
        if upper {
            'C'
        } else {
            'c'
        }
    } else if d == 13 {
        if upper {
            'D'
        } else {
            'd'
        }
    } else if d == 14 {
        if upper {
            'E'
        } else {
            'e'
        }
    } else if d == 15 {
        if upper {
            'F'
        } else {
            'f'
        }
    } else {
        ' '
    }
}

/// The hexadecimal digits of `n`, most significant first.
pub open spec fn hex_text(n: nat, upper: bool) -> Seq<char>
    decreases n,
{
    if n < 16 {
        seq![hex_char(n as int, upper)]
    } else {
        hex_text(n / 16, upper).push(hex_char((n % 16) as int, upper))
    }
}

proof fn lemma_hex_char(d: int, upper: bool)
    requires
        0 <= d < 16,
    ensures
        digit_value(hex_char(d, upper), 16) == d,
        hex_char(d, upper) != '\'',
{
}

/// The hexadecimal digits of `n` are digits and write `n`.
proof fn lemma_hex_text(n: nat, upper: bool)
    ensures
        hex_text(n, upper).len() >= 1,
        forall|j: int| 0 <= j < hex_text(n, upper).len() ==> digit_value(#[trigger] hex_text(n, upper)[j], 16) >= 0,
        number_of(hex_text(n, upper), 16) == n,
    decreases n,
{
    if n < 16 {
        lemma_hex_char(n as int, upper);
        reveal_with_fuel(number_of, 2);
        assert(seq![hex_char(n as int, upper)].drop_last() =~= Seq::<char>::empty());
    } else {
        let m = (n / 16) as nat;
        let d = (n % 16) as int;
        lemma_hex_text(m, upper);
        lemma_hex_char(d, upper);
        let ds = hex_text(m, upper);
        assert(hex_text(n, upper).drop_last() =~= ds);
        assert(forall|j: int| 0 <= j < ds.len() ==> hex_text(n, upper)[j] == ds[j]);
        assert(number_of(hex_text(n, upper), 16) == number_of(ds, 16) * 16 + d);
    }
}

/// A run of digits reaching the end of the text ends there.
proof fn lemma_run_to_end(cs: Seq<char>, i: int, r: int)
    requires
        0 <= i <= cs.len(),
        forall|j: int| i <= j < cs.len() ==> digit_at(cs, j, r),
    ensures
        digit_run_end(cs, i, r) == cs.len(),
    decreases cs.len() - i,
{
    if i < cs.len() {
        lemma_run_to_end(cs, i + 1, r);
    }
}

/// A hexadecimal constant reads back as the number its digits write: `0x`
/// (or `0X`) followed by the hexadecimal digits of `n`, in either case,
/// is the constant `n` with no suffix.
pub proof fn lemma_hex_constant_read(n: nat, upper: bool, x_upper: bool)
    requires
        n <= i128_max(),
    ensures
        int_constant_of(seq!['0', if x_upper { 'X' } else { 'x' }] + hex_text(n, upper)) == (IntegerConstant {
            value: n as i128,
            suffix: None,
        }),
{
    let ds = hex_text(n, upper);
    let cs = seq!['0', if x_upper { 'X' } else { 'x' }] + ds;
    lemma_hex_text(n, upper);
    assert forall|j: int| 2 <= j < cs.len() implies digit_at(cs, j, 16) by {
        assert(cs[j] == ds[j - 2]);
    }
    assert(digit_at(cs, 2, 16));
    assert(int_radix_start(cs) == (16int, 2int));
    lemma_run_to_end(cs, 2, 16);
    assert(cs.subrange(2, cs.len() as int) =~= ds);
    assert(int_suffix_at(cs, cs.len() as int) is None);
}

/// The digits of `n` in radix `r` (two, eight, or otherwise sixteen), most
/// significant first, letters in lower case or, with `upper`, in upper case.
pub open spec fn radix_text(n: nat, r: nat, upper: bool) -> Seq<char>
    decreases n,
{
    if r == 2 {
        if n < 2 {
            seq![hex_char(n as int, upper)]
        } else {
            radix_text(n / 2, r, upper).push(hex_char((n % 2) as int, upper))
        }
    } else if r == 8 {
        if n < 8 {
            seq![hex_char(n as int, upper)]
        } else {
            radix_text(n / 8, r, upper).push(hex_char((n % 8) as int, upper))
        }
    } else {
        if n < 16 {
            seq![hex_char(n as int, upper)]
        } else {
            radix_text(n / 16, r, upper).push(hex_char((n % 16) as int, upper))
        }
    }
}

/// The digits of `n` in radix `r` are digits of that radix and write `n`.
proof fn lemma_radix_text(n: nat, r: nat, upper: bool)
    requires
        r == 2 || r == 8 || r == 16,
    ensures
        radix_text(n, r, upper).len() >= 1,
        forall|j: int|
            0 <= j < radix_text(n, r, upper).len() ==> digit_value(#[trigger] radix_text(n, r, upper)[j], r as int)
                >= 0,
        number_of(radix_text(n, r, upper), r as int) == n,
    decreases n,
{
    if n < r {
        lemma_hex_char(n as int, upper);
        reveal_with_fuel(number_of, 2);
        assert(seq![hex_char(n as int, upper)].drop_last() =~= Seq::<char>::empty());
        assert(radix_text(n, r, upper) == seq![hex_char(n as int, upper)]);
    } else {
        let m = (n / r) as nat;
        let d = (n % r) as int;
        lemma_radix_text(m, r, upper);
        lemma_hex_char(d, upper);
        let ds = radix_text(m, r, upper);
        assert(radix_text(n, r, upper) == ds.push(hex_char(d, upper)));
        assert(radix_text(n, r, upper).drop_last() =~= ds);
        assert(forall|j: int| 0 <= j < ds.len() ==> radix_text(n, r, upper)[j] == ds[j]);
        assert(number_of(radix_text(n, r, upper), r as int) == number_of(ds, r as int) * r + d);
        assert(m * r + d == n) by (nonlinear_arith)
            requires
                m == n / r,
                d == n % r,
                r > 0,
        ;
    }
}

/// A binary constant reads back as the number its digits write: `0b` (or
/// `0B`) followed by the binary digits of `n` is the constant `n`.
pub proof fn lemma_binary_constant_read(n: nat, b_upper: bool)
    requires
        n <= i128_max(),
    ensures
        int_constant_of(seq!['0', if b_upper { 'B' } else { 'b' }] + radix_text(n, 2, false)) == (
        IntegerConstant { value: n as i128, suffix: None }),
{
    let ds = radix_text(n, 2, false);
    let cs = seq!['0', if b_upper { 'B' } else { 'b' }] + ds;
    lemma_radix_text(n, 2, false);
    assert forall|j: int| 2 <= j < cs.len() implies digit_at(cs, j, 2) by {
        assert(cs[j] == ds[j - 2]);
    }
    assert(digit_at(cs, 2, 2));
    assert(int_radix_start(cs) == (2int, 2int));
    lemma_run_to_end(cs, 2, 2);
    assert(cs.subrange(2, cs.len() as int) =~= ds);
    assert(int_suffix_at(cs, cs.len() as int) is None);
}

/// An octal constant reads back as the number its digits write: `0o` (or
/// `0O`) followed by the octal digits of `n` is the constant `n`.
pub proof fn lemma_octal_constant_read(n: nat, o_upper: bool)
    requires
        n <= i128_max(),
    ensures
        int_constant_of(seq!['0', if o_upper { 'O' } else { 'o' }] + radix_text(n, 8, false)) == (
        IntegerConstant { value: n as i128, suffix: None }),
{
    let ds = radix_text(n, 8, false);
    let cs = seq!['0', if o_upper { 'O' } else { 'o' }] + ds;
    lemma_radix_text(n, 8, false);
    assert forall|j: int| 2 <= j < cs.len() implies digit_at(cs, j, 8) by {
        assert(cs[j] == ds[j - 2]);
    }
    assert(digit_at(cs, 2, 8));
    assert(!digit_at(cs, 2, 16) || !(has(cs, 1, 'x') || has(cs, 1, 'X')));
    assert(int_radix_start(cs) == (8int, 2int));
    lemma_run_to_end(cs, 2, 8);
    assert(cs.subrange(2, cs.len() as int) =~= ds);
    assert(int_suffix_at(cs, cs.len() as int) is None);
}

/// A spelling of the integer suffix `x`: `u_upper` for the case of a `u`,
/// `l_upper` for that of `l`, `ll`, `wb`, and with `swap` the `u` written
/// last.
pub open spec fn int_suffix_text(x: IntegerSuffix, u_upper: bool, l_upper: bool, swap: bool) -> Seq<char> {
    let u = if u_upper { 'U' } else { 'u' };
    let l = if l_upper { 'L' } else { 'l' };
    let w = if l_upper { 'W' } else { 'w' };
    let b = if l_upper { 'B' } else { 'b' };
    match x {
        IntegerSuffix::Unsigned => seq![u],
        IntegerSuffix::Long => seq![l],
        IntegerSuffix::LongLong => seq![l, l],
        IntegerSuffix::UnsignedLong => if swap { seq![l, u] } else { seq![u, l] },
        IntegerSuffix::UnsignedLongLong => if swap { seq![l, l, u] } else { seq![u, l, l] },
        IntegerSuffix::BitPrecise => seq![w, b],
        IntegerSuffix::UnsignedBitPrecise => if swap { seq![w, b, u] } else { seq![u, w, b] },
    }
}

/// A run of digits up to `e`, followed by neither a digit nor a separator,
/// ends at `e`.
proof fn lemma_run_stops(cs: Seq<char>, i: int, e: int, r: int)
    requires
        0 <= i <= e <= cs.len(),
        forall|j: int| i <= j < e ==> digit_at(cs, j, r),
        e == cs.len() || (!digit_at(cs, e, r) && cs[e] != '\''),
    ensures
        digit_run_end(cs, i, r) == e,
    decreases e - i,
{
    if i < e {
        lemma_run_stops(cs, i + 1, e, r);
    }
}

/// An integer constant reads its suffix back, however it is spelled: `0x`,
/// the hexadecimal digits of `n`, and any spelling of `x` (either case, `u`
/// first or last) give the constant `n` with suffix `x`.
pub proof fn lemma_int_suffix_read(n: nat, upper: bool, x: IntegerSuffix, u_upper: bool, l_upper: bool, swap: bool)
    requires
        n <= i128_max(),
    ensures
        int_constant_of(seq!['0', 'x'] + radix_text(n, 16, upper) + int_suffix_text(x, u_upper, l_upper, swap)) == (
        IntegerConstant { value: n as i128, suffix: Some(x) }),
{
    let ds = radix_text(n, 16, upper);
    let sx = int_suffix_text(x, u_upper, l_upper, swap);
    let cs = seq!['0', 'x'] + ds + sx;
    let e: int = 2 + ds.len() as int;
    lemma_radix_text(n, 16, upper);
    assert forall|j: int| 2 <= j < e implies digit_at(cs, j, 16) by {
        assert(cs[j] == ds[j - 2]);
    }
    assert forall|k: int| 0 <= k < sx.len() implies cs[e + k] == sx[k] by {}
    assert(cs.len() == e + sx.len());
    assert(digit_at(cs, 2, 16));
    assert(int_radix_start(cs) == (16int, 2int));
    assert(!digit_at(cs, e, 16) && cs[e] != '\'');
    lemma_run_stops(cs, 2, e, 16);
    assert(cs.subrange(2, e) =~= ds);
}

/// The ways the floating suffix `x` may be written: in lower case, or with
/// `upper`, in upper case (`f`/`F`, `l`/`L`, `df`/`DF`, `dd`/`DD`,
/// `dl`/`DL`).
pub open spec fn float_suffix_text(x: FloatingSuffix, upper: bool) -> Seq<char> {
    match x {
        FloatingSuffix::F => if upper { seq!['F'] } else { seq!['f'] },
        FloatingSuffix::L => if upper { seq!['L'] } else { seq!['l'] },
        FloatingSuffix::DF => if upper { seq!['D', 'F'] } else { seq!['d', 'f'] },
        FloatingSuffix::DD => if upper { seq!['D', 'D'] } else { seq!['d', 'd'] },
        FloatingSuffix::DL => if upper { seq!['D', 'L'] } else { seq!['d', 'l'] },
    }
}

/// A floating constant reads its suffix back, however it is written: the
/// digits of a constant (ending in a digit or a point) followed by a
/// spelling of `x` in either case give `x`, and with no suffix give none.
pub proof fn lemma_float_suffix_read(body: Seq<char>, x: FloatingSuffix, upper: bool)
    requires
        body.len() > 0,
        ('0' <= body.last() <= '9') || body.last() == '.',
    ensures
        float_suffix_of(body + float_suffix_text(x, upper)) == Some(x),
        float_suffix_of(body) is None,
{
    let cs = body + float_suffix_text(x, upper);
    let n = cs.len() as int;
    let t = float_suffix_text(x, upper);
    assert(cs[n - 1] == t[t.len() - 1]);
    if t.len() == 2 {
        assert(cs[n - 2] == t[0]);
    } else {
        assert(cs[n - 2] == body.last());
    }
}

/// The encoding prefix of a literal and its length (see [`literal_prefix`]).
fn prefix(cs: &[char]) -> (r: (Option<EncodingPrefix>, usize))
    ensures
        (r.0, r.1 as int) == literal_prefix(cs@),
{
    if has_at(cs, 0, 'u') && has_at(cs, 1, '8') {
        (Some(EncodingPrefix::U8), 2)
    } else if has_at(cs, 0, 'u') {
        (Some(EncodingPrefix::U), 1)
    } else if has_at(cs, 0, 'U') {
        (Some(EncodingPrefix::CapitalU), 1)
    } else if has_at(cs, 0, 'L') {
        (Some(EncodingPrefix::L), 1)
    } else {
        (None, 0)
    }
}

/// Append to `out` the characters of the literal body continuing at `i` and
/// closed by `q` (see [`body_value`]).
fn literal_body(cs: &[char], i: usize, q: char, out: &mut String)
    ensures
        final(out)@ == old(out)@ + body_value(cs@, i as int, q),
{
    let ghost start = out@;
    let mut j = i;
    proof {
        assert(out@ + body_value(cs@, j as int, q) == start + body_value(cs@, i as int, q)) by {
            assert(start =~= out@);
        }
    }
    while j < cs.len()
        invariant
            out@ + body_value(cs@, j as int, q) == start + body_value(cs@, i as int, q),
        ensures
            out@ == start + body_value(cs@, i as int, q),
        decreases cs.len() - j,
    {
        let c = cs[j];
        if c == q || c == '\n' {
            proof {
                assert(out@ + Seq::<char>::empty() =~= out@);
            }
            break;
        } else if c == '\\' {
            let (e, k) = escape_sequence(cs, j + 1);
            let ghost before = out@;
            match e {
                Some(ch) => {
                    out.push(ch);
                    proof {
                        assert(before + (seq![ch] + body_value(cs@, k as int, q)) =~= out@ + body_value(
                            cs@,
                            k as int,
                            q,
                        ));
                    }
                },
                None => {
                    proof {
                        assert(before + (Seq::<char>::empty() + body_value(cs@, k as int, q)) =~= out@
                            + body_value(cs@, k as int, q));
                    }
                },
            }
            j = k;
        } else {
            let ghost before = out@;
            out.push(c);
            proof {
                assert(before + (seq![c] + body_value(cs@, j + 1, q)) =~= out@ + body_value(cs@, j + 1, q));
            }
            j = j + 1;
        }
    }
    proof {
        if j >= cs.len() {
            assert(out@ + Seq::<char>::empty() =~= out@);
        }
    }
}

/// The character constant that the text `cs` writes (see [`char_constant_of`]).
pub fn character_constant(cs: &[char]) -> (r: CharacterConstant)
    ensures
        char_constant_of(r, cs@),
{
    let (p, n) = prefix(cs);
    let mut value = String::new();
    literal_body(cs, n + 1, '\'', &mut value);
    proof {
        assert(Seq::<char>::empty() + body_value(cs@, n + 1, '\'') =~= body_value(cs@, n + 1, '\''));
    }
    CharacterConstant { encoding_prefix: p, value }
}

/// The string literal that the text `cs` writes (see [`string_literal_of`]).
pub fn string_literal(cs: &[char]) -> (r: StringLiteral)
    ensures
        string_literal_of(r, cs@),
{
    let (p, n) = prefix(cs);
    let mut value = String::new();
    literal_body(cs, n + 1, '"', &mut value);
    proof {
        assert(Seq::<char>::empty() + body_value(cs@, n + 1, '"') =~= body_value(cs@, n + 1, '"'));
    }
    StringLiteral { encoding_prefix: p, value }
}

/// The contents of the quoted string that the text `cs` writes (see
/// [`backtick_body`]).
pub fn quoted_string(cs: &[char]) -> (r: String)
    ensures
        r@ == backtick_body(cs@, 1),
{
    let mut out = String::new();
    let mut j: usize = 1;
    proof {
        assert(out@ + backtick_body(cs@, 1) =~= backtick_body(cs@, 1));
    }
    while j < cs.len() && cs[j] != '`'
        invariant
            1 <= j,
            out@ + backtick_body(cs@, j as int) == backtick_body(cs@, 1),
        decreases cs.len() - j,
    {
        let ghost before = out@;
        out.push(cs[j]);
        proof {
            assert(before + (seq![cs@[j as int]] + backtick_body(cs@, j + 1)) =~= out@ + backtick_body(
                cs@,
                j + 1,
            ));
        }
        j = j + 1;
    }
    proof {
        assert(out@ + Seq::<char>::empty() =~= out@);
    }
    out
}

/// The suffix of the floating constant that the text `cs` writes (see
/// [`float_suffix_of`]).
pub fn floating_suffix(cs: &[char]) -> (r: Option<FloatingSuffix>)
    ensures
        r == float_suffix_of(cs@),
{
    let n = cs.len();
    let (a, b): (char, char) = if n >= 2 {
        (cs[n - 2], cs[n - 1])
    } else if n == 1 {
        (' ', cs[0])
    } else {
        (' ', ' ')
    };
    if (a == 'd' && b == 'f') || (a == 'D' && b == 'F') {
        Some(FloatingSuffix::DF)
    } else if (a == 'd' && b == 'd') || (a == 'D' && b == 'D') {
        Some(FloatingSuffix::DD)
    } else if (a == 'd' && b == 'l') || (a == 'D' && b == 'L') {
        Some(FloatingSuffix::DL)
    } else if b == 'f' || b == 'F' {
        Some(FloatingSuffix::F)
    } else if b == 'l' || b == 'L' {
        Some(FloatingSuffix::L)
    } else {
        None
    }
}

// =============================================================================
// Tokens
// =============================================================================

/// `t` is what a token of `kind` with text `cs` stands for: identifiers keep
/// their text, constants, string literals and quoted strings get the value
/// their text writes (the value of a floating constant is not held),
/// punctuators their punctuator.
pub open spec fn token_reads(t: BalancedToken, kind: SyntaxKind, cs: Seq<char>) -> bool {
    match t {
        BalancedToken::Identifier(id) => kind == SyntaxKind::Ident && id.0@ == cs,
        BalancedToken::StringLiteral(sl) => {
            &&& kind == SyntaxKind::StringLiteral
            &&& sl.0@.len() == 1
            &&& string_literal_of(sl.0@[0], cs)
        },
        BalancedToken::QuotedString(s) => kind == SyntaxKind::QuotedString && s@ == backtick_body(cs, 1),
        BalancedToken::Constant(c) => match c {
            Constant::Integer(i) => kind == SyntaxKind::IntegerConst && i == int_constant_of(cs),
            Constant::Floating(f) => kind == SyntaxKind::FloatConst && f.suffix == float_suffix_of(cs),
            Constant::Character(ch) => kind == SyntaxKind::CharConst && char_constant_of(ch, cs),
            Constant::Predefined(p) => kind == SyntaxKind::PredefinedConst && p == predefined_named(cs),
        },
        BalancedToken::Punctuator(p) => punctuator_of(kind) == Some(p),
        BalancedToken::Unknown => kind == SyntaxKind::Unknown,
    }
}

/// The predefined constant named by `cs` (see [`predefined_named`]).
fn predefined(cs: &[char]) -> (p: PredefinedConstant)
    ensures
        p == predefined_named(cs@),
{
    if cs.len() == 4 && cs[0] == 't' && cs[1] == 'r' && cs[2] == 'u' && cs[3] == 'e' {
        proof {
            assert(cs@ =~= seq!['t', 'r', 'u', 'e']);
        }
        PredefinedConstant::True
    } else if cs.len() == 5 && cs[0] == 'f' && cs[1] == 'a' && cs[2] == 'l' && cs[3] == 's' && cs[4] == 'e' {
        proof {
            assert(cs@ =~= seq!['f', 'a', 'l', 's', 'e']);
        }
        PredefinedConstant::False
    } else {
        proof {
            if cs@ == seq!['t', 'r', 'u', 'e'] {
                assert(cs@[3] == 'e');
            }
            if cs@ == seq!['f', 'a', 'l', 's', 'e'] {
                assert(cs@[4] == 'e');
            }
        }
        PredefinedConstant::Nullptr
    }
}

/// The string of the characters `cs`.
fn string_of(cs: &[char]) -> (r: String)
    ensures
        r@ == cs@,
{
    let mut out = String::new();
    let mut j: usize = 0;
    while j < cs.len()
        invariant
            j <= cs.len(),
            out@ == cs@.take(j as int),
        decreases cs.len() - j,
    {
        out.push(cs[j]);
        proof {
            assert(cs@.take(j + 1) =~= cs@.take(j as int).push(cs@[j as int]));
        }
        j = j + 1;
    }
    proof {
        assert(cs@.take(cs.len() as int) =~= cs@);
    }
    out
}

/// What a token of `kind` with text `cs` stands for (see [`token_reads`]);
/// `None` for kinds that are not tokens.
pub fn read_token(kind: SyntaxKind, cs: &[char]) -> (r: Option<BalancedToken>)
    ensures
        r is Some == carries(kind),
        r matches Some(t) ==> token_reads(t, kind, cs@),
{
    match kind {
        SyntaxKind::Ident => Some(BalancedToken::Identifier(Identifier(string_of(cs)))),
        SyntaxKind::IntegerConst => Some(BalancedToken::Constant(Constant::Integer(integer_constant(cs)))),
        SyntaxKind::FloatConst => Some(
            BalancedToken::Constant(Constant::Floating(FloatingConstant { suffix: floating_suffix(cs) })),
        ),
        SyntaxKind::CharConst => Some(BalancedToken::Constant(Constant::Character(character_constant(cs)))),
        SyntaxKind::PredefinedConst => Some(
            BalancedToken::Constant(Constant::Predefined(predefined(cs))),
        ),
        SyntaxKind::StringLiteral => {
            let mut v: Vec<StringLiteral> = Vec::new();
            v.push(string_literal(cs));
            Some(BalancedToken::StringLiteral(StringLiterals(v)))
        },
        SyntaxKind::QuotedString => Some(BalancedToken::QuotedString(quoted_string(cs))),
        SyntaxKind::Unknown => Some(BalancedToken::Unknown),
        _ => match syntax_kind_to_punctuator(kind) {
            Some(p) => Some(BalancedToken::Punctuator(p)),
            None => None,
        },
    }
}

} // verus!
