//! A recursive-descent parser for C23 that records its result as events of a
//! [`GreenBuilder`].
//!
//! The parser reads the tokens of the lexer, decides by looking ahead one or
//! two tokens (and at the typedef names declared so far), and wraps what it
//! has read into nodes. It never drops a token: whatever does not fit the
//! grammar is wrapped into an error node, so that the tree built from the
//! events holds every token of the source, in order.

#![allow(missing_docs)]

use vstd::prelude::*;

use crate::green::{
    events_depth, lemma_insert_start, lemma_top_level_push, stays_open, token_events, top_level_ok,
    well_formed_events, GreenBuilder,
    GreenEvent,
};
use crate::lexer::{tokens_within, triples, RawToken};
use crate::syntax::SyntaxKind;

verus! {

/// Words that the grammar gives a meaning to.
#[derive(Debug, Clone, Copy, PartialEq, Eq, Structural)]
pub enum Word {
    Auto,
    Constexpr,
    Extern,
    Register,
    Static,
    ThreadLocal,
    Typedef,
    Void,
    Char,
    Short,
    Int,
    Long,
    Float,
    Double,
    Signed,
    Unsigned,
    Bool,
    Complex,
    BitInt,
    Decimal32,
    Decimal64,
    Decimal128,
    Const,
    Restrict,
    Volatile,
    Atomic,
    Nonnull,
    Nullable,
    ThreadLocalQualifier,
    Inline,
    Noreturn,
    Alignas,
    Alignof,
    If,
    Else,
    Switch,
    Case,
    Default,
    While,
    Do,
    For,
    Goto,
    Continue,
    Break,
    Return,
    Sizeof,
    Typeof,
    TypeofUnqual,
    Struct,
    Union,
    Enum,
    StaticAssert,
    StaticAssertOld,
    Generic,
    AttributeKw,
    Asm,
    /// Any other identifier, or a token that is not an identifier.
    Other,
}

/// The spelling of a word.
pub open spec fn word_text(w: Word) -> Seq<u8> {
    match w {
        Word::Auto => seq![97u8, 117u8, 116u8, 111u8],
        Word::Constexpr => seq![99u8, 111u8, 110u8, 115u8, 116u8, 101u8, 120u8, 112u8, 114u8],
        Word::Extern => seq![101u8, 120u8, 116u8, 101u8, 114u8, 110u8],
        Word::Register => seq![114u8, 101u8, 103u8, 105u8, 115u8, 116u8, 101u8, 114u8],
        Word::Static => seq![115u8, 116u8, 97u8, 116u8, 105u8, 99u8],
        Word::ThreadLocal => seq![116u8, 104u8, 114u8, 101u8, 97u8, 100u8, 95u8, 108u8, 111u8, 99u8, 97u8, 108u8],
        Word::Typedef => seq![116u8, 121u8, 112u8, 101u8, 100u8, 101u8, 102u8],
        Word::Void => seq![118u8, 111u8, 105u8, 100u8],
        Word::Char => seq![99u8, 104u8, 97u8, 114u8],
        Word::Short => seq![115u8, 104u8, 111u8, 114u8, 116u8],
        Word::Int => seq![105u8, 110u8, 116u8],
        Word::Long => seq![108u8, 111u8, 110u8, 103u8],
        Word::Float => seq![102u8, 108u8, 111u8, 97u8, 116u8],
        Word::Double => seq![100u8, 111u8, 117u8, 98u8, 108u8, 101u8],
        Word::Signed => seq![115u8, 105u8, 103u8, 110u8, 101u8, 100u8],
        Word::Unsigned => seq![117u8, 110u8, 115u8, 105u8, 103u8, 110u8, 101u8, 100u8],
        Word::Bool => seq![98u8, 111u8, 111u8, 108u8],
        Word::Complex => seq![95u8, 67u8, 111u8, 109u8, 112u8, 108u8, 101u8, 120u8],
        Word::BitInt => seq![95u8, 66u8, 105u8, 116u8, 73u8, 110u8, 116u8],
        Word::Decimal32 => seq![95u8, 68u8, 101u8, 99u8, 105u8, 109u8, 97u8, 108u8, 51u8, 50u8],
        Word::Decimal64 => seq![95u8, 68u8, 101u8, 99u8, 105u8, 109u8, 97u8, 108u8, 54u8, 52u8],
        Word::Decimal128 => seq![95u8, 68u8, 101u8, 99u8, 105u8, 109u8, 97u8, 108u8, 49u8, 50u8, 56u8],
        Word::Const => seq![99u8, 111u8, 110u8, 115u8, 116u8],
        Word::Restrict => seq![114u8, 101u8, 115u8, 116u8, 114u8, 105u8, 99u8, 116u8],
        Word::Volatile => seq![118u8, 111u8, 108u8, 97u8, 116u8, 105u8, 108u8, 101u8],
        Word::Atomic => seq![95u8, 65u8, 116u8, 111u8, 109u8, 105u8, 99u8],
        Word::Nonnull => seq![95u8, 78u8, 111u8, 110u8, 110u8, 117u8, 108u8, 108u8],
        Word::Nullable => seq![95u8, 78u8, 117u8, 108u8, 108u8, 97u8, 98u8, 108u8, 101u8],
        Word::ThreadLocalQualifier => seq![95u8, 84u8, 104u8, 114u8, 101u8, 97u8, 100u8, 95u8, 108u8, 111u8, 99u8, 97u8, 108u8],
        Word::Inline => seq![105u8, 110u8, 108u8, 105u8, 110u8, 101u8],
        Word::Noreturn => seq![95u8, 78u8, 111u8, 114u8, 101u8, 116u8, 117u8, 114u8, 110u8],
        Word::Alignas => seq![97u8, 108u8, 105u8, 103u8, 110u8, 97u8, 115u8],
        Word::Alignof => seq![97u8, 108u8, 105u8, 103u8, 110u8, 111u8, 102u8],
        Word::If => seq![105u8, 102u8],
        Word::Else => seq![101u8, 108u8, 115u8, 101u8],
        Word::Switch => seq![115u8, 119u8, 105u8, 116u8, 99u8, 104u8],
        Word::Case => seq![99u8, 97u8, 115u8, 101u8],
        Word::Default => seq![100u8, 101u8, 102u8, 97u8, 117u8, 108u8, 116u8],
        Word::While => seq![119u8, 104u8, 105u8, 108u8, 101u8],
        Word::Do => seq![100u8, 111u8],
        Word::For => seq![102u8, 111u8, 114u8],
        Word::Goto => seq![103u8, 111u8, 116u8, 111u8],
        Word::Continue => seq![99u8, 111u8, 110u8, 116u8, 105u8, 110u8, 117u8, 101u8],
        Word::Break => seq![98u8, 114u8, 101u8, 97u8, 107u8],
        Word::Return => seq![114u8, 101u8, 116u8, 117u8, 114u8, 110u8],
        Word::Sizeof => seq![115u8, 105u8, 122u8, 101u8, 111u8, 102u8],
        Word::Typeof => seq![116u8, 121u8, 112u8, 101u8, 111u8, 102u8],
        Word::TypeofUnqual => seq![116u8, 121u8, 112u8, 101u8, 111u8, 102u8, 95u8, 117u8, 110u8, 113u8, 117u8, 97u8, 108u8],
        Word::Struct => seq![115u8, 116u8, 114u8, 117u8, 99u8, 116u8],
        Word::Union => seq![117u8, 110u8, 105u8, 111u8, 110u8],
        Word::Enum => seq![101u8, 110u8, 117u8, 109u8],
        Word::StaticAssert => seq![115u8, 116u8, 97u8, 116u8, 105u8, 99u8, 95u8, 97u8, 115u8, 115u8, 101u8, 114u8, 116u8],
        Word::StaticAssertOld => seq![95u8, 83u8, 116u8, 97u8, 116u8, 105u8, 99u8, 95u8, 97u8, 115u8, 115u8, 101u8, 114u8, 116u8],
        Word::Generic => seq![95u8, 71u8, 101u8, 110u8, 101u8, 114u8, 105u8, 99u8],
        Word::AttributeKw => seq![95u8, 95u8, 97u8, 116u8, 116u8, 114u8, 105u8, 98u8, 117u8, 116u8, 101u8, 95u8, 95u8],
        Word::Asm => seq![95u8, 95u8, 97u8, 115u8, 109u8],
        Word::Other => Seq::empty(),
    }
}

/// The word whose spelling is `t` (see [`word_text`]), or [`Word::Other`]:
/// the keywords of each length, byte by byte.
pub open spec fn word_spelled(t: Seq<u8>) -> Word {
    if t.len() == 2 {
        if t[0] == 105 && t[1] == 102 {
            Word::If
        } else if t[0] == 100 && t[1] == 111 {
            Word::Do
        } else {
            Word::Other
        }
    } else if t.len() == 3 {
        if t[0] == 105 && t[1] == 110 && t[2] == 116 {
            Word::Int
        } else if t[0] == 102 && t[1] == 111 && t[2] == 114 {
            Word::For
        } else {
            Word::Other
        }
    } else if t.len() == 4 {
        if t[0] == 97 && t[1] == 117 && t[2] == 116 && t[3] == 111 {
            Word::Auto
        } else if t[0] == 118 && t[1] == 111 && t[2] == 105 && t[3] == 100 {
            Word::Void
        } else if t[0] == 99 && t[1] == 104 && t[2] == 97 && t[3] == 114 {
            Word::Char
        } else if t[0] == 108 && t[1] == 111 && t[2] == 110 && t[3] == 103 {
            Word::Long
        } else if t[0] == 98 && t[1] == 111 && t[2] == 111 && t[3] == 108 {
            Word::Bool
        } else if t[0] == 101 && t[1] == 108 && t[2] == 115 && t[3] == 101 {
            Word::Else
        } else if t[0] == 99 && t[1] == 97 && t[2] == 115 && t[3] == 101 {
            Word::Case
        } else if t[0] == 103 && t[1] == 111 && t[2] == 116 && t[3] == 111 {
            Word::Goto
        } else if t[0] == 101 && t[1] == 110 && t[2] == 117 && t[3] == 109 {
            Word::Enum
        } else {
            Word::Other
        }
    } else if t.len() == 5 {
        if t[0] == 115 && t[1] == 104 && t[2] == 111 && t[3] == 114 && t[4] == 116 {
            Word::Short
        } else if t[0] == 102 && t[1] == 108 && t[2] == 111 && t[3] == 97 && t[4] == 116 {
            Word::Float
        } else if t[0] == 99 && t[1] == 111 && t[2] == 110 && t[3] == 115 && t[4] == 116 {
            Word::Const
        } else if t[0] == 119 && t[1] == 104 && t[2] == 105 && t[3] == 108 && t[4] == 101 {
            Word::While
        } else if t[0] == 98 && t[1] == 114 && t[2] == 101 && t[3] == 97 && t[4] == 107 {
            Word::Break
        } else if t[0] == 117 && t[1] == 110 && t[2] == 105 && t[3] == 111 && t[4] == 110 {
            Word::Union
        } else if t[0] == 95 && t[1] == 95 && t[2] == 97 && t[3] == 115 && t[4] == 109 {
            Word::Asm
        } else {
            Word::Other
        }
    } else if t.len() == 6 {
        if t[0] == 101 && t[1] == 120 && t[2] == 116 && t[3] == 101 && t[4] == 114 && t[5] == 110 {
            Word::Extern
        } else if t[0] == 115 && t[1] == 116 && t[2] == 97 && t[3] == 116 && t[4] == 105 && t[5] == 99 {
            Word::Static
        } else if t[0] == 100 && t[1] == 111 && t[2] == 117 && t[3] == 98 && t[4] == 108 && t[5] == 101 {
            Word::Double
        } else if t[0] == 115 && t[1] == 105 && t[2] == 103 && t[3] == 110 && t[4] == 101 && t[5] == 100 {
            Word::Signed
        } else if t[0] == 105 && t[1] == 110 && t[2] == 108 && t[3] == 105 && t[4] == 110 && t[5] == 101 {
            Word::Inline
        } else if t[0] == 115 && t[1] == 119 && t[2] == 105 && t[3] == 116 && t[4] == 99 && t[5] == 104 {
            Word::Switch
        } else if t[0] == 114 && t[1] == 101 && t[2] == 116 && t[3] == 117 && t[4] == 114 && t[5] == 110 {
            Word::Return
        } else if t[0] == 115 && t[1] == 105 && t[2] == 122 && t[3] == 101 && t[4] == 111 && t[5] == 102 {
            Word::Sizeof
        } else if t[0] == 116 && t[1] == 121 && t[2] == 112 && t[3] == 101 && t[4] == 111 && t[5] == 102 {
            Word::Typeof
        } else if t[0] == 115 && t[1] == 116 && t[2] == 114 && t[3] == 117 && t[4] == 99 && t[5] == 116 {
            Word::Struct
        } else {
            Word::Other
        }
    } else if t.len() == 7 {
        if t[0] == 116 && t[1] == 121 && t[2] == 112 && t[3] == 101 && t[4] == 100 && t[5] == 101 && t[6] == 102 {
            Word::Typedef
        } else if t[0] == 95 && t[1] == 66 && t[2] == 105 && t[3] == 116 && t[4] == 73 && t[5] == 110 && t[6] == 116 {
            Word::BitInt
        } else if t[0] == 95 && t[1] == 65 && t[2] == 116 && t[3] == 111 && t[4] == 109 && t[5] == 105 && t[6] == 99 {
            Word::Atomic
        } else if t[0] == 97 && t[1] == 108 && t[2] == 105 && t[3] == 103 && t[4] == 110 && t[5] == 97 && t[6] == 115 {
            Word::Alignas
        } else if t[0] == 97 && t[1] == 108 && t[2] == 105 && t[3] == 103 && t[4] == 110 && t[5] == 111 && t[6] == 102 {
            Word::Alignof
        } else if t[0] == 100 && t[1] == 101 && t[2] == 102 && t[3] == 97 && t[4] == 117 && t[5] == 108 && t[6] == 116 {
            Word::Default
        } else {
            Word::Other
        }
    } else if t.len() == 8 {
        if t[0] == 114 && t[1] == 101 && t[2] == 103 && t[3] == 105 && t[4] == 115 && t[5] == 116 && t[6] == 101 && t[7] == 114 {
            Word::Register
        } else if t[0] == 117 && t[1] == 110 && t[2] == 115 && t[3] == 105 && t[4] == 103 && t[5] == 110 && t[6] == 101 && t[7] == 100 {
            Word::Unsigned
        } else if t[0] == 95 && t[1] == 67 && t[2] == 111 && t[3] == 109 && t[4] == 112 && t[5] == 108 && t[6] == 101 && t[7] == 120 {
            Word::Complex
        } else if t[0] == 114 && t[1] == 101 && t[2] == 115 && t[3] == 116 && t[4] == 114 && t[5] == 105 && t[6] == 99 && t[7] == 116 {
            Word::Restrict
        } else if t[0] == 118 && t[1] == 111 && t[2] == 108 && t[3] == 97 && t[4] == 116 && t[5] == 105 && t[6] == 108 && t[7] == 101 {
            Word::Volatile
        } else if t[0] == 95 && t[1] == 78 && t[2] == 111 && t[3] == 110 && t[4] == 110 && t[5] == 117 && t[6] == 108 && t[7] == 108 {
            Word::Nonnull
        } else if t[0] == 99 && t[1] == 111 && t[2] == 110 && t[3] == 116 && t[4] == 105 && t[5] == 110 && t[6] == 117 && t[7] == 101 {
            Word::Continue
        } else if t[0] == 95 && t[1] == 71 && t[2] == 101 && t[3] == 110 && t[4] == 101 && t[5] == 114 && t[6] == 105 && t[7] == 99 {
            Word::Generic
        } else {
            Word::Other
        }
    } else if t.len() == 9 {
        if t[0] == 99 && t[1] == 111 && t[2] == 110 && t[3] == 115 && t[4] == 116 && t[5] == 101 && t[6] == 120 && t[7] == 112 && t[8] == 114 {
            Word::Constexpr
        } else if t[0] == 95 && t[1] == 78 && t[2] == 117 && t[3] == 108 && t[4] == 108 && t[5] == 97 && t[6] == 98 && t[7] == 108 && t[8] == 101 {
            Word::Nullable
        } else if t[0] == 95 && t[1] == 78 && t[2] == 111 && t[3] == 114 && t[4] == 101 && t[5] == 116 && t[6] == 117 && t[7] == 114 && t[8] == 110 {
            Word::Noreturn
        } else {
            Word::Other
        }
    } else if t.len() == 10 {
        if t[0] == 95 && t[1] == 68 && t[2] == 101 && t[3] == 99 && t[4] == 105 && t[5] == 109 && t[6] == 97 && t[7] == 108 && t[8] == 51 && t[9] == 50 {
            Word::Decimal32
        } else if t[0] == 95 && t[1] == 68 && t[2] == 101 && t[3] == 99 && t[4] == 105 && t[5] == 109 && t[6] == 97 && t[7] == 108 && t[8] == 54 && t[9] == 52 {
            Word::Decimal64
        } else {
            Word::Other
        }
    } else if t.len() == 11 {
        if t[0] == 95 && t[1] == 68 && t[2] == 101 && t[3] == 99 && t[4] == 105 && t[5] == 109 && t[6] == 97 && t[7] == 108 && t[8] == 49 && t[9] == 50 && t[10] == 56 {
            Word::Decimal128
        } else {
            Word::Other
        }
    } else if t.len() == 12 {
        if t[0] == 116 && t[1] == 104 && t[2] == 114 && t[3] == 101 && t[4] == 97 && t[5] == 100 && t[6] == 95 && t[7] == 108 && t[8] == 111 && t[9] == 99 && t[10] == 97 && t[11] == 108 {
            Word::ThreadLocal
        } else {
            Word::Other
        }
    } else if t.len() == 13 {
        if t[0] == 95 && t[1] == 84 && t[2] == 104 && t[3] == 114 && t[4] == 101 && t[5] == 97 && t[6] == 100 && t[7] == 95 && t[8] == 108 && t[9] == 111 && t[10] == 99 && t[11] == 97 && t[12] == 108 {
            Word::ThreadLocalQualifier
        } else if t[0] == 116 && t[1] == 121 && t[2] == 112 && t[3] == 101 && t[4] == 111 && t[5] == 102 && t[6] == 95 && t[7] == 117 && t[8] == 110 && t[9] == 113 && t[10] == 117 && t[11] == 97 && t[12] == 108 {
            Word::TypeofUnqual
        } else if t[0] == 115 && t[1] == 116 && t[2] == 97 && t[3] == 116 && t[4] == 105 && t[5] == 99 && t[6] == 95 && t[7] == 97 && t[8] == 115 && t[9] == 115 && t[10] == 101 && t[11] == 114 && t[12] == 116 {
            Word::StaticAssert
        } else if t[0] == 95 && t[1] == 95 && t[2] == 97 && t[3] == 116 && t[4] == 116 && t[5] == 114 && t[6] == 105 && t[7] == 98 && t[8] == 117 && t[9] == 116 && t[10] == 101 && t[11] == 95 && t[12] == 95 {
            Word::AttributeKw
        } else {
            Word::Other
        }
    } else if t.len() == 14 {
        if t[0] == 95 && t[1] == 83 && t[2] == 116 && t[3] == 97 && t[4] == 116 && t[5] == 105 && t[6] == 99 && t[7] == 95 && t[8] == 97 && t[9] == 115 && t[10] == 115 && t[11] == 101 && t[12] == 114 && t[13] == 116 {
            Word::StaticAssertOld
        } else {
            Word::Other
        }
    } else {
        Word::Other
    }
}

/// The word spelled by the `n` bytes at `s`, or [`Word::Other`].
fn word_of(b: &[u8], s: usize, n: usize) -> (r: Word)
    requires
        s + n <= b@.len(),
    ensures
        r != Word::Other ==> b@.subrange(s as int, s + n) == word_text(r),
        r == word_spelled(b@.subrange(s as int, s + n)),
{
    match n {
        2 => word_of_len2(b, s),
        3 => word_of_len3(b, s),
        4 => word_of_len4(b, s),
        5 => word_of_len5(b, s),
        6 => word_of_len6(b, s),
        7 => word_of_len7(b, s),
        8 => word_of_len8(b, s),
        9 => word_of_len9(b, s),
        10 => word_of_len10(b, s),
        11 => word_of_len11(b, s),
        12 => word_of_len12(b, s),
        13 => word_of_len13(b, s),
        14 => word_of_len14(b, s),
        _ => Word::Other,
    }
}

fn word_of_len2(b: &[u8], s: usize) -> (r: Word)
    requires
        s + 2 <= b@.len(),
    ensures
        r != Word::Other ==> b@.subrange(s as int, s + 2) == word_text(r),
        r == word_spelled(b@.subrange(s as int, s + 2)),
{
    if b[s] == 105 && b[s + 1] == 102 {
        assert(b@.subrange(s as int, s + 2) =~= word_text(Word::If));
        return Word::If;
    }
    if b[s] == 100 && b[s + 1] == 111 {
        assert(b@.subrange(s as int, s + 2) =~= word_text(Word::Do));
        return Word::Do;
    }
    Word::Other
}

fn word_of_len3(b: &[u8], s: usize) -> (r: Word)
    requires
        s + 3 <= b@.len(),
    ensures
        r != Word::Other ==> b@.subrange(s as int, s + 3) == word_text(r),
        r == word_spelled(b@.subrange(s as int, s + 3)),
{
    if b[s] == 105 && b[s + 1] == 110 && b[s + 2] == 116 {
        assert(b@.subrange(s as int, s + 3) =~= word_text(Word::Int));
        return Word::Int;
    }
    if b[s] == 102 && b[s + 1] == 111 && b[s + 2] == 114 {
        assert(b@.subrange(s as int, s + 3) =~= word_text(Word::For));
        return Word::For;
    }
    Word::Other
}

fn word_of_len4(b: &[u8], s: usize) -> (r: Word)
    requires
        s + 4 <= b@.len(),
    ensures
        r != Word::Other ==> b@.subrange(s as int, s + 4) == word_text(r),
        r == word_spelled(b@.subrange(s as int, s + 4)),
{
    if b[s] == 97 && b[s + 1] == 117 && b[s + 2] == 116 && b[s + 3] == 111 {
        assert(b@.subrange(s as int, s + 4) =~= word_text(Word::Auto));
        return Word::Auto;
    }
    if b[s] == 118 && b[s + 1] == 111 && b[s + 2] == 105 && b[s + 3] == 100 {
        assert(b@.subrange(s as int, s + 4) =~= word_text(Word::Void));
        return Word::Void;
    }
    if b[s] == 99 && b[s + 1] == 104 && b[s + 2] == 97 && b[s + 3] == 114 {
        assert(b@.subrange(s as int, s + 4) =~= word_text(Word::Char));
        return Word::Char;
    }
    if b[s] == 108 && b[s + 1] == 111 && b[s + 2] == 110 && b[s + 3] == 103 {
        assert(b@.subrange(s as int, s + 4) =~= word_text(Word::Long));
        return Word::Long;
    }
    if b[s] == 98 && b[s + 1] == 111 && b[s + 2] == 111 && b[s + 3] == 108 {
        assert(b@.subrange(s as int, s + 4) =~= word_text(Word::Bool));
        return Word::Bool;
    }
    if b[s] == 101 && b[s + 1] == 108 && b[s + 2] == 115 && b[s + 3] == 101 {
        assert(b@.subrange(s as int, s + 4) =~= word_text(Word::Else));
        return Word::Else;
    }
    if b[s] == 99 && b[s + 1] == 97 && b[s + 2] == 115 && b[s + 3] == 101 {
        assert(b@.subrange(s as int, s + 4) =~= word_text(Word::Case));
        return Word::Case;
    }
    if b[s] == 103 && b[s + 1] == 111 && b[s + 2] == 116 && b[s + 3] == 111 {
        assert(b@.subrange(s as int, s + 4) =~= word_text(Word::Goto));
        return Word::Goto;
    }
    if b[s] == 101 && b[s + 1] == 110 && b[s + 2] == 117 && b[s + 3] == 109 {
        assert(b@.subrange(s as int, s + 4) =~= word_text(Word::Enum));
        return Word::Enum;
    }
    Word::Other
}

fn word_of_len5(b: &[u8], s: usize) -> (r: Word)
    requires
        s + 5 <= b@.len(),
    ensures
        r != Word::Other ==> b@.subrange(s as int, s + 5) == word_text(r),
        r == word_spelled(b@.subrange(s as int, s + 5)),
{
    if b[s] == 115 && b[s + 1] == 104 && b[s + 2] == 111 && b[s + 3] == 114 && b[s + 4] == 116 {
        assert(b@.subrange(s as int, s + 5) =~= word_text(Word::Short));
        return Word::Short;
    }
    if b[s] == 102 && b[s + 1] == 108 && b[s + 2] == 111 && b[s + 3] == 97 && b[s + 4] == 116 {
        assert(b@.subrange(s as int, s + 5) =~= word_text(Word::Float));
        return Word::Float;
    }
    if b[s] == 99 && b[s + 1] == 111 && b[s + 2] == 110 && b[s + 3] == 115 && b[s + 4] == 116 {
        assert(b@.subrange(s as int, s + 5) =~= word_text(Word::Const));
        return Word::Const;
    }
    if b[s] == 119 && b[s + 1] == 104 && b[s + 2] == 105 && b[s + 3] == 108 && b[s + 4] == 101 {
        assert(b@.subrange(s as int, s + 5) =~= word_text(Word::While));
        return Word::While;
    }
    if b[s] == 98 && b[s + 1] == 114 && b[s + 2] == 101 && b[s + 3] == 97 && b[s + 4] == 107 {
        assert(b@.subrange(s as int, s + 5) =~= word_text(Word::Break));
        return Word::Break;
    }
    if b[s] == 117 && b[s + 1] == 110 && b[s + 2] == 105 && b[s + 3] == 111 && b[s + 4] == 110 {
        assert(b@.subrange(s as int, s + 5) =~= word_text(Word::Union));
        return Word::Union;
    }
    if b[s] == 95 && b[s + 1] == 95 && b[s + 2] == 97 && b[s + 3] == 115 && b[s + 4] == 109 {
        assert(b@.subrange(s as int, s + 5) =~= word_text(Word::Asm));
        return Word::Asm;
    }
    Word::Other
}

fn word_of_len6(b: &[u8], s: usize) -> (r: Word)
    requires
        s + 6 <= b@.len(),
    ensures
        r != Word::Other ==> b@.subrange(s as int, s + 6) == word_text(r),
        r == word_spelled(b@.subrange(s as int, s + 6)),
{
    if b[s] == 101 && b[s + 1] == 120 && b[s + 2] == 116 && b[s + 3] == 101 && b[s + 4] == 114 && b[s + 5] == 110 {
        assert(b@.subrange(s as int, s + 6) =~= word_text(Word::Extern));
        return Word::Extern;
    }
    if b[s] == 115 && b[s + 1] == 116 && b[s + 2] == 97 && b[s + 3] == 116 && b[s + 4] == 105 && b[s + 5] == 99 {
        assert(b@.subrange(s as int, s + 6) =~= word_text(Word::Static));
        return Word::Static;
    }
    if b[s] == 100 && b[s + 1] == 111 && b[s + 2] == 117 && b[s + 3] == 98 && b[s + 4] == 108 && b[s + 5] == 101 {
        assert(b@.subrange(s as int, s + 6) =~= word_text(Word::Double));
        return Word::Double;
    }
    if b[s] == 115 && b[s + 1] == 105 && b[s + 2] == 103 && b[s + 3] == 110 && b[s + 4] == 101 && b[s + 5] == 100 {
        assert(b@.subrange(s as int, s + 6) =~= word_text(Word::Signed));
        return Word::Signed;
    }
    if b[s] == 105 && b[s + 1] == 110 && b[s + 2] == 108 && b[s + 3] == 105 && b[s + 4] == 110 && b[s + 5] == 101 {
        assert(b@.subrange(s as int, s + 6) =~= word_text(Word::Inline));
        return Word::Inline;
    }
    if b[s] == 115 && b[s + 1] == 119 && b[s + 2] == 105 && b[s + 3] == 116 && b[s + 4] == 99 && b[s + 5] == 104 {
        assert(b@.subrange(s as int, s + 6) =~= word_text(Word::Switch));
        return Word::Switch;
    }
    if b[s] == 114 && b[s + 1] == 101 && b[s + 2] == 116 && b[s + 3] == 117 && b[s + 4] == 114 && b[s + 5] == 110 {
        assert(b@.subrange(s as int, s + 6) =~= word_text(Word::Return));
        return Word::Return;
    }
    if b[s] == 115 && b[s + 1] == 105 && b[s + 2] == 122 && b[s + 3] == 101 && b[s + 4] == 111 && b[s + 5] == 102 {
        assert(b@.subrange(s as int, s + 6) =~= word_text(Word::Sizeof));
        return Word::Sizeof;
    }
    if b[s] == 116 && b[s + 1] == 121 && b[s + 2] == 112 && b[s + 3] == 101 && b[s + 4] == 111 && b[s + 5] == 102 {
        assert(b@.subrange(s as int, s + 6) =~= word_text(Word::Typeof));
        return Word::Typeof;
    }
    if b[s] == 115 && b[s + 1] == 116 && b[s + 2] == 114 && b[s + 3] == 117 && b[s + 4] == 99 && b[s + 5] == 116 {
        assert(b@.subrange(s as int, s + 6) =~= word_text(Word::Struct));
        return Word::Struct;
    }
    Word::Other
}

fn word_of_len7(b: &[u8], s: usize) -> (r: Word)
    requires
        s + 7 <= b@.len(),
    ensures
        r != Word::Other ==> b@.subrange(s as int, s + 7) == word_text(r),
        r == word_spelled(b@.subrange(s as int, s + 7)),
{
    if b[s] == 116 && b[s + 1] == 121 && b[s + 2] == 112 && b[s + 3] == 101 && b[s + 4] == 100 && b[s + 5] == 101 && b[s + 6] == 102 {
        assert(b@.subrange(s as int, s + 7) =~= word_text(Word::Typedef));
        return Word::Typedef;
    }
    if b[s] == 95 && b[s + 1] == 66 && b[s + 2] == 105 && b[s + 3] == 116 && b[s + 4] == 73 && b[s + 5] == 110 && b[s + 6] == 116 {
        assert(b@.subrange(s as int, s + 7) =~= word_text(Word::BitInt));
        return Word::BitInt;
    }
    if b[s] == 95 && b[s + 1] == 65 && b[s + 2] == 116 && b[s + 3] == 111 && b[s + 4] == 109 && b[s + 5] == 105 && b[s + 6] == 99 {
        assert(b@.subrange(s as int, s + 7) =~= word_text(Word::Atomic));
        return Word::Atomic;
    }
    if b[s] == 97 && b[s + 1] == 108 && b[s + 2] == 105 && b[s + 3] == 103 && b[s + 4] == 110 && b[s + 5] == 97 && b[s + 6] == 115 {
        assert(b@.subrange(s as int, s + 7) =~= word_text(Word::Alignas));
        return Word::Alignas;
    }
    if b[s] == 97 && b[s + 1] == 108 && b[s + 2] == 105 && b[s + 3] == 103 && b[s + 4] == 110 && b[s + 5] == 111 && b[s + 6] == 102 {
        assert(b@.subrange(s as int, s + 7) =~= word_text(Word::Alignof));
        return Word::Alignof;
    }
    if b[s] == 100 && b[s + 1] == 101 && b[s + 2] == 102 && b[s + 3] == 97 && b[s + 4] == 117 && b[s + 5] == 108 && b[s + 6] == 116 {
        assert(b@.subrange(s as int, s + 7) =~= word_text(Word::Default));
        return Word::Default;
    }
    Word::Other
}

fn word_of_len8(b: &[u8], s: usize) -> (r: Word)
    requires
        s + 8 <= b@.len(),
    ensures
        r != Word::Other ==> b@.subrange(s as int, s + 8) == word_text(r),
        r == word_spelled(b@.subrange(s as int, s + 8)),
{
    if b[s] == 114 && b[s + 1] == 101 && b[s + 2] == 103 && b[s + 3] == 105 && b[s + 4] == 115 && b[s + 5] == 116 && b[s + 6] == 101 && b[s + 7] == 114 {
        assert(b@.subrange(s as int, s + 8) =~= word_text(Word::Register));
        return Word::Register;
    }
    if b[s] == 117 && b[s + 1] == 110 && b[s + 2] == 115 && b[s + 3] == 105 && b[s + 4] == 103 && b[s + 5] == 110 && b[s + 6] == 101 && b[s + 7] == 100 {
        assert(b@.subrange(s as int, s + 8) =~= word_text(Word::Unsigned));
        return Word::Unsigned;
    }
    if b[s] == 95 && b[s + 1] == 67 && b[s + 2] == 111 && b[s + 3] == 109 && b[s + 4] == 112 && b[s + 5] == 108 && b[s + 6] == 101 && b[s + 7] == 120 {
        assert(b@.subrange(s as int, s + 8) =~= word_text(Word::Complex));
        return Word::Complex;
    }
    if b[s] == 114 && b[s + 1] == 101 && b[s + 2] == 115 && b[s + 3] == 116 && b[s + 4] == 114 && b[s + 5] == 105 && b[s + 6] == 99 && b[s + 7] == 116 {
        assert(b@.subrange(s as int, s + 8) =~= word_text(Word::Restrict));
        return Word::Restrict;
    }
    if b[s] == 118 && b[s + 1] == 111 && b[s + 2] == 108 && b[s + 3] == 97 && b[s + 4] == 116 && b[s + 5] == 105 && b[s + 6] == 108 && b[s + 7] == 101 {
        assert(b@.subrange(s as int, s + 8) =~= word_text(Word::Volatile));
        return Word::Volatile;
    }
    if b[s] == 95 && b[s + 1] == 78 && b[s + 2] == 111 && b[s + 3] == 110 && b[s + 4] == 110 && b[s + 5] == 117 && b[s + 6] == 108 && b[s + 7] == 108 {
        assert(b@.subrange(s as int, s + 8) =~= word_text(Word::Nonnull));
        return Word::Nonnull;
    }
    if b[s] == 99 && b[s + 1] == 111 && b[s + 2] == 110 && b[s + 3] == 116 && b[s + 4] == 105 && b[s + 5] == 110 && b[s + 6] == 117 && b[s + 7] == 101 {
        assert(b@.subrange(s as int, s + 8) =~= word_text(Word::Continue));
        return Word::Continue;
    }
    if b[s] == 95 && b[s + 1] == 71 && b[s + 2] == 101 && b[s + 3] == 110 && b[s + 4] == 101 && b[s + 5] == 114 && b[s + 6] == 105 && b[s + 7] == 99 {
        assert(b@.subrange(s as int, s + 8) =~= word_text(Word::Generic));
        return Word::Generic;
    }
    Word::Other
}

fn word_of_len9(b: &[u8], s: usize) -> (r: Word)
    requires
        s + 9 <= b@.len(),
    ensures
        r != Word::Other ==> b@.subrange(s as int, s + 9) == word_text(r),
        r == word_spelled(b@.subrange(s as int, s + 9)),
{
    if b[s] == 99 && b[s + 1] == 111 && b[s + 2] == 110 && b[s + 3] == 115 && b[s + 4] == 116 && b[s + 5] == 101 && b[s + 6] == 120 && b[s + 7] == 112 && b[s + 8] == 114 {
        assert(b@.subrange(s as int, s + 9) =~= word_text(Word::Constexpr));
        return Word::Constexpr;
    }
    if b[s] == 95 && b[s + 1] == 78 && b[s + 2] == 117 && b[s + 3] == 108 && b[s + 4] == 108 && b[s + 5] == 97 && b[s + 6] == 98 && b[s + 7] == 108 && b[s + 8] == 101 {
        assert(b@.subrange(s as int, s + 9) =~= word_text(Word::Nullable));
        return Word::Nullable;
    }
    if b[s] == 95 && b[s + 1] == 78 && b[s + 2] == 111 && b[s + 3] == 114 && b[s + 4] == 101 && b[s + 5] == 116 && b[s + 6] == 117 && b[s + 7] == 114 && b[s + 8] == 110 {
        assert(b@.subrange(s as int, s + 9) =~= word_text(Word::Noreturn));
        return Word::Noreturn;
    }
    Word::Other
}

fn word_of_len10(b: &[u8], s: usize) -> (r: Word)
    requires
        s + 10 <= b@.len(),
    ensures
        r != Word::Other ==> b@.subrange(s as int, s + 10) == word_text(r),
        r == word_spelled(b@.subrange(s as int, s + 10)),
{
    if b[s] == 95 && b[s + 1] == 68 && b[s + 2] == 101 && b[s + 3] == 99 && b[s + 4] == 105 && b[s + 5] == 109 && b[s + 6] == 97 && b[s + 7] == 108 && b[s + 8] == 51 && b[s + 9] == 50 {
        assert(b@.subrange(s as int, s + 10) =~= word_text(Word::Decimal32));
        return Word::Decimal32;
    }
    if b[s] == 95 && b[s + 1] == 68 && b[s + 2] == 101 && b[s + 3] == 99 && b[s + 4] == 105 && b[s + 5] == 109 && b[s + 6] == 97 && b[s + 7] == 108 && b[s + 8] == 54 && b[s + 9] == 52 {
        assert(b@.subrange(s as int, s + 10) =~= word_text(Word::Decimal64));
        return Word::Decimal64;
    }
    Word::Other
}

fn word_of_len11(b: &[u8], s: usize) -> (r: Word)
    requires
        s + 11 <= b@.len(),
    ensures
        r != Word::Other ==> b@.subrange(s as int, s + 11) == word_text(r),
        r == word_spelled(b@.subrange(s as int, s + 11)),
{
    if b[s] == 95 && b[s + 1] == 68 && b[s + 2] == 101 && b[s + 3] == 99 && b[s + 4] == 105 && b[s + 5] == 109 && b[s + 6] == 97 && b[s + 7] == 108 && b[s + 8] == 49 && b[s + 9] == 50 && b[s + 10] == 56 {
        assert(b@.subrange(s as int, s + 11) =~= word_text(Word::Decimal128));
        return Word::Decimal128;
    }
    Word::Other
}

fn word_of_len12(b: &[u8], s: usize) -> (r: Word)
    requires
        s + 12 <= b@.len(),
    ensures
        r != Word::Other ==> b@.subrange(s as int, s + 12) == word_text(r),
        r == word_spelled(b@.subrange(s as int, s + 12)),
{
    if b[s] == 116 && b[s + 1] == 104 && b[s + 2] == 114 && b[s + 3] == 101 && b[s + 4] == 97 && b[s + 5] == 100 && b[s + 6] == 95 && b[s + 7] == 108 && b[s + 8] == 111 && b[s + 9] == 99 && b[s + 10] == 97 && b[s + 11] == 108 {
        assert(b@.subrange(s as int, s + 12) =~= word_text(Word::ThreadLocal));
        return Word::ThreadLocal;
    }
    Word::Other
}

fn word_of_len13(b: &[u8], s: usize) -> (r: Word)
    requires
        s + 13 <= b@.len(),
    ensures
        r != Word::Other ==> b@.subrange(s as int, s + 13) == word_text(r),
        r == word_spelled(b@.subrange(s as int, s + 13)),
{
    if b[s] == 95 && b[s + 1] == 84 && b[s + 2] == 104 && b[s + 3] == 114 && b[s + 4] == 101 && b[s + 5] == 97 && b[s + 6] == 100 && b[s + 7] == 95 && b[s + 8] == 108 && b[s + 9] == 111 && b[s + 10] == 99 && b[s + 11] == 97 && b[s + 12] == 108 {
        assert(b@.subrange(s as int, s + 13) =~= word_text(Word::ThreadLocalQualifier));
        return Word::ThreadLocalQualifier;
    }
    if b[s] == 116 && b[s + 1] == 121 && b[s + 2] == 112 && b[s + 3] == 101 && b[s + 4] == 111 && b[s + 5] == 102 && b[s + 6] == 95 && b[s + 7] == 117 && b[s + 8] == 110 && b[s + 9] == 113 && b[s + 10] == 117 && b[s + 11] == 97 && b[s + 12] == 108 {
        assert(b@.subrange(s as int, s + 13) =~= word_text(Word::TypeofUnqual));
        return Word::TypeofUnqual;
    }
    if b[s] == 115 && b[s + 1] == 116 && b[s + 2] == 97 && b[s + 3] == 116 && b[s + 4] == 105 && b[s + 5] == 99 && b[s + 6] == 95 && b[s + 7] == 97 && b[s + 8] == 115 && b[s + 9] == 115 && b[s + 10] == 101 && b[s + 11] == 114 && b[s + 12] == 116 {
        assert(b@.subrange(s as int, s + 13) =~= word_text(Word::StaticAssert));
        return Word::StaticAssert;
    }
    if b[s] == 95 && b[s + 1] == 95 && b[s + 2] == 97 && b[s + 3] == 116 && b[s + 4] == 116 && b[s + 5] == 114 && b[s + 6] == 105 && b[s + 7] == 98 && b[s + 8] == 117 && b[s + 9] == 116 && b[s + 10] == 101 && b[s + 11] == 95 && b[s + 12] == 95 {
        assert(b@.subrange(s as int, s + 13) =~= word_text(Word::AttributeKw));
        return Word::AttributeKw;
    }
    Word::Other
}

fn word_of_len14(b: &[u8], s: usize) -> (r: Word)
    requires
        s + 14 <= b@.len(),
    ensures
        r != Word::Other ==> b@.subrange(s as int, s + 14) == word_text(r),
        r == word_spelled(b@.subrange(s as int, s + 14)),
{
    if b[s] == 95 && b[s + 1] == 83 && b[s + 2] == 116 && b[s + 3] == 97 && b[s + 4] == 116 && b[s + 5] == 105 && b[s + 6] == 99 && b[s + 7] == 95 && b[s + 8] == 97 && b[s + 9] == 115 && b[s + 10] == 115 && b[s + 11] == 101 && b[s + 12] == 114 && b[s + 13] == 116 {
        assert(b@.subrange(s as int, s + 14) =~= word_text(Word::StaticAssertOld));
        return Word::StaticAssertOld;
    }
    Word::Other
}

/// `a` holds the same bytes as `b[s..s + n]`.
fn same_bytes(b: &[u8], s: usize, n: usize, a: &Vec<u8>) -> (r: bool)
    requires
        s + n <= b.len(),
    ensures
        r == (a@ == b@.subrange(s as int, s + n)),
{
    if a.len() != n {
        return false;
    }
    let mut i: usize = 0;
    while i < n
        invariant
            i <= n,
            s + n <= b.len(),
            a@.len() == n,
            forall|k: int| 0 <= k < i ==> a@[k] == b@[s + k],
        decreases n - i,
    {
        if a[i] != b[s + i] {
            proof {
                if a@ == b@.subrange(s as int, s + n) {
                    assert(a@[i as int] == b@.subrange(s as int, s + n)[i as int]);
                }
            }
            return false;
        }
        i = i + 1;
    }
    assert(a@ =~= b@.subrange(s as int, s + n));
    true
}

/// Words that are storage class specifiers.
pub open spec fn storage_class_word(w: Word) -> bool {
    match w {
        Word::Auto | Word::Constexpr | Word::Extern | Word::Register | Word::Static
        | Word::ThreadLocal | Word::Typedef => true,
        _ => false,
    }
}

/// Words that are type specifiers on their own.
pub open spec fn simple_type_word(w: Word) -> bool {
    match w {
        Word::Void | Word::Char | Word::Short | Word::Int | Word::Long | Word::Float | Word::Double
        | Word::Signed | Word::Unsigned | Word::Bool | Word::Complex | Word::Decimal32
        | Word::Decimal64 | Word::Decimal128 => true,
        _ => false,
    }
}

/// Words that are type qualifiers.
pub open spec fn qualifier_word(w: Word) -> bool {
    match w {
        Word::Const | Word::Restrict | Word::Volatile | Word::Nonnull | Word::Nullable
        | Word::ThreadLocalQualifier => true,
        _ => false,
    }
}

/// Words that are function specifiers.
pub open spec fn function_specifier_word(w: Word) -> bool {
    w == Word::Inline || w == Word::Noreturn
}

/// The token at `x` is an identifier that spells no keyword: a plain
/// operand.
pub open spec fn plain_at(toks: Seq<RawToken>, src: Seq<u8>, x: int) -> bool {
    &&& 0 <= x < toks.len()
    &&& toks[x].kind == SyntaxKind::Ident
    &&& word_spelled(src.subrange(toks[x].start as int, toks[x].start + toks[x].len)) == Word::Other
}

/// How strongly the token at `x` binds as a binary operator (0 for other
/// tokens and past the end).
pub open spec fn op_prec(toks: Seq<RawToken>, x: int) -> int {
    if 0 <= x < toks.len() {
        precedence_of(toks[x].kind) as int
    } else {
        0
    }
}

/// The token at `x`, if there is one, starts a postfix operator.
pub open spec fn suffix_token_at(toks: Seq<RawToken>, x: int) -> bool {
    0 <= x < toks.len() && suffix_token(toks[x].kind)
}

/// The event that reading the token at `x` records.
pub open spec fn token_event(toks: Seq<RawToken>, x: int) -> GreenEvent {
    GreenEvent::Token { kind: toks[x].kind, len: toks[x].len, start: toks[x].start }
}

/// The events of a plain operand at `x`: a primary expression holding it.
pub open spec fn operand_events(toks: Seq<RawToken>, x: int) -> Seq<GreenEvent> {
    seq![
        GreenEvent::StartNode { kind: SyntaxKind::PrimaryExpr },
        token_event(toks, x),
        GreenEvent::FinishNode,
    ]
}

/// The tokens from `l` to `r` are a chain of plain operands (at `l`,
/// `l + 2`, ... `r`) joined by binary operators binding at least as
/// strongly as `min`.
pub open spec fn chain(toks: Seq<RawToken>, src: Seq<u8>, l: int, r: int, min: int) -> bool {
    &&& l <= r
    &&& (r - l) % 2 == 0
    &&& forall|y: int| l <= y <= r && (y - l) % 2 == 0 ==> #[trigger] plain_at(toks, src, y)
    &&& forall|y: int| l < y < r && (y - l) % 2 == 1 ==> #[trigger] op_prec(toks, y) >= min && op_prec(toks, y) > 0
}

/// The chain ending at `r` stops there at binding strength `min`: what
/// follows is no operator binding as strongly, and no postfix operator.
pub open spec fn chain_stops(toks: Seq<RawToken>, r: int, min: int) -> bool {
    &&& op_prec(toks, r + 1) < min
    &&& !suffix_token_at(toks, r + 1)
}

/// In the chain from `l` to `r` (with `l < r`), the operand just after the
/// rightmost of the operators that bind least strongly.
pub open spec fn split_at(toks: Seq<RawToken>, l: int, r: int) -> int
    decreases r - l,
{
    if r <= l + 2 {
        r
    } else {
        let k = split_at(toks, l, r - 2);
        if op_prec(toks, r - 1) <= op_prec(toks, k - 1) {
            r
        } else {
            k
        }
    }
}

/// The events of the expression that the chain from `l` to `r` writes,
/// binary operators grouped by binding strength and, among equals, to the
/// left: the chain splits at the rightmost of its operators that bind
/// least strongly, that operator's node holding the expressions of the two
/// sides.
pub open spec fn chain_tree(toks: Seq<RawToken>, l: int, r: int) -> Seq<GreenEvent>
    decreases r - l,
{
    if r <= l {
        operand_events(toks, l)
    } else {
        let k = split_at(toks, l, r);
        if l + 2 <= k <= r {
            seq![GreenEvent::StartNode { kind: SyntaxKind::BinaryExpr }] + chain_tree(toks, l, k - 2) + seq![
                token_event(toks, k - 1),
            ] + chain_tree(toks, k, r) + seq![GreenEvent::FinishNode]
        } else {
            Seq::empty()
        }
    }
}

/// The chain ending at `r` ends a whole expression there: what follows is
/// no binary, postfix, assignment, conditional or comma operator.
pub open spec fn expression_stops(toks: Seq<RawToken>, r: int) -> bool {
    &&& chain_stops(toks, r, 1)
    &&& !(0 <= r + 1 < toks.len() && (assignment_operator(toks[r + 1].kind) || toks[r + 1].kind
        == SyntaxKind::Question || toks[r + 1].kind == SyntaxKind::Comma))
}

/// Where the chain from `x` towards `r` first reaches an operator binding
/// less strongly than `c` (or `r`): the operand before that operator.
pub open spec fn chain_end(toks: Seq<RawToken>, x: int, c: int, r: int) -> int
    decreases r - x,
{
    if x + 2 > r {
        x
    } else if op_prec(toks, x + 1) < c {
        x
    } else {
        chain_end(toks, x + 2, c, r)
    }
}

proof fn lemma_chain_end(toks: Seq<RawToken>, x: int, c: int, r: int)
    requires
        x <= r,
        (r - x) % 2 == 0,
    ensures
        x <= chain_end(toks, x, c, r) <= r,
        (chain_end(toks, x, c, r) - x) % 2 == 0,
        forall|y: int| x < y < chain_end(toks, x, c, r) && (y - x) % 2 == 1 ==> #[trigger] op_prec(toks, y) >= c,
        chain_end(toks, x, c, r) < r ==> op_prec(toks, chain_end(toks, x, c, r) + 1) < c,
    decreases r - x,
{
    if x < r && op_prec(toks, x + 1) >= c {
        lemma_chain_end(toks, x + 2, c, r);
        let j = chain_end(toks, x + 2, c, r);
        assert forall|y: int| x < y < j && (y - x) % 2 == 1 implies #[trigger] op_prec(toks, y) >= c by {
            if y > x + 1 {
                assert((y - (x + 2)) % 2 == 1);
            }
        }
    }
}

/// The split of a chain falls just after an operator that binds no more
/// strongly than any before it and less strongly than every one after it.
proof fn lemma_split_at(toks: Seq<RawToken>, l: int, r: int, k: int)
    requires
        l + 2 <= k <= r,
        (k - l) % 2 == 0,
        (r - l) % 2 == 0,
        forall|y: int| l < y < k - 1 && (y - l) % 2 == 1 ==> #[trigger] op_prec(toks, y) >= op_prec(toks, k - 1),
        forall|y: int| k < y < r && (y - l) % 2 == 1 ==> #[trigger] op_prec(toks, y) > op_prec(toks, k - 1),
    ensures
        split_at(toks, l, r) == k,
    decreases r - l,
{
    if r > l + 2 {
        if r == k {
            let k2 = split_at(toks, l, r - 2);
            lemma_split_range(toks, l, r - 2);
            assert(op_prec(toks, k2 - 1) >= op_prec(toks, k - 1));
        } else {
            lemma_split_at(toks, l, r - 2, k);
            assert(op_prec(toks, r - 1) > op_prec(toks, k - 1));
        }
    }
}

/// The split of a chain falls on an operand strictly inside it.
proof fn lemma_split_range(toks: Seq<RawToken>, l: int, r: int)
    requires
        l + 2 <= r,
        (r - l) % 2 == 0,
    ensures
        l + 2 <= split_at(toks, l, r) <= r,
        (split_at(toks, l, r) - l) % 2 == 0,
    decreases r - l,
{
    if r > l + 2 {
        lemma_split_range(toks, l, r - 2);
    }
}

/// The operands after the operator at `t + 1` of a chain, up to the first
/// operator that binds no more strongly than it, form a chain of their own
/// that stops there.
proof fn lemma_inner_chain(toks: Seq<RawToken>, src: Seq<u8>, x0: int, r: int, m: int, t: int, p: int)
    requires
        m >= 1,
        chain(toks, src, x0, r, m),
        chain_stops(toks, r, m),
        x0 <= t < r,
        (t - x0) % 2 == 0,
        p == op_prec(toks, t + 1),
        p >= m,
    ensures
        chain(toks, src, t + 2, chain_end(toks, t + 2, p + 1, r), p + 1),
        chain_stops(toks, chain_end(toks, t + 2, p + 1, r), p + 1),
{
    let j = chain_end(toks, t + 2, p + 1, r);
    lemma_chain_end(toks, t + 2, p + 1, r);
    assert forall|y: int| t + 2 <= y <= j && (y - (t + 2)) % 2 == 0 implies #[trigger] plain_at(toks, src, y) by {
        assert((y - x0) % 2 == 0);
    }
    assert forall|y: int| t + 2 < y < j && (y - (t + 2)) % 2 == 1 implies #[trigger] op_prec(toks, y) >= p + 1
        && op_prec(toks, y) > 0 by {
        assert((y - x0) % 2 == 1);
    }
    if j < r {
        assert((j + 1 - x0) % 2 == 1);
        assert(op_prec(toks, j + 1) > 0);
        lemma_operator_no_suffix(toks[j + 1].kind);
    }
}

/// One more operator at the level of a chain: with every operator before
/// it binding at least as strongly, and every one in the part that follows
/// it more strongly, the chain's expression is its node over the two.
proof fn lemma_chain_step(toks: Seq<RawToken>, x0: int, t: int, j: int, lvl: int, q: int)
    requires
        x0 <= t,
        t + 2 <= j,
        (t - x0) % 2 == 0,
        (j - (t + 2)) % 2 == 0,
        q == op_prec(toks, t + 1),
        t > x0 ==> q <= lvl,
        forall|y: int| x0 < y < t && (y - x0) % 2 == 1 ==> #[trigger] op_prec(toks, y) >= lvl,
        forall|y: int| t + 2 < y < j && (y - (t + 2)) % 2 == 1 ==> #[trigger] op_prec(toks, y) >= q + 1,
    ensures
        chain_tree(toks, x0, j) == seq![GreenEvent::StartNode { kind: SyntaxKind::BinaryExpr }] + chain_tree(
            toks,
            x0,
            t,
        ) + seq![token_event(toks, t + 1)] + chain_tree(toks, t + 2, j) + seq![GreenEvent::FinishNode],
        forall|y: int| x0 < y < j && (y - x0) % 2 == 1 ==> #[trigger] op_prec(toks, y) >= q,
{
    let k = t + 2;
    assert forall|y: int| x0 < y < k - 1 && (y - x0) % 2 == 1 implies #[trigger] op_prec(toks, y) >= op_prec(
        toks,
        k - 1,
    ) by {}
    assert forall|y: int| k < y < j && (y - x0) % 2 == 1 implies #[trigger] op_prec(toks, y) > op_prec(toks, k - 1) by {
        assert((y - (t + 2)) % 2 == 1);
    }
    lemma_split_at(toks, x0, j, k);
    assert forall|y: int| x0 < y < j && (y - x0) % 2 == 1 implies #[trigger] op_prec(toks, y) >= q by {
        if y > t + 1 {
            assert((y - (t + 2)) % 2 == 1);
        }
    }
}

/// Operators that bind equally group to the left: in a chain whose
/// operators all bind as strongly as each other, the last operator's node
/// holds the expression of everything before it as its left side, and the
/// last operand alone as its right side.
pub proof fn lemma_equal_strength_groups_left(toks: Seq<RawToken>, l: int, r: int)
    requires
        l + 2 <= r,
        (r - l) % 2 == 0,
        forall|y: int| l < y < r && (y - l) % 2 == 1 ==> #[trigger] op_prec(toks, y) == op_prec(toks, r - 1),
    ensures
        chain_tree(toks, l, r) == seq![GreenEvent::StartNode { kind: SyntaxKind::BinaryExpr }] + chain_tree(
            toks,
            l,
            r - 2,
        ) + seq![token_event(toks, r - 1)] + operand_events(toks, r) + seq![GreenEvent::FinishNode],
{
    lemma_split_at(toks, l, r, r);
    assert(chain_tree(toks, r, r) == operand_events(toks, r));
    assert(split_at(toks, l, r) == r);
}

/// A more strongly binding operator's node lies inside a less strongly
/// binding one's: when the operator after the first operand binds less
/// strongly than every operator after it, the chain splits there, the
/// first operand alone on the left.
pub proof fn lemma_weaker_operator_on_top(toks: Seq<RawToken>, l: int, r: int)
    requires
        l + 2 <= r,
        (r - l) % 2 == 0,
        forall|y: int| l + 2 < y < r && (y - l) % 2 == 1 ==> #[trigger] op_prec(toks, y) > op_prec(toks, l + 1),
    ensures
        chain_tree(toks, l, r) == seq![GreenEvent::StartNode { kind: SyntaxKind::BinaryExpr }] + operand_events(
            toks,
            l,
        ) + seq![token_event(toks, l + 1)] + chain_tree(toks, l + 2, r) + seq![GreenEvent::FinishNode],
{
    lemma_split_at(toks, l, r, l + 2);
    assert(chain_tree(toks, l, l) == operand_events(toks, l));
    assert(split_at(toks, l, r) == l + 2);
}

/// A binary operator is no postfix operator.
proof fn lemma_operator_no_suffix(k: SyntaxKind)
    ensures
        precedence_of(k) > 0 ==> !suffix_token(k),
{
}

/// Words that a declaration can start with: those of type names, storage
/// classes, function specifiers, static assertions and attributes.
pub open spec fn declaration_word(w: Word) -> bool {
    ||| type_name_word(w)
    ||| storage_class_word(w)
    ||| function_specifier_word(w)
    ||| w == Word::StaticAssert
    ||| w == Word::StaticAssertOld
    ||| w == Word::AttributeKw
}

/// The token of kind `kind` over `src[start..start + len]` can start a
/// declaration when `names` are typedef names: it is an identifier that
/// spells a declaration word, or one of the names.
pub open spec fn opens_declaration(src: Seq<u8>, kind: SyntaxKind, start: int, len: int, names: Seq<Seq<u8>>) -> bool {
    let text = src.subrange(start, start + len);
    &&& kind == SyntaxKind::Ident
    &&& (declaration_word(word_spelled(text)) || (word_spelled(text) == Word::Other && exists|j: int|
        0 <= j < names.len() && #[trigger] names[j] == text))
}

/// The token `t` (kind, length, start) over `src` is an identifier that
/// spells one of `names` and no keyword.
pub open spec fn listed_name(src: Seq<u8>, t: (SyntaxKind, u32, u32), names: Seq<Seq<u8>>) -> bool {
    let text = src.subrange(t.2 as int, t.2 + t.1);
    &&& t.0 == SyntaxKind::Ident
    &&& word_spelled(text) == Word::Other
    &&& exists|m: int| 0 <= m < names.len() && #[trigger] names[m] == text
}

/// What the event at `j` opens while only the root is open is sound: an
/// external declaration holds a token, and a declaration or a function
/// definition first, whose declaration specifiers, when its first token is
/// one of the typedef names, start with a type specifier holding it; an
/// error node holds exactly one token, one that cannot start a declaration.
pub open spec fn top_item_ok(es: Seq<GreenEvent>, j: int, src: Seq<u8>, names: Seq<Seq<u8>>) -> bool {
    let k = token_events(es.take(j)).len() as int;
    &&& es[j] == (GreenEvent::StartNode { kind: SyntaxKind::ExternalDeclaration }) ==> j + 1 < es.len() && (es[j
        + 1] == (GreenEvent::StartNode { kind: SyntaxKind::Declaration }) || es[j + 1] == (GreenEvent::StartNode {
        kind: SyntaxKind::FunctionDefinition,
    })) && k < token_events(es).len()
    &&& (es[j] == (GreenEvent::StartNode { kind: SyntaxKind::ExternalDeclaration }) && listed_name(
        src,
        token_events(es)[k],
        names,
    )) ==> j + 4 < es.len() && es[j + 2] == (GreenEvent::StartNode { kind: SyntaxKind::DeclarationSpecifiers })
        && es[j + 3] == (GreenEvent::StartNode { kind: SyntaxKind::TypeSpecifier }) && es[j + 4] == (GreenEvent::Token {
        kind: token_events(es)[k].0,
        len: token_events(es)[k].1,
        start: token_events(es)[k].2,
    })
    &&& es[j] == (GreenEvent::StartNode { kind: SyntaxKind::Error }) ==> j + 2 < es.len() && es[j + 2]
        == GreenEvent::FinishNode && (es[j + 1] matches GreenEvent::Token { kind, len, start } && !opens_declaration(
        src,
        kind,
        start as int,
        len as int,
        names,
    ))
}

/// Every item of the root of `es` is sound (see [`top_item_ok`]).
pub open spec fn top_items_ok(es: Seq<GreenEvent>, src: Seq<u8>, names: Seq<Seq<u8>>) -> bool {
    forall|j: int| 1 <= j < es.len() && events_depth(#[trigger] es.take(j)) == 1 ==> top_item_ok(es, j, src, names)
}

/// Words that start a type name (besides typedef names).
pub open spec fn type_name_word(w: Word) -> bool {
    simple_type_word(w) || qualifier_word(w) || w == Word::Atomic || w == Word::BitInt || w
        == Word::Struct || w == Word::Union || w == Word::Enum || w == Word::Typeof || w
        == Word::TypeofUnqual || w == Word::Alignas
}

/// Binding strength of a binary operator token; 0 for other tokens.
pub open spec fn precedence_of(k: SyntaxKind) -> u8 {
    match k {
        SyntaxKind::Star | SyntaxKind::Slash | SyntaxKind::Percent => 10,
        SyntaxKind::Plus | SyntaxKind::Minus => 9,
        SyntaxKind::LeftShift | SyntaxKind::RightShift => 8,
        SyntaxKind::Less | SyntaxKind::LessEqual | SyntaxKind::Greater | SyntaxKind::GreaterEqual => 7,
        SyntaxKind::Equal | SyntaxKind::NotEqual => 6,
        SyntaxKind::Ampersand => 5,
        SyntaxKind::Caret => 4,
        SyntaxKind::Pipe => 3,
        SyntaxKind::LogicalAnd => 2,
        SyntaxKind::LogicalOr => 1,
        _ => 0,
    }
}

/// Assignment operator tokens.
pub open spec fn assignment_operator(k: SyntaxKind) -> bool {
    match k {
        SyntaxKind::Assign | SyntaxKind::MulAssign | SyntaxKind::DivAssign | SyntaxKind::ModAssign
        | SyntaxKind::AddAssign | SyntaxKind::SubAssign | SyntaxKind::LeftShiftAssign
        | SyntaxKind::RightShiftAssign | SyntaxKind::AndAssign | SyntaxKind::XorAssign
        | SyntaxKind::OrAssign => true,
        _ => false,
    }
}

/// The kinds of the nodes that expressions are recorded as.
pub open spec fn expr_kind(k: SyntaxKind) -> bool {
    match k {
        SyntaxKind::PrimaryExpr | SyntaxKind::GenericSelection | SyntaxKind::ArrayAccess
        | SyntaxKind::FunctionCall | SyntaxKind::MemberAccess | SyntaxKind::MemberAccessPtr
        | SyntaxKind::PostIncrement | SyntaxKind::PostDecrement | SyntaxKind::PreIncrement
        | SyntaxKind::PreDecrement | SyntaxKind::UnaryExpr | SyntaxKind::SizeofType
        | SyntaxKind::SizeofExpr | SyntaxKind::Alignof | SyntaxKind::CompoundLiteral
        | SyntaxKind::CastExpr | SyntaxKind::BinaryExpr | SyntaxKind::ConditionalExpr
        | SyntaxKind::AssignmentExpr | SyntaxKind::CommaExpr => true,
        _ => false,
    }
}

/// Tokens that a primary expression starts with.
pub open spec fn primary_token(k: SyntaxKind) -> bool {
    match k {
        SyntaxKind::Ident | SyntaxKind::IntegerConst | SyntaxKind::FloatConst
        | SyntaxKind::CharConst | SyntaxKind::PredefinedConst | SyntaxKind::StringLiteral
        | SyntaxKind::LeftParen => true,
        _ => false,
    }
}

/// Tokens that a postfix operator starts with.
pub open spec fn suffix_token(k: SyntaxKind) -> bool {
    match k {
        SyntaxKind::LeftBracket | SyntaxKind::LeftParen | SyntaxKind::Dot | SyntaxKind::Arrow
        | SyntaxKind::Increment | SyntaxKind::Decrement => true,
        _ => false,
    }
}

/// Prefix operator tokens other than `++` and `--`.
pub open spec fn prefix_operator(k: SyntaxKind) -> bool {
    match k {
        SyntaxKind::Ampersand | SyntaxKind::Star | SyntaxKind::Plus | SyntaxKind::Minus
        | SyntaxKind::Tilde | SyntaxKind::Bang => true,
        _ => false,
    }
}

/// Opening brackets.
pub open spec fn opening_bracket(k: SyntaxKind) -> bool {
    k == SyntaxKind::LeftParen || k == SyntaxKind::LeftBracket || k == SyntaxKind::LeftBrace
}

/// Closing brackets.
pub open spec fn closing_bracket(k: SyntaxKind) -> bool {
    k == SyntaxKind::RightParen || k == SyntaxKind::RightBracket || k == SyntaxKind::RightBrace
}

/// The kinds of the nodes that statements are recorded as, with those of
/// declarations and of the attributes that may precede a statement.
pub open spec fn statement_kind(k: SyntaxKind) -> bool {
    match k {
        SyntaxKind::CompoundStatement | SyntaxKind::LabeledStatement | SyntaxKind::IfStatement
        | SyntaxKind::SwitchStatement | SyntaxKind::WhileStatement | SyntaxKind::DoWhileStatement
        | SyntaxKind::ForStatement | SyntaxKind::GotoStatement | SyntaxKind::ContinueStatement
        | SyntaxKind::BreakStatement | SyntaxKind::ReturnStatement
        | SyntaxKind::ExpressionStatement | SyntaxKind::Declaration
        | SyntaxKind::AttributeSpecifier | SyntaxKind::AsmAttribute => true,
        _ => false,
    }
}

/// The node kind of the statement that the word `w` starts.
pub open spec fn selection_kind(w: Word) -> SyntaxKind {
    if w == Word::If {
        SyntaxKind::IfStatement
    } else if w == Word::Switch {
        SyntaxKind::SwitchStatement
    } else if w == Word::While {
        SyntaxKind::WhileStatement
    } else {
        SyntaxKind::DoWhileStatement
    }
}

/// The node kind of the jump statement that the word `w` starts.
pub open spec fn jump_kind(w: Word) -> SyntaxKind {
    if w == Word::Goto {
        SyntaxKind::GotoStatement
    } else if w == Word::Continue {
        SyntaxKind::ContinueStatement
    } else if w == Word::Break {
        SyntaxKind::BreakStatement
    } else {
        SyntaxKind::ReturnStatement
    }
}

/// Recursive-descent parser state: the source bytes, its tokens, the next
/// token to read, the events recorded so far and the typedef names in scope.
pub struct Parser<'a> {
    src: &'a [u8],
    toks: Vec<RawToken>,
    pos: usize,
    builder: GreenBuilder,
    typedefs: Vec<Vec<u8>>,
    /// From which event on, and how many nodes at least, stay open: the
    /// events from `guard.0` on may not close the nodes then open below
    /// depth `guard.1`.
    guard: Ghost<(int, int)>,
}

/// Every prefix of `es` at least `s` events long leaves at least `d` nodes
/// open.
spec fn floor_holds(es: Seq<GreenEvent>, s: int, d: int) -> bool
    decreases es.len(),
{
    if es.len() < s {
        true
    } else {
        events_depth(es) >= d && (es.len() == 0 || es.len() == s || floor_holds(es.drop_last(), s, d))
    }
}

/// A prefix at least `s` events long of a stream whose floor holds leaves
/// `d` nodes open, and its floor holds too.
proof fn lemma_floor_take(es: Seq<GreenEvent>, s: int, d: int, j: int)
    requires
        floor_holds(es, s, d),
        0 <= j <= es.len(),
    ensures
        floor_holds(es.take(j), s, d),
        j >= s ==> events_depth(es.take(j)) >= d,
    decreases es.len(),
{
    if j == es.len() {
        assert(es.take(j) =~= es);
    } else {
        assert(es.drop_last().take(j) =~= es.take(j));
        lemma_floor_take(es.drop_last(), s, d, j);
    }
}

/// Opening a node at or after `s` keeps the floor.
proof fn lemma_floor_insert(es: Seq<GreenEvent>, s: int, d: int, c: int, kind: SyntaxKind)
    requires
        floor_holds(es, s, d),
        0 <= s <= c <= es.len(),
    ensures
        floor_holds(es.insert(c, GreenEvent::StartNode { kind }), s, d),
    decreases es.len(),
{
    let st = GreenEvent::StartNode { kind };
    let es2 = es.insert(c, st);
    assert(es =~= es.take(c) + es.skip(c));
    assert(es2 =~= es.take(c) + (seq![st] + es.skip(c)));
    crate::green::lemma_depth_concat(es.take(c), seq![st] + es.skip(c));
    crate::green::lemma_depth_concat(seq![st], es.skip(c));
    crate::green::lemma_depth_concat(es.take(c), es.skip(c));
    assert(seq![st].drop_last() =~= Seq::<GreenEvent>::empty());
    reveal_with_fuel(events_depth, 2);
    assert(events_depth(seq![st]) == 1);
    assert(events_depth(es2) == events_depth(es) + 1);
    if c == es.len() {
        assert(es2.drop_last() =~= es);
    } else {
        assert(es2.drop_last() =~= es.drop_last().insert(c, st));
        lemma_floor_insert(es.drop_last(), s, d, c, kind);
    }
}

/// Events that never leave fewer than two nodes open after position `s`
/// keep [`top_level_ok`].
proof fn lemma_top_level_floor(es: Seq<GreenEvent>, s: int)
    requires
        1 <= s <= es.len(),
        top_level_ok(es.take(s)),
        floor_holds(es, s, 2),
    ensures
        top_level_ok(es),
    decreases es.len(),
{
    if es.len() == s {
        assert(es.take(s) =~= es);
    } else {
        let init = es.drop_last();
        assert(init.take(s) =~= es.take(s));
        lemma_top_level_floor(init, s);
        lemma_floor_take(es, s, 2, init.len() as int);
        assert(es.take(init.len() as int) =~= init);
    }
}

/// A stream that stays open has a node open from its first event on.
proof fn lemma_floor_open(es: Seq<GreenEvent>, s: int)
    requires
        stays_open(es),
        s >= 1,
    ensures
        floor_holds(es, s, 1),
    decreases es.len(),
{
    if es.len() > s {
        lemma_floor_open(es.drop_last(), s);
    }
}

impl<'a> Parser<'a> {
    spec fn ev(self) -> Seq<GreenEvent> {
        self.builder.spec_events()
    }

    /// The kind of the token `k` places ahead, if there is one.
    spec fn kind_at(self, k: int) -> Option<SyntaxKind> {
        if 0 <= self.pos + k < self.toks@.len() {
            Some(self.toks@[self.pos + k].kind)
        } else {
            None
        }
    }

    /// The source text of the token `k` places ahead.
    spec fn text_at(self, k: int) -> Seq<u8> {
        let t = self.toks@[self.pos + k];
        self.src@.subrange(t.start as int, t.start + t.len)
    }

    /// The word of the token `k` places ahead: [`Word::Other`] unless it is
    /// an identifier spelling one.
    spec fn word_at(self, k: int) -> Word {
        if self.kind_at(k) == Some(SyntaxKind::Ident) {
            word_spelled(self.text_at(k))
        } else {
            Word::Other
        }
    }

    /// The token `k` places ahead is an identifier spelled as one of the
    /// typedef names.
    spec fn typedef_at(self, k: int) -> bool {
        &&& self.kind_at(k) == Some(SyntaxKind::Ident)
        &&& exists|j: int| 0 <= j < self.typedefs@.len() && #[trigger] self.typedefs@[j]@ == self.text_at(k)
    }

    /// A type name can start `k` tokens ahead.
    spec fn type_name_at(self, k: int) -> bool {
        type_name_word(self.word_at(k)) || (self.word_at(k) == Word::Other && self.typedef_at(k))
    }

    /// A declaration can start `k` tokens ahead.
    spec fn declaration_at(self, k: int) -> bool {
        let w = self.word_at(k);
        self.type_name_at(k) || storage_class_word(w) || function_specifier_word(w) || w
            == Word::StaticAssert || w == Word::StaticAssertOld || w == Word::AttributeKw
    }

    /// Since `prev`, `self` recorded a node whose first child holds the
    /// declaration specifiers, the first of them a type specifier holding
    /// the token that was next at `prev`.
    spec fn declares_type(self, prev: Self) -> bool {
        let n = prev.ev().len() as int;
        &&& n + 4 < self.ev().len()
        &&& self.ev()[n + 1] == (GreenEvent::StartNode { kind: SyntaxKind::DeclarationSpecifiers })
        &&& self.ev()[n + 2] == (GreenEvent::StartNode { kind: SyntaxKind::TypeSpecifier })
        &&& self.ev()[n + 3] == prev.next_event()
    }

    /// The next token is a typedef name, spelling no keyword.
    spec fn typedef_name_at(self) -> bool {
        self.word_at(0) == Word::Other && self.typedef_at(0)
    }

    /// Since `prev`, `self` recorded, right after the node it opened first,
    /// a type specifier holding the token that was next at `prev`.
    spec fn names_type(self, prev: Self) -> bool {
        &&& prev.ev().len() + 3 < self.ev().len()
        &&& self.ev()[prev.ev().len() + 1int] == (GreenEvent::StartNode { kind: SyntaxKind::TypeSpecifier })
        &&& self.ev()[prev.ev().len() + 2int] == prev.next_event()
    }

    /// A declaration specifier (with `storage`), or a specifier or
    /// qualifier, or an attribute, starts at the next token.
    spec fn specifier_at(self, storage: bool) -> bool {
        ||| self.type_name_at(0)
        ||| self.attribute_at()
        ||| (storage && (storage_class_word(self.word_at(0)) || function_specifier_word(self.word_at(0))))
    }

    /// An attribute specifier starts at the next token.
    spec fn attribute_at(self) -> bool {
        ||| (self.kind_at(0) == Some(SyntaxKind::LeftBracket) && self.kind_at(1) == Some(
            SyntaxKind::LeftBracket,
        ))
        ||| self.word_at(0) == Word::AttributeKw
        ||| self.word_at(0) == Word::Asm
    }

    /// The event that reading the next token records.
    spec fn next_event(self) -> GreenEvent {
        let t = self.toks@[self.pos as int];
        GreenEvent::Token { kind: t.kind, len: t.len, start: t.start }
    }

    /// Since `prev`, `self` recorded nothing and read no token.
    spec fn idle(self, prev: Self) -> bool {
        self.ev() == prev.ev() && self.pos == prev.pos
    }

    /// Since `prev`, `self` recorded one node of kind `kind`: its first new
    /// event opens it, and its last event closes a node.
    spec fn records_node(self, prev: Self, kind: SyntaxKind) -> bool {
        &&& prev.ev().len() + 2 <= self.ev().len()
        &&& self.ev()[prev.ev().len() as int] == (GreenEvent::StartNode { kind })
        &&& self.ev().last() == GreenEvent::FinishNode
    }

    /// Since `prev`, `self` read a token and recorded a node of an
    /// expression kind: its first new event opens it, and its last event
    /// closes a node.
    spec fn records_expr(self, prev: Self) -> bool {
        &&& prev.ev().len() + 2 <= self.ev().len()
        &&& self.ev()[prev.ev().len() as int] matches GreenEvent::StartNode { kind } && expr_kind(kind)
        &&& self.ev().last() == GreenEvent::FinishNode
        &&& self.pos > prev.pos
    }

    /// Since `prev`, `self` recorded a node of a statement kind (or, for a
    /// statement with attributes, of an attribute kind first): its first new
    /// event opens it, and its last event closes a node.
    spec fn records_statement(self, prev: Self) -> bool {
        &&& prev.ev().len() + 2 <= self.ev().len()
        &&& self.ev()[prev.ev().len() as int] matches GreenEvent::StartNode { kind } && statement_kind(
            kind,
        )
        &&& self.ev().last() == GreenEvent::FinishNode
    }

    /// Since `prev`, `self` recorded one or more attribute specifiers: its
    /// first new event opens one, its last event closes a node, and it read
    /// a token.
    spec fn records_attributes(self, prev: Self) -> bool {
        &&& prev.ev().len() + 2 <= self.ev().len()
        &&& self.ev()[prev.ev().len() as int] matches GreenEvent::StartNode { kind } && (kind
            == SyntaxKind::AttributeSpecifier || kind == SyntaxKind::AsmAttribute)
        &&& self.ev().last() == GreenEvent::FinishNode
        &&& self.pos > prev.pos
    }

    /// A postfix expression (6.5.2) can start at the next token.
    spec fn postfix_at(self) -> bool {
        match self.kind_at(0) {
            Some(k) => primary_token(k) || suffix_token(k),
            None => false,
        }
    }

    /// A unary or cast expression (6.5.3, 6.5.4) can start at the next token.
    spec fn unary_at(self) -> bool {
        match self.kind_at(0) {
            Some(k) => primary_token(k) || suffix_token(k) || prefix_operator(k),
            None => false,
        }
    }

    /// A binary expression at `min_prec` can start at the next token: an
    /// operand, or an operator that binds at least that strongly.
    spec fn binary_at(self, min_prec: u8) -> bool {
        ||| self.unary_at()
        ||| (self.kind_at(0) matches Some(k) && precedence_of(k) > 0 && precedence_of(k)
            >= min_prec)
    }

    /// A conditional expression (6.5.15) can start at the next token.
    spec fn conditional_at(self) -> bool {
        self.binary_at(1) || self.kind_at(0) == Some(SyntaxKind::Question)
    }

    /// An assignment expression (6.5.16) can start at the next token.
    spec fn assignment_at(self) -> bool {
        ||| self.conditional_at()
        ||| (self.kind_at(0) matches Some(k) && assignment_operator(k))
    }

    /// An expression (6.5.17) can start at the next token.
    spec fn expression_at(self) -> bool {
        self.assignment_at() || self.kind_at(0) == Some(SyntaxKind::Comma)
    }

    /// The next token starts a postfix operator.
    spec fn suffix_at(self) -> bool {
        match self.kind_at(0) {
            Some(k) => suffix_token(k),
            None => false,
        }
    }

    /// Since `prev`, `self` read a token, the event at `cp` opens a node of
    /// an expression kind, and the last event closes a node.
    spec fn encloses_expr(self, prev: Self, cp: int) -> bool {
        &&& cp + 2 <= self.ev().len()
        &&& self.ev()[cp] matches GreenEvent::StartNode { kind } && expr_kind(kind)
        &&& self.ev().last() == GreenEvent::FinishNode
        &&& self.pos > prev.pos
    }

    /// The kind of node that a statement starting at the next token, with
    /// no attributes before it, is recorded as.
    spec fn statement_node(self) -> SyntaxKind {
        let w = self.word_at(0);
        if self.kind_at(0) == Some(SyntaxKind::LeftBrace) {
            SyntaxKind::CompoundStatement
        } else if w == Word::Case || w == Word::Default || (self.kind_at(0) == Some(
            SyntaxKind::Ident,
        ) && self.kind_at(1) == Some(SyntaxKind::Colon)) {
            SyntaxKind::LabeledStatement
        } else if w == Word::If || w == Word::Switch || w == Word::While || w == Word::Do {
            selection_kind(w)
        } else if w == Word::For {
            SyntaxKind::ForStatement
        } else if w == Word::Goto || w == Word::Continue || w == Word::Break || w == Word::Return {
            jump_kind(w)
        } else {
            SyntaxKind::ExpressionStatement
        }
    }

    /// The next token is an opening bracket.
    spec fn next_opens(self) -> bool {
        match self.kind_at(0) {
            Some(k) => opening_bracket(k),
            None => false,
        }
    }

    /// The next token is a closing bracket.
    spec fn next_closes(self) -> bool {
        match self.kind_at(0) {
            Some(k) => closing_bracket(k),
            None => false,
        }
    }

    /// Since `prev`, `self` read tokens and recorded each as it stands, and
    /// nothing else.
    spec fn reads_tokens(self, prev: Self) -> bool {
        &&& self.ev().len() - prev.ev().len() == self.pos - prev.pos
        &&& forall|i: int|
            0 <= i < self.pos - prev.pos ==> #[trigger] self.ev()[prev.ev().len() + i] == (
            GreenEvent::Token {
                kind: self.toks@[prev.pos + i].kind,
                len: self.toks@[prev.pos + i].len,
                start: self.toks@[prev.pos + i].start,
            })
    }

    /// The position is within the tokens, and [`Parser::sound`] holds.
    spec fn inv(self) -> bool {
        &&& self.pos <= self.toks@.len()
        &&& self.toks.len() == self.toks@.len()
        &&& events_depth(self.ev()) >= 1
        &&& 1 <= self.guard@.0 <= self.ev().len()
        &&& 1 <= self.guard@.1 <= events_depth(self.ev())
        &&& self.sound()
    }

    /// The events hold exactly the tokens read so far, and a node is open.
    #[verifier::opaque]
    spec fn sound(self) -> bool {
        &&& self.src@.len() < u32::MAX
        &&& tokens_within(self.toks@, self.src@.len() as int)
        &&& token_events(self.ev()) == triples(self.toks@).take(self.pos as int)
        &&& stays_open(self.ev())
        &&& events_depth(self.ev()) >= 1
        &&& floor_holds(self.ev(), self.guard@.0, self.guard@.1)
    }

    /// `self` went on from `prev`: same input, tokens read on, the events
    /// before `cp` kept.
    spec fn kept(self, prev: Self, cp: int) -> bool {
        &&& self.inv()
        &&& self.src == prev.src
        &&& self.toks@ == prev.toks@
        &&& prev.pos <= self.pos
        &&& 0 <= cp <= prev.ev().len() <= self.ev().len()
        &&& forall|i: int| 0 <= i < cp ==> #[trigger] self.ev()[i] == prev.ev()[i]
        &&& self.builder.spec_source_len() == prev.builder.spec_source_len()
        &&& self.guard == prev.guard
        &&& prev.typedefs@.len() <= self.typedefs@.len()
        &&& forall|j: int| 0 <= j < prev.typedefs@.len() ==> #[trigger] self.typedefs@[j] == prev.typedefs@[j]
    }

    /// `self` went on from `prev`, keeping all of its events and leaving as
    /// many nodes open.
    spec fn advanced(self, prev: Self) -> bool {
        &&& self.kept(prev, prev.ev().len() as int)
        &&& events_depth(self.ev()) == events_depth(prev.ev())
    }

    /// Typedef names are only ever added: a name that stood for a type
    /// still does, and so a declaration that could start still can.
    proof fn lemma_typedefs_grow(self, prev: Self)
        requires
            self.kept(prev, 0),
            self.pos == prev.pos,
        ensures
            prev.typedef_at(0) ==> self.typedef_at(0),
            prev.declaration_at(0) ==> self.declaration_at(0),
            prev.specifier_at(true) ==> self.specifier_at(true),
            prev.specifier_at(false) ==> self.specifier_at(false),
            self.attribute_at() == prev.attribute_at(),
            self.word_at(0) == prev.word_at(0),
            self.kind_at(0) == prev.kind_at(0),
    {
        if prev.typedef_at(0) {
            let j = choose|j: int|
                0 <= j < prev.typedefs@.len() && #[trigger] prev.typedefs@[j]@ == prev.text_at(0);
            assert(self.typedefs@[j] == prev.typedefs@[j]);
        }
    }

    /// Read the next token into the tree.
    #[verifier::rlimit(100)]
    #[verifier::spinoff_prover]
    fn bump(&mut self)
        requires
            old(self).inv(),
            old(self).pos < old(self).toks@.len(),
        ensures
            final(self).advanced(*old(self)),
            final(self).pos == old(self).pos + 1,
            final(self).ev() == old(self).ev().push(old(self).next_event()),
    {
        proof {
            reveal(Parser::sound);
        }
        let t = self.toks[self.pos];
        let ghost es = self.ev();
        self.builder.token(t.kind, t.len, t.start);
        proof {
            let es2 = self.ev();
            assert(es2.drop_last() =~= es);
            assert(triples(self.toks@).take(self.pos + 1) =~= triples(self.toks@).take(
                self.pos as int,
            ).push((t.kind, t.len, t.start)));
        }
        self.pos = self.pos + 1;
    }

    /// Open a node.
    fn start(&mut self, kind: SyntaxKind)
        requires
            old(self).inv(),
        ensures
            final(self).inv(),
            final(self).src == old(self).src,
            final(self).toks@ == old(self).toks@,
            final(self).pos == old(self).pos,
            final(self).ev() == old(self).ev().push(GreenEvent::StartNode { kind }),
            events_depth(final(self).ev()) == events_depth(old(self).ev()) + 1,
            final(self).builder.spec_source_len() == old(self).builder.spec_source_len(),
            final(self).guard == old(self).guard,
            final(self).typedefs@ == old(self).typedefs@,
    {
        proof {
            reveal(Parser::sound);
        }
        let ghost es = self.ev();
        self.builder.start_node(kind);
        proof {
            assert(self.ev().drop_last() =~= es);
        }
    }

    /// Close the innermost open node.
    fn finish(&mut self)
        requires
            old(self).inv(),
            events_depth(old(self).ev()) >= old(self).guard@.1 + 1,
        ensures
            final(self).inv(),
            final(self).src == old(self).src,
            final(self).toks@ == old(self).toks@,
            final(self).pos == old(self).pos,
            final(self).ev() == old(self).ev().push(GreenEvent::FinishNode),
            events_depth(final(self).ev()) == events_depth(old(self).ev()) - 1,
            final(self).builder.spec_source_len() == old(self).builder.spec_source_len(),
            final(self).guard == old(self).guard,
            final(self).typedefs@ == old(self).typedefs@,
    {
        proof {
            reveal(Parser::sound);
        }
        let ghost es = self.ev();
        self.builder.finish_node();
        proof {
            assert(self.ev().drop_last() =~= es);
        }
    }

    /// The number of events recorded so far.
    fn checkpoint(&self) -> (r: usize)
        ensures
            r == self.ev().len(),
    {
        self.builder.checkpoint()
    }

    /// Open a node that encloses every event recorded since `cp`.
    fn start_at(&mut self, cp: usize, kind: SyntaxKind)
        requires
            old(self).inv(),
            old(self).guard@.0 <= cp <= old(self).ev().len(),
        ensures
            final(self).inv(),
            final(self).src == old(self).src,
            final(self).toks@ == old(self).toks@,
            final(self).pos == old(self).pos,
            final(self).ev().len() == old(self).ev().len() + 1,
            forall|i: int| 0 <= i < cp ==> final(self).ev()[i] == old(self).ev()[i],
            final(self).ev() == old(self).ev().insert(cp as int, GreenEvent::StartNode { kind }),
            events_depth(final(self).ev()) == events_depth(old(self).ev()) + 1,
            final(self).builder.spec_source_len() == old(self).builder.spec_source_len(),
            final(self).guard == old(self).guard,
            final(self).typedefs@ == old(self).typedefs@,
    {
        proof {
            reveal(Parser::sound);
        }
        proof {
            lemma_insert_start(self.ev(), cp as int, kind);
            lemma_floor_insert(self.ev(), self.guard@.0, self.guard@.1, cp as int, kind);
        }
        self.builder.start_node_at(cp, kind);
    }

    /// The kind of the token `k` places ahead, or `None` past the end.
    fn peek(&self, k: usize) -> (r: Option<SyntaxKind>)
        requires
            self.inv(),
        ensures
            r is Some <==> self.pos + k < self.toks@.len(),
            r matches Some(kind) ==> kind == self.toks@[self.pos + k].kind,
    {
        if k < self.toks.len() - self.pos {
            Some(self.toks[self.pos + k].kind)
        } else {
            None
        }
    }

    /// The next token has the given kind.
    fn at(&self, kind: SyntaxKind) -> (r: bool)
        requires
            self.inv(),
        ensures
            r ==> self.pos < self.toks@.len() && self.toks@[self.pos as int].kind == kind,
            r == (self.kind_at(0) == Some(kind)),
    {
        match self.peek(0) {
            Some(k) => k == kind,
            None => false,
        }
    }

    /// All tokens have been read.
    fn at_end(&self) -> (r: bool)
        requires
            self.inv(),
        ensures
            r == (self.pos >= self.toks@.len()),
    {
        self.pos >= self.toks.len()
    }

    /// The word of the token `k` places ahead.
    fn word(&self, k: usize) -> (r: Word)
        requires
            self.inv(),
        ensures
            r != Word::Other ==> self.pos + k < self.toks@.len() && self.toks@[self.pos + k].kind
                == SyntaxKind::Ident,
            r == self.word_at(k as int),
    {
        proof {
            reveal(Parser::sound);
        }
        if k < self.toks.len() - self.pos {
            let t = self.toks[self.pos + k];
            if t.kind == SyntaxKind::Ident {
                return word_of(self.src, t.start as usize, t.len as usize);
            }
        }
        Word::Other
    }

    /// The token `k` places ahead is an identifier declared as a typedef name.
    fn is_typedef_name(&self, k: usize) -> (r: bool)
        requires
            self.inv(),
        ensures
            r ==> self.pos + k < self.toks@.len() && self.toks@[self.pos + k].kind
                == SyntaxKind::Ident,
            r ==> exists|j: int|
                0 <= j < self.typedefs@.len() && #[trigger] self.typedefs@[j]@ == self.src@.subrange(
                    self.toks@[self.pos + k].start as int,
                    self.toks@[self.pos + k].start + self.toks@[self.pos + k].len,
                ),
            r == self.typedef_at(k as int),
    {
        proof {
            reveal(Parser::sound);
        }
        if k >= self.toks.len() - self.pos {
            return false;
        }
        let t = self.toks[self.pos + k];
        if t.kind != SyntaxKind::Ident {
            return false;
        }
        let mut j: usize = 0;
        while j < self.typedefs.len()
            invariant
                j <= self.typedefs@.len(),
                self.inv(),
                self.pos + k < self.toks@.len(),
                t == self.toks@[self.pos + k],
                t.kind == SyntaxKind::Ident,
                t.start + t.len <= self.src@.len(),
                forall|m: int| 0 <= m < j ==> #[trigger] self.typedefs@[m]@ != self.text_at(k as int),
            decreases self.typedefs@.len() - j,
        {
            if same_bytes(self.src, t.start as usize, t.len as usize, &self.typedefs[j]) {
                assert(self.typedefs@[j as int]@ == self.src@.subrange(
                    t.start as int,
                    t.start + t.len,
                ));
                return true;
            }
            j = j + 1;
        }
        false
    }

    /// Declare the identifier at token index `i` as a typedef name.
    fn add_typedef(&mut self, i: usize)
        requires
            old(self).inv(),
            i < old(self).toks@.len(),
        ensures
            final(self).advanced(*old(self)),
            final(self).pos == old(self).pos,
            final(self).builder == old(self).builder,
            final(self).typedefs@.len() == old(self).typedefs@.len() + 1,
            final(self).typedefs@.last()@ == old(self).src@.subrange(
                old(self).toks@[i as int].start as int,
                old(self).toks@[i as int].start + old(self).toks@[i as int].len,
            ),
    {
        proof {
            reveal(Parser::sound);
        }
        let t = self.toks[i];
        let s = t.start as usize;
        let n = t.len as usize;
        let mut name: Vec<u8> = Vec::new();
        let mut k: usize = 0;
        while k < n
            invariant
                k <= n,
                s + n <= self.src@.len(),
                self.src@.len() < u32::MAX,
                name@ =~= self.src@.subrange(s as int, s + k),
            decreases n - k,
        {
            name.push(self.src[s + k]);
            k = k + 1;
        }
        self.typedefs.push(name);
    }

    /// Read the next token if it has the given kind.
    fn expect(&mut self, kind: SyntaxKind)
        requires
            old(self).inv(),
        ensures
            final(self).advanced(*old(self)),
            old(self).kind_at(0) == Some(kind) ==> final(self).pos == old(self).pos + 1
                && final(self).ev() == old(self).ev().push(old(self).next_event()),
            old(self).kind_at(0) != Some(kind) ==> final(self).idle(*old(self)),
    {
        if self.at(kind) {
            self.bump();
        }
    }

    /// Wrap the next token into a node of the given (error) kind.
    fn error_token(&mut self, kind: SyntaxKind)
        requires
            old(self).inv(),
            old(self).pos < old(self).toks@.len(),
        ensures
            final(self).advanced(*old(self)),
            final(self).pos == old(self).pos + 1,
            final(self).ev() == old(self).ev().push(GreenEvent::StartNode { kind }).push(
                old(self).next_event(),
            ).push(GreenEvent::FinishNode),
    {
        self.start(kind);
        self.bump();
        self.finish();
    }

    /// Forget the events recorded since `cp`.
    fn drop_since(&mut self, cp: usize)
        requires
            old(self).inv(),
            old(self).guard@.0 <= cp <= old(self).ev().len(),
            token_events(old(self).ev().take(cp as int)) == triples(old(self).toks@).take(
                old(self).pos as int,
            ),
            stays_open(old(self).ev().take(cp as int)),
            events_depth(old(self).ev().take(cp as int)) >= 1,
        ensures
            final(self).inv(),
            final(self).src == old(self).src,
            final(self).toks@ == old(self).toks@,
            final(self).pos == old(self).pos,
            final(self).ev() == old(self).ev().take(cp as int),
            final(self).builder.spec_source_len() == old(self).builder.spec_source_len(),
            final(self).guard == old(self).guard,
            final(self).typedefs@ == old(self).typedefs@,
    {
        proof {
            reveal(Parser::sound);
            lemma_floor_take(self.ev(), self.guard@.0, self.guard@.1, cp as int);
        }
        self.builder.rewind(cp);
        proof {
            assert(self.ev() =~= old(self).ev().take(cp as int));
        }
    }

    /// Undo what was recorded since the state `mid` (which read no token
    /// since), and wrap the next token into an error node instead.
    fn skip_as_error(&mut self, mid: Ghost<Self>, cp: usize, kind: SyntaxKind)
        requires
            old(self).advanced(mid@),
            mid@.inv(),
            cp == mid@.ev().len(),
            old(self).pos == mid@.pos,
            old(self).pos < old(self).toks@.len(),
        ensures
            final(self).advanced(mid@),
            final(self).pos == mid@.pos + 1,
            final(self).ev() == mid@.ev().push(GreenEvent::StartNode { kind }).push(mid@.next_event()).push(
                GreenEvent::FinishNode,
            ),
    {
        proof {
            reveal(Parser::sound);
        }
        proof {
            assert(self.ev().take(cp as int) =~= mid@.ev());
        }
        self.drop_since(cp);
        self.error_token(kind);
    }

    // -------------------------------------------------------------------------
    // Lookahead
    // -------------------------------------------------------------------------

    fn is_storage_class(w: Word) -> (r: bool)
        ensures
            r ==> w != Word::Other,
            r == storage_class_word(w),
    {
        matches!(
            w,
            Word::Auto | Word::Constexpr | Word::Extern | Word::Register | Word::Static
                | Word::ThreadLocal | Word::Typedef
        )
    }

    fn is_simple_type(w: Word) -> (r: bool)
        ensures
            r ==> w != Word::Other,
            r == simple_type_word(w),
    {
        matches!(
            w,
            Word::Void | Word::Char | Word::Short | Word::Int | Word::Long | Word::Float
                | Word::Double | Word::Signed | Word::Unsigned | Word::Bool | Word::Complex
                | Word::Decimal32 | Word::Decimal64 | Word::Decimal128
        )
    }

    fn is_qualifier(w: Word) -> (r: bool)
        ensures
            r ==> w != Word::Other,
            r == qualifier_word(w),
    {
        matches!(
            w,
            Word::Const | Word::Restrict | Word::Volatile | Word::Nonnull | Word::Nullable
                | Word::ThreadLocalQualifier
        )
    }

    fn is_function_specifier(w: Word) -> (r: bool)
        ensures
            r ==> w != Word::Other,
            r == function_specifier_word(w),
    {
        matches!(w, Word::Inline | Word::Noreturn)
    }

    /// A type name can start `k` tokens ahead.
    fn starts_type_name(&self, k: usize) -> (r: bool)
        requires
            self.inv(),
        ensures
            r == self.type_name_at(k as int),
    {
        let w = self.word(k);
        Self::is_simple_type(w) || Self::is_qualifier(w) || matches!(
            w,
            Word::Atomic | Word::BitInt | Word::Struct | Word::Union | Word::Enum | Word::Typeof
                | Word::TypeofUnqual | Word::Alignas
        ) || (w == Word::Other && self.is_typedef_name(k))
    }

    /// A declaration can start `k` tokens ahead.
    fn starts_declaration(&self, k: usize) -> (r: bool)
        requires
            self.inv(),
        ensures
            r == self.declaration_at(k as int),
    {
        let w = self.word(k);
        self.starts_type_name(k) || Self::is_storage_class(w) || Self::is_function_specifier(w)
            || matches!(w, Word::StaticAssert | Word::StaticAssertOld | Word::AttributeKw)
    }

    /// An attribute specifier starts at the next token.
    fn starts_attribute(&self) -> (r: bool)
        requires
            self.inv(),
        ensures
            r == self.attribute_at(),
    {
        let w = self.word(0);
        (self.at(SyntaxKind::LeftBracket) && self.peek(1) == Some(SyntaxKind::LeftBracket))
            || w == Word::AttributeKw || w == Word::Asm
    }

    /// Binding strength of a binary operator, 0 for other tokens.
    fn binary_precedence(k: SyntaxKind) -> (r: u8)
        ensures
            r <= 10,
            r == precedence_of(k),
    {
        match k {
            SyntaxKind::Star | SyntaxKind::Slash | SyntaxKind::Percent => 10,
            SyntaxKind::Plus | SyntaxKind::Minus => 9,
            SyntaxKind::LeftShift | SyntaxKind::RightShift => 8,
            SyntaxKind::Less | SyntaxKind::LessEqual | SyntaxKind::Greater
            | SyntaxKind::GreaterEqual => 7,
            SyntaxKind::Equal | SyntaxKind::NotEqual => 6,
            SyntaxKind::Ampersand => 5,
            SyntaxKind::Caret => 4,
            SyntaxKind::Pipe => 3,
            SyntaxKind::LogicalAnd => 2,
            SyntaxKind::LogicalOr => 1,
            _ => 0,
        }
    }

    fn is_assignment_operator(k: SyntaxKind) -> (r: bool)
        ensures
            r == assignment_operator(k),
    {
        matches!(
            k,
            SyntaxKind::Assign | SyntaxKind::MulAssign | SyntaxKind::DivAssign
                | SyntaxKind::ModAssign | SyntaxKind::AddAssign | SyntaxKind::SubAssign
                | SyntaxKind::LeftShiftAssign | SyntaxKind::RightShiftAssign
                | SyntaxKind::AndAssign | SyntaxKind::XorAssign | SyntaxKind::OrAssign
        )
    }

    // -------------------------------------------------------------------------
    // Expressions (6.5)
    // -------------------------------------------------------------------------

    /// (6.5.17) expression: assignment expressions separated by commas.
    fn expression(&mut self)
        requires
            old(self).inv(),
        ensures
            final(self).advanced(*old(self)),
            old(self).expression_at() ==> final(self).records_expr(*old(self)),
            !old(self).expression_at() ==> final(self).idle(*old(self)),
            forall|r: int|
                #![trigger chain(old(self).toks@, old(self).src@, old(self).pos as int, r, 1)]
                chain(old(self).toks@, old(self).src@, old(self).pos as int, r, 1) && expression_stops(
                    old(self).toks@,
                    r,
                ) ==> final(self).ev() == old(self).ev() + chain_tree(old(self).toks@, old(self).pos as int, r)
                    && final(self).pos == r + 1,
        decreases old(self).toks@.len() - old(self).pos, 30int,
    {
        let cp = self.checkpoint();
        self.assignment_expression();
        if self.at(SyntaxKind::Comma) {
            self.start_at(cp, SyntaxKind::CommaExpr);
            while self.at(SyntaxKind::Comma)
                invariant
                    cp < self.ev().len(),
                    self.ev()[cp as int] == (GreenEvent::StartNode { kind: SyntaxKind::CommaExpr }),
                    self.pos > old(self).pos || self.kind_at(0) == Some(SyntaxKind::Comma),
                    self.kept(*old(self), cp as int),
                    cp == old(self).ev().len(),
                    events_depth(self.ev()) == events_depth(old(self).ev()) + 1,
                decreases self.toks@.len() - self.pos,
            {
                self.bump();
                self.assignment_expression();
            }
            self.finish();
        }
    }

    /// (6.5.16) assignment expression.
    fn assignment_expression(&mut self)
        requires
            old(self).inv(),
        ensures
            final(self).advanced(*old(self)),
            old(self).assignment_at() ==> final(self).records_expr(*old(self)),
            !old(self).assignment_at() ==> final(self).idle(*old(self)),
            forall|r: int|
                #![trigger chain(old(self).toks@, old(self).src@, old(self).pos as int, r, 1)]
                chain(old(self).toks@, old(self).src@, old(self).pos as int, r, 1) && expression_stops(
                    old(self).toks@,
                    r,
                ) ==> final(self).ev() == old(self).ev() + chain_tree(old(self).toks@, old(self).pos as int, r)
                    && final(self).pos == r + 1,
        decreases old(self).toks@.len() - old(self).pos, 29int,
    {
        let cp = self.checkpoint();
        self.conditional_expression();
        match self.peek(0) {
            Some(k) => {
                if Self::is_assignment_operator(k) {
                    self.start_at(cp, SyntaxKind::AssignmentExpr);
                    self.bump();
                    self.assignment_expression();
                    self.finish();
                }
            },
            None => {},
        }
    }

    /// (6.5.15) conditional expression.
    fn conditional_expression(&mut self)
        requires
            old(self).inv(),
        ensures
            final(self).advanced(*old(self)),
            old(self).conditional_at() ==> final(self).records_expr(*old(self)),
            !old(self).conditional_at() ==> final(self).idle(*old(self)),
            forall|r: int|
                #![trigger chain(old(self).toks@, old(self).src@, old(self).pos as int, r, 1)]
                chain(old(self).toks@, old(self).src@, old(self).pos as int, r, 1) && expression_stops(
                    old(self).toks@,
                    r,
                ) ==> final(self).ev() == old(self).ev() + chain_tree(old(self).toks@, old(self).pos as int, r)
                    && final(self).pos == r + 1,
        decreases old(self).toks@.len() - old(self).pos, 28int,
    {
        let cp = self.checkpoint();
        self.binary_expression(1);
        if self.at(SyntaxKind::Question) {
            self.start_at(cp, SyntaxKind::ConditionalExpr);
            self.bump();
            self.expression();
            self.expect(SyntaxKind::Colon);
            self.conditional_expression();
            self.finish();
        }
    }

    /// (6.5.5 - 6.5.14) binary operators binding at least as strongly as
    /// `min_prec`, grouped to the left.
    #[verifier::rlimit(100)]
    #[verifier::spinoff_prover]
    fn binary_expression(&mut self, min_prec: u8)
        requires
            old(self).inv(),
        ensures
            final(self).advanced(*old(self)),
            old(self).binary_at(min_prec) ==> final(self).records_expr(*old(self)),
            !old(self).binary_at(min_prec) ==> final(self).idle(*old(self)),
            forall|r: int|
                #![trigger chain(old(self).toks@, old(self).src@, old(self).pos as int, r, min_prec as int)]
                min_prec >= 1 && chain(old(self).toks@, old(self).src@, old(self).pos as int, r, min_prec as int)
                    && chain_stops(old(self).toks@, r, min_prec as int) ==> final(self).ev() == old(self).ev()
                    + chain_tree(old(self).toks@, old(self).pos as int, r) && final(self).pos == r + 1,
        decreases old(self).toks@.len() - old(self).pos, 27int,
    {
        let ghost toks = self.toks@;
        let ghost src = self.src@;
        let ghost x0 = self.pos as int;
        let ghost m = min_prec as int;
        let ghost has = exists|r: int| m >= 1 && #[trigger] chain(toks, src, x0, r, m) && chain_stops(toks, r, m);
        let ghost r: int = if has {
            choose|r: int| m >= 1 && #[trigger] chain(toks, src, x0, r, m) && chain_stops(toks, r, m)
        } else {
            0
        };
        let cp = self.checkpoint();
        proof {
            if has {
                assert(plain_at(toks, src, x0));
                if x0 < r {
                    assert(op_prec(toks, x0 + 1) > 0);
                    lemma_operator_no_suffix(toks[x0 + 1].kind);
                }
            }
        }
        self.cast_expression();
        let ghost mut t: int = x0;
        let ghost mut lvl: int = 0;
        proof {
            if has {
                assert(chain_tree(toks, x0, x0) == operand_events(toks, x0));
            }
        }
        loop
            invariant
                self.kept(*old(self), cp as int),
                cp == old(self).ev().len(),
                self.guard@.0 <= cp,
                events_depth(self.ev()) == events_depth(old(self).ev()),
                self.idle(*old(self)) ==> !old(self).unary_at(),
                self.idle(*old(self)) || (old(self).binary_at(min_prec) && self.records_expr(
                    *old(self),
                )),
                toks == self.toks@,
                src == self.src@,
                x0 == old(self).pos,
                m == min_prec,
                has ==> m >= 1 && chain(toks, src, x0, r, m) && chain_stops(toks, r, m),
                has ==> x0 <= t <= r && (t - x0) % 2 == 0 && self.pos == t + 1 && self.ev() == old(self).ev()
                    + chain_tree(toks, x0, t),
                has && t > x0 ==> (forall|y: int|
                    x0 < y < t && (y - x0) % 2 == 1 ==> #[trigger] op_prec(toks, y) >= lvl) && (t < r
                    ==> op_prec(toks, t + 1) <= lvl),
            ensures
                self.kept(*old(self), cp as int),
                events_depth(self.ev()) == events_depth(old(self).ev()),
                old(self).binary_at(min_prec) ==> self.records_expr(*old(self)),
                !old(self).binary_at(min_prec) ==> self.idle(*old(self)),
                has ==> self.ev() == old(self).ev() + chain_tree(toks, x0, r) && self.pos == r + 1,
            decreases self.toks@.len() - self.pos,
        {
            let p = match self.peek(0) {
                Some(k) => Self::binary_precedence(k),
                None => 0,
            };
            proof {
                if has {
                    assert(p as int == op_prec(toks, t + 1));
                    if t < r {
                        assert((t + 1 - x0) % 2 == 1);
                        assert(op_prec(toks, t + 1) >= m);
                    }
                }
            }
            if p == 0 || p < min_prec {
                break;
            }
            let ghost s0 = self.ev();
            let ghost j: int = chain_end(toks, t + 2, p as int + 1, r);
            proof {
                if has {
                    lemma_chain_end(toks, t + 2, p as int + 1, r);
                }
            }
            self.start_at(cp, SyntaxKind::BinaryExpr);
            let ghost s1 = self.ev();
            self.bump();
            let ghost s2 = self.ev();
            proof {
                if has {
                    assert(s1 == old(self).ev() + seq![GreenEvent::StartNode { kind: SyntaxKind::BinaryExpr }]
                        + chain_tree(toks, x0, t));
                    lemma_inner_chain(toks, src, x0, r, m, t, p as int);
                }
            }
            self.binary_expression(p + 1);
            let ghost s3 = self.ev();
            self.finish();
            proof {
                if has {
                    let q = op_prec(toks, t + 1);
                    lemma_chain_step(toks, x0, t, j, lvl, q);
                    assert(s3 == s2 + chain_tree(toks, t + 2, j));
                    assert(self.ev() =~= old(self).ev() + chain_tree(toks, x0, j));
                    t = j;
                    lvl = q;
                }
            }
        }
        proof {
            if has {
                assert forall|r2: int|
                    #![trigger chain(toks, src, x0, r2, m)]
                    m >= 1 && chain(toks, src, x0, r2, m) && chain_stops(toks, r2, m) implies r2 == r by {
                    if r2 < r {
                        assert((r2 + 1 - x0) % 2 == 1);
                    } else if r < r2 {
                        assert((r + 1 - x0) % 2 == 1);
                    }
                }
            }
        }
    }

    /// (6.5.4) cast expression, or a compound literal with what follows it.
    fn cast_expression(&mut self)
        requires
            old(self).inv(),
        ensures
            final(self).advanced(*old(self)),
            old(self).unary_at() ==> final(self).records_expr(*old(self)),
            !old(self).unary_at() ==> final(self).idle(*old(self)),
            plain_at(old(self).toks@, old(self).src@, old(self).pos as int) && !suffix_token_at(
                old(self).toks@,
                old(self).pos + 1,
            ) ==> final(self).ev() == old(self).ev() + operand_events(old(self).toks@, old(self).pos as int)
                && final(self).pos == old(self).pos + 1,
        decreases old(self).toks@.len() - old(self).pos, 26int,
    {
        if self.at(SyntaxKind::LeftParen) && self.starts_type_name(1) {
            self.parenthesized_type_prefix();
        } else {
            self.unary_expression();
        }
    }

    /// `( type-name )` followed by a braced initializer (a compound literal,
    /// 6.5.2.5) or by the operand of a cast.
    fn parenthesized_type_prefix(&mut self)
        requires
            old(self).inv(),
            old(self).pos < old(self).toks@.len(),
        ensures
            final(self).advanced(*old(self)),
            final(self).records_expr(*old(self)),
        decreases old(self).toks@.len() - old(self).pos, 20int,
    {
        let cp = self.checkpoint();
        self.bump();
        self.type_name_rule();
        self.expect(SyntaxKind::RightParen);
        if self.at(SyntaxKind::LeftBrace) {
            self.start_at(cp, SyntaxKind::CompoundLiteral);
            self.braced_initializer();
            self.finish();
            self.postfix_suffixes(cp);
        } else {
            self.start_at(cp, SyntaxKind::CastExpr);
            self.cast_expression();
            self.finish();
        }
    }

    /// (6.5.3) unary expression.
    fn unary_expression(&mut self)
        requires
            old(self).inv(),
        ensures
            final(self).advanced(*old(self)),
            old(self).unary_at() ==> final(self).records_expr(*old(self)),
            !old(self).unary_at() ==> final(self).idle(*old(self)),
            plain_at(old(self).toks@, old(self).src@, old(self).pos as int) && !suffix_token_at(
                old(self).toks@,
                old(self).pos + 1,
            ) ==> final(self).ev() == old(self).ev() + operand_events(old(self).toks@, old(self).pos as int)
                && final(self).pos == old(self).pos + 1,
        decreases old(self).toks@.len() - old(self).pos, 25int,
    {
        let w = self.word(0);
        match self.peek(0) {
            Some(SyntaxKind::Increment) => {
                self.start(SyntaxKind::PreIncrement);
                self.bump();
                self.unary_expression();
                self.finish();
            },
            Some(SyntaxKind::Decrement) => {
                self.start(SyntaxKind::PreDecrement);
                self.bump();
                self.unary_expression();
                self.finish();
            },
            Some(SyntaxKind::Ampersand)
            | Some(SyntaxKind::Star)
            | Some(SyntaxKind::Plus)
            | Some(SyntaxKind::Minus)
            | Some(SyntaxKind::Tilde)
            | Some(SyntaxKind::Bang) => {
                self.start(SyntaxKind::UnaryExpr);
                self.error_token(SyntaxKind::UnaryOp);
                self.cast_expression();
                self.finish();
            },
            _ => {
                if w == Word::Sizeof {
                    if self.peek(1) == Some(SyntaxKind::LeftParen) && self.starts_type_name(2) {
                        self.start(SyntaxKind::SizeofType);
                        self.bump();
                        self.bump();
                        self.type_name_rule();
                        self.expect(SyntaxKind::RightParen);
                        self.finish();
                    } else {
                        self.start(SyntaxKind::SizeofExpr);
                        self.bump();
                        self.unary_expression();
                        self.finish();
                    }
                } else if w == Word::Alignof {
                    self.start(SyntaxKind::Alignof);
                    self.bump();
                    self.expect(SyntaxKind::LeftParen);
                    self.type_name_rule();
                    self.expect(SyntaxKind::RightParen);
                    self.finish();
                } else {
                    self.postfix_expression();
                }
            },
        }
    }

    /// (6.5.2) postfix expression.
    fn postfix_expression(&mut self)
        requires
            old(self).inv(),
        ensures
            final(self).advanced(*old(self)),
            old(self).postfix_at() ==> final(self).records_expr(*old(self)),
            !old(self).postfix_at() ==> final(self).idle(*old(self)),
            plain_at(old(self).toks@, old(self).src@, old(self).pos as int) && !suffix_token_at(
                old(self).toks@,
                old(self).pos + 1,
            ) ==> final(self).ev() == old(self).ev() + operand_events(old(self).toks@, old(self).pos as int)
                && final(self).pos == old(self).pos + 1,
        decreases old(self).toks@.len() - old(self).pos, 24int,
    {
        let cp = self.checkpoint();
        self.primary_expression();
        self.postfix_suffixes(cp);
    }

    /// Subscripts, calls, member accesses and increments after an operand
    /// whose events start at `cp`; each one encloses what precedes it.
    fn postfix_suffixes(&mut self, cp: usize)
        requires
            old(self).inv(),
            old(self).guard@.0 <= cp <= old(self).ev().len(),
        ensures
            final(self).kept(*old(self), cp as int),
            events_depth(final(self).ev()) == events_depth(old(self).ev()),
            old(self).suffix_at() ==> final(self).encloses_expr(*old(self), cp as int),
            !old(self).suffix_at() ==> final(self).idle(*old(self)),
        decreases old(self).toks@.len() - old(self).pos, 22int,
    {
        loop
            invariant
                self.kept(*old(self), cp as int),
                self.guard@.0 <= cp,
                events_depth(self.ev()) == events_depth(old(self).ev()),
                self.idle(*old(self)) || (old(self).suffix_at() && self.encloses_expr(
                    *old(self),
                    cp as int,
                )),
            ensures
                self.kept(*old(self), cp as int),
                events_depth(self.ev()) == events_depth(old(self).ev()),
                old(self).suffix_at() ==> self.encloses_expr(*old(self), cp as int),
                !old(self).suffix_at() ==> self.idle(*old(self)),
            decreases self.toks@.len() - self.pos,
        {
            let kind = match self.peek(0) {
                Some(SyntaxKind::LeftBracket) => SyntaxKind::ArrayAccess,
                Some(SyntaxKind::LeftParen) => SyntaxKind::FunctionCall,
                Some(SyntaxKind::Dot) => SyntaxKind::MemberAccess,
                Some(SyntaxKind::Arrow) => SyntaxKind::MemberAccessPtr,
                Some(SyntaxKind::Increment) => SyntaxKind::PostIncrement,
                Some(SyntaxKind::Decrement) => SyntaxKind::PostDecrement,
                _ => SyntaxKind::Error,
            };
            if kind == SyntaxKind::Error {
                break;
            }
            let ghost p0 = self.pos;
            self.start_at(cp, kind);
            self.bump();
            if kind == SyntaxKind::ArrayAccess {
                self.expression();
                self.expect(SyntaxKind::RightBracket);
            } else if kind == SyntaxKind::FunctionCall {
                if !self.at(SyntaxKind::RightParen) {
                    self.assignment_expression();
                    while self.at(SyntaxKind::Comma)
                        invariant
                            self.kept(*old(self), cp as int),
                            cp < self.ev().len(),
                            self.ev()[cp as int] == (GreenEvent::StartNode { kind }),
                            events_depth(self.ev()) == events_depth(old(self).ev()) + 1,
                            self.pos > p0,
                            p0 >= old(self).pos,
                        decreases self.toks@.len() - self.pos,
                    {
                        self.bump();
                        self.assignment_expression();
                    }
                }
                self.expect(SyntaxKind::RightParen);
            } else if kind == SyntaxKind::MemberAccess || kind == SyntaxKind::MemberAccessPtr {
                self.expect(SyntaxKind::Ident);
            }
            self.finish();
        }
    }

    /// (6.5.1) primary expression.
    fn primary_expression(&mut self)
        requires
            old(self).inv(),
        ensures
            final(self).advanced(*old(self)),
            old(self).kind_at(0) == Some(SyntaxKind::Ident) && old(self).word_at(0)
                == Word::Generic ==> final(self).records_node(
                *old(self),
                SyntaxKind::GenericSelection,
            ) && final(self).pos > old(self).pos,
            (old(self).kind_at(0) == Some(SyntaxKind::Ident) && old(self).word_at(0)
                != Word::Generic) || old(self).kind_at(0) == Some(SyntaxKind::IntegerConst) || old(
                self,
            ).kind_at(0) == Some(SyntaxKind::FloatConst) || old(self).kind_at(0) == Some(
                SyntaxKind::CharConst,
            ) || old(self).kind_at(0) == Some(SyntaxKind::PredefinedConst) ==> final(self).ev()
                == old(self).ev().push(GreenEvent::StartNode { kind: SyntaxKind::PrimaryExpr }).push(
                old(self).next_event(),
            ).push(GreenEvent::FinishNode) && final(self).pos == old(self).pos + 1,
            old(self).kind_at(0) == Some(SyntaxKind::StringLiteral) || old(self).kind_at(0) == Some(
                SyntaxKind::LeftParen,
            ) ==> final(self).records_node(*old(self), SyntaxKind::PrimaryExpr) && final(self).pos
                > old(self).pos,
            !(old(self).kind_at(0) matches Some(k) && primary_token(k)) ==> final(self).idle(
                *old(self),
            ),
        decreases old(self).toks@.len() - old(self).pos, 23int,
    {
        match self.peek(0) {
            Some(SyntaxKind::Ident) => {
                if self.word(0) == Word::Generic {
                    self.generic_selection();
                } else {
                    self.error_token(SyntaxKind::PrimaryExpr);
                }
            },
            Some(SyntaxKind::IntegerConst)
            | Some(SyntaxKind::FloatConst)
            | Some(SyntaxKind::CharConst)
            | Some(SyntaxKind::PredefinedConst) => {
                self.error_token(SyntaxKind::PrimaryExpr);
            },
            Some(SyntaxKind::StringLiteral) => {
                self.start(SyntaxKind::PrimaryExpr);
                let ghost opened = self.ev();
                while self.at(SyntaxKind::StringLiteral)
                    invariant
                        opened.len() == old(self).ev().len() + 1,
                        opened.len() <= self.ev().len(),
                        self.ev()[opened.len() - 1] == opened.last(),
                        self.pos > old(self).pos || self.kind_at(0) == Some(SyntaxKind::StringLiteral),
                        self.kept(*old(self), old(self).ev().len() as int),
                        events_depth(self.ev()) == events_depth(old(self).ev()) + 1,
                    decreases self.toks@.len() - self.pos,
                {
                    self.bump();
                }
                self.finish();
            },
            Some(SyntaxKind::LeftParen) => {
                self.start(SyntaxKind::PrimaryExpr);
                self.bump();
                self.expression();
                self.expect(SyntaxKind::RightParen);
                self.finish();
            },
            _ => {},
        }
    }

    /// (6.5.1.1) generic selection.
    fn generic_selection(&mut self)
        requires
            old(self).inv(),
            old(self).pos < old(self).toks@.len(),
        ensures
            final(self).advanced(*old(self)),
            final(self).records_node(*old(self), SyntaxKind::GenericSelection),
            final(self).pos > old(self).pos,
        decreases old(self).toks@.len() - old(self).pos, 21int,
    {
        self.start(SyntaxKind::GenericSelection);
        let ghost opened = self.ev();
        self.bump();
        self.expect(SyntaxKind::LeftParen);
        self.assignment_expression();
        while self.at(SyntaxKind::Comma)
            invariant
                opened.len() == old(self).ev().len() + 1,
                opened.len() <= self.ev().len(),
                self.ev()[opened.len() - 1] == opened.last(),
                self.kept(*old(self), old(self).ev().len() as int),
                events_depth(self.ev()) == events_depth(old(self).ev()) + 1,
                self.pos > old(self).pos,
            decreases self.toks@.len() - self.pos,
        {
            self.bump();
            if self.word(0) == Word::Default {
                self.start(SyntaxKind::GenericAssociationDefault);
                self.bump();
            } else {
                self.start(SyntaxKind::GenericAssociationType);
                self.type_name_rule();
            }
            self.expect(SyntaxKind::Colon);
            self.assignment_expression();
            self.finish();
        }
        self.expect(SyntaxKind::RightParen);
        self.finish();
    }

    // -------------------------------------------------------------------------
    // Declarations (6.7)
    // -------------------------------------------------------------------------

    /// (6.7.12.1) attribute specifier sequence.
    fn attribute_specifier_sequence(&mut self)
        requires
            old(self).inv(),
        ensures
            final(self).advanced(*old(self)),
            old(self).attribute_at() ==> final(self).records_attributes(*old(self)),
            !old(self).attribute_at() ==> final(self).idle(*old(self)),
        decreases old(self).toks@.len() - old(self).pos, 65int,
    {
        loop
            invariant
                self.advanced(*old(self)),
                self.idle(*old(self)) || self.records_attributes(*old(self)),
                self.records_attributes(*old(self)) ==> old(self).attribute_at(),
            ensures
                self.advanced(*old(self)),
                old(self).attribute_at() ==> self.records_attributes(*old(self)),
                !old(self).attribute_at() ==> self.idle(*old(self)),
            decreases self.toks@.len() - self.pos,
        {
            if !self.starts_attribute() {
                break;
            }
            let before = self.pos;
            self.attribute_specifier();
            if self.pos == before {
                break;
            }
        }
    }

    /// (6.7.12.1) attribute specifier: `[[ ... ]]`, `__attribute__(( ... ))`
    /// or `__asm( ... )`.
    fn attribute_specifier(&mut self)
        requires
            old(self).inv(),
        ensures
            final(self).advanced(*old(self)),
            old(self).word_at(0) == Word::Asm ==> final(self).records_node(
                *old(self),
                SyntaxKind::AsmAttribute,
            ) && final(self).pos > old(self).pos,
            old(self).word_at(0) == Word::AttributeKw ==> final(self).records_node(
                *old(self),
                SyntaxKind::AttributeSpecifier,
            ) && final(self).pos > old(self).pos,
            old(self).kind_at(0) == Some(SyntaxKind::LeftBracket) ==> final(self).records_node(
                *old(self),
                SyntaxKind::AttributeSpecifier,
            ) && final(self).pos > old(self).pos,
            old(self).word_at(0) != Word::Asm && old(self).word_at(0) != Word::AttributeKw && old(
                self,
            ).kind_at(0) != Some(SyntaxKind::LeftBracket) ==> final(self).idle(*old(self)),
        decreases old(self).toks@.len() - old(self).pos, 64int,
    {
        let w = self.word(0);
        if w == Word::Asm {
            self.start(SyntaxKind::AsmAttribute);
            let ghost opened = self.ev();
            self.bump();
            self.expect(SyntaxKind::LeftParen);
            while self.at(SyntaxKind::StringLiteral)
                invariant
                    opened.len() == old(self).ev().len() + 1,
                    opened.len() <= self.ev().len(),
                    self.ev()[opened.len() - 1] == opened.last(),
                    self.pos > old(self).pos,
                    self.kept(*old(self), old(self).ev().len() as int),
                    events_depth(self.ev()) == events_depth(old(self).ev()) + 1,
                decreases self.toks@.len() - self.pos,
            {
                self.bump();
            }
            self.expect(SyntaxKind::RightParen);
            self.finish();
        } else if w == Word::AttributeKw {
            self.start(SyntaxKind::AttributeSpecifier);
            self.bump();
            self.expect(SyntaxKind::LeftParen);
            self.expect(SyntaxKind::LeftParen);
            self.attribute_list(SyntaxKind::RightParen);
            self.expect(SyntaxKind::RightParen);
            self.expect(SyntaxKind::RightParen);
            self.finish();
        } else if self.at(SyntaxKind::LeftBracket) {
            self.start(SyntaxKind::AttributeSpecifier);
            self.bump();
            self.expect(SyntaxKind::LeftBracket);
            self.attribute_list(SyntaxKind::RightBracket);
            self.expect(SyntaxKind::RightBracket);
            self.expect(SyntaxKind::RightBracket);
            self.finish();
        }
    }

    /// (6.7.12.1) attribute list, up to the closing token `close`.
    fn attribute_list(&mut self, close: SyntaxKind)
        requires
            old(self).inv(),
        ensures
            final(self).advanced(*old(self)),
            old(self).kind_at(0) == Some(close) || old(self).kind_at(0) is None ==> final(self).idle(
                *old(self),
            ),
            old(self).kind_at(0) != Some(close) && old(self).kind_at(0) == Some(SyntaxKind::Ident)
                ==> final(self).pos > old(self).pos && final(self).ev()[old(self).ev().len() as int]
                == (GreenEvent::StartNode { kind: SyntaxKind::Attribute }),
            old(self).kind_at(0) != Some(close) && old(self).kind_at(0) == Some(SyntaxKind::Comma)
                ==> final(self).pos > old(self).pos && final(self).ev()[old(self).ev().len() as int]
                == old(self).next_event(),
            old(self).kind_at(0) != Some(close) && old(self).kind_at(0) != Some(SyntaxKind::Ident)
                && old(self).kind_at(0) != Some(SyntaxKind::Comma) ==> final(self).idle(*old(self)),
    {
        loop
            invariant
                self.advanced(*old(self)),
                self.idle(*old(self)) || (self.pos > old(self).pos && old(self).ev().len()
                    < self.ev().len() && old(self).kind_at(0) != Some(close) && (old(self).kind_at(0)
                    == Some(SyntaxKind::Ident) ==> self.ev()[old(self).ev().len() as int]
                    == (GreenEvent::StartNode { kind: SyntaxKind::Attribute })) && (old(self).kind_at(
                0,
            ) == Some(SyntaxKind::Comma) ==> self.ev()[old(self).ev().len() as int]
                    == old(self).next_event()) && (old(self).kind_at(0) == Some(SyntaxKind::Ident)
                    || old(self).kind_at(0) == Some(SyntaxKind::Comma))),
            ensures
                self.advanced(*old(self)),
                old(self).kind_at(0) == Some(close) || old(self).kind_at(0) is None
                    ==> self.idle(*old(self)),
                old(self).kind_at(0) != Some(close) && old(self).kind_at(0) == Some(
                    SyntaxKind::Ident,
                ) ==> self.pos > old(self).pos && self.ev()[old(self).ev().len() as int]
                    == (GreenEvent::StartNode { kind: SyntaxKind::Attribute }),
                old(self).kind_at(0) != Some(close) && old(self).kind_at(0) == Some(
                    SyntaxKind::Comma,
                ) ==> self.pos > old(self).pos && self.ev()[old(self).ev().len() as int]
                    == old(self).next_event(),
                old(self).kind_at(0) != Some(close) && old(self).kind_at(0) != Some(
                    SyntaxKind::Ident,
                ) && old(self).kind_at(0) != Some(SyntaxKind::Comma) ==> self.idle(*old(self)),
            decreases self.toks@.len() - self.pos,
        {
            if self.at(close) || self.at_end() {
                break;
            }
            let before = self.pos;
            if self.at(SyntaxKind::Ident) {
                self.attribute();
            }
            if self.at(SyntaxKind::Comma) {
                self.bump();
            }
            if self.pos == before {
                break;
            }
        }
    }

    /// (6.7.12.1) attribute: a token, optionally prefixed, and its arguments.
    fn attribute(&mut self)
        requires
            old(self).inv(),
            old(self).pos < old(self).toks@.len(),
        ensures
            final(self).advanced(*old(self)),
            final(self).records_node(*old(self), SyntaxKind::Attribute),
            final(self).pos > old(self).pos,
    {
        self.start(SyntaxKind::Attribute);
        self.start(SyntaxKind::AttributeToken);
        self.bump();
        if self.at(SyntaxKind::Scope) {
            self.bump();
            self.expect(SyntaxKind::Ident);
        }
        self.finish();
        if self.at(SyntaxKind::LeftParen) {
            self.balanced_group();
        }
        self.finish();
    }

    /// A bracketed group of tokens read as they are, up to the bracket that
    /// closes the first one.
    fn balanced_group(&mut self)
        requires
            old(self).inv(),
        ensures
            final(self).advanced(*old(self)),
            final(self).reads_tokens(*old(self)),
            old(self).next_opens() ==> final(self).pos > old(
                self,
            ).pos,
            old(self).kind_at(0) is Some && !old(self).next_opens() && !old(self).next_closes()
                ==> final(self).pos == old(self).pos + 1,
            old(self).next_closes() ==> final(self).idle(
                *old(self),
            ),
            old(self).kind_at(0) is None ==> final(self).idle(*old(self)),
    {
        let mut depth: usize = 0;
        loop
            invariant_except_break
                (depth == 0) == (self.pos == old(self).pos),
                self.pos > old(self).pos ==> old(self).next_opens(),
            invariant
                self.advanced(*old(self)),
                self.reads_tokens(*old(self)),
            ensures
                self.advanced(*old(self)),
                self.reads_tokens(*old(self)),
                old(self).next_opens() ==> self.pos > old(
                    self,
                ).pos,
                old(self).kind_at(0) is Some && !old(self).next_opens() && !old(self).next_closes()
                    ==> self.pos == old(self).pos + 1,
                old(self).next_closes() ==> self.idle(
                    *old(self),
                ),
                old(self).kind_at(0) is None ==> self.idle(*old(self)),
            decreases self.toks@.len() - self.pos,
        {
            proof {
                if self.pos == old(self).pos {
                    assert(self.ev() =~= old(self).ev());
                }
            }
            let k = match self.peek(0) {
                Some(k) => k,
                None => break,
            };
            if k == SyntaxKind::LeftParen || k == SyntaxKind::LeftBracket || k
                == SyntaxKind::LeftBrace {
                if depth < usize::MAX {
                    depth = depth + 1;
                }
            } else if k == SyntaxKind::RightParen || k == SyntaxKind::RightBracket || k
                == SyntaxKind::RightBrace {
                if depth == 0 {
                    break;
                }
                depth = depth - 1;
            }
            self.bump();
            if depth == 0 {
                break;
            }
        }
    }

    /// (6.7) declaration specifiers; with `storage` false, a specifier and
    /// qualifier list (6.7.2.1). Returns whether `typedef` was among them.
    #[verifier::rlimit(40)]
    fn declaration_specifiers(&mut self, storage: bool) -> (is_typedef: bool)
        requires
            old(self).inv(),
        ensures
            final(self).advanced(*old(self)),
            final(self).records_node(
                *old(self),
                if storage {
                    SyntaxKind::DeclarationSpecifiers
                } else {
                    SyntaxKind::SpecifierQualifierList
                },
            ),
            is_typedef ==> storage,
            storage && old(self).word_at(0) == Word::Typedef ==> is_typedef,
            old(self).specifier_at(storage) ==> final(self).pos > old(self).pos,
            old(self).typedef_name_at() ==> final(self).names_type(*old(self)),
        decreases old(self).toks@.len() - old(self).pos, 70int,
    {
        self.start(
            if storage {
                SyntaxKind::DeclarationSpecifiers
            } else {
                SyntaxKind::SpecifierQualifierList
            },
        );
        let ghost opened = self.ev();
        let mut is_typedef = false;
        let mut saw_type = false;
        loop
            invariant
                opened.len() == old(self).ev().len() + 1,
                opened.len() <= self.ev().len(),
                self.ev()[opened.len() - 1] == opened.last(),
                self.kept(*old(self), old(self).ev().len() as int),
                events_depth(self.ev()) == events_depth(old(self).ev()) + 1,
                is_typedef ==> storage,
                storage && old(self).word_at(0) == Word::Typedef && self.pos > old(self).pos
                    ==> is_typedef,
                self.pos == old(self).pos ==> !saw_type,
                self.pos == old(self).pos ==> self.ev() == opened,
                old(self).typedef_name_at() && self.pos > old(self).pos ==> self.names_type(*old(self)),
            ensures
                opened.len() == old(self).ev().len() + 1,
                opened.len() <= self.ev().len(),
                self.ev()[opened.len() - 1] == opened.last(),
                self.kept(*old(self), old(self).ev().len() as int),
                events_depth(self.ev()) == events_depth(old(self).ev()) + 1,
                is_typedef ==> storage,
                storage && old(self).word_at(0) == Word::Typedef ==> is_typedef,
                old(self).specifier_at(storage) ==> self.pos > old(self).pos,
                old(self).typedef_name_at() ==> self.names_type(*old(self)),
            decreases self.toks@.len() - self.pos,
        {
            proof {
                if self.pos == old(self).pos {
                    self.lemma_typedefs_grow(*old(self));
                }
            }
            let before = self.pos;
            let w = self.word(0);
            if storage && Self::is_storage_class(w) {
                if w == Word::Typedef {
                    is_typedef = true;
                }
                self.error_token(SyntaxKind::StorageClassSpecifier);
            } else if storage && Self::is_function_specifier(w) {
                self.error_token(SyntaxKind::FunctionSpecifier);
            } else if Self::is_qualifier(w) || (w == Word::Atomic && self.peek(1) != Some(
                SyntaxKind::LeftParen,
            )) {
                self.error_token(SyntaxKind::TypeQualifier);
            } else if w == Word::Alignas {
                self.alignment_specifier();
            } else if Self::is_simple_type(w) {
                saw_type = true;
                self.error_token(SyntaxKind::TypeSpecifier);
            } else if w == Word::BitInt || w == Word::Atomic || w == Word::Typeof || w
                == Word::TypeofUnqual {
                saw_type = true;
                self.parenthesized_type_specifier(w);
            } else if w == Word::Struct || w == Word::Union {
                saw_type = true;
                self.start(SyntaxKind::TypeSpecifier);
                self.struct_or_union_specifier();
                self.finish();
            } else if w == Word::Enum {
                saw_type = true;
                self.start(SyntaxKind::TypeSpecifier);
                self.enum_specifier();
                self.finish();
            } else if w == Word::Other && !saw_type && self.is_typedef_name(0) {
                saw_type = true;
                self.error_token(SyntaxKind::TypeSpecifier);
            } else if self.starts_attribute() {
                self.attribute_specifier();
            } else {
                break;
            }
            if self.pos == before {
                break;
            }
        }
        self.finish();
        is_typedef
    }

    /// (6.7.5) alignment specifier.
    fn alignment_specifier(&mut self)
        requires
            old(self).inv(),
            old(self).pos < old(self).toks@.len(),
        ensures
            final(self).advanced(*old(self)),
            final(self).pos > old(self).pos,
        decreases old(self).toks@.len() - old(self).pos, 67int,
    {
        self.start(SyntaxKind::AlignmentSpecifier);
        self.bump();
        self.expect(SyntaxKind::LeftParen);
        if self.starts_type_name(0) {
            self.type_name_rule();
        } else {
            self.conditional_expression();
        }
        self.expect(SyntaxKind::RightParen);
        self.finish();
    }

    /// `_BitInt ( width )` (6.7.2), `_Atomic ( type-name )` (6.7.2.4), or
    /// `typeof ( ... )` and `typeof_unqual ( ... )` (6.7.2.5).
    fn parenthesized_type_specifier(&mut self, w: Word)
        requires
            old(self).inv(),
            old(self).pos < old(self).toks@.len(),
        ensures
            final(self).advanced(*old(self)),
            final(self).pos > old(self).pos,
        decreases old(self).toks@.len() - old(self).pos, 67int,
    {
        self.start(SyntaxKind::TypeSpecifier);
        self.start(
            if w == Word::BitInt {
                SyntaxKind::TypeSpecifier
            } else if w == Word::Atomic {
                SyntaxKind::AtomicTypeSpecifier
            } else {
                SyntaxKind::TypeofSpecifier
            },
        );
        self.bump();
        self.expect(SyntaxKind::LeftParen);
        if w == Word::BitInt {
            self.conditional_expression();
        } else if w == Word::Atomic {
            self.type_name_rule();
        } else {
            self.start(SyntaxKind::TypeofSpecifierArg);
            if self.starts_type_name(0) {
                self.type_name_rule();
            } else {
                self.expression();
            }
            self.finish();
        }
        self.expect(SyntaxKind::RightParen);
        self.finish();
        self.finish();
    }

    /// (6.7.2.1) struct or union specifier.
    fn struct_or_union_specifier(&mut self)
        requires
            old(self).inv(),
            old(self).pos < old(self).toks@.len(),
        ensures
            final(self).advanced(*old(self)),
            final(self).records_node(*old(self), SyntaxKind::StructSpecifier),
            final(self).pos > old(self).pos,
        decreases old(self).toks@.len() - old(self).pos, 66int,
    {
        self.start(SyntaxKind::StructSpecifier);
        let ghost opened = self.ev();
        self.error_token(SyntaxKind::StructOrUnion);
        self.attribute_specifier_sequence();
        self.expect(SyntaxKind::Ident);
        if self.at(SyntaxKind::LeftBrace) {
            self.bump();
            loop
                invariant
                    opened.len() == old(self).ev().len() + 1,
                    opened.len() <= self.ev().len(),
                    self.ev()[opened.len() - 1] == opened.last(),
                    self.kept(*old(self), old(self).ev().len() as int),
                    events_depth(self.ev()) == events_depth(old(self).ev()) + 1,
                    self.pos > old(self).pos,
                decreases self.toks@.len() - self.pos,
            {
                if self.at(SyntaxKind::RightBrace) || self.at_end() {
                    break;
                }
                let before = self.pos;
                let cp = self.checkpoint();
                let ghost mid = *self;
                self.member_declaration();
                if self.pos == before {
                    self.skip_as_error(Ghost(mid), cp, SyntaxKind::DeclError);
                }
            }
            self.expect(SyntaxKind::RightBrace);
        }
        self.finish();
    }

    /// (6.7.2.1) member declaration.
    fn member_declaration(&mut self)
        requires
            old(self).inv(),
        ensures
            final(self).advanced(*old(self)),
            old(self).word_at(0) == Word::StaticAssert || old(self).word_at(0) == Word::StaticAssertOld ==> final(self).records_node(*old(self), SyntaxKind::StaticAssertDecl),
            !(old(self).word_at(0) == Word::StaticAssert || old(self).word_at(0) == Word::StaticAssertOld) ==> final(self).records_node(*old(self), SyntaxKind::MemberDeclaration),
        decreases old(self).toks@.len() - old(self).pos, 72int,
    {
        let w = self.word(0);
        if w == Word::StaticAssert || w == Word::StaticAssertOld {
            self.static_assert_declaration();
            return;
        }
        self.start(SyntaxKind::MemberDeclaration);
        let ghost opened = self.ev();
        self.attribute_specifier_sequence();
        self.declaration_specifiers(false);
        if !self.at(SyntaxKind::Semicolon) {
            self.member_declarator();
            while self.at(SyntaxKind::Comma)
                invariant
                    opened.len() == old(self).ev().len() + 1,
                    opened.len() <= self.ev().len(),
                    self.ev()[opened.len() - 1] == opened.last(),
                    self.kept(*old(self), old(self).ev().len() as int),
                    events_depth(self.ev()) == events_depth(old(self).ev()) + 1,
                decreases self.toks@.len() - self.pos,
            {
                self.bump();
                self.member_declarator();
            }
        }
        self.expect(SyntaxKind::Semicolon);
        self.finish();
    }

    /// (6.7.2.1) member declarator, with an optional bit-field width.
    fn member_declarator(&mut self)
        requires
            old(self).inv(),
        ensures
            final(self).advanced(*old(self)),
            final(self).records_node(*old(self), SyntaxKind::MemberDeclarator),
        decreases old(self).toks@.len() - old(self).pos, 61int,
    {
        self.start(SyntaxKind::MemberDeclarator);
        if !self.at(SyntaxKind::Colon) {
            self.declarator(false);
        }
        if self.at(SyntaxKind::Colon) {
            self.bump();
            self.conditional_expression();
        }
        self.finish();
    }

    /// (6.7.2.2) enum specifier.
    #[verifier::rlimit(40)]
    fn enum_specifier(&mut self)
        requires
            old(self).inv(),
            old(self).pos < old(self).toks@.len(),
        ensures
            final(self).advanced(*old(self)),
            final(self).records_node(*old(self), SyntaxKind::EnumSpecifier),
            final(self).pos > old(self).pos,
        decreases old(self).toks@.len() - old(self).pos, 66int,
    {
        self.start(SyntaxKind::EnumSpecifier);
        let ghost opened = self.ev();
        self.bump();
        self.attribute_specifier_sequence();
        self.expect(SyntaxKind::Ident);
        if self.at(SyntaxKind::Colon) {
            self.bump();
            self.declaration_specifiers(false);
        }
        if self.at(SyntaxKind::LeftBrace) {
            self.bump();
            loop
                invariant
                    opened.len() == old(self).ev().len() + 1,
                    opened.len() <= self.ev().len(),
                    self.ev()[opened.len() - 1] == opened.last(),
                    self.kept(*old(self), old(self).ev().len() as int),
                    events_depth(self.ev()) == events_depth(old(self).ev()) + 1,
                    self.pos > old(self).pos,
                decreases self.toks@.len() - self.pos,
            {
                if self.at(SyntaxKind::RightBrace) || self.at_end() {
                    break;
                }
                let before = self.pos;
                if self.at(SyntaxKind::Ident) {
                    self.start(SyntaxKind::Enumerator);
                    self.bump();
                    self.attribute_specifier_sequence();
                    if self.at(SyntaxKind::Assign) {
                        self.bump();
                        self.conditional_expression();
                    }
                    self.finish();
                }
                if self.at(SyntaxKind::Comma) {
                    self.bump();
                }
                if self.pos == before {
                    self.error_token(SyntaxKind::DeclError);
                }
            }
            self.expect(SyntaxKind::RightBrace);
        }
        self.finish();
    }

    /// (6.7.6) declarator, or with `abstract_ok` a declarator whose
    /// identifier may be missing (an abstract declarator, 6.7.7). Returns the
    /// index of the declared identifier's token.
    fn declarator(&mut self, abstract_ok: bool) -> (id: Option<usize>)
        requires
            old(self).inv(),
        ensures
            final(self).advanced(*old(self)),
            final(self).records_node(
                *old(self),
                if abstract_ok {
                    SyntaxKind::AbstractDeclarator
                } else {
                    SyntaxKind::Declarator
                },
            ),
            id matches Some(i) ==> old(self).pos <= i < final(self).pos && final(self).toks@[i as int].kind == SyntaxKind::Ident,
            old(self).kind_at(0) == Some(SyntaxKind::Ident) ==> id == Some(old(self).pos),
            id matches Some(i) ==> i < final(self).toks@.len(),
        decreases old(self).toks@.len() - old(self).pos, 60int,
    {
        self.start(
            if abstract_ok {
                SyntaxKind::AbstractDeclarator
            } else {
                SyntaxKind::Declarator
            },
        );
        let ghost opened = self.ev();
        while self.at(SyntaxKind::Star) || self.at(SyntaxKind::Caret)
            invariant
                opened.len() == old(self).ev().len() + 1,
                opened.len() <= self.ev().len(),
                self.ev()[opened.len() - 1] == opened.last(),
                self.kept(*old(self), old(self).ev().len() as int),
                events_depth(self.ev()) == events_depth(old(self).ev()) + 1,
                old(self).kind_at(0) == Some(SyntaxKind::Ident) ==> self.pos == old(self).pos,
            decreases self.toks@.len() - self.pos,
        {
            let ghost p0 = self.pos;
            self.start(SyntaxKind::Pointer);
            self.bump();
            self.attribute_specifier_sequence();
            while Self::is_qualifier(self.word(0)) || self.word(0) == Word::Atomic
                invariant
                    opened.len() == old(self).ev().len() + 1,
                    opened.len() <= self.ev().len(),
                    self.ev()[opened.len() - 1] == opened.last(),
                    self.kept(*old(self), old(self).ev().len() as int),
                    events_depth(self.ev()) == events_depth(old(self).ev()) + 2,
                    self.pos > p0,
                decreases self.toks@.len() - self.pos,
            {
                self.error_token(SyntaxKind::TypeQualifier);
            }
            self.finish();
        }
        let id = self.direct_declarator(abstract_ok);
        self.finish();
        id
    }

    /// The parentheses at the next token hold a parameter list rather than a
    /// nested declarator.
    fn paren_holds_parameters(&self, abstract_ok: bool) -> (r: bool)
        requires
            self.inv(),
        ensures
            r == (abstract_ok && match self.kind_at(1) {
                Some(SyntaxKind::Star) | Some(SyntaxKind::Caret) | Some(SyntaxKind::LeftParen) => false,
                Some(SyntaxKind::LeftBracket) => self.kind_at(2) == Some(SyntaxKind::LeftBracket),
                Some(SyntaxKind::Ident) => self.declaration_at(1),
                _ => true,
            }),
    {
        if !abstract_ok {
            return false;
        }
        match self.peek(1) {
            Some(SyntaxKind::Star)
            | Some(SyntaxKind::Caret)
            | Some(SyntaxKind::LeftParen) => false,
            Some(SyntaxKind::LeftBracket) => self.peek(2) == Some(SyntaxKind::LeftBracket),
            Some(SyntaxKind::Ident) => self.starts_declaration(1),
            _ => true,
        }
    }

    /// (6.7.6) direct declarator: an identifier or a parenthesized
    /// declarator, then array and function suffixes.
    fn direct_declarator(&mut self, abstract_ok: bool) -> (id: Option<usize>)
        requires
            old(self).inv(),
        ensures
            final(self).advanced(*old(self)),
            final(self).records_node(*old(self), SyntaxKind::DirectDeclarator),
            id matches Some(i) ==> old(self).pos <= i < final(self).pos && final(self).toks@[i as int].kind == SyntaxKind::Ident,
            old(self).kind_at(0) == Some(SyntaxKind::Ident) ==> id == Some(old(self).pos),
            id matches Some(i) ==> i < final(self).toks@.len(),
        decreases old(self).toks@.len() - old(self).pos, 58int,
    {
        self.start(SyntaxKind::DirectDeclarator);
        let ghost opened = self.ev();
        let mut id: Option<usize> = None;
        if self.at(SyntaxKind::Ident) {
            id = Some(self.pos);
            self.bump();
            self.attribute_specifier_sequence();
        } else if self.at(SyntaxKind::LeftParen) && !self.paren_holds_parameters(abstract_ok) {
            self.bump();
            id = self.declarator(abstract_ok);
            self.expect(SyntaxKind::RightParen);
        }
        loop
            invariant
                opened.len() == old(self).ev().len() + 1,
                opened.len() <= self.ev().len(),
                self.ev()[opened.len() - 1] == opened.last(),
                self.kept(*old(self), old(self).ev().len() as int),
                events_depth(self.ev()) == events_depth(old(self).ev()) + 1,
                id matches Some(i) ==> i < self.toks@.len(),
                id matches Some(i) ==> old(self).pos <= i < self.pos && self.toks@[i as int].kind
                    == SyntaxKind::Ident,
                old(self).kind_at(0) == Some(SyntaxKind::Ident) ==> id == Some(old(self).pos),
            decreases self.toks@.len() - self.pos,
        {
            if self.at(SyntaxKind::LeftBracket) {
                self.array_declarator();
            } else if self.at(SyntaxKind::LeftParen) {
                self.parameter_type_list();
            } else {
                break;
            }
            self.attribute_specifier_sequence();
        }
        self.finish();
        id
    }

    /// (6.7.6) array declarator: `[ static? qualifiers static? size ]`.
    fn array_declarator(&mut self)
        requires
            old(self).inv(),
            old(self).pos < old(self).toks@.len(),
        ensures
            final(self).advanced(*old(self)),
            final(self).pos > old(self).pos,
        decreases old(self).toks@.len() - old(self).pos, 57int,
    {
        self.start(SyntaxKind::ArrayDeclarator);
        self.bump();
        loop
            invariant
                self.kept(*old(self), old(self).ev().len() as int),
                events_depth(self.ev()) == events_depth(old(self).ev()) + 1,
                self.pos > old(self).pos,
            decreases self.toks@.len() - self.pos,
        {
            let w = self.word(0);
            if w == Word::Static {
                self.bump();
            } else if Self::is_qualifier(w) || w == Word::Atomic {
                self.error_token(SyntaxKind::TypeQualifier);
            } else {
                break;
            }
        }
        if self.at(SyntaxKind::Star) && self.peek(1) == Some(SyntaxKind::RightBracket) {
            self.bump();
        } else if !self.at(SyntaxKind::RightBracket) {
            self.assignment_expression();
        }
        self.expect(SyntaxKind::RightBracket);
        self.finish();
    }

    /// (6.7.6) parameter type list in parentheses.
    fn parameter_type_list(&mut self)
        requires
            old(self).inv(),
            old(self).pos < old(self).toks@.len(),
        ensures
            final(self).advanced(*old(self)),
            final(self).pos > old(self).pos,
        decreases old(self).toks@.len() - old(self).pos, 57int,
    {
        self.start(SyntaxKind::ParameterTypeList);
        self.bump();
        if !self.at(SyntaxKind::RightParen) {
            loop
                invariant
                    self.kept(*old(self), old(self).ev().len() as int),
                    events_depth(self.ev()) == events_depth(old(self).ev()) + 1,
                    self.pos > old(self).pos,
                decreases self.toks@.len() - self.pos,
            {
                let before = self.pos;
                if self.at(SyntaxKind::Ellipsis) {
                    self.bump();
                } else {
                    self.start(SyntaxKind::ParameterDeclaration);
                    self.attribute_specifier_sequence();
                    self.declaration_specifiers(true);
                    if !self.at(SyntaxKind::Comma) && !self.at(SyntaxKind::RightParen) {
                        self.declarator(true);
                    }
                    self.finish();
                }
                if self.at(SyntaxKind::Comma) {
                    self.bump();
                } else {
                    break;
                }
                if self.pos == before {
                    break;
                }
            }
        }
        self.expect(SyntaxKind::RightParen);
        self.finish();
    }

    /// (6.7.7) type name.
    fn type_name_rule(&mut self)
        requires
            old(self).inv(),
        ensures
            final(self).advanced(*old(self)),
            final(self).records_node(*old(self), SyntaxKind::TypeName),
        decreases old(self).toks@.len() - old(self).pos, 75int,
    {
        self.start(SyntaxKind::TypeName);
        self.declaration_specifiers(false);
        if self.at(SyntaxKind::Star) || self.at(SyntaxKind::Caret) || self.at(SyntaxKind::LeftParen)
            || self.at(SyntaxKind::LeftBracket) {
            self.declarator(true);
        }
        self.finish();
    }

    /// (6.7.10) initializer.
    fn initializer(&mut self)
        requires
            old(self).inv(),
        ensures
            final(self).advanced(*old(self)),
            final(self).records_node(*old(self), SyntaxKind::Initializer),
            old(self).kind_at(0) == Some(SyntaxKind::LeftBrace) || old(self).assignment_at()
                ==> final(self).pos > old(self).pos,
            old(self).kind_at(0) != Some(SyntaxKind::LeftBrace) && !old(self).assignment_at()
                ==> final(self).pos == old(self).pos,
        decreases old(self).toks@.len() - old(self).pos, 49int,
    {
        self.start(SyntaxKind::Initializer);
        if self.at(SyntaxKind::LeftBrace) {
            self.braced_initializer();
        } else {
            self.assignment_expression();
        }
        self.finish();
    }

    /// (6.7.10) braced initializer with designated initializers.
    fn braced_initializer(&mut self)
        requires
            old(self).inv(),
            old(self).pos < old(self).toks@.len(),
        ensures
            final(self).advanced(*old(self)),
            final(self).records_node(*old(self), SyntaxKind::BracedInitializer),
            final(self).pos > old(self).pos,
        decreases old(self).toks@.len() - old(self).pos, 48int,
    {
        self.start(SyntaxKind::BracedInitializer);
        let ghost opened = self.ev();
        self.bump();
        loop
            invariant
                opened.len() == old(self).ev().len() + 1,
                opened.len() <= self.ev().len(),
                self.ev()[opened.len() - 1] == opened.last(),
                self.kept(*old(self), old(self).ev().len() as int),
                events_depth(self.ev()) == events_depth(old(self).ev()) + 1,
                self.pos > old(self).pos,
            decreases self.toks@.len() - self.pos,
        {
            if self.at(SyntaxKind::RightBrace) || self.at_end() {
                break;
            }
            let before = self.pos;
            self.start(SyntaxKind::DesignatedInitializer);
            if self.at(SyntaxKind::LeftBracket) || self.at(SyntaxKind::Dot) {
                self.start(SyntaxKind::Designation);
                loop
                    invariant
                        opened.len() == old(self).ev().len() + 1,
                        opened.len() <= self.ev().len(),
                        self.ev()[opened.len() - 1] == opened.last(),
                        self.kept(*old(self), old(self).ev().len() as int),
                        events_depth(self.ev()) == events_depth(old(self).ev()) + 3,
                        self.pos > old(self).pos,
                        self.pos >= before,
                    decreases self.toks@.len() - self.pos,
                {
                    if self.at(SyntaxKind::LeftBracket) {
                        self.start(SyntaxKind::Designator);
                        self.bump();
                        self.conditional_expression();
                        self.expect(SyntaxKind::RightBracket);
                        self.finish();
                    } else if self.at(SyntaxKind::Dot) {
                        self.start(SyntaxKind::Designator);
                        self.bump();
                        self.expect(SyntaxKind::Ident);
                        self.finish();
                    } else {
                        break;
                    }
                }
                self.expect(SyntaxKind::Assign);
                self.finish();
            }
            self.initializer();
            self.finish();
            if self.at(SyntaxKind::Comma) {
                self.bump();
            } else {
                break;
            }
            if self.pos == before {
                break;
            }
        }
        self.expect(SyntaxKind::RightBrace);
        self.finish();
    }

    /// (6.7.11) static assert declaration.
    fn static_assert_declaration(&mut self)
        requires
            old(self).inv(),
            old(self).pos < old(self).toks@.len(),
        ensures
            final(self).advanced(*old(self)),
            final(self).records_node(*old(self), SyntaxKind::StaticAssertDecl),
            final(self).pos > old(self).pos,
        decreases old(self).toks@.len() - old(self).pos, 55int,
    {
        self.start(SyntaxKind::StaticAssertDecl);
        let ghost opened = self.ev();
        self.bump();
        self.expect(SyntaxKind::LeftParen);
        self.conditional_expression();
        if self.at(SyntaxKind::Comma) {
            self.bump();
            while self.at(SyntaxKind::StringLiteral)
                invariant
                    opened.len() == old(self).ev().len() + 1,
                    opened.len() <= self.ev().len(),
                    self.ev()[opened.len() - 1] == opened.last(),
                    self.kept(*old(self), old(self).ev().len() as int),
                    events_depth(self.ev()) == events_depth(old(self).ev()) + 1,
                    self.pos > old(self).pos,
                decreases self.toks@.len() - self.pos,
            {
                self.bump();
            }
        }
        self.expect(SyntaxKind::RightParen);
        self.expect(SyntaxKind::Semicolon);
        self.finish();
    }

    /// (6.7, 6.9.1) a declaration, or with `top` also a function definition.
    fn declaration(&mut self, top: bool)
        requires
            old(self).inv(),
        ensures
            final(self).advanced(*old(self)),
            final(self).records_node(*old(self), SyntaxKind::Declaration) || (top
                && final(self).records_node(*old(self), SyntaxKind::FunctionDefinition)),
            old(self).word_at(0) == Word::StaticAssert || old(self).word_at(0)
                == Word::StaticAssertOld ==> final(self).records_node(
                *old(self),
                SyntaxKind::Declaration,
            ) && final(self).pos > old(self).pos,
            old(self).declaration_at(0) ==> final(self).pos > old(self).pos,
            old(self).typedef_name_at() ==> final(self).declares_type(*old(self)),
        decreases old(self).toks@.len() - old(self).pos, 90int,
    {
        let w = self.word(0);
        if w == Word::StaticAssert || w == Word::StaticAssertOld {
            self.start(SyntaxKind::Declaration);
            self.static_assert_declaration();
            self.finish();
            return;
        }
        let cp = self.checkpoint();
        self.attribute_specifier_sequence();
        proof {
            if self.pos == old(self).pos {
                self.lemma_typedefs_grow(*old(self));
            }
        }
        let ghost mid = *self;
        let is_typedef = self.declaration_specifiers(true);
        assert(old(self).declaration_at(0) ==> self.pos > old(self).pos);
        let ghost held = self.ev();
        proof {
            if old(self).typedef_name_at() {
                assert(mid.ev() == old(self).ev());
                assert(mid.next_event() == old(self).next_event());
            }
        }
        if self.at(SyntaxKind::Semicolon) {
            self.bump();
            self.start_at(cp, SyntaxKind::Declaration);
            self.finish();
            return;
        }
        let cpd = self.checkpoint();
        let id = self.declarator(false);
        if top && self.at(SyntaxKind::LeftBrace) {
            self.start_at(cp, SyntaxKind::FunctionDefinition);
            self.compound_statement();
            self.finish();
            return;
        }
        self.start_at(cpd, SyntaxKind::InitDeclarator);
        if self.at(SyntaxKind::Assign) {
            self.bump();
            self.initializer();
        }
        self.finish();
        if is_typedef {
            if let Some(i) = id {
                self.add_typedef(i);
            }
        }
        while self.at(SyntaxKind::Comma)
            invariant
                self.kept(*old(self), cp as int),
                cp == old(self).ev().len(),
                events_depth(self.ev()) == events_depth(old(self).ev()),
                old(self).declaration_at(0) ==> self.pos > old(self).pos,
                old(self).typedef_name_at() ==> cp + 3 < held.len() && held.len() <= self.ev().len() && self.ev()[cp as int]
                    == held[cp as int] && self.ev()[cp + 1] == held[cp + 1] && self.ev()[cp + 2] == held[cp + 2],
            decreases self.toks@.len() - self.pos,
        {
            self.bump();
            self.start(SyntaxKind::InitDeclarator);
            let id2 = self.declarator(false);
            if self.at(SyntaxKind::Assign) {
                self.bump();
                self.initializer();
            }
            self.finish();
            if is_typedef {
                if let Some(i) = id2 {
                    self.add_typedef(i);
                }
            }
        }
        self.expect(SyntaxKind::Semicolon);
        self.start_at(cp, SyntaxKind::Declaration);
        self.finish();
    }

    // -------------------------------------------------------------------------
    // Statements (6.8)
    // -------------------------------------------------------------------------

    /// (6.8.2) compound statement.
    fn compound_statement(&mut self)
        requires
            old(self).inv(),
            old(self).pos < old(self).toks@.len(),
        ensures
            final(self).advanced(*old(self)),
            final(self).records_node(*old(self), SyntaxKind::CompoundStatement),
            final(self).pos > old(self).pos,
        decreases old(self).toks@.len() - old(self).pos, 50int,
    {
        self.start(SyntaxKind::CompoundStatement);
        let ghost opened = self.ev();
        self.bump();
        loop
            invariant
                opened.len() == old(self).ev().len() + 1,
                opened.len() <= self.ev().len(),
                self.ev()[opened.len() - 1] == opened.last(),
                self.kept(*old(self), old(self).ev().len() as int),
                events_depth(self.ev()) == events_depth(old(self).ev()) + 1,
                self.pos > old(self).pos,
            decreases self.toks@.len() - self.pos,
        {
            if self.at(SyntaxKind::RightBrace) || self.at_end() {
                break;
            }
            let before = self.pos;
            let cp = self.checkpoint();
            let ghost mid = *self;
            self.block_item();
            if self.pos == before {
                self.skip_as_error(Ghost(mid), cp, SyntaxKind::StmtError);
            }
        }
        self.expect(SyntaxKind::RightBrace);
        self.finish();
    }

    /// (6.8.2) block item: a declaration or a statement.
    fn block_item(&mut self)
        requires
            old(self).inv(),
        ensures
            final(self).advanced(*old(self)),
            final(self).records_statement(*old(self)),
            !(old(self).kind_at(0) == Some(SyntaxKind::Ident) && old(self).kind_at(1) == Some(
                SyntaxKind::Colon,
            )) && old(self).declaration_at(0) ==> final(self).records_node(
                *old(self),
                SyntaxKind::Declaration,
            ),
        decreases old(self).toks@.len() - old(self).pos, 95int,
    {
        let label = self.at(SyntaxKind::Ident) && self.peek(1) == Some(SyntaxKind::Colon);
        if !label && self.starts_declaration(0) {
            self.declaration(false);
        } else {
            self.statement();
        }
    }

    /// (6.8) statement.
    fn statement(&mut self)
        requires
            old(self).inv(),
        ensures
            final(self).advanced(*old(self)),
            final(self).records_statement(*old(self)),
            !old(self).attribute_at() ==> final(self).records_node(
                *old(self),
                old(self).statement_node(),
            ),
        decreases old(self).toks@.len() - old(self).pos, 85int,
    {
        let before = self.pos;
        self.attribute_specifier_sequence();
        if self.pos > before && self.starts_declaration(0) {
            self.declaration(false);
            return;
        }
        let w = self.word(0);
        if self.at(SyntaxKind::LeftBrace) {
            self.compound_statement();
        } else if w == Word::Case || w == Word::Default || (self.at(SyntaxKind::Ident) && self.peek(
            1,
        ) == Some(SyntaxKind::Colon)) {
            self.labeled_statement(w);
        } else if w == Word::If || w == Word::Switch || w == Word::While || w == Word::Do {
            self.selection_or_loop(w);
        } else if w == Word::For {
            self.for_statement();
        } else if w == Word::Goto || w == Word::Continue || w == Word::Break || w == Word::Return {
            self.jump_statement(w);
        } else {
            self.start(SyntaxKind::ExpressionStatement);
            if !self.at(SyntaxKind::Semicolon) {
                self.expression();
            }
            self.expect(SyntaxKind::Semicolon);
            self.finish();
        }
    }

    /// (6.8.1) labeled statement: `case` expression, `default` or an
    /// identifier, a colon, and a statement.
    fn labeled_statement(&mut self, w: Word)
        requires
            old(self).inv(),
            old(self).pos < old(self).toks@.len(),
        ensures
            final(self).advanced(*old(self)),
            final(self).records_node(*old(self), SyntaxKind::LabeledStatement),
            final(self).pos > old(self).pos,
        decreases old(self).toks@.len() - old(self).pos, 80int,
    {
        self.start(SyntaxKind::LabeledStatement);
        self.start(SyntaxKind::Label);
        self.bump();
        if w == Word::Case {
            self.conditional_expression();
        }
        self.expect(SyntaxKind::Colon);
        self.finish();
        self.statement();
        self.finish();
    }

    /// (6.8.4, 6.8.5) `if`, `switch`, `while` and `do` statements.
    fn selection_or_loop(&mut self, w: Word)
        requires
            old(self).inv(),
            old(self).pos < old(self).toks@.len(),
        ensures
            final(self).advanced(*old(self)),
            final(self).records_node(*old(self), selection_kind(w)),
            final(self).pos > old(self).pos,
        decreases old(self).toks@.len() - old(self).pos, 80int,
    {
        let kind = if w == Word::If {
            SyntaxKind::IfStatement
        } else if w == Word::Switch {
            SyntaxKind::SwitchStatement
        } else if w == Word::While {
            SyntaxKind::WhileStatement
        } else {
            SyntaxKind::DoWhileStatement
        };
        self.start(kind);
        self.bump();
        if w == Word::Do {
            self.statement();
            if self.word(0) == Word::While {
                self.bump();
                self.parenthesized_expression();
            }
            self.expect(SyntaxKind::Semicolon);
        } else {
            self.parenthesized_expression();
            self.statement();
            if w == Word::If && self.word(0) == Word::Else {
                self.bump();
                self.statement();
            }
        }
        self.finish();
    }

    /// (6.8.5) `for` statement.
    fn for_statement(&mut self)
        requires
            old(self).inv(),
            old(self).pos < old(self).toks@.len(),
        ensures
            final(self).advanced(*old(self)),
            final(self).records_node(*old(self), SyntaxKind::ForStatement),
            final(self).pos > old(self).pos,
        decreases old(self).toks@.len() - old(self).pos, 80int,
    {
        self.start(SyntaxKind::ForStatement);
        self.bump();
        self.expect(SyntaxKind::LeftParen);
        if self.starts_declaration(0) {
            self.declaration(false);
        } else {
            if !self.at(SyntaxKind::Semicolon) {
                self.expression();
            }
            self.expect(SyntaxKind::Semicolon);
        }
        if !self.at(SyntaxKind::Semicolon) {
            self.expression();
        }
        self.expect(SyntaxKind::Semicolon);
        if !self.at(SyntaxKind::RightParen) {
            self.expression();
        }
        self.expect(SyntaxKind::RightParen);
        self.statement();
        self.finish();
    }

    /// (6.8.6) `goto`, `continue`, `break` and `return` statements.
    fn jump_statement(&mut self, w: Word)
        requires
            old(self).inv(),
            old(self).pos < old(self).toks@.len(),
        ensures
            final(self).advanced(*old(self)),
            final(self).records_node(*old(self), jump_kind(w)),
            final(self).pos > old(self).pos,
        decreases old(self).toks@.len() - old(self).pos, 80int,
    {
        let kind = if w == Word::Goto {
            SyntaxKind::GotoStatement
        } else if w == Word::Continue {
            SyntaxKind::ContinueStatement
        } else if w == Word::Break {
            SyntaxKind::BreakStatement
        } else {
            SyntaxKind::ReturnStatement
        };
        self.start(kind);
        self.bump();
        if w == Word::Goto {
            self.expect(SyntaxKind::Ident);
        } else if w == Word::Return && !self.at(SyntaxKind::Semicolon) {
            self.expression();
        }
        self.expect(SyntaxKind::Semicolon);
        self.finish();
    }

    /// `( expression )`, as after `if`, `switch` and `while`.
    fn parenthesized_expression(&mut self)
        requires
            old(self).inv(),
        ensures
            final(self).advanced(*old(self)),
            old(self).kind_at(0) == Some(SyntaxKind::LeftParen) ==> final(self).pos > old(self).pos
                && old(self).ev().len() < final(self).ev().len() && final(self).ev()[old(
                self,
            ).ev().len() as int] == old(self).next_event(),
            old(self).kind_at(0) != Some(SyntaxKind::LeftParen) && old(self).expression_at()
                ==> final(self).pos > old(self).pos && old(self).ev().len() < final(self).ev().len()
                && (final(self).ev()[old(self).ev().len() as int] matches GreenEvent::StartNode {
                kind,
            } && expr_kind(kind)),
            old(self).kind_at(0) == Some(SyntaxKind::RightParen) ==> final(self).ev() == old(
                self,
            ).ev().push(old(self).next_event()) && final(self).pos == old(self).pos + 1,
            old(self).kind_at(0) != Some(SyntaxKind::LeftParen) && !old(self).expression_at() && old(
                self,
            ).kind_at(0) != Some(SyntaxKind::RightParen) ==> final(self).idle(*old(self)),
        decreases old(self).toks@.len() - old(self).pos, 31int,
    {
        self.expect(SyntaxKind::LeftParen);
        self.expression();
        self.expect(SyntaxKind::RightParen);
    }

    // -------------------------------------------------------------------------
    // Translation units (6.9)
    // -------------------------------------------------------------------------

    /// (6.9) external declaration.
    #[verifier::rlimit(60)]
    #[verifier::spinoff_prover]
    fn external_declaration(&mut self, names: Ghost<Seq<Seq<u8>>>)
        requires
            old(self).inv(),
            old(self).pos < old(self).toks@.len(),
            old(self).guard@ == (1int, 1int),
            events_depth(old(self).ev()) == 1,
            names@.len() <= old(self).typedefs@.len(),
            forall|j: int| 0 <= j < names@.len() ==> #[trigger] old(self).typedefs@[j]@ == names@[j],
        ensures
            final(self).advanced(*old(self)),
            final(self).pos > old(self).pos,
            top_level_ok(old(self).ev()) ==> top_level_ok(final(self).ev()),
            top_items_ok(old(self).ev(), old(self).src@, names@) ==> top_items_ok(
                final(self).ev(),
                old(self).src@,
                names@,
            ),
        decreases old(self).toks@.len() - old(self).pos, 100int,
    {
        let ghost entry = *self;
        let cp = self.checkpoint();
        let before = self.pos;
        self.start(SyntaxKind::ExternalDeclaration);
        let ghost opened = self.ev();
        proof {
            reveal(Parser::sound);
            assert(opened.drop_last() =~= entry.ev());
        }
        self.guard = Ghost((opened.len() as int, 2int));
        let ghost at_decl = *self;
        self.declaration(true);
        let ghost inner = self.ev();
        proof {
            reveal(Parser::sound);
            assert(floor_holds(inner, opened.len() as int, 2));
            assert(inner.take(opened.len() as int) =~= opened);
            lemma_floor_open(inner, 1);
            if top_level_ok(entry.ev()) {
                lemma_top_level_push(entry.ev(), GreenEvent::StartNode { kind: SyntaxKind::ExternalDeclaration });
                lemma_top_level_floor(inner, opened.len() as int);
            }
            lemma_floor_take(inner, opened.len() as int, 2, inner.len() as int);
            assert(inner.take(inner.len() as int) =~= inner);
        }
        self.guard = Ghost((1int, 1int));
        self.finish();
        proof {
            if top_level_ok(entry.ev()) {
                lemma_top_level_push(inner, GreenEvent::FinishNode);
            }
        }
        if self.pos == before {
            proof {
                at_decl.lemma_no_declaration_opens(names@);
            }
            self.skip_as_error(Ghost(entry), cp, SyntaxKind::Error);
            proof {
                if top_level_ok(entry.ev()) {
                    let e1 = entry.ev().push(GreenEvent::StartNode { kind: SyntaxKind::Error });
                    lemma_top_level_push(entry.ev(), GreenEvent::StartNode { kind: SyntaxKind::Error });
                    lemma_top_level_push(e1, entry.next_event());
                    lemma_top_level_push(e1.push(entry.next_event()), GreenEvent::FinishNode);
                }
                let es = self.ev();
                let n0 = entry.ev().len() as int;
                if top_items_ok(entry.ev(), entry.src@, names@) {
                    reveal_with_fuel(events_depth, 2);
                    assert(es.take(n0 + 1).drop_last() =~= entry.ev());
                    assert(es.take(n0 + 2).drop_last() =~= es.take(n0 + 1));
                    assert forall|j: int| 1 <= j < es.len() && events_depth(#[trigger] es.take(j)) == 1 implies top_item_ok(
                        es,
                        j,
                        entry.src@,
                        names@,
                    ) by {
                        if j < n0 {
                            assert(es.take(j) =~= entry.ev().take(j));
                            assert(top_item_ok(entry.ev(), j, entry.src@, names@));
                        } else if j == n0 {
                            assert(es.take(j) =~= entry.ev());
                        }
                    }
                }
            }
        } else {
            proof {
                let es = self.ev();
                let n0 = entry.ev().len() as int;
                reveal(Parser::sound);
                let te = token_events(es);
                let te0 = token_events(entry.ev());
                let k0 = entry.pos as int;
                assert(te == triples(self.toks@).take(self.pos as int));
                assert(te0 == triples(entry.toks@).take(entry.pos as int));
                assert(te0.len() == k0);
                assert(k0 < te.len());
                assert forall|k: int| 0 <= k < te0.len() implies te[k] == te0[k] by {}
                let t = entry.toks@[k0];
                assert(te[k0] == (t.kind, t.len, t.start));
                if listed_name(entry.src@, te[k0], names@) {
                    let text = entry.src@.subrange(t.start as int, t.start + t.len);
                    assert(at_decl.text_at(0) == text);
                    let m = choose|m: int| 0 <= m < names@.len() && #[trigger] names@[m] == text;
                    assert(at_decl.typedefs@[m]@ == text);
                    assert(at_decl.typedef_name_at());
                    assert(inner[n0 + 2] == es[n0 + 2]);
                    assert(inner[n0 + 3] == es[n0 + 3]);
                    assert(inner[n0 + 4] == es[n0 + 4]);
                }
                if top_items_ok(entry.ev(), entry.src@, names@) {
                    assert forall|j: int| 1 <= j < es.len() && events_depth(#[trigger] es.take(j)) == 1 implies top_item_ok(
                        es,
                        j,
                        entry.src@,
                        names@,
                    ) by {
                        if j < n0 {
                            assert(es.take(j) =~= entry.ev().take(j));
                            assert(top_item_ok(entry.ev(), j, entry.src@, names@));
                        } else if j == n0 {
                            assert(es.take(j) =~= entry.ev());
                        } else {
                            lemma_floor_take(inner, opened.len() as int, 2, j);
                            assert(es.take(j) =~= inner.take(j));
                        }
                    }
                }
            }
        }
    }

    /// Where no declaration can start at the next token, none of the names
    /// among the typedef names opens one there.
    proof fn lemma_no_declaration_opens(self, names: Seq<Seq<u8>>)
        requires
            !self.declaration_at(0),
            self.pos < self.toks@.len(),
            names.len() <= self.typedefs@.len(),
            forall|j: int| 0 <= j < names.len() ==> #[trigger] self.typedefs@[j]@ == names[j],
        ensures
            ({
                let t = self.toks@[self.pos as int];
                !opens_declaration(self.src@, t.kind, t.start as int, t.len as int, names)
            }),
    {
        let t = self.toks@[self.pos as int];
        let text = self.src@.subrange(t.start as int, t.start + t.len);
        assert(text == self.text_at(0));
        if opens_declaration(self.src@, t.kind, t.start as int, t.len as int, names) {
            assert(self.kind_at(0) == Some(SyntaxKind::Ident));
            assert(self.word_at(0) == word_spelled(text));
            if !declaration_word(word_spelled(text)) {
                let j = choose|j: int| 0 <= j < names.len() && #[trigger] names[j] == text;
                assert(self.typedefs@[j]@ == text);
                assert(self.typedef_at(0));
            }
        }
    }
}

/// Parse the tokens of `src` as a translation unit.
///
/// The result holds one `TranslationUnit` node, closed by the last event,
/// and every token of `toks`, in order; what stands directly in it are
/// external declarations and error nodes.
pub fn parse(src: &[u8], toks: Vec<RawToken>, typedef_names: Vec<Vec<u8>>) -> (r: (
    GreenBuilder,
    Vec<RawToken>,
))
    requires
        src@.len() < u32::MAX,
        tokens_within(toks@, src@.len() as int),
    ensures
        well_formed_events(r.0.spec_events()),
        r.0.spec_events()[0] == (GreenEvent::StartNode { kind: SyntaxKind::TranslationUnit }),
        token_events(r.0.spec_events()) == triples(toks@),
        top_level_ok(r.0.spec_events()),
        r.0.spec_source_len() == src@.len(),
        r.1@ == toks@,
        top_items_ok(r.0.spec_events(), src@, typedef_names@.map_values(|v: Vec<u8>| v@)),
{
    let ghost names = typedef_names@.map_values(|v: Vec<u8>| v@);
    let mut builder = GreenBuilder::new();
    builder.set_source_len(src.len() as u32);
    builder.start_node(SyntaxKind::TranslationUnit);
    let ghost es = builder.spec_events();
    proof {
        assert(es.drop_last() =~= Seq::<GreenEvent>::empty());
        reveal_with_fuel(token_events, 2);
        reveal_with_fuel(events_depth, 2);
        reveal_with_fuel(stays_open, 2);
        assert(token_events(es) =~= triples(toks@).take(0));
        assert(events_depth(es) == 1);
        assert(stays_open(es));
    }
    let mut p = Parser { src, toks, pos: 0, builder, typedefs: typedef_names, guard: Ghost((1, 1)) };
    proof {
        reveal(Parser::sound);
    }
    while !p.at_end()
        invariant
            p.inv(),
            p.src == src,
            p.toks@ == toks@,
            events_depth(p.ev()) == 1,
            p.ev().len() >= 1,
            p.ev()[0] == (GreenEvent::StartNode { kind: SyntaxKind::TranslationUnit }),
            p.builder.spec_source_len() == src@.len(),
            p.guard@ == (1int, 1int),
            top_level_ok(p.ev()),
            top_items_ok(p.ev(), src@, names),
            names.len() <= p.typedefs@.len(),
            forall|j: int| 0 <= j < names.len() ==> #[trigger] p.typedefs@[j]@ == names[j],
        decreases p.toks@.len() - p.pos,
    {
        p.external_declaration(Ghost(names));
    }
    proof {
        reveal(Parser::sound);
    }
    let mut builder = p.builder;
    let toks = p.toks;
    let ghost es1 = builder.spec_events();
    builder.finish_node();
    proof {
        let es2 = builder.spec_events();
        assert(es2.drop_last() =~= es1);
        assert(triples(toks@).take(toks@.len() as int) =~= triples(toks@));
        lemma_top_level_push(es1, GreenEvent::FinishNode);
        assert forall|j: int| 1 <= j < es2.len() && events_depth(#[trigger] es2.take(j)) == 1 implies top_item_ok(
            es2,
            j,
            src@,
            names,
        ) by {
            if j < es1.len() {
                assert(es2.take(j) =~= es1.take(j));
                assert(top_item_ok(es1, j, src@, names));
            }
        }
    }
    (builder, toks)
}

} // verus!
