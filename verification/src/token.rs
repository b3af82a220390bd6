//! Lexical token types: what a token of the source stands for.
//!
//! These are not syntax tree nodes: they describe single tokens, as
//! [`crate::SyntaxTree::to_token_sequence`] reads them back from a tree.

#![allow(missing_docs)]

use vstd::prelude::*;
use vstd::string::StringExecFns;

use crate::span::{Span, Spanned};
use crate::syntax::SyntaxKind;

verus! {

// =============================================================================
// Identifier
// =============================================================================

/// Identifier (6.4.2.1)
#[derive(Debug, Clone)]
pub struct Identifier(pub String);

// =============================================================================
// Constants (6.4.4)
// =============================================================================

/// Constants (6.4.4)
#[derive(Debug, Clone)]
pub enum Constant {
    Integer(IntegerConstant),
    Floating(FloatingConstant),
    Character(CharacterConstant),
    Predefined(PredefinedConstant),
}

/// Integer constants (6.4.4.1)
#[derive(Debug, Clone, Copy, PartialEq, Eq, Structural)]
pub struct IntegerConstant {
    pub value: i128,
    pub suffix: Option<IntegerSuffix>,
}

/// Integer suffixes (6.4.4.1)
#[derive(Debug, Clone, Copy, PartialEq, Eq, Structural)]
pub enum IntegerSuffix {
    Unsigned,
    Long,
    LongLong,
    UnsignedLong,
    UnsignedLongLong,
    BitPrecise,
    UnsignedBitPrecise,
}

/// Floating-point constants (6.4.4.2). Only the suffix is held: the value is
/// a floating-point number.
#[derive(Debug, Clone, Copy, PartialEq, Eq, Structural)]
pub struct FloatingConstant {
    pub suffix: Option<FloatingSuffix>,
}

/// Floating-point suffixes (6.4.4.2)
#[derive(Debug, Clone, Copy, PartialEq, Eq, Structural)]
pub enum FloatingSuffix {
    F,
    L,
    DF,
    DD,
    DL,
}

/// Character constants (6.4.4.4)
#[derive(Debug, Clone)]
pub struct CharacterConstant {
    pub encoding_prefix: Option<EncodingPrefix>,
    pub value: String,
}

/// Encoding prefixes (6.4.4.4)
#[derive(Debug, Clone, Copy, PartialEq, Eq, Structural)]
pub enum EncodingPrefix {
    U8,
    U,
    CapitalU,
    L,
}

/// Predefined constants (6.4.4.5)
#[derive(Debug, Clone, Copy, PartialEq, Eq, Structural)]
pub enum PredefinedConstant {
    False,
    True,
    Nullptr,
}

// =============================================================================
// String Literals (6.4.5)
// =============================================================================

/// Concatenation of string literals (6.4.5)
#[derive(Debug, Clone)]
pub struct StringLiterals(pub Vec<StringLiteral>);

/// The values of string literals, one after another.
pub open spec fn joined(ls: Seq<StringLiteral>) -> Seq<char>
    decreases ls.len(),
{
    if ls.len() == 0 {
        Seq::empty()
    } else {
        joined(ls.drop_last()) + ls.last().value@
    }
}

impl StringLiterals {
    /// The values of the literals, joined.
    pub fn to_joined(&self) -> (r: String)
        ensures
            r@ == joined(self.0@),
    {
        let mut out = String::new();
        let mut i: usize = 0;
        while i < self.0.len()
            invariant
                i <= self.0@.len(),
                out@ == joined(self.0@.take(i as int)),
            decreases self.0@.len() - i,
        {
            proof {
                assert(self.0@.take(i + 1).drop_last() =~= self.0@.take(i as int));
            }
            out.append(self.0[i].value.as_str());
            i = i + 1;
        }
        proof {
            assert(self.0@.take(i as int) =~= self.0@);
        }
        out
    }
}

/// String literal (6.4.5)
#[derive(Debug, Clone)]
pub struct StringLiteral {
    pub encoding_prefix: Option<EncodingPrefix>,
    pub value: String,
}

// =============================================================================
// Punctuators (6.4.6)
// =============================================================================

/// Punctuators (6.4.6)
#[derive(Debug, Clone, Copy, PartialEq, Eq, Structural)]
pub enum Punctuator {
    // Brackets
    LeftBracket,
    RightBracket,
    LeftParen,
    RightParen,
    LeftBrace,
    RightBrace,
    // Operators
    Dot,
    Arrow,
    Increment,
    Decrement,
    Ampersand,
    Star,
    Plus,
    Minus,
    Tilde,
    Bang,
    Slash,
    Percent,
    LeftShift,
    RightShift,
    Less,
    Greater,
    LessEqual,
    GreaterEqual,
    Equal,
    NotEqual,
    Caret,
    Pipe,
    LogicalAnd,
    LogicalOr,
    Question,
    Colon,
    Scope,
    Semicolon,
    Ellipsis,
    // Assignment
    Assign,
    MulAssign,
    DivAssign,
    ModAssign,
    AddAssign,
    SubAssign,
    LeftShiftAssign,
    RightShiftAssign,
    AndAssign,
    XorAssign,
    OrAssign,
    // Other
    Comma,
    Hash,
    HashHash,
}

// =============================================================================
// Token sequences
// =============================================================================

/// A flat sequence of tokens and the end of the input they were read from.
#[derive(Debug, Clone)]
pub struct BalancedTokenSequence {
    pub tokens: Vec<Spanned<BalancedToken>>,
    pub eoi: Span,
}

/// A single token.
#[derive(Debug, Clone)]
pub enum BalancedToken {
    Identifier(Identifier),
    StringLiteral(StringLiterals),
    /// extension syntax: `xxx` for quoted strings
    QuotedString(String),
    Constant(Constant),
    Punctuator(Punctuator),
    Unknown,
}

// =============================================================================
// Attribute Specifiers (6.7.12.1)
// =============================================================================

/// Attribute specifiers (6.7.12.1)
#[derive(Debug, Clone)]
pub enum AttributeSpecifier {
    Attributes(Vec<Attribute>),
    Asm(StringLiterals),
    Error,
}

impl AttributeSpecifier {
    /// The attributes, if this is an attribute list.
    pub fn try_into_attributes(self) -> (r: Option<Vec<Attribute>>)
        ensures
            (self is Attributes) == (r is Some),
            r matches Some(v) ==> self == AttributeSpecifier::Attributes(v),
    {
        match self {
            AttributeSpecifier::Attributes(attrs) => Some(attrs),
            _ => None,
        }
    }

    /// The string literals, if this is an `asm` specifier.
    pub fn try_into_asm(self) -> (r: Option<StringLiterals>)
        ensures
            (self is Asm) == (r is Some),
            r matches Some(s) ==> self == AttributeSpecifier::Asm(s),
    {
        match self {
            AttributeSpecifier::Asm(literals) => Some(literals),
            _ => None,
        }
    }
}

/// Attribute (6.7.12.1)
#[derive(Debug, Clone)]
pub struct Attribute {
    pub token: AttributeToken,
    pub arguments: Option<BalancedTokenSequence>,
}

/// Attribute tokens (6.7.12.1)
#[derive(Debug, Clone)]
pub enum AttributeToken {
    Standard(Identifier),
    Prefixed { prefix: Identifier, identifier: Identifier },
}

impl AttributeToken {
    /// A prefixed token whose prefix is `prefix`.
    pub fn is_prefixed(&self, prefix: &str) -> (r: bool)
        ensures
            r == (self matches AttributeToken::Prefixed { prefix: p, .. } && p.0@ == prefix@),
    {
        match self {
            AttributeToken::Prefixed { prefix: p, .. } => p.0 == String::from_str(prefix),
            _ => false,
        }
    }

    /// A standard token named `name`.
    pub fn is_standard(&self, name: &str) -> (r: bool)
        ensures
            r == (self matches AttributeToken::Standard(id) && id.0@ == name@),
    {
        match self {
            AttributeToken::Standard(id) => id.0 == String::from_str(name),
            _ => false,
        }
    }

    /// The prefix and the identifier of a prefixed token.
    pub fn as_prefixed(&self) -> (r: Option<(&Identifier, &Identifier)>)
        ensures
            (self is Prefixed) == (r is Some),
            r matches Some((p, i)) ==> *self == (AttributeToken::Prefixed {
                prefix: *p,
                identifier: *i,
            }),
    {
        match self {
            AttributeToken::Prefixed { prefix, identifier } => Some((prefix, identifier)),
            _ => None,
        }
    }

    /// The identifier of a standard token.
    pub fn as_standard(&self) -> (r: Option<&Identifier>)
        ensures
            (self is Standard) == (r is Some),
            r matches Some(i) ==> *self == AttributeToken::Standard(*i),
    {
        match self {
            AttributeToken::Standard(id) => Some(id),
            _ => None,
        }
    }

    /// The identifier of a token prefixed with `prefix`.
    pub fn get_identifier(&self, prefix: &str) -> (r: Option<&Identifier>)
        ensures
            r is Some == (self matches AttributeToken::Prefixed { prefix: p, .. } && p.0@ == prefix@),
            r matches Some(i) ==> self matches AttributeToken::Prefixed { identifier, .. } && *i
                == identifier,
    {
        match self {
            AttributeToken::Prefixed { prefix: p, identifier } => {
                if p.0 == String::from_str(prefix) {
                    Some(identifier)
                } else {
                    None
                }
            },
            _ => None,
        }
    }
}

// =============================================================================
// Punctuator kinds
// =============================================================================

/// The punctuator a syntax kind stands for.
pub open spec fn punctuator_of(kind: SyntaxKind) -> Option<Punctuator> {
    match kind {
        SyntaxKind::LeftParen => Some(Punctuator::LeftParen),
        SyntaxKind::RightParen => Some(Punctuator::RightParen),
        SyntaxKind::LeftBracket => Some(Punctuator::LeftBracket),
        SyntaxKind::RightBracket => Some(Punctuator::RightBracket),
        SyntaxKind::LeftBrace => Some(Punctuator::LeftBrace),
        SyntaxKind::RightBrace => Some(Punctuator::RightBrace),
        SyntaxKind::Dot => Some(Punctuator::Dot),
        SyntaxKind::Arrow => Some(Punctuator::Arrow),
        SyntaxKind::Increment => Some(Punctuator::Increment),
        SyntaxKind::Decrement => Some(Punctuator::Decrement),
        SyntaxKind::Ampersand => Some(Punctuator::Ampersand),
        SyntaxKind::Star => Some(Punctuator::Star),
        SyntaxKind::Plus => Some(Punctuator::Plus),
        SyntaxKind::Minus => Some(Punctuator::Minus),
        SyntaxKind::Tilde => Some(Punctuator::Tilde),
        SyntaxKind::Bang => Some(Punctuator::Bang),
        SyntaxKind::Slash => Some(Punctuator::Slash),
        SyntaxKind::Percent => Some(Punctuator::Percent),
        SyntaxKind::LeftShift => Some(Punctuator::LeftShift),
        SyntaxKind::RightShift => Some(Punctuator::RightShift),
        SyntaxKind::Less => Some(Punctuator::Less),
        SyntaxKind::Greater => Some(Punctuator::Greater),
        SyntaxKind::LessEqual => Some(Punctuator::LessEqual),
        SyntaxKind::GreaterEqual => Some(Punctuator::GreaterEqual),
        SyntaxKind::Equal => Some(Punctuator::Equal),
        SyntaxKind::NotEqual => Some(Punctuator::NotEqual),
        SyntaxKind::Caret => Some(Punctuator::Caret),
        SyntaxKind::Pipe => Some(Punctuator::Pipe),
        SyntaxKind::LogicalAnd => Some(Punctuator::LogicalAnd),
        SyntaxKind::LogicalOr => Some(Punctuator::LogicalOr),
        SyntaxKind::Question => Some(Punctuator::Question),
        SyntaxKind::Colon => Some(Punctuator::Colon),
        SyntaxKind::Scope => Some(Punctuator::Scope),
        SyntaxKind::Semicolon => Some(Punctuator::Semicolon),
        SyntaxKind::Ellipsis => Some(Punctuator::Ellipsis),
        SyntaxKind::Assign => Some(Punctuator::Assign),
        SyntaxKind::MulAssign => Some(Punctuator::MulAssign),
        SyntaxKind::DivAssign => Some(Punctuator::DivAssign),
        SyntaxKind::ModAssign => Some(Punctuator::ModAssign),
        SyntaxKind::AddAssign => Some(Punctuator::AddAssign),
        SyntaxKind::SubAssign => Some(Punctuator::SubAssign),
        SyntaxKind::LeftShiftAssign => Some(Punctuator::LeftShiftAssign),
        SyntaxKind::RightShiftAssign => Some(Punctuator::RightShiftAssign),
        SyntaxKind::AndAssign => Some(Punctuator::AndAssign),
        SyntaxKind::XorAssign => Some(Punctuator::XorAssign),
        SyntaxKind::OrAssign => Some(Punctuator::OrAssign),
        SyntaxKind::Comma => Some(Punctuator::Comma),
        SyntaxKind::Hash => Some(Punctuator::Hash),
        SyntaxKind::HashHash => Some(Punctuator::HashHash),
        _ => None,
    }
}

/// Map a [`SyntaxKind`] to its corresponding [`Punctuator`].
pub fn syntax_kind_to_punctuator(kind: SyntaxKind) -> (r: Option<Punctuator>)
    ensures
        r == punctuator_of(kind),
{
    match kind {
        SyntaxKind::LeftParen => Some(Punctuator::LeftParen),
        SyntaxKind::RightParen => Some(Punctuator::RightParen),
        SyntaxKind::LeftBracket => Some(Punctuator::LeftBracket),
        SyntaxKind::RightBracket => Some(Punctuator::RightBracket),
        SyntaxKind::LeftBrace => Some(Punctuator::LeftBrace),
        SyntaxKind::RightBrace => Some(Punctuator::RightBrace),
        SyntaxKind::Dot => Some(Punctuator::Dot),
        SyntaxKind::Arrow => Some(Punctuator::Arrow),
        SyntaxKind::Increment => Some(Punctuator::Increment),
        SyntaxKind::Decrement => Some(Punctuator::Decrement),
        SyntaxKind::Ampersand => Some(Punctuator::Ampersand),
        SyntaxKind::Star => Some(Punctuator::Star),
        SyntaxKind::Plus => Some(Punctuator::Plus),
        SyntaxKind::Minus => Some(Punctuator::Minus),
        SyntaxKind::Tilde => Some(Punctuator::Tilde),
        SyntaxKind::Bang => Some(Punctuator::Bang),
        SyntaxKind::Slash => Some(Punctuator::Slash),
        SyntaxKind::Percent => Some(Punctuator::Percent),
        SyntaxKind::LeftShift => Some(Punctuator::LeftShift),
        SyntaxKind::RightShift => Some(Punctuator::RightShift),
        SyntaxKind::Less => Some(Punctuator::Less),
        SyntaxKind::Greater => Some(Punctuator::Greater),
        SyntaxKind::LessEqual => Some(Punctuator::LessEqual),
        SyntaxKind::GreaterEqual => Some(Punctuator::GreaterEqual),
        SyntaxKind::Equal => Some(Punctuator::Equal),
        SyntaxKind::NotEqual => Some(Punctuator::NotEqual),
        SyntaxKind::Caret => Some(Punctuator::Caret),
        SyntaxKind::Pipe => Some(Punctuator::Pipe),
        SyntaxKind::LogicalAnd => Some(Punctuator::LogicalAnd),
        SyntaxKind::LogicalOr => Some(Punctuator::LogicalOr),
        SyntaxKind::Question => Some(Punctuator::Question),
        SyntaxKind::Colon => Some(Punctuator::Colon),
        SyntaxKind::Scope => Some(Punctuator::Scope),
        SyntaxKind::Semicolon => Some(Punctuator::Semicolon),
        SyntaxKind::Ellipsis => Some(Punctuator::Ellipsis),
        SyntaxKind::Assign => Some(Punctuator::Assign),
        SyntaxKind::MulAssign => Some(Punctuator::MulAssign),
        SyntaxKind::DivAssign => Some(Punctuator::DivAssign),
        SyntaxKind::ModAssign => Some(Punctuator::ModAssign),
        SyntaxKind::AddAssign => Some(Punctuator::AddAssign),
        SyntaxKind::SubAssign => Some(Punctuator::SubAssign),
        SyntaxKind::LeftShiftAssign => Some(Punctuator::LeftShiftAssign),
        SyntaxKind::RightShiftAssign => Some(Punctuator::RightShiftAssign),
        SyntaxKind::AndAssign => Some(Punctuator::AndAssign),
        SyntaxKind::XorAssign => Some(Punctuator::XorAssign),
        SyntaxKind::OrAssign => Some(Punctuator::OrAssign),
        SyntaxKind::Comma => Some(Punctuator::Comma),
        SyntaxKind::Hash => Some(Punctuator::Hash),
        SyntaxKind::HashHash => Some(Punctuator::HashHash),
        _ => None,
    }
}

// =============================================================================
// Tokens read back from text
// =============================================================================

/// Tokens of this kind are read back into a [`BalancedToken`].
pub open spec fn carries(kind: SyntaxKind) -> bool {
    ||| kind == SyntaxKind::Ident
    ||| kind == SyntaxKind::IntegerConst
    ||| kind == SyntaxKind::FloatConst
    ||| kind == SyntaxKind::CharConst
    ||| kind == SyntaxKind::PredefinedConst
    ||| kind == SyntaxKind::StringLiteral
    ||| kind == SyntaxKind::QuotedString
    ||| kind == SyntaxKind::Unknown
    ||| punctuator_of(kind) is Some
}

/// The predefined constant spelled `text`: `true`, `false`, and otherwise
/// `nullptr`.
pub open spec fn predefined_named(text: Seq<char>) -> PredefinedConstant {
    if text == seq!['t', 'r', 'u', 'e'] {
        PredefinedConstant::True
    } else if text == seq!['f', 'a', 'l', 's', 'e'] {
        PredefinedConstant::False
    } else {
        PredefinedConstant::Nullptr
    }
}

} // verus!
