//! Which visitor hook a node of each kind goes to.
//!
//! A tree visitor dispatches on the kind of the node it is handed; this
//! module holds that dispatch as a table, so that each hook is reached by
//! exactly the kinds listed for it.

use vstd::prelude::*;

use crate::syntax::SyntaxKind;

verus! {

/// The visitor hook that a node is handed to, one for each `visit_*`
/// method of a tree visitor. [`VisitHook::TokenDefault`] takes the kinds
/// that no other hook takes: trivia and the other tokens.
#[derive(Clone, Copy, Debug, PartialEq, Eq, Structural)]
pub enum VisitHook {
    TranslationUnit,
    ExternalDeclaration,
    FunctionDefinition,
    Expr,
    ExprError,
    ConstantExpr,
    PrimaryExpr,
    GenericSelection,
    GenericAssociationType,
    GenericAssociationDefault,
    PostfixExpr,
    ArrayAccess,
    FunctionCall,
    MemberAccess,
    MemberAccessPtr,
    PostIncrement,
    PostDecrement,
    CompoundLiteral,
    UnaryExpr,
    PreIncrement,
    PreDecrement,
    UnaryOp,
    SizeofExpr,
    SizeofType,
    Alignof,
    CastExpr,
    Cast,
    BinaryExpr,
    ConditionalExpr,
    AssignmentExpr,
    CommaExpr,
    Declaration,
    StaticAssertDecl,
    AttributeDecl,
    DeclError,
    DeclarationSpecifiers,
    DeclarationSpecifier,
    InitDeclarator,
    TypeSpecifier,
    StructSpecifier,
    EnumSpecifier,
    AtomicTypeSpecifier,
    TypeofSpecifier,
    TypeofSpecifierArg,
    TypeQualifier,
    StorageClassSpecifier,
    FunctionSpecifier,
    AlignmentSpecifier,
    TypeSpecifierQualifier,
    MemberDeclaration,
    SpecifierQualifierList,
    MemberDeclarator,
    MemberBitField,
    StructOrUnion,
    Enumerator,
    Declarator,
    DirectDeclarator,
    DirectDeclaratorIdent,
    DirectDeclaratorParen,
    DirectDeclaratorArray,
    DirectDeclaratorFunc,
    Pointer,
    PointerOrBlock,
    ArrayDeclarator,
    ArrayDeclaratorNormal,
    ArrayDeclaratorStatic,
    ArrayDeclaratorVla,
    ParameterTypeList,
    ParameterDeclaration,
    ParameterDeclarationKind,
    TypeName,
    AbstractDeclarator,
    DirectAbstractDeclarator,
    DirectAbstractDeclaratorParen,
    DirectAbstractDeclaratorArray,
    DirectAbstractDeclaratorFunc,
    Initializer,
    BracedInitializer,
    DesignatedInitializer,
    Designation,
    Designator,
    AttributeSpecifier,
    Attribute,
    AttributeToken,
    AsmAttribute,
    Statement,
    LabeledStatement,
    UnlabeledStatement,
    Label,
    ExpressionStatement,
    PrimaryBlock,
    CompoundStatement,
    BlockItem,
    SelectionStatement,
    IfStatement,
    SwitchStatement,
    IterationStatement,
    WhileStatement,
    DoWhileStatement,
    ForStatement,
    ForInit,
    JumpStatement,
    GotoStatement,
    ContinueStatement,
    BreakStatement,
    ReturnStatement,
    IterError,
    StmtError,
    Ident,
    Error,
    TokenDefault,
}

/// The hook that a node of kind `kind` goes to. Declarations of every
/// form share one hook.
pub open spec fn hook_of(kind: SyntaxKind) -> VisitHook {
    match kind {
        SyntaxKind::TranslationUnit => VisitHook::TranslationUnit,
        SyntaxKind::ExternalDeclaration => VisitHook::ExternalDeclaration,
        SyntaxKind::FunctionDefinition => VisitHook::FunctionDefinition,
        SyntaxKind::Expr => VisitHook::Expr,
        SyntaxKind::ExprError => VisitHook::ExprError,
        SyntaxKind::ConstantExpr => VisitHook::ConstantExpr,
        SyntaxKind::PrimaryExpr => VisitHook::PrimaryExpr,
        SyntaxKind::GenericSelection => VisitHook::GenericSelection,
        SyntaxKind::GenericAssociationType => VisitHook::GenericAssociationType,
        SyntaxKind::GenericAssociationDefault => VisitHook::GenericAssociationDefault,
        SyntaxKind::PostfixExpr => VisitHook::PostfixExpr,
        SyntaxKind::ArrayAccess => VisitHook::ArrayAccess,
        SyntaxKind::FunctionCall => VisitHook::FunctionCall,
        SyntaxKind::MemberAccess => VisitHook::MemberAccess,
        SyntaxKind::MemberAccessPtr => VisitHook::MemberAccessPtr,
        SyntaxKind::PostIncrement => VisitHook::PostIncrement,
        SyntaxKind::PostDecrement => VisitHook::PostDecrement,
        SyntaxKind::CompoundLiteral => VisitHook::CompoundLiteral,
        SyntaxKind::UnaryExpr => VisitHook::UnaryExpr,
        SyntaxKind::PreIncrement => VisitHook::PreIncrement,
        SyntaxKind::PreDecrement => VisitHook::PreDecrement,
        SyntaxKind::UnaryOp => VisitHook::UnaryOp,
        SyntaxKind::SizeofExpr => VisitHook::SizeofExpr,
        SyntaxKind::SizeofType => VisitHook::SizeofType,
        SyntaxKind::Alignof => VisitHook::Alignof,
        SyntaxKind::CastExpr => VisitHook::CastExpr,
        SyntaxKind::Cast => VisitHook::Cast,
        SyntaxKind::BinaryExpr => VisitHook::BinaryExpr,
        SyntaxKind::ConditionalExpr => VisitHook::ConditionalExpr,
        SyntaxKind::AssignmentExpr => VisitHook::AssignmentExpr,
        SyntaxKind::CommaExpr => VisitHook::CommaExpr,
        SyntaxKind::Declaration | SyntaxKind::NormalDecl | SyntaxKind::TypedefDecl => VisitHook::Declaration,
        SyntaxKind::StaticAssertDecl => VisitHook::StaticAssertDecl,
        SyntaxKind::AttributeDecl => VisitHook::AttributeDecl,
        SyntaxKind::DeclError => VisitHook::DeclError,
        SyntaxKind::DeclarationSpecifiers => VisitHook::DeclarationSpecifiers,
        SyntaxKind::DeclarationSpecifier => VisitHook::DeclarationSpecifier,
        SyntaxKind::InitDeclarator => VisitHook::InitDeclarator,
        SyntaxKind::TypeSpecifier => VisitHook::TypeSpecifier,
        SyntaxKind::StructSpecifier => VisitHook::StructSpecifier,
        SyntaxKind::EnumSpecifier => VisitHook::EnumSpecifier,
        SyntaxKind::AtomicTypeSpecifier => VisitHook::AtomicTypeSpecifier,
        SyntaxKind::TypeofSpecifier => VisitHook::TypeofSpecifier,
        SyntaxKind::TypeofSpecifierArg => VisitHook::TypeofSpecifierArg,
        SyntaxKind::TypeQualifier => VisitHook::TypeQualifier,
        SyntaxKind::StorageClassSpecifier => VisitHook::StorageClassSpecifier,
        SyntaxKind::FunctionSpecifier => VisitHook::FunctionSpecifier,
        SyntaxKind::AlignmentSpecifier => VisitHook::AlignmentSpecifier,
        SyntaxKind::TypeSpecifierQualifier => VisitHook::TypeSpecifierQualifier,
        SyntaxKind::MemberDeclaration => VisitHook::MemberDeclaration,
        SyntaxKind::SpecifierQualifierList => VisitHook::SpecifierQualifierList,
        SyntaxKind::MemberDeclarator => VisitHook::MemberDeclarator,
        SyntaxKind::MemberBitField => VisitHook::MemberBitField,
        SyntaxKind::StructOrUnion => VisitHook::StructOrUnion,
        SyntaxKind::Enumerator => VisitHook::Enumerator,
        SyntaxKind::Declarator => VisitHook::Declarator,
        SyntaxKind::DirectDeclarator => VisitHook::DirectDeclarator,
        SyntaxKind::DirectDeclaratorIdent => VisitHook::DirectDeclaratorIdent,
        SyntaxKind::DirectDeclaratorParen => VisitHook::DirectDeclaratorParen,
        SyntaxKind::DirectDeclaratorArray => VisitHook::DirectDeclaratorArray,
        SyntaxKind::DirectDeclaratorFunc => VisitHook::DirectDeclaratorFunc,
        SyntaxKind::Pointer => VisitHook::Pointer,
        SyntaxKind::PointerOrBlock => VisitHook::PointerOrBlock,
        SyntaxKind::ArrayDeclarator => VisitHook::ArrayDeclarator,
        SyntaxKind::ArrayDeclaratorNormal => VisitHook::ArrayDeclaratorNormal,
        SyntaxKind::ArrayDeclaratorStatic => VisitHook::ArrayDeclaratorStatic,
        SyntaxKind::ArrayDeclaratorVLA => VisitHook::ArrayDeclaratorVla,
        SyntaxKind::ParameterTypeList => VisitHook::ParameterTypeList,
        SyntaxKind::ParameterDeclaration => VisitHook::ParameterDeclaration,
        SyntaxKind::ParameterDeclarationKind => VisitHook::ParameterDeclarationKind,
        SyntaxKind::TypeName => VisitHook::TypeName,
        SyntaxKind::AbstractDeclarator => VisitHook::AbstractDeclarator,
        SyntaxKind::DirectAbstractDeclarator => VisitHook::DirectAbstractDeclarator,
        SyntaxKind::DirectAbstractDeclaratorParen => VisitHook::DirectAbstractDeclaratorParen,
        SyntaxKind::DirectAbstractDeclaratorArray => VisitHook::DirectAbstractDeclaratorArray,
        SyntaxKind::DirectAbstractDeclaratorFunc => VisitHook::DirectAbstractDeclaratorFunc,
        SyntaxKind::Initializer => VisitHook::Initializer,
        SyntaxKind::BracedInitializer => VisitHook::BracedInitializer,
        SyntaxKind::DesignatedInitializer => VisitHook::DesignatedInitializer,
        SyntaxKind::Designation => VisitHook::Designation,
        SyntaxKind::Designator => VisitHook::Designator,
        SyntaxKind::AttributeSpecifier => VisitHook::AttributeSpecifier,
        SyntaxKind::Attribute => VisitHook::Attribute,
        SyntaxKind::AttributeToken => VisitHook::AttributeToken,
        SyntaxKind::AsmAttribute => VisitHook::AsmAttribute,
        SyntaxKind::Statement => VisitHook::Statement,
        SyntaxKind::LabeledStatement => VisitHook::LabeledStatement,
        SyntaxKind::UnlabeledStatement => VisitHook::UnlabeledStatement,
        SyntaxKind::Label => VisitHook::Label,
        SyntaxKind::ExpressionStatement => VisitHook::ExpressionStatement,
        SyntaxKind::PrimaryBlock => VisitHook::PrimaryBlock,
        SyntaxKind::CompoundStatement => VisitHook::CompoundStatement,
        SyntaxKind::BlockItem => VisitHook::BlockItem,
        SyntaxKind::SelectionStatement => VisitHook::SelectionStatement,
        SyntaxKind::IfStatement => VisitHook::IfStatement,
        SyntaxKind::SwitchStatement => VisitHook::SwitchStatement,
        SyntaxKind::IterationStatement => VisitHook::IterationStatement,
        SyntaxKind::WhileStatement => VisitHook::WhileStatement,
        SyntaxKind::DoWhileStatement => VisitHook::DoWhileStatement,
        SyntaxKind::ForStatement => VisitHook::ForStatement,
        SyntaxKind::ForInit => VisitHook::ForInit,
        SyntaxKind::JumpStatement => VisitHook::JumpStatement,
        SyntaxKind::GotoStatement => VisitHook::GotoStatement,
        SyntaxKind::ContinueStatement => VisitHook::ContinueStatement,
        SyntaxKind::BreakStatement => VisitHook::BreakStatement,
        SyntaxKind::ReturnStatement => VisitHook::ReturnStatement,
        SyntaxKind::IterError => VisitHook::IterError,
        SyntaxKind::StmtError => VisitHook::StmtError,
        SyntaxKind::Ident => VisitHook::Ident,
        SyntaxKind::Error => VisitHook::Error,
        _ => VisitHook::TokenDefault,
    }
}

/// The hook that a node of kind `kind` is handed to (see [`hook_of`]).
/// The kind of node a hook is named after (for the declaration hook, the
/// plain declaration); the default hook is named after no kind and gets an
/// error kind.
pub open spec fn hook_kind(h: VisitHook) -> SyntaxKind {
    match h {
        VisitHook::TranslationUnit => SyntaxKind::TranslationUnit,
        VisitHook::ExternalDeclaration => SyntaxKind::ExternalDeclaration,
        VisitHook::FunctionDefinition => SyntaxKind::FunctionDefinition,
        VisitHook::Expr => SyntaxKind::Expr,
        VisitHook::ExprError => SyntaxKind::ExprError,
        VisitHook::ConstantExpr => SyntaxKind::ConstantExpr,
        VisitHook::PrimaryExpr => SyntaxKind::PrimaryExpr,
        VisitHook::GenericSelection => SyntaxKind::GenericSelection,
        VisitHook::GenericAssociationType => SyntaxKind::GenericAssociationType,
        VisitHook::GenericAssociationDefault => SyntaxKind::GenericAssociationDefault,
        VisitHook::PostfixExpr => SyntaxKind::PostfixExpr,
        VisitHook::ArrayAccess => SyntaxKind::ArrayAccess,
        VisitHook::FunctionCall => SyntaxKind::FunctionCall,
        VisitHook::MemberAccess => SyntaxKind::MemberAccess,
        VisitHook::MemberAccessPtr => SyntaxKind::MemberAccessPtr,
        VisitHook::PostIncrement => SyntaxKind::PostIncrement,
        VisitHook::PostDecrement => SyntaxKind::PostDecrement,
        VisitHook::CompoundLiteral => SyntaxKind::CompoundLiteral,
        VisitHook::UnaryExpr => SyntaxKind::UnaryExpr,
        VisitHook::PreIncrement => SyntaxKind::PreIncrement,
        VisitHook::PreDecrement => SyntaxKind::PreDecrement,
        VisitHook::UnaryOp => SyntaxKind::UnaryOp,
        VisitHook::SizeofExpr => SyntaxKind::SizeofExpr,
        VisitHook::SizeofType => SyntaxKind::SizeofType,
        VisitHook::Alignof => SyntaxKind::Alignof,
        VisitHook::CastExpr => SyntaxKind::CastExpr,
        VisitHook::Cast => SyntaxKind::Cast,
        VisitHook::BinaryExpr => SyntaxKind::BinaryExpr,
        VisitHook::ConditionalExpr => SyntaxKind::ConditionalExpr,
        VisitHook::AssignmentExpr => SyntaxKind::AssignmentExpr,
        VisitHook::CommaExpr => SyntaxKind::CommaExpr,
        VisitHook::Declaration => SyntaxKind::Declaration,
        VisitHook::StaticAssertDecl => SyntaxKind::StaticAssertDecl,
        VisitHook::AttributeDecl => SyntaxKind::AttributeDecl,
        VisitHook::DeclError => SyntaxKind::DeclError,
        VisitHook::DeclarationSpecifiers => SyntaxKind::DeclarationSpecifiers,
        VisitHook::DeclarationSpecifier => SyntaxKind::DeclarationSpecifier,
        VisitHook::InitDeclarator => SyntaxKind::InitDeclarator,
        VisitHook::TypeSpecifier => SyntaxKind::TypeSpecifier,
        VisitHook::StructSpecifier => SyntaxKind::StructSpecifier,
        VisitHook::EnumSpecifier => SyntaxKind::EnumSpecifier,
        VisitHook::AtomicTypeSpecifier => SyntaxKind::AtomicTypeSpecifier,
        VisitHook::TypeofSpecifier => SyntaxKind::TypeofSpecifier,
        VisitHook::TypeofSpecifierArg => SyntaxKind::TypeofSpecifierArg,
        VisitHook::TypeQualifier => SyntaxKind::TypeQualifier,
        VisitHook::StorageClassSpecifier => SyntaxKind::StorageClassSpecifier,
        VisitHook::FunctionSpecifier => SyntaxKind::FunctionSpecifier,
        VisitHook::AlignmentSpecifier => SyntaxKind::AlignmentSpecifier,
        VisitHook::TypeSpecifierQualifier => SyntaxKind::TypeSpecifierQualifier,
        VisitHook::MemberDeclaration => SyntaxKind::MemberDeclaration,
        VisitHook::SpecifierQualifierList => SyntaxKind::SpecifierQualifierList,
        VisitHook::MemberDeclarator => SyntaxKind::MemberDeclarator,
        VisitHook::MemberBitField => SyntaxKind::MemberBitField,
        VisitHook::StructOrUnion => SyntaxKind::StructOrUnion,
        VisitHook::Enumerator => SyntaxKind::Enumerator,
        VisitHook::Declarator => SyntaxKind::Declarator,
        VisitHook::DirectDeclarator => SyntaxKind::DirectDeclarator,
        VisitHook::DirectDeclaratorIdent => SyntaxKind::DirectDeclaratorIdent,
        VisitHook::DirectDeclaratorParen => SyntaxKind::DirectDeclaratorParen,
        VisitHook::DirectDeclaratorArray => SyntaxKind::DirectDeclaratorArray,
        VisitHook::DirectDeclaratorFunc => SyntaxKind::DirectDeclaratorFunc,
        VisitHook::Pointer => SyntaxKind::Pointer,
        VisitHook::PointerOrBlock => SyntaxKind::PointerOrBlock,
        VisitHook::ArrayDeclarator => SyntaxKind::ArrayDeclarator,
        VisitHook::ArrayDeclaratorNormal => SyntaxKind::ArrayDeclaratorNormal,
        VisitHook::ArrayDeclaratorStatic => SyntaxKind::ArrayDeclaratorStatic,
        VisitHook::ArrayDeclaratorVla => SyntaxKind::ArrayDeclaratorVLA,
        VisitHook::ParameterTypeList => SyntaxKind::ParameterTypeList,
        VisitHook::ParameterDeclaration => SyntaxKind::ParameterDeclaration,
        VisitHook::ParameterDeclarationKind => SyntaxKind::ParameterDeclarationKind,
        VisitHook::TypeName => SyntaxKind::TypeName,
        VisitHook::AbstractDeclarator => SyntaxKind::AbstractDeclarator,
        VisitHook::DirectAbstractDeclarator => SyntaxKind::DirectAbstractDeclarator,
        VisitHook::DirectAbstractDeclaratorParen => SyntaxKind::DirectAbstractDeclaratorParen,
        VisitHook::DirectAbstractDeclaratorArray => SyntaxKind::DirectAbstractDeclaratorArray,
        VisitHook::DirectAbstractDeclaratorFunc => SyntaxKind::DirectAbstractDeclaratorFunc,
        VisitHook::Initializer => SyntaxKind::Initializer,
        VisitHook::BracedInitializer => SyntaxKind::BracedInitializer,
        VisitHook::DesignatedInitializer => SyntaxKind::DesignatedInitializer,
        VisitHook::Designation => SyntaxKind::Designation,
        VisitHook::Designator => SyntaxKind::Designator,
        VisitHook::AttributeSpecifier => SyntaxKind::AttributeSpecifier,
        VisitHook::Attribute => SyntaxKind::Attribute,
        VisitHook::AttributeToken => SyntaxKind::AttributeToken,
        VisitHook::AsmAttribute => SyntaxKind::AsmAttribute,
        VisitHook::Statement => SyntaxKind::Statement,
        VisitHook::LabeledStatement => SyntaxKind::LabeledStatement,
        VisitHook::UnlabeledStatement => SyntaxKind::UnlabeledStatement,
        VisitHook::Label => SyntaxKind::Label,
        VisitHook::ExpressionStatement => SyntaxKind::ExpressionStatement,
        VisitHook::PrimaryBlock => SyntaxKind::PrimaryBlock,
        VisitHook::CompoundStatement => SyntaxKind::CompoundStatement,
        VisitHook::BlockItem => SyntaxKind::BlockItem,
        VisitHook::SelectionStatement => SyntaxKind::SelectionStatement,
        VisitHook::IfStatement => SyntaxKind::IfStatement,
        VisitHook::SwitchStatement => SyntaxKind::SwitchStatement,
        VisitHook::IterationStatement => SyntaxKind::IterationStatement,
        VisitHook::WhileStatement => SyntaxKind::WhileStatement,
        VisitHook::DoWhileStatement => SyntaxKind::DoWhileStatement,
        VisitHook::ForStatement => SyntaxKind::ForStatement,
        VisitHook::ForInit => SyntaxKind::ForInit,
        VisitHook::JumpStatement => SyntaxKind::JumpStatement,
        VisitHook::GotoStatement => SyntaxKind::GotoStatement,
        VisitHook::ContinueStatement => SyntaxKind::ContinueStatement,
        VisitHook::BreakStatement => SyntaxKind::BreakStatement,
        VisitHook::ReturnStatement => SyntaxKind::ReturnStatement,
        VisitHook::IterError => SyntaxKind::IterError,
        VisitHook::StmtError => SyntaxKind::StmtError,
        VisitHook::Ident => SyntaxKind::Ident,
        VisitHook::Error => SyntaxKind::Error,
        VisitHook::TokenDefault => SyntaxKind::Error,
    }
}

/// A node goes to the hook named after its kind: the hook that a kind is
/// dispatched to, unless it is the default one, is named after that kind
/// (the three forms of declaration share the declaration hook).
pub proof fn lemma_hook_named(kind: SyntaxKind)
    ensures
        hook_of(kind) != VisitHook::TokenDefault ==> hook_kind(hook_of(kind)) == kind || (hook_of(kind)
            == VisitHook::Declaration && (kind == SyntaxKind::NormalDecl || kind == SyntaxKind::TypedefDecl)),
{
}

/// Every hook but the default one is reached: the kind it is named after is
/// dispatched to it.
pub proof fn lemma_hook_reached(h: VisitHook)
    ensures
        h != VisitHook::TokenDefault ==> hook_of(hook_kind(h)) == h,
{
}

pub fn visit_hook(kind: SyntaxKind) -> (r: VisitHook)
    ensures
        r == hook_of(kind),
{
    match kind {
        SyntaxKind::TranslationUnit => VisitHook::TranslationUnit,
        SyntaxKind::ExternalDeclaration => VisitHook::ExternalDeclaration,
        SyntaxKind::FunctionDefinition => VisitHook::FunctionDefinition,
        SyntaxKind::Expr => VisitHook::Expr,
        SyntaxKind::ExprError => VisitHook::ExprError,
        SyntaxKind::ConstantExpr => VisitHook::ConstantExpr,
        SyntaxKind::PrimaryExpr => VisitHook::PrimaryExpr,
        SyntaxKind::GenericSelection => VisitHook::GenericSelection,
        SyntaxKind::GenericAssociationType => VisitHook::GenericAssociationType,
        SyntaxKind::GenericAssociationDefault => VisitHook::GenericAssociationDefault,
        SyntaxKind::PostfixExpr => VisitHook::PostfixExpr,
        SyntaxKind::ArrayAccess => VisitHook::ArrayAccess,
        SyntaxKind::FunctionCall => VisitHook::FunctionCall,
        SyntaxKind::MemberAccess => VisitHook::MemberAccess,
        SyntaxKind::MemberAccessPtr => VisitHook::MemberAccessPtr,
        SyntaxKind::PostIncrement => VisitHook::PostIncrement,
        SyntaxKind::PostDecrement => VisitHook::PostDecrement,
        SyntaxKind::CompoundLiteral => VisitHook::CompoundLiteral,
        SyntaxKind::UnaryExpr => VisitHook::UnaryExpr,
        SyntaxKind::PreIncrement => VisitHook::PreIncrement,
        SyntaxKind::PreDecrement => VisitHook::PreDecrement,
        SyntaxKind::UnaryOp => VisitHook::UnaryOp,
        SyntaxKind::SizeofExpr => VisitHook::SizeofExpr,
        SyntaxKind::SizeofType => VisitHook::SizeofType,
        SyntaxKind::Alignof => VisitHook::Alignof,
        SyntaxKind::CastExpr => VisitHook::CastExpr,
        SyntaxKind::Cast => VisitHook::Cast,
        SyntaxKind::BinaryExpr => VisitHook::BinaryExpr,
        SyntaxKind::ConditionalExpr => VisitHook::ConditionalExpr,
        SyntaxKind::AssignmentExpr => VisitHook::AssignmentExpr,
        SyntaxKind::CommaExpr => VisitHook::CommaExpr,
        SyntaxKind::Declaration | SyntaxKind::NormalDecl | SyntaxKind::TypedefDecl => VisitHook::Declaration,
        SyntaxKind::StaticAssertDecl => VisitHook::StaticAssertDecl,
        SyntaxKind::AttributeDecl => VisitHook::AttributeDecl,
        SyntaxKind::DeclError => VisitHook::DeclError,
        SyntaxKind::DeclarationSpecifiers => VisitHook::DeclarationSpecifiers,
        SyntaxKind::DeclarationSpecifier => VisitHook::DeclarationSpecifier,
        SyntaxKind::InitDeclarator => VisitHook::InitDeclarator,
        SyntaxKind::TypeSpecifier => VisitHook::TypeSpecifier,
        SyntaxKind::StructSpecifier => VisitHook::StructSpecifier,
        SyntaxKind::EnumSpecifier => VisitHook::EnumSpecifier,
        SyntaxKind::AtomicTypeSpecifier => VisitHook::AtomicTypeSpecifier,
        SyntaxKind::TypeofSpecifier => VisitHook::TypeofSpecifier,
        SyntaxKind::TypeofSpecifierArg => VisitHook::TypeofSpecifierArg,
        SyntaxKind::TypeQualifier => VisitHook::TypeQualifier,
        SyntaxKind::StorageClassSpecifier => VisitHook::StorageClassSpecifier,
        SyntaxKind::FunctionSpecifier => VisitHook::FunctionSpecifier,
        SyntaxKind::AlignmentSpecifier => VisitHook::AlignmentSpecifier,
        SyntaxKind::TypeSpecifierQualifier => VisitHook::TypeSpecifierQualifier,
        SyntaxKind::MemberDeclaration => VisitHook::MemberDeclaration,
        SyntaxKind::SpecifierQualifierList => VisitHook::SpecifierQualifierList,
        SyntaxKind::MemberDeclarator => VisitHook::MemberDeclarator,
        SyntaxKind::MemberBitField => VisitHook::MemberBitField,
        SyntaxKind::StructOrUnion => VisitHook::StructOrUnion,
        SyntaxKind::Enumerator => VisitHook::Enumerator,
        SyntaxKind::Declarator => VisitHook::Declarator,
        SyntaxKind::DirectDeclarator => VisitHook::DirectDeclarator,
        SyntaxKind::DirectDeclaratorIdent => VisitHook::DirectDeclaratorIdent,
        SyntaxKind::DirectDeclaratorParen => VisitHook::DirectDeclaratorParen,
        SyntaxKind::DirectDeclaratorArray => VisitHook::DirectDeclaratorArray,
        SyntaxKind::DirectDeclaratorFunc => VisitHook::DirectDeclaratorFunc,
        SyntaxKind::Pointer => VisitHook::Pointer,
        SyntaxKind::PointerOrBlock => VisitHook::PointerOrBlock,
        SyntaxKind::ArrayDeclarator => VisitHook::ArrayDeclarator,
        SyntaxKind::ArrayDeclaratorNormal => VisitHook::ArrayDeclaratorNormal,
        SyntaxKind::ArrayDeclaratorStatic => VisitHook::ArrayDeclaratorStatic,
        SyntaxKind::ArrayDeclaratorVLA => VisitHook::ArrayDeclaratorVla,
        SyntaxKind::ParameterTypeList => VisitHook::ParameterTypeList,
        SyntaxKind::ParameterDeclaration => VisitHook::ParameterDeclaration,
        SyntaxKind::ParameterDeclarationKind => VisitHook::ParameterDeclarationKind,
        SyntaxKind::TypeName => VisitHook::TypeName,
        SyntaxKind::AbstractDeclarator => VisitHook::AbstractDeclarator,
        SyntaxKind::DirectAbstractDeclarator => VisitHook::DirectAbstractDeclarator,
        SyntaxKind::DirectAbstractDeclaratorParen => VisitHook::DirectAbstractDeclaratorParen,
        SyntaxKind::DirectAbstractDeclaratorArray => VisitHook::DirectAbstractDeclaratorArray,
        SyntaxKind::DirectAbstractDeclaratorFunc => VisitHook::DirectAbstractDeclaratorFunc,
        SyntaxKind::Initializer => VisitHook::Initializer,
        SyntaxKind::BracedInitializer => VisitHook::BracedInitializer,
        SyntaxKind::DesignatedInitializer => VisitHook::DesignatedInitializer,
        SyntaxKind::Designation => VisitHook::Designation,
        SyntaxKind::Designator => VisitHook::Designator,
        SyntaxKind::AttributeSpecifier => VisitHook::AttributeSpecifier,
        SyntaxKind::Attribute => VisitHook::Attribute,
        SyntaxKind::AttributeToken => VisitHook::AttributeToken,
        SyntaxKind::AsmAttribute => VisitHook::AsmAttribute,
        SyntaxKind::Statement => VisitHook::Statement,
        SyntaxKind::LabeledStatement => VisitHook::LabeledStatement,
        SyntaxKind::UnlabeledStatement => VisitHook::UnlabeledStatement,
        SyntaxKind::Label => VisitHook::Label,
        SyntaxKind::ExpressionStatement => VisitHook::ExpressionStatement,
        SyntaxKind::PrimaryBlock => VisitHook::PrimaryBlock,
        SyntaxKind::CompoundStatement => VisitHook::CompoundStatement,
        SyntaxKind::BlockItem => VisitHook::BlockItem,
        SyntaxKind::SelectionStatement => VisitHook::SelectionStatement,
        SyntaxKind::IfStatement => VisitHook::IfStatement,
        SyntaxKind::SwitchStatement => VisitHook::SwitchStatement,
        SyntaxKind::IterationStatement => VisitHook::IterationStatement,
        SyntaxKind::WhileStatement => VisitHook::WhileStatement,
        SyntaxKind::DoWhileStatement => VisitHook::DoWhileStatement,
        SyntaxKind::ForStatement => VisitHook::ForStatement,
        SyntaxKind::ForInit => VisitHook::ForInit,
        SyntaxKind::JumpStatement => VisitHook::JumpStatement,
        SyntaxKind::GotoStatement => VisitHook::GotoStatement,
        SyntaxKind::ContinueStatement => VisitHook::ContinueStatement,
        SyntaxKind::BreakStatement => VisitHook::BreakStatement,
        SyntaxKind::ReturnStatement => VisitHook::ReturnStatement,
        SyntaxKind::IterError => VisitHook::IterError,
        SyntaxKind::StmtError => VisitHook::StmtError,
        SyntaxKind::Ident => VisitHook::Ident,
        SyntaxKind::Error => VisitHook::Error,
        _ => VisitHook::TokenDefault,
    }
}

} // verus!
