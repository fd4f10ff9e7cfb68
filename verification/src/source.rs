use vstd::prelude::*;

use crate::operators::{
    SourceAssignmentOperator, SourceBinaryOperator, SourceLogicalOperator, SourcePropertyKey,
    SourceUnaryOperator,
};
use crate::span::SourceSpan;

verus! {

// The syntax tree the parser hands to the lowering, as plain values: each
// node holds what the lowering reads of it and nothing more. Forms the
// lowering refuses outright carry only their span and which form they are.

/// A parsed script.
#[derive(Debug)]
pub struct SourceProgram {
    pub span: SourceSpan,
    pub body: Vec<SourceStatement>,
}

/// A `{ ... }` block.
#[derive(Debug)]
pub struct SourceBlock {
    pub span: SourceSpan,
    pub body: Vec<SourceStatement>,
}

/// A name together with where it is written.
#[derive(Debug)]
pub struct SourceIdentifier {
    pub span: SourceSpan,
    pub name: String,
}

/// The keyword of a variable declaration.
#[derive(Debug, Clone, Copy, PartialEq, Eq, Structural)]
pub enum SourceDeclarationKind {
    Var,
    Let,
    Const,
    Using,
    AwaitUsing,
}

#[derive(Debug)]
pub struct SourceVariableDeclaration {
    pub span: SourceSpan,
    pub kind: SourceDeclarationKind,
    pub declarations: Vec<SourceDeclarator>,
}

#[derive(Debug)]
pub struct SourceDeclarator {
    pub span: SourceSpan,
    pub id: SourceBindingPattern,
    pub init: Option<SourceExpression>,
}

/// A binding pattern as written in a declaration or a parameter list.
#[derive(Debug)]
pub enum SourceBindingPattern {
    Identifier { span: SourceSpan, name: String },
    Object {
        span: SourceSpan,
        properties: Vec<SourceBindingProperty>,
        rest: Option<Box<SourceBindingPattern>>,
    },
    Array {
        span: SourceSpan,
        elements: Vec<Option<SourceBindingPattern>>,
        rest: Option<Box<SourceBindingPattern>>,
    },
    /// `left = right`.
    Assignment { span: SourceSpan, left: Box<SourceBindingPattern>, right: SourceExpression },
}

#[derive(Debug)]
pub struct SourceBindingProperty {
    pub span: SourceSpan,
    pub key: SourcePropertyKey,
    pub value: SourceBindingPattern,
}

#[derive(Debug)]
pub struct SourceParameter {
    pub span: SourceSpan,
    pub pattern: SourceBindingPattern,
    pub initializer: Option<SourceExpression>,
}

/// `...argument` at the end of a parameter list.
#[derive(Debug)]
pub struct SourceRestParameter {
    pub span: SourceSpan,
    pub argument: SourceBindingPattern,
}

#[derive(Debug)]
pub struct SourceParameters {
    pub items: Vec<SourceParameter>,
    pub rest: Option<SourceRestParameter>,
}

/// A function declaration or expression.
#[derive(Debug)]
pub struct SourceFunction {
    pub span: SourceSpan,
    pub id: Option<SourceIdentifier>,
    pub generator: bool,
    pub is_async: bool,
    pub params: SourceParameters,
    /// `None` for a declaration without a body.
    pub body: Option<Vec<SourceStatement>>,
}

/// An arrow function; `expression` marks a concise body (`x => x + 1`),
/// which the parser presents as one expression statement.
#[derive(Debug)]
pub struct SourceArrowFunction {
    pub span: SourceSpan,
    pub is_async: bool,
    pub expression: bool,
    pub params: SourceParameters,
    pub body: Vec<SourceStatement>,
}

#[derive(Debug)]
pub struct SourceCatchClause {
    pub span: SourceSpan,
    pub param: Option<SourceBindingPattern>,
    pub body: SourceBlock,
}

#[derive(Debug)]
pub struct SourceSwitchCase {
    pub span: SourceSpan,
    pub test: Option<SourceExpression>,
    pub consequent: Vec<SourceStatement>,
}

/// The first clause of a `for (init; test; update)` loop.
#[derive(Debug)]
pub enum SourceForInit {
    Declaration(SourceVariableDeclaration),
    Expression(SourceExpression),
}

/// What a `for...of` loop assigns each value to.
#[derive(Debug)]
pub enum SourceForOfLeft {
    Declaration(SourceVariableDeclaration),
    /// An existing assignment target, written at `span`.
    Target { span: SourceSpan, target: SourceAssignmentTarget },
}

/// Statement forms that are refused whole.
#[derive(Debug, Clone, Copy, PartialEq, Eq, Structural)]
pub enum RefusedStatement {
    Debugger,
    Labeled,
    ModuleDeclaration,
    With,
    Class,
}

#[derive(Debug)]
pub enum SourceStatement {
    Block(SourceBlock),
    Break { span: SourceSpan },
    Continue { span: SourceSpan },
    Empty { span: SourceSpan },
    Expression { span: SourceSpan, expression: SourceExpression },
    For {
        span: SourceSpan,
        init: Option<SourceForInit>,
        test: Option<SourceExpression>,
        update: Option<SourceExpression>,
        body: Box<SourceStatement>,
    },
    ForOf {
        span: SourceSpan,
        is_await: bool,
        left: SourceForOfLeft,
        right: SourceExpression,
        body: Box<SourceStatement>,
    },
    /// `for (left in right) body`.
    ForIn {
        span: SourceSpan,
        left: SourceForOfLeft,
        right: SourceExpression,
        body: Box<SourceStatement>,
    },
    If {
        span: SourceSpan,
        test: SourceExpression,
        consequent: Box<SourceStatement>,
        alternate: Option<Box<SourceStatement>>,
    },
    Return { span: SourceSpan, argument: Option<SourceExpression> },
    Switch { span: SourceSpan, discriminant: SourceExpression, cases: Vec<SourceSwitchCase> },
    Throw { span: SourceSpan, argument: SourceExpression },
    Try {
        span: SourceSpan,
        block: SourceBlock,
        handler: Option<SourceCatchClause>,
        finalizer: Option<SourceBlock>,
    },
    VariableDeclaration(SourceVariableDeclaration),
    While { span: SourceSpan, test: SourceExpression, body: Box<SourceStatement> },
    DoWhile { span: SourceSpan, body: Box<SourceStatement>, test: SourceExpression },
    FunctionDeclaration(SourceFunction),
    Refused { span: SourceSpan, form: RefusedStatement },
    /// Any other statement; `description` is how the parser prints it.
    Other { span: SourceSpan, description: String },
}

/// One piece of text of a template literal: its cooked value, when the
/// escapes in it are valid, and its raw text.
#[derive(Debug)]
pub struct SourceTemplateElement {
    pub cooked: Option<String>,
    pub raw: String,
}

#[derive(Debug)]
pub enum SourceArrayElement {
    Spread { span: SourceSpan },
    Hole { span: SourceSpan },
    Expression(SourceExpression),
}

/// How an object-literal property is written: `key: value`, or a getter
/// or a setter.
#[derive(Debug, Clone, Copy, PartialEq, Eq, Structural)]
pub enum SourcePropertyKind {
    Init,
    Getter,
    Setter,
}

#[derive(Debug)]
pub enum SourceObjectMember {
    Property {
        span: SourceSpan,
        kind: SourcePropertyKind,
        method: bool,
        key: SourcePropertyKey,
        value: SourceExpression,
    },
    Spread { span: SourceSpan },
}

#[derive(Debug)]
pub enum SourceArgument {
    Spread { span: SourceSpan },
    Expression(SourceExpression),
}

/// The target of an assignment expression.
#[derive(Debug)]
pub enum SourceAssignmentTarget {
    Identifier { span: SourceSpan, name: String },
    ComputedMember {
        span: SourceSpan,
        object: Box<SourceExpression>,
        expression: Box<SourceExpression>,
        optional: bool,
    },
    StaticMember { span: SourceSpan, object: Box<SourceExpression>, property: String, optional: bool },
    PrivateField { span: SourceSpan },
    /// An array or object destructuring target.
    Destructuring { span: SourceSpan },
    Other { span: SourceSpan },
}

/// The expression inside an optional chain (`a?.b`, `f?.()`).
#[derive(Debug)]
pub enum SourceChainElement {
    Call { span: SourceSpan, callee: Box<SourceExpression>, arguments: Vec<SourceArgument> },
    ComputedMember { span: SourceSpan, object: Box<SourceExpression>, expression: Box<SourceExpression> },
    StaticMember { span: SourceSpan, object: Box<SourceExpression>, property: String },
    PrivateField { span: SourceSpan },
    /// A TypeScript non-null assertion `e!`.
    NonNull(Box<SourceExpression>),
}

/// Expression forms that are refused whole.
#[derive(Debug, Clone, Copy, PartialEq, Eq, Structural)]
pub enum RefusedExpression {
    MetaProperty,
    Import,
    BigInt,
    Super,
    PrivateField,
    Update,
    Yield,
    TaggedTemplate,
    Class,
    /// JSX, TypeScript-only forms, `#x in o`, and anything else.
    Other,
}

#[derive(Debug)]
pub enum SourceExpression {
    Bool { span: SourceSpan, value: bool },
    Null { span: SourceSpan },
    /// A number literal, by its IEEE-754 bit pattern.
    Number { span: SourceSpan, value_bits: u64 },
    String { span: SourceSpan, value: String },
    Template { span: SourceSpan, quasis: Vec<SourceTemplateElement>, expressions: Vec<SourceExpression> },
    Identifier { span: SourceSpan, name: String },
    This { span: SourceSpan },
    Array { span: SourceSpan, elements: Vec<SourceArrayElement> },
    /// `a, b, c`.
    Sequence { span: SourceSpan, expressions: Vec<SourceExpression> },
    Object { span: SourceSpan, properties: Vec<SourceObjectMember> },
    Arrow(Box<SourceArrowFunction>),
    Function(Box<SourceFunction>),
    Unary { span: SourceSpan, operator: SourceUnaryOperator, argument: Box<SourceExpression> },
    Binary {
        span: SourceSpan,
        operator: SourceBinaryOperator,
        left: Box<SourceExpression>,
        right: Box<SourceExpression>,
    },
    Logical {
        span: SourceSpan,
        operator: SourceLogicalOperator,
        left: Box<SourceExpression>,
        right: Box<SourceExpression>,
    },
    Conditional {
        span: SourceSpan,
        test: Box<SourceExpression>,
        consequent: Box<SourceExpression>,
        alternate: Box<SourceExpression>,
    },
    Assignment {
        span: SourceSpan,
        target: SourceAssignmentTarget,
        operator: SourceAssignmentOperator,
        value: Box<SourceExpression>,
    },
    Call { span: SourceSpan, callee: Box<SourceExpression>, arguments: Vec<SourceArgument>, optional: bool },
    Chain(SourceChainElement),
    ComputedMember {
        span: SourceSpan,
        object: Box<SourceExpression>,
        expression: Box<SourceExpression>,
        optional: bool,
    },
    StaticMember { span: SourceSpan, object: Box<SourceExpression>, property: String, optional: bool },
    Await { span: SourceSpan, argument: Box<SourceExpression> },
    New { span: SourceSpan, callee: Box<SourceExpression>, arguments: Vec<SourceArgument> },
    Parenthesized(Box<SourceExpression>),
    RegExp { span: SourceSpan, pattern: String, flags: String },
    Refused { span: SourceSpan, form: RefusedExpression },
}

} // verus!
