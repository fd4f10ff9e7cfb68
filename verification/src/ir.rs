use vstd::prelude::*;

use crate::span::SourceSpan;

verus! {

// The lowered program: the subset of JavaScript the runtime executes, after
// the parser has refused everything outside it.

/// A validated guest program together with its source text.
#[derive(Debug)]
pub struct CompiledProgram {
    pub source: String,
    pub script: Script,
}

#[derive(Debug)]
pub struct Script {
    pub span: SourceSpan,
    pub body: Vec<Stmt>,
}

#[derive(Debug, Clone, Copy, PartialEq, Eq, Structural)]
pub enum BindingKind {
    Let,
    Const,
}

#[derive(Debug)]
pub struct Declarator {
    pub span: SourceSpan,
    pub pattern: Pattern,
    pub initializer: Option<Expr>,
}

#[derive(Debug)]
pub enum ForInit {
    VariableDecl { kind: BindingKind, declarators: Vec<Declarator> },
    Expression(Expr),
}

#[derive(Debug)]
pub struct SwitchCase {
    pub span: SourceSpan,
    pub test: Option<Expr>,
    pub consequent: Vec<Stmt>,
}

#[derive(Debug)]
pub struct CatchClause {
    pub span: SourceSpan,
    pub parameter: Option<Pattern>,
    pub body: Box<Stmt>,
}

#[derive(Debug)]
pub enum Stmt {
    Block { span: SourceSpan, body: Vec<Stmt> },
    Break { span: SourceSpan },
    Continue { span: SourceSpan },
    Empty { span: SourceSpan },
    Expression { span: SourceSpan, expression: Expr },
    For {
        span: SourceSpan,
        init: Option<ForInit>,
        test: Option<Expr>,
        update: Option<Expr>,
        body: Box<Stmt>,
    },
    ForOf {
        span: SourceSpan,
        kind: BindingKind,
        pattern: Pattern,
        iterable: Expr,
        body: Box<Stmt>,
    },
    If { span: SourceSpan, test: Expr, consequent: Box<Stmt>, alternate: Option<Box<Stmt>> },
    Return { span: SourceSpan, value: Option<Expr> },
    Switch { span: SourceSpan, discriminant: Expr, cases: Vec<SwitchCase> },
    Throw { span: SourceSpan, value: Expr },
    Try {
        span: SourceSpan,
        body: Box<Stmt>,
        catch: Option<CatchClause>,
        finally: Option<Box<Stmt>>,
    },
    VariableDecl { span: SourceSpan, kind: BindingKind, declarators: Vec<Declarator> },
    While { span: SourceSpan, test: Expr, body: Box<Stmt> },
    DoWhile { span: SourceSpan, body: Box<Stmt>, test: Expr },
    FunctionDecl { span: SourceSpan, function: FunctionExpr },
}

#[derive(Debug)]
pub struct FunctionExpr {
    pub span: SourceSpan,
    pub name: Option<String>,
    pub params: Vec<Pattern>,
    pub rest: Option<Pattern>,
    pub body: Vec<Stmt>,
    pub is_async: bool,
    pub is_arrow: bool,
}

/// A property key. A numeric key carries the IEEE-754 bit pattern of the
/// number literal together with the property-key text that number formats to
/// (`1` for `1.0`, `0.5` for `0.5`), fixed where the literal was read.
#[derive(Debug)]
pub enum PropertyName {
    Identifier(String),
    String(String),
    Number { value_bits: u64, key: String },
}

#[derive(Debug)]
pub enum MemberProperty {
    Static(PropertyName),
    Computed(Box<Expr>),
}

#[derive(Debug)]
pub struct ObjectProperty {
    pub span: SourceSpan,
    pub key: PropertyName,
    pub value: Expr,
}

#[derive(Debug)]
pub struct ObjectPatternProperty {
    pub span: SourceSpan,
    pub key: PropertyName,
    pub value: Pattern,
}

/// A binding pattern (`x`, `{ a, b: c, ...r }`, `[x, , y, ...r]`, `p = e`).
#[derive(Debug)]
pub enum Pattern {
    Identifier { span: SourceSpan, name: String },
    Object { span: SourceSpan, properties: Vec<ObjectPatternProperty>, rest: Option<Box<Pattern>> },
    Array { span: SourceSpan, elements: Vec<Option<Pattern>>, rest: Option<Box<Pattern>> },
    Default { span: SourceSpan, target: Box<Pattern>, default_value: Expr },
}

#[derive(Debug)]
pub enum AssignTarget {
    Identifier { span: SourceSpan, name: String },
    Member { span: SourceSpan, object: Box<Expr>, property: MemberProperty, optional: bool },
}

#[derive(Debug, Clone, Copy, PartialEq, Eq, Structural)]
pub enum UnaryOp {
    Plus,
    Minus,
    Not,
    Typeof,
    Void,
}

#[derive(Debug, Clone, Copy, PartialEq, Eq, Structural)]
pub enum BinaryOp {
    Add,
    Sub,
    Mul,
    Div,
    Rem,
    Pow,
    Eq,
    NotEq,
    StrictEq,
    StrictNotEq,
    LessThan,
    LessThanEq,
    GreaterThan,
    GreaterThanEq,
    In,
}

#[derive(Debug, Clone, Copy, PartialEq, Eq, Structural)]
pub enum LogicalOp {
    And,
    Or,
    NullishCoalesce,
}

#[derive(Debug, Clone, Copy, PartialEq, Eq, Structural)]
pub enum AssignOp {
    Assign,
    AddAssign,
    SubAssign,
    MulAssign,
    DivAssign,
    OrAssign,
    AndAssign,
    NullishAssign,
}

/// An expression. A number literal carries its IEEE-754 bit pattern.
#[derive(Debug)]
pub enum Expr {
    Undefined { span: SourceSpan },
    Null { span: SourceSpan },
    Bool { span: SourceSpan, value: bool },
    Number { span: SourceSpan, value_bits: u64 },
    String { span: SourceSpan, value: String },
    Template { span: SourceSpan, quasis: Vec<String>, expressions: Vec<Expr> },
    Identifier { span: SourceSpan, name: String },
    This { span: SourceSpan },
    Array { span: SourceSpan, elements: Vec<Expr> },
    /// `a, b, c`: each is evaluated in turn and the last gives the value.
    Sequence { span: SourceSpan, expressions: Vec<Expr> },
    Object { span: SourceSpan, properties: Vec<ObjectProperty> },
    Function(Box<FunctionExpr>),
    Unary { span: SourceSpan, operator: UnaryOp, argument: Box<Expr> },
    Binary { span: SourceSpan, operator: BinaryOp, left: Box<Expr>, right: Box<Expr> },
    Logical { span: SourceSpan, operator: LogicalOp, left: Box<Expr>, right: Box<Expr> },
    Conditional {
        span: SourceSpan,
        test: Box<Expr>,
        consequent: Box<Expr>,
        alternate: Box<Expr>,
    },
    Assignment { span: SourceSpan, target: AssignTarget, operator: AssignOp, value: Box<Expr> },
    Call { span: SourceSpan, callee: Box<Expr>, arguments: Vec<Expr>, optional: bool },
    Member { span: SourceSpan, object: Box<Expr>, property: MemberProperty, optional: bool },
    Await { span: SourceSpan, value: Box<Expr> },
    New { span: SourceSpan, callee: Box<Expr>, arguments: Vec<Expr> },
    RegExp { span: SourceSpan, pattern: String, flags: String },
}

} // verus!
