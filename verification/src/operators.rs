use vstd::prelude::*;

use crate::diagnostic::DiagnosticKind;
use crate::ir::{AssignOp, BinaryOp, LogicalOp, PropertyName, UnaryOp};
use crate::scope::{Lowerer, ScopeState};
use crate::span::SourceSpan;

verus! {

// ---------------------------------------------------------------------------
// The operators and property keys of parsed source, and what they lower to.
// ---------------------------------------------------------------------------

/// A unary operator as the parser reports it.
#[derive(Debug, Clone, Copy, PartialEq, Eq, Structural)]
pub enum SourceUnaryOperator {
    UnaryNegation,
    UnaryPlus,
    LogicalNot,
    BitwiseNot,
    Typeof,
    Void,
    Delete,
}

/// A binary operator as the parser reports it.
#[derive(Debug, Clone, Copy, PartialEq, Eq, Structural)]
pub enum SourceBinaryOperator {
    Equality,
    Inequality,
    StrictEquality,
    StrictInequality,
    LessThan,
    LessEqualThan,
    GreaterThan,
    GreaterEqualThan,
    Addition,
    Subtraction,
    Multiplication,
    Division,
    Remainder,
    Exponential,
    ShiftLeft,
    ShiftRight,
    ShiftRightZeroFill,
    BitwiseOR,
    BitwiseXOR,
    BitwiseAnd,
    In,
    Instanceof,
}

/// A logical operator as the parser reports it.
#[derive(Debug, Clone, Copy, PartialEq, Eq, Structural)]
pub enum SourceLogicalOperator {
    Or,
    And,
    Coalesce,
}

/// An assignment operator as the parser reports it.
#[derive(Debug, Clone, Copy, PartialEq, Eq, Structural)]
pub enum SourceAssignmentOperator {
    Assign,
    Addition,
    Subtraction,
    Multiplication,
    Division,
    Remainder,
    Exponential,
    ShiftLeft,
    ShiftRight,
    ShiftRightZeroFill,
    BitwiseOR,
    BitwiseXOR,
    BitwiseAnd,
    LogicalOr,
    LogicalAnd,
    LogicalNullish,
}

/// A property key as the parser reports it: a numeric key carries its
/// number's bits and the string it names the property by.
#[derive(Debug)]
pub enum SourcePropertyKey {
    StaticIdentifier(String),
    StringLiteral(String),
    NumericLiteral { value_bits: u64, key: String },
    /// Any other key (computed, private), at `span`.
    Other { span: SourceSpan },
}

pub open spec fn unary_op_spec(op: SourceUnaryOperator) -> Option<UnaryOp> {
    match op {
        SourceUnaryOperator::UnaryPlus => Some(UnaryOp::Plus),
        SourceUnaryOperator::UnaryNegation => Some(UnaryOp::Minus),
        SourceUnaryOperator::LogicalNot => Some(UnaryOp::Not),
        SourceUnaryOperator::Typeof => Some(UnaryOp::Typeof),
        SourceUnaryOperator::Void => Some(UnaryOp::Void),
        _ => None,
    }
}

pub open spec fn unary_op_message(op: SourceUnaryOperator) -> Seq<char> {
    match op {
        SourceUnaryOperator::Delete => "delete is not supported in v1"@,
        _ => "unsupported unary operator in v1"@,
    }
}

pub open spec fn binary_op_spec(op: SourceBinaryOperator) -> Option<BinaryOp> {
    match op {
        SourceBinaryOperator::Addition => Some(BinaryOp::Add),
        SourceBinaryOperator::Subtraction => Some(BinaryOp::Sub),
        SourceBinaryOperator::Multiplication => Some(BinaryOp::Mul),
        SourceBinaryOperator::Division => Some(BinaryOp::Div),
        SourceBinaryOperator::Remainder => Some(BinaryOp::Rem),
        SourceBinaryOperator::Exponential => Some(BinaryOp::Pow),
        SourceBinaryOperator::Equality => Some(BinaryOp::Eq),
        SourceBinaryOperator::Inequality => Some(BinaryOp::NotEq),
        SourceBinaryOperator::StrictEquality => Some(BinaryOp::StrictEq),
        SourceBinaryOperator::StrictInequality => Some(BinaryOp::StrictNotEq),
        SourceBinaryOperator::LessThan => Some(BinaryOp::LessThan),
        SourceBinaryOperator::LessEqualThan => Some(BinaryOp::LessThanEq),
        SourceBinaryOperator::GreaterThan => Some(BinaryOp::GreaterThan),
        SourceBinaryOperator::GreaterEqualThan => Some(BinaryOp::GreaterThanEq),
        SourceBinaryOperator::In => Some(BinaryOp::In),
        _ => None,
    }
}

pub open spec fn logical_op_spec(op: SourceLogicalOperator) -> LogicalOp {
    match op {
        SourceLogicalOperator::And => LogicalOp::And,
        SourceLogicalOperator::Or => LogicalOp::Or,
        SourceLogicalOperator::Coalesce => LogicalOp::NullishCoalesce,
    }
}

pub open spec fn assign_op_spec(op: SourceAssignmentOperator) -> Option<AssignOp> {
    match op {
        SourceAssignmentOperator::Assign => Some(AssignOp::Assign),
        SourceAssignmentOperator::Addition => Some(AssignOp::AddAssign),
        SourceAssignmentOperator::Subtraction => Some(AssignOp::SubAssign),
        SourceAssignmentOperator::Multiplication => Some(AssignOp::MulAssign),
        SourceAssignmentOperator::Division => Some(AssignOp::DivAssign),
        SourceAssignmentOperator::LogicalNullish => Some(AssignOp::NullishAssign),
        _ => None,
    }
}

/// The lowerer after an operator or key that lowers to `r`: unchanged when
/// it lowers, with one validation diagnostic `message` at `span` otherwise.
pub open spec fn lowered_or_reported(
    before: ScopeState,
    after: ScopeState,
    lowered: bool,
    message: Seq<char>,
    span: SourceSpan,
) -> bool {
    if lowered {
        after == before
    } else {
        after == (ScopeState {
            scopes: before.scopes,
            diagnostics: before.diagnostics.push((DiagnosticKind::Validation, message, Some(span))),
        })
    }
}

/// Each supported source binary operator lowers to the operator of the same
/// meaning (`<` to less-than, `<=` to less-than-or-equal, and so on), and no
/// two source operators lower to the same one.
pub proof fn law_binary_operators_keep_their_meaning(a: SourceBinaryOperator, b: SourceBinaryOperator)
    ensures
        binary_op_spec(SourceBinaryOperator::Addition) == Some(BinaryOp::Add),
        binary_op_spec(SourceBinaryOperator::Subtraction) == Some(BinaryOp::Sub),
        binary_op_spec(SourceBinaryOperator::Multiplication) == Some(BinaryOp::Mul),
        binary_op_spec(SourceBinaryOperator::Division) == Some(BinaryOp::Div),
        binary_op_spec(SourceBinaryOperator::Remainder) == Some(BinaryOp::Rem),
        binary_op_spec(SourceBinaryOperator::Exponential) == Some(BinaryOp::Pow),
        binary_op_spec(SourceBinaryOperator::Equality) == Some(BinaryOp::Eq),
        binary_op_spec(SourceBinaryOperator::Inequality) == Some(BinaryOp::NotEq),
        binary_op_spec(SourceBinaryOperator::StrictEquality) == Some(BinaryOp::StrictEq),
        binary_op_spec(SourceBinaryOperator::StrictInequality) == Some(BinaryOp::StrictNotEq),
        binary_op_spec(SourceBinaryOperator::LessThan) == Some(BinaryOp::LessThan),
        binary_op_spec(SourceBinaryOperator::LessEqualThan) == Some(BinaryOp::LessThanEq),
        binary_op_spec(SourceBinaryOperator::GreaterThan) == Some(BinaryOp::GreaterThan),
        binary_op_spec(SourceBinaryOperator::GreaterEqualThan) == Some(BinaryOp::GreaterThanEq),
        binary_op_spec(SourceBinaryOperator::In) == Some(BinaryOp::In),
        binary_op_spec(a) is Some && binary_op_spec(a) == binary_op_spec(b) ==> a == b,
{
}

/// Each supported source unary operator lowers to the operator of the same
/// meaning, and no two lower to the same one.
pub proof fn law_unary_operators_keep_their_meaning(a: SourceUnaryOperator, b: SourceUnaryOperator)
    ensures
        unary_op_spec(SourceUnaryOperator::UnaryPlus) == Some(UnaryOp::Plus),
        unary_op_spec(SourceUnaryOperator::UnaryNegation) == Some(UnaryOp::Minus),
        unary_op_spec(SourceUnaryOperator::LogicalNot) == Some(UnaryOp::Not),
        unary_op_spec(SourceUnaryOperator::Typeof) == Some(UnaryOp::Typeof),
        unary_op_spec(SourceUnaryOperator::Void) == Some(UnaryOp::Void),
        unary_op_spec(a) is Some && unary_op_spec(a) == unary_op_spec(b) ==> a == b,
{
}

/// `||`, `&&` and `??` lower to the logical operators of the same meaning,
/// each to a different one.
pub proof fn law_logical_operators_keep_their_meaning(a: SourceLogicalOperator, b: SourceLogicalOperator)
    ensures
        logical_op_spec(SourceLogicalOperator::Or) == LogicalOp::Or,
        logical_op_spec(SourceLogicalOperator::And) == LogicalOp::And,
        logical_op_spec(SourceLogicalOperator::Coalesce) == LogicalOp::NullishCoalesce,
        logical_op_spec(a) == logical_op_spec(b) ==> a == b,
{
}

/// Each supported source assignment operator lowers to the assignment of
/// the same meaning, and no two lower to the same one.
pub proof fn law_assignment_operators_keep_their_meaning(a: SourceAssignmentOperator, b: SourceAssignmentOperator)
    ensures
        assign_op_spec(SourceAssignmentOperator::Assign) == Some(AssignOp::Assign),
        assign_op_spec(SourceAssignmentOperator::Addition) == Some(AssignOp::AddAssign),
        assign_op_spec(SourceAssignmentOperator::Subtraction) == Some(AssignOp::SubAssign),
        assign_op_spec(SourceAssignmentOperator::Multiplication) == Some(AssignOp::MulAssign),
        assign_op_spec(SourceAssignmentOperator::Division) == Some(AssignOp::DivAssign),
        assign_op_spec(SourceAssignmentOperator::LogicalNullish) == Some(AssignOp::NullishAssign),
        assign_op_spec(a) is Some && assign_op_spec(a) == assign_op_spec(b) ==> a == b,
{
}

impl Lowerer {
    /// Lowers a unary operator; `delete` and the bitwise complement are
    /// refused.
    pub fn lower_unary_op(&mut self, op: SourceUnaryOperator, span: SourceSpan) -> (r: Option<UnaryOp>)
        ensures
            r == unary_op_spec(op),
            lowered_or_reported(old(self).state(), final(self).state(), r is Some, unary_op_message(op), span),
    {
        match op {
            SourceUnaryOperator::UnaryPlus => Some(UnaryOp::Plus),
            SourceUnaryOperator::UnaryNegation => Some(UnaryOp::Minus),
            SourceUnaryOperator::LogicalNot => Some(UnaryOp::Not),
            SourceUnaryOperator::Typeof => Some(UnaryOp::Typeof),
            SourceUnaryOperator::Void => Some(UnaryOp::Void),
            SourceUnaryOperator::Delete => {
                self.unsupported("delete is not supported in v1".to_owned(), Some(span));
                None
            },
            _ => {
                self.unsupported(
                    "unsupported unary operator in v1".to_owned(),
                    Some(span),
                );
                None
            },
        }
    }

    /// Lowers a binary operator; shifts, bitwise operators, `in` and
    /// `instanceof` are refused.
    pub fn lower_binary_op(&mut self, op: SourceBinaryOperator, span: SourceSpan) -> (r: Option<BinaryOp>)
        ensures
            r == binary_op_spec(op),
            lowered_or_reported(
                old(self).state(),
                final(self).state(),
                r is Some,
                "unsupported binary operator in v1"@,
                span,
            ),
    {
        match op {
            SourceBinaryOperator::Addition => Some(BinaryOp::Add),
            SourceBinaryOperator::Subtraction => Some(BinaryOp::Sub),
            SourceBinaryOperator::Multiplication => Some(BinaryOp::Mul),
            SourceBinaryOperator::Division => Some(BinaryOp::Div),
            SourceBinaryOperator::Remainder => Some(BinaryOp::Rem),
            SourceBinaryOperator::Exponential => Some(BinaryOp::Pow),
            SourceBinaryOperator::Equality => Some(BinaryOp::Eq),
            SourceBinaryOperator::Inequality => Some(BinaryOp::NotEq),
            SourceBinaryOperator::StrictEquality => Some(BinaryOp::StrictEq),
            SourceBinaryOperator::StrictInequality => Some(BinaryOp::StrictNotEq),
            SourceBinaryOperator::LessThan => Some(BinaryOp::LessThan),
            SourceBinaryOperator::LessEqualThan => Some(BinaryOp::LessThanEq),
            SourceBinaryOperator::GreaterThan => Some(BinaryOp::GreaterThan),
            SourceBinaryOperator::GreaterEqualThan => Some(BinaryOp::GreaterThanEq),
            SourceBinaryOperator::In => Some(BinaryOp::In),
            _ => {
                self.unsupported(
                    "unsupported binary operator in v1".to_owned(),
                    Some(span),
                );
                None
            },
        }
    }

    /// Lowers a logical operator; every one is supported.
    pub fn lower_logical_op(&mut self, op: SourceLogicalOperator, _span: SourceSpan) -> (r: Option<LogicalOp>)
        ensures
            r == Some(logical_op_spec(op)),
            final(self).state() == old(self).state(),
    {
        match op {
            SourceLogicalOperator::And => Some(LogicalOp::And),
            SourceLogicalOperator::Or => Some(LogicalOp::Or),
            SourceLogicalOperator::Coalesce => Some(LogicalOp::NullishCoalesce),
        }
    }

    /// Lowers an assignment operator: plain, `+=`, `-=`, `*=`, `/=` and
    /// `??=`; every other one is refused.
    pub fn lower_assign_op(&mut self, op: SourceAssignmentOperator, span: SourceSpan) -> (r: Option<AssignOp>)
        ensures
            r == assign_op_spec(op),
            lowered_or_reported(
                old(self).state(),
                final(self).state(),
                r is Some,
                "unsupported assignment operator in v1"@,
                span,
            ),
    {
        match op {
            SourceAssignmentOperator::Assign => Some(AssignOp::Assign),
            SourceAssignmentOperator::Addition => Some(AssignOp::AddAssign),
            SourceAssignmentOperator::Subtraction => Some(AssignOp::SubAssign),
            SourceAssignmentOperator::Multiplication => Some(AssignOp::MulAssign),
            SourceAssignmentOperator::Division => Some(AssignOp::DivAssign),
            SourceAssignmentOperator::LogicalNullish => Some(AssignOp::NullishAssign),
            _ => {
                self.unsupported(
                    "unsupported assignment operator in v1".to_owned(),
                    Some(span),
                );
                None
            },
        }
    }

    /// Lowers a property key: a name, a string or a number; any other key
    /// is refused at its span.
    pub fn lower_property_name(&mut self, key: &SourcePropertyKey) -> (r: Option<PropertyName>)
        ensures
            match *key {
                SourcePropertyKey::StaticIdentifier(name) => {
                    &&& r matches Some(PropertyName::Identifier(n)) && n@ == name@
                    &&& final(self).state() == old(self).state()
                },
                SourcePropertyKey::StringLiteral(value) => {
                    &&& r matches Some(PropertyName::String(s)) && s@ == value@
                    &&& final(self).state() == old(self).state()
                },
                SourcePropertyKey::NumericLiteral { value_bits, key: k } => {
                    &&& r matches Some(PropertyName::Number { value_bits: b, key: s }) && b
                        == value_bits && s@ == k@
                    &&& final(self).state() == old(self).state()
                },
                SourcePropertyKey::Other { span } => {
                    &&& r is None
                    &&& lowered_or_reported(
                        old(self).state(),
                        final(self).state(),
                        false,
                        "unsupported property key in v1"@,
                        span,
                    )
                },
            },
    {
        match key {
            SourcePropertyKey::StaticIdentifier(name) => Some(
                PropertyName::Identifier(name.as_str().to_owned()),
            ),
            SourcePropertyKey::StringLiteral(value) => Some(
                PropertyName::String(value.as_str().to_owned()),
            ),
            SourcePropertyKey::NumericLiteral { value_bits, key } => Some(
                PropertyName::Number {
                    value_bits: *value_bits,
                    key: key.as_str().to_owned(),
                },
            ),
            SourcePropertyKey::Other { span } => {
                self.unsupported(
                    "unsupported property key in v1".to_owned(),
                    Some(*span),
                );
                None
            },
        }
    }
}

} // verus!
