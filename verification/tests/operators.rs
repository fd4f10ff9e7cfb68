use jslite::diagnostic::DiagnosticKind;
use jslite::ir::{AssignOp, BinaryOp, LogicalOp, PropertyName, UnaryOp};
use jslite::operators::{
    SourceAssignmentOperator, SourceBinaryOperator, SourceLogicalOperator, SourcePropertyKey,
    SourceUnaryOperator,
};
use jslite::scope::Lowerer;
use jslite::span::SourceSpan;

#[test]
fn supported_unary_operators_lower_silently() {
    let mut l = Lowerer::new();
    assert_eq!(l.lower_unary_op(SourceUnaryOperator::UnaryNegation, SourceSpan::new(0, 1)), Some(UnaryOp::Minus));
    assert_eq!(l.lower_unary_op(SourceUnaryOperator::Typeof, SourceSpan::new(0, 1)), Some(UnaryOp::Typeof));
    assert!(l.diagnostics.is_empty());
}

#[test]
fn delete_operator_is_rejected() {
    let mut l = Lowerer::new();
    assert_eq!(l.lower_unary_op(SourceUnaryOperator::Delete, SourceSpan::new(2, 9)), None);
    assert_eq!(l.diagnostics.len(), 1);
    assert_eq!(l.diagnostics[0].kind, DiagnosticKind::Validation);
    assert_eq!(l.diagnostics[0].message, "delete is not supported in v1");
    assert_eq!(l.diagnostics[0].span, Some(SourceSpan::new(2, 9)));
    assert_eq!(l.lower_unary_op(SourceUnaryOperator::BitwiseNot, SourceSpan::new(0, 1)), None);
    assert_eq!(l.diagnostics[1].message, "unsupported unary operator in v1");
}

#[test]
fn binary_operators_lower_or_are_reported() {
    let mut l = Lowerer::new();
    assert_eq!(l.lower_binary_op(SourceBinaryOperator::Exponential, SourceSpan::new(0, 1)), Some(BinaryOp::Pow));
    assert_eq!(
        l.lower_binary_op(SourceBinaryOperator::StrictInequality, SourceSpan::new(0, 1)),
        Some(BinaryOp::StrictNotEq)
    );
    assert!(l.diagnostics.is_empty());
    assert_eq!(l.lower_binary_op(SourceBinaryOperator::Instanceof, SourceSpan::new(4, 5)), None);
    assert_eq!(l.lower_binary_op(SourceBinaryOperator::In, SourceSpan::new(6, 7)), Some(BinaryOp::In));
    assert_eq!(l.lower_binary_op(SourceBinaryOperator::ShiftLeft, SourceSpan::new(8, 9)), None);
    assert_eq!(l.diagnostics.len(), 2);
    assert_eq!(l.diagnostics[0].message, "unsupported binary operator in v1");
    assert_eq!(l.diagnostics[1].span, Some(SourceSpan::new(8, 9)));
}

#[test]
fn logical_operators_always_lower() {
    let mut l = Lowerer::new();
    assert_eq!(l.lower_logical_op(SourceLogicalOperator::Coalesce, SourceSpan::new(0, 1)), Some(LogicalOp::NullishCoalesce));
    assert_eq!(l.lower_logical_op(SourceLogicalOperator::Or, SourceSpan::new(0, 1)), Some(LogicalOp::Or));
    assert!(l.diagnostics.is_empty());
}

#[test]
fn only_some_assignment_operators_are_supported() {
    let mut l = Lowerer::new();
    assert_eq!(l.lower_assign_op(SourceAssignmentOperator::LogicalNullish, SourceSpan::new(0, 1)), Some(AssignOp::NullishAssign));
    assert_eq!(l.lower_assign_op(SourceAssignmentOperator::Addition, SourceSpan::new(0, 1)), Some(AssignOp::AddAssign));
    assert_eq!(l.lower_assign_op(SourceAssignmentOperator::Remainder, SourceSpan::new(3, 4)), None);
    assert_eq!(l.lower_assign_op(SourceAssignmentOperator::LogicalOr, SourceSpan::new(3, 4)), None);
    assert_eq!(l.diagnostics.len(), 2);
    assert_eq!(l.diagnostics[0].message, "unsupported assignment operator in v1");
}

#[test]
fn property_keys_lower_to_names() {
    let mut l = Lowerer::new();
    match l.lower_property_name(&SourcePropertyKey::StaticIdentifier("a".to_string())) {
        Some(PropertyName::Identifier(n)) => assert_eq!(n, "a"),
        other => panic!("unexpected {:?}", other),
    }
    match l.lower_property_name(&SourcePropertyKey::NumericLiteral {
        value_bits: 2.0f64.to_bits(),
        key: "2".to_string(),
    }) {
        Some(PropertyName::Number { value_bits, key }) => {
            assert_eq!(value_bits, 2.0f64.to_bits());
            assert_eq!(key, "2");
        }
        other => panic!("unexpected {:?}", other),
    }
    assert!(l.diagnostics.is_empty());
    assert!(l.lower_property_name(&SourcePropertyKey::Other { span: SourceSpan::new(8, 12) }).is_none());
    assert_eq!(l.diagnostics[0].message, "unsupported property key in v1");
    assert_eq!(l.diagnostics[0].span, Some(SourceSpan::new(8, 12)));
}
