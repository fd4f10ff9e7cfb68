use jslite::bindings::{assign_op_to_binary, collect_block_bindings, pattern_bindings};
use jslite::diagnostic::DiagnosticKind;
use jslite::ir::{
    AssignOp, BinaryOp, BindingKind, Declarator, Expr, FunctionExpr, ObjectPatternProperty, Pattern,
    PropertyName, Stmt,
};
use jslite::scope::{equal_to_literal, is_forbidden_global_exec, Lowerer};
use jslite::span::SourceSpan;

fn sp() -> SourceSpan {
    SourceSpan::new(0, 1)
}

fn id(name: &str) -> Pattern {
    Pattern::Identifier { span: sp(), name: name.to_string() }
}

#[test]
fn forbidden_globals_are_recognised() {
    for name in ["eval", "require", "Function", "arguments", "fetch", "setTimeout"] {
        assert!(is_forbidden_global_exec(name), "{name}");
    }
    for name in ["evil", "console", "Math", ""] {
        assert!(!is_forbidden_global_exec(name), "{name}");
    }
    assert!(equal_to_literal("abc", "abc"));
    assert!(!equal_to_literal("abc", "abd"));
}

#[test]
fn free_forbidden_reference_is_refused_with_a_diagnostic() {
    let mut l = Lowerer::new();
    assert!(l.lower_identifier_reference("require", SourceSpan::new(5, 12)).is_none());
    assert_eq!(l.diagnostics.len(), 1);
    assert_eq!(l.diagnostics[0].kind, DiagnosticKind::Validation);
    assert_eq!(l.diagnostics[0].message, "free reference to forbidden ambient global `require`");
    assert_eq!(l.diagnostics[0].span, Some(SourceSpan::new(5, 12)));
}

#[test]
fn shadowed_forbidden_name_is_an_ordinary_identifier() {
    let mut l = Lowerer::new();
    l.push_scope();
    l.declare_name_in_current_scope("require", sp());
    assert!(l.is_bound("require"));
    match l.lower_identifier_reference("require", sp()) {
        Some(Expr::Identifier { name, .. }) => assert_eq!(name, "require"),
        other => panic!("unexpected {:?}", other),
    }
    assert!(l.diagnostics.is_empty());
    l.pop_scope();
    assert!(!l.is_bound("require"));
}

#[test]
fn undefined_becomes_the_undefined_literal() {
    let mut l = Lowerer::new();
    assert!(matches!(l.lower_identifier_reference("undefined", sp()), Some(Expr::Undefined { .. })));
    assert!(matches!(l.lower_identifier_reference("x", sp()), Some(Expr::Identifier { .. })));
}

#[test]
fn redeclaration_in_one_scope_is_a_syntax_error() {
    let mut l = Lowerer::new();
    l.declare_name_in_current_scope("x", sp());
    l.declare_name_in_current_scope("x", SourceSpan::new(9, 10));
    assert_eq!(l.diagnostics.len(), 1);
    assert_eq!(l.diagnostics[0].message, "SyntaxError: Identifier `x` has already been declared");
    l.push_scope();
    l.declare_name_in_current_scope("x", sp());
    assert_eq!(l.diagnostics.len(), 1);
}

#[test]
fn pattern_bindings_are_listed_in_source_order() {
    let pattern = Pattern::Object {
        span: sp(),
        properties: vec![ObjectPatternProperty {
            span: sp(),
            key: PropertyName::Identifier("a".to_string()),
            value: Pattern::Array {
                span: sp(),
                elements: vec![Some(id("b")), None, Some(Pattern::Default {
                    span: sp(),
                    target: Box::new(id("c")),
                    default_value: Expr::Null { span: sp() },
                })],
                rest: Some(Box::new(id("d"))),
            },
        }],
        rest: Some(Box::new(id("e"))),
    };
    let names: Vec<String> = pattern_bindings(&pattern).into_iter().map(|(n, m)| {
        assert!(m);
        n
    }).collect();
    assert_eq!(names, vec!["b", "c", "d", "e"]);
    let mut l = Lowerer::new();
    l.collect_ir_pattern_bindings(&pattern);
    assert!(l.is_bound("c") && l.is_bound("e") && !l.is_bound("a"));
}

#[test]
fn block_bindings_separate_lexicals_and_functions() {
    let function = FunctionExpr {
        span: sp(),
        name: Some("f".to_string()),
        params: vec![],
        rest: None,
        body: vec![],
        is_async: false,
        is_arrow: false,
    };
    let statements = vec![
        Stmt::VariableDecl {
            span: sp(),
            kind: BindingKind::Const,
            declarators: vec![Declarator { span: sp(), pattern: id("k"), initializer: None }],
        },
        Stmt::FunctionDecl { span: sp(), function },
        Stmt::VariableDecl {
            span: sp(),
            kind: BindingKind::Let,
            declarators: vec![Declarator { span: sp(), pattern: id("m"), initializer: None }],
        },
    ];
    let bindings = collect_block_bindings(&statements);
    assert_eq!(bindings.lexicals, vec![("k".to_string(), false), ("m".to_string(), true)]);
    assert_eq!(bindings.functions.len(), 1);
    assert_eq!(bindings.functions[0].name, "f");
}

#[test]
fn compound_assignment_operators_map_to_binary_operators() {
    assert_eq!(assign_op_to_binary(AssignOp::AddAssign).unwrap(), BinaryOp::Add);
    assert_eq!(assign_op_to_binary(AssignOp::SubAssign).unwrap(), BinaryOp::Sub);
    assert_eq!(assign_op_to_binary(AssignOp::MulAssign).unwrap(), BinaryOp::Mul);
    assert_eq!(assign_op_to_binary(AssignOp::DivAssign).unwrap(), BinaryOp::Div);
    assert!(assign_op_to_binary(AssignOp::NullishAssign).is_err());
    assert!(assign_op_to_binary(AssignOp::Assign).is_err());
}
