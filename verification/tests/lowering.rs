use jslite::ir::{BinaryOp, BindingKind, Expr, Pattern, Stmt};
use jslite::lowering::compile_parsed;
use jslite::operators::{
    SourceAssignmentOperator, SourceBinaryOperator, SourceLogicalOperator, SourceUnaryOperator,
};
use jslite::scope::Lowerer;
use jslite::source::{
    RefusedExpression, RefusedStatement, SourceArgument, SourceArrayElement, SourceArrowFunction,
    SourceAssignmentTarget, SourceBindingPattern, SourceBlock, SourceDeclarationKind,
    SourceDeclarator, SourceExpression, SourceForOfLeft, SourceFunction, SourceIdentifier,
    SourceObjectMember, SourceParameter, SourceParameters, SourceProgram, SourcePropertyKind,
    SourceStatement, SourceVariableDeclaration,
};
use jslite::span::SourceSpan;

fn sp(start: u32, end: u32) -> SourceSpan {
    SourceSpan::new(start, end)
}

fn ident(start: u32, name: &str) -> SourceExpression {
    SourceExpression::Identifier { span: sp(start, start + name.len() as u32), name: name.to_string() }
}

fn number(start: u32, end: u32, value: f64) -> SourceExpression {
    SourceExpression::Number { span: sp(start, end), value_bits: value.to_bits() }
}

fn string(start: u32, end: u32, value: &str) -> SourceExpression {
    SourceExpression::String { span: sp(start, end), value: value.to_string() }
}

fn binding(start: u32, name: &str) -> SourceBindingPattern {
    SourceBindingPattern::Identifier { span: sp(start, start + name.len() as u32), name: name.to_string() }
}

fn call(start: u32, end: u32, callee: SourceExpression, arguments: Vec<SourceExpression>) -> SourceExpression {
    SourceExpression::Call {
        span: sp(start, end),
        callee: Box::new(callee),
        arguments: arguments.into_iter().map(SourceArgument::Expression).collect(),
        optional: false,
    }
}

fn expression_statement(start: u32, end: u32, expression: SourceExpression) -> SourceStatement {
    SourceStatement::Expression { span: sp(start, end), expression }
}

fn declaration(
    start: u32,
    end: u32,
    kind: SourceDeclarationKind,
    id: SourceBindingPattern,
    init: Option<SourceExpression>,
) -> SourceStatement {
    SourceStatement::VariableDeclaration(SourceVariableDeclaration {
        span: sp(start, end),
        kind,
        declarations: vec![SourceDeclarator { span: sp(start, end - 1), id, init }],
    })
}

fn no_params() -> SourceParameters {
    SourceParameters { items: vec![], rest: None }
}

fn params(names: &[(u32, &str)]) -> SourceParameters {
    SourceParameters {
        items: names
            .iter()
            .map(|(start, name)| SourceParameter {
                span: sp(*start, *start + name.len() as u32),
                pattern: binding(*start, name),
                initializer: None,
            })
            .collect(),
        rest: None,
    }
}

fn program(end: u32, body: Vec<SourceStatement>) -> SourceProgram {
    SourceProgram { span: sp(0, end), body }
}

fn compile(source: &str, body: Vec<SourceStatement>) -> Result<jslite::ir::CompiledProgram, jslite::diagnostic::JsliteError> {
    compile_parsed(source.to_string(), vec![], false, &program(source.len() as u32, body))
}

fn error_text(source: &str, body: Vec<SourceStatement>) -> String {
    match compile(source, body) {
        Ok(_) => panic!("source should fail validation"),
        Err(error) => error.render(),
    }
}

/// `const add = (a, b) => { if (a > b) { return a + b; } return a ?? b; };`
fn basic_function_and_if() -> Vec<SourceStatement> {
    let arrow = SourceArrowFunction {
        span: sp(12, 80),
        is_async: false,
        expression: false,
        params: SourceParameters {
            items: vec![
                SourceParameter { span: sp(13, 14), pattern: binding(13, "a"), initializer: None },
                SourceParameter { span: sp(16, 17), pattern: binding(16, "b"), initializer: None },
            ],
            rest: None,
        },
        body: vec![
            SourceStatement::If {
                span: sp(28, 58),
                test: SourceExpression::Binary {
                    span: sp(32, 37),
                    operator: SourceBinaryOperator::GreaterThan,
                    left: Box::new(ident(32, "a")),
                    right: Box::new(ident(36, "b")),
                },
                consequent: Box::new(SourceStatement::Block(SourceBlock {
                    span: sp(39, 58),
                    body: vec![SourceStatement::Return {
                        span: sp(41, 54),
                        argument: Some(SourceExpression::Binary {
                            span: sp(48, 53),
                            operator: SourceBinaryOperator::Addition,
                            left: Box::new(ident(48, "a")),
                            right: Box::new(ident(52, "b")),
                        }),
                    }],
                })),
                alternate: None,
            },
            SourceStatement::Return {
                span: sp(61, 75),
                argument: Some(SourceExpression::Logical {
                    span: sp(68, 74),
                    operator: SourceLogicalOperator::Coalesce,
                    left: Box::new(ident(68, "a")),
                    right: Box::new(ident(73, "b")),
                }),
            },
        ],
    };
    vec![declaration(0, 81, SourceDeclarationKind::Const, binding(6, "add"), Some(SourceExpression::Arrow(Box::new(arrow))))]
}

fn check_basic_function_and_if() {
    let source = "const add = (a, b) => { if (a > b) { return a + b; } return a ?? b; };";
    let program = compile(source, basic_function_and_if()).expect("program should compile");
    assert_eq!(program.script.body.len(), 1);
    match &program.script.body[0] {
        Stmt::VariableDecl { declarators, .. } => {
            assert_eq!(declarators.len(), 1);
        }
        other => panic!("unexpected stmt: {other:?}"),
    }
}

#[test]
fn acceptance_parses_basic_function_and_if() {
    check_basic_function_and_if();
}

fn check_require_rejected() {
    let body = vec![expression_statement(0, 14, call(0, 13, ident(0, "require"), vec![string(8, 12, "fs")]))];
    let text = error_text("require('fs');", body);
    assert!(text.contains("forbidden ambient global `require`"));
}

#[test]
fn parser_rejects_forbidden_free_require() {
    check_require_rejected();
}

#[test]
fn rejections_rejects_forbidden_free_require() {
    check_require_rejected();
}

fn check_eval_rejected() {
    let body = vec![expression_statement(0, 14, call(0, 13, ident(0, "eval"), vec![string(5, 12, "1 + 1")]))];
    let text = error_text("eval('1 + 1');", body);
    assert!(text.contains("forbidden ambient global `eval`"));
    assert!(text.contains("[0..4]"));
}

#[test]
fn parser_rejects_free_eval() {
    check_eval_rejected();
}

#[test]
fn rejections_rejects_free_eval() {
    check_eval_rejected();
}

fn check_function_constructor_rejected() {
    let body = vec![expression_statement(
        0,
        26,
        SourceExpression::New {
            span: sp(0, 25),
            callee: Box::new(ident(4, "Function")),
            arguments: vec![SourceArgument::Expression(string(13, 24, "return 1;"))],
        },
    )];
    let text = error_text("new Function('return 1;');", body);
    assert!(text.contains("forbidden ambient global `Function`"));
    assert!(text.contains("[4..12]"));
}

#[test]
fn parser_rejects_free_function_constructor() {
    check_function_constructor_rejected();
}

#[test]
fn rejections_rejects_free_function_constructor() {
    check_function_constructor_rejected();
}

/// `const <name> = <arrow>; <name>(<args>);`
fn shadowed(name: &str, arrow: SourceArrowFunction, args: Vec<SourceExpression>) -> Vec<SourceStatement> {
    let n = name.len() as u32;
    vec![
        declaration(0, 30, SourceDeclarationKind::Const, binding(6, name), Some(SourceExpression::Arrow(Box::new(arrow)))),
        expression_statement(31, 33 + n, call(31, 32 + n, ident(31, name), args)),
    ]
}

fn check_shadowed_require() {
    let arrow = SourceArrowFunction {
        span: sp(16, 23),
        is_async: false,
        expression: true,
        params: no_params(),
        body: vec![expression_statement(22, 23, number(22, 23, 1.0))],
    };
    compile("const require = () => 1; require();", shadowed("require", arrow, vec![]))
        .expect("shadowed require should compile");
}

#[test]
fn parser_allows_shadowed_require() {
    check_shadowed_require();
}

#[test]
fn acceptance_allows_shadowed_require() {
    check_shadowed_require();
}

fn check_shadowed_function_identifier() {
    let arrow = SourceArrowFunction {
        span: sp(17, 33),
        is_async: false,
        expression: true,
        params: params(&[(18, "value")]),
        body: vec![expression_statement(28, 33, ident(28, "value"))],
    };
    compile(
        "const Function = (value) => value; Function(1);",
        shadowed("Function", arrow, vec![number(44, 45, 1.0)]),
    )
    .expect("shadowed Function should compile");
}

#[test]
fn parser_allows_shadowed_function_identifier() {
    check_shadowed_function_identifier();
}

#[test]
fn acceptance_allows_shadowed_function_identifier() {
    check_shadowed_function_identifier();
}

#[test]
fn allows_shadowed_arguments_identifier() {
    let body = vec![
        declaration(
            0,
            22,
            SourceDeclarationKind::Const,
            binding(6, "arguments"),
            Some(SourceExpression::Array {
                span: sp(18, 21),
                elements: vec![SourceArrayElement::Expression(number(19, 20, 1.0))],
            }),
        ),
        expression_statement(
            23,
            36,
            SourceExpression::ComputedMember {
                span: sp(23, 35),
                object: Box::new(ident(23, "arguments")),
                expression: Box::new(number(33, 34, 0.0)),
                optional: false,
            },
        ),
    ];
    compile("const arguments = [1]; arguments[0];", body).expect("shadowed arguments should compile");
}

#[test]
fn rejects_free_arguments() {
    let function = SourceFunction {
        span: sp(0, 41),
        id: Some(SourceIdentifier { span: sp(9, 13), name: "wrap".to_string() }),
        generator: false,
        is_async: false,
        params: no_params(),
        body: Some(vec![SourceStatement::Return {
            span: sp(18, 39),
            argument: Some(SourceExpression::ComputedMember {
                span: sp(25, 37),
                object: Box::new(ident(25, "arguments")),
                expression: Box::new(number(35, 36, 0.0)),
                optional: false,
            }),
        }]),
    };
    let text = error_text("function wrap() { return arguments[0]; }", vec![SourceStatement::FunctionDeclaration(function)]);
    assert!(text.contains("forbidden ambient global `arguments`"));
}

fn check_module_syntax_rejected() {
    let body = vec![SourceStatement::Refused { span: sp(0, 19), form: RefusedStatement::ModuleDeclaration }];
    let text = error_text("export const x = 1;", body);
    assert!(text.contains("module syntax"));
}

#[test]
fn parser_rejects_module_syntax() {
    check_module_syntax_rejected();
}

#[test]
fn rejections_rejects_module_syntax() {
    check_module_syntax_rejected();
}

fn check_delete_rejected() {
    let body = vec![expression_statement(
        0,
        20,
        SourceExpression::Unary {
            span: sp(0, 19),
            operator: SourceUnaryOperator::Delete,
            argument: Box::new(SourceExpression::StaticMember {
                span: sp(7, 19),
                object: Box::new(ident(7, "record")),
                property: "value".to_string(),
                optional: false,
            }),
        },
    )];
    let text = error_text("delete record.value;", body);
    assert!(text.contains("delete is not supported in v1"));
    assert!(text.contains("[0..19]"));
}

#[test]
fn parser_rejects_delete_operator() {
    check_delete_rejected();
}

#[test]
fn rejections_rejects_delete_operator() {
    check_delete_rejected();
}

#[test]
fn rejects_delete_on_array_elements() {
    let body = vec![expression_statement(
        0,
        17,
        SourceExpression::Unary {
            span: sp(0, 16),
            operator: SourceUnaryOperator::Delete,
            argument: Box::new(SourceExpression::ComputedMember {
                span: sp(7, 16),
                object: Box::new(ident(7, "values")),
                expression: Box::new(number(14, 15, 0.0)),
                optional: false,
            }),
        },
    )];
    assert!(error_text("delete values[0];", body).contains("delete is not supported in v1"));
}

#[test]
fn rejects_meta_properties_even_near_supported_spread_constructs() {
    let body = vec![expression_statement(
        0,
        23,
        SourceExpression::Call {
            span: sp(0, 22),
            callee: Box::new(SourceExpression::Refused { span: sp(0, 10), form: RefusedExpression::MetaProperty }),
            arguments: vec![SourceArgument::Spread { span: sp(11, 20) }],
            optional: false,
        },
    )];
    let text = error_text("new.target(...values);", body);
    assert!(text.contains("meta properties are not supported"));
}

/// `let total = 0; for (const value of [1, 2, 3]) { total += value; } total;`
#[test]
fn parses_array_for_of_with_const_binding() {
    let for_of = SourceStatement::ForOf {
        span: sp(15, 66),
        is_await: false,
        left: SourceForOfLeft::Declaration(SourceVariableDeclaration {
            span: sp(20, 31),
            kind: SourceDeclarationKind::Const,
            declarations: vec![SourceDeclarator { span: sp(26, 31), id: binding(26, "value"), init: None }],
        }),
        right: SourceExpression::Array {
            span: sp(35, 44),
            elements: vec![
                SourceArrayElement::Expression(number(36, 37, 1.0)),
                SourceArrayElement::Expression(number(39, 40, 2.0)),
                SourceArrayElement::Expression(number(42, 43, 3.0)),
            ],
        },
        body: Box::new(SourceStatement::Block(SourceBlock {
            span: sp(46, 66),
            body: vec![expression_statement(
                48,
                63,
                SourceExpression::Assignment {
                    span: sp(48, 62),
                    target: SourceAssignmentTarget::Identifier { span: sp(48, 53), name: "total".to_string() },
                    operator: SourceAssignmentOperator::Addition,
                    value: Box::new(ident(57, "value")),
                },
            )],
        })),
    };
    let body = vec![
        declaration(0, 14, SourceDeclarationKind::Let, binding(4, "total"), Some(number(12, 13, 0.0))),
        for_of,
        expression_statement(67, 73, ident(67, "total")),
    ];
    let program = compile("let total = 0; for (const value of [1, 2, 3]) { total += value; } total;", body)
        .expect("for...of over arrays should compile");
    assert!(matches!(program.script.body[1], Stmt::ForOf { .. }));
}

#[test]
fn rejects_for_of_destructuring_assignment_targets() {
    let for_of = SourceStatement::ForOf {
        span: sp(15, 52),
        is_await: false,
        left: SourceForOfLeft::Target {
            span: sp(20, 27),
            target: SourceAssignmentTarget::Destructuring { span: sp(20, 27) },
        },
        right: SourceExpression::Array { span: sp(31, 41), elements: vec![] },
        body: Box::new(SourceStatement::Block(SourceBlock { span: sp(43, 52), body: vec![] })),
    };
    let body = vec![declaration(0, 14, SourceDeclarationKind::Let, binding(4, "value"), Some(number(12, 13, 0.0))), for_of];
    let text = error_text("let value = 0; for ([value] of [[1], [2]]) { value; }", body);
    assert!(text.contains("destructuring assignment is not supported in v1"));
}

#[test]
fn rejects_destructuring_assignment() {
    let body = vec![expression_statement(
        0,
        14,
        SourceExpression::Assignment {
            span: sp(0, 13),
            target: SourceAssignmentTarget::Destructuring { span: sp(0, 7) },
            operator: SourceAssignmentOperator::Assign,
            value: Box::new(SourceExpression::Array {
                span: sp(10, 13),
                elements: vec![SourceArrayElement::Expression(number(11, 12, 1.0))],
            }),
        },
    )];
    assert!(error_text("[value] = [1];", body).contains("destructuring assignment is not supported in v1"));
}

#[test]
fn rejects_var_declarations() {
    let body = vec![declaration(0, 14, SourceDeclarationKind::Var, binding(4, "value"), Some(number(12, 13, 1.0)))];
    assert!(error_text("var value = 1;", body).contains("only let and const are supported"));
}

#[test]
fn rejects_function_scoped_var_declarations() {
    let function = SourceFunction {
        span: sp(0, 49),
        id: Some(SourceIdentifier { span: sp(9, 13), name: "wrap".to_string() }),
        generator: false,
        is_async: false,
        params: no_params(),
        body: Some(vec![
            declaration(18, 32, SourceDeclarationKind::Var, binding(22, "value"), Some(number(30, 31, 1.0))),
            SourceStatement::Return { span: sp(33, 46), argument: Some(ident(40, "value")) },
        ]),
    };
    let text = error_text(
        "function wrap() { var value = 1; return value; }",
        vec![SourceStatement::FunctionDeclaration(function)],
    );
    assert!(text.contains("only let and const are supported"));
}

#[test]
fn rejects_update_expressions() {
    let body = vec![
        declaration(0, 14, SourceDeclarationKind::Let, binding(4, "value"), Some(number(12, 13, 1.0))),
        expression_statement(15, 23, SourceExpression::Refused { span: sp(15, 22), form: RefusedExpression::Update }),
    ];
    assert!(error_text("let value = 1; value++;", body).contains("update expressions are not supported in v1"));
}

#[test]
fn rejects_instanceof_operator() {
    let body = vec![expression_statement(
        0,
        20,
        SourceExpression::Binary {
            span: sp(0, 19),
            operator: SourceBinaryOperator::Instanceof,
            left: Box::new(number(0, 1, 1.0)),
            right: Box::new(ident(13, "Number")),
        },
    )];
    assert!(error_text("1 instanceof Number;", body).contains("unsupported binary operator in v1"));
}

#[test]
fn rejects_instanceof_with_guest_functions() {
    let function = SourceFunction {
        span: sp(0, 17),
        id: Some(SourceIdentifier { span: sp(9, 12), name: "Box".to_string() }),
        generator: false,
        is_async: false,
        params: no_params(),
        body: Some(vec![]),
    };
    let body = vec![
        SourceStatement::FunctionDeclaration(function),
        declaration(18, 35, SourceDeclarationKind::Const, binding(24, "value"), Some(SourceExpression::Object { span: sp(32, 34), properties: vec![] })),
        expression_statement(
            36,
            57,
            SourceExpression::Binary {
                span: sp(36, 56),
                operator: SourceBinaryOperator::Instanceof,
                left: Box::new(ident(36, "value")),
                right: Box::new(ident(53, "Box")),
            },
        ),
    ];
    assert!(error_text("function Box() {} const value = {}; value instanceof Box;", body)
        .contains("unsupported binary operator in v1"));
}

#[test]
fn rejects_additional_unsupported_assignment_operators() {
    for (source, operator) in [
        ("let value = 2; value %= 3;", SourceAssignmentOperator::Remainder),
        ("let value = 2; value **= 3;", SourceAssignmentOperator::Exponential),
        ("let value = 2; value &= 3;", SourceAssignmentOperator::BitwiseAnd),
    ] {
        let body = vec![
            declaration(0, 14, SourceDeclarationKind::Let, binding(4, "value"), Some(number(12, 13, 2.0))),
            expression_statement(
                15,
                source.len() as u32,
                SourceExpression::Assignment {
                    span: sp(15, source.len() as u32 - 1),
                    target: SourceAssignmentTarget::Identifier { span: sp(15, 20), name: "value".to_string() },
                    operator,
                    value: Box::new(number(source.len() as u32 - 2, source.len() as u32 - 1, 3.0)),
                },
            ),
        ];
        assert!(error_text(source, body).contains("unsupported assignment operator in v1"));
    }
}

#[test]
fn a_parse_that_gave_up_reports_only_its_errors() {
    let result = compile_parsed(
        "const = ;".to_string(),
        vec!["Unexpected token".to_string()],
        true,
        &program(9, vec![expression_statement(0, 4, ident(0, "eval"))]),
    );
    match result {
        Err(jslite::diagnostic::JsliteError::Diagnostics(items)) => {
            assert_eq!(items.len(), 1);
            assert_eq!(items[0].kind, jslite::diagnostic::DiagnosticKind::Parse);
            assert_eq!(items[0].message, "Unexpected token");
            assert_eq!(items[0].span, None);
        }
        _ => panic!("expected the parse errors"),
    }
}

#[test]
fn parse_errors_come_before_lowering_diagnostics() {
    let result = compile_parsed(
        "eval;".to_string(),
        vec!["Unexpected token".to_string()],
        false,
        &program(5, vec![expression_statement(0, 5, ident(0, "eval"))]),
    );
    match result {
        Err(jslite::diagnostic::JsliteError::Diagnostics(items)) => {
            assert_eq!(items.len(), 2);
            assert_eq!(items[0].message, "Unexpected token");
            assert_eq!(items[1].message, "free reference to forbidden ambient global `eval`");
            assert_eq!(items[1].span, Some(sp(0, 4)));
        }
        _ => panic!("expected both diagnostics"),
    }
}

#[test]
fn a_failing_statement_is_dropped_but_its_siblings_lower() {
    let mut lowerer = Lowerer::new();
    let script = lowerer.lower_program(&program(
        30,
        vec![
            SourceStatement::Refused { span: sp(0, 9), form: RefusedStatement::Debugger },
            declaration(10, 20, SourceDeclarationKind::Let, binding(14, "x"), Some(number(18, 19, 1.0))),
        ],
    ));
    assert_eq!(script.body.len(), 1);
    assert!(matches!(script.body[0], Stmt::VariableDecl { kind: BindingKind::Let, .. }));
    assert_eq!(lowerer.diagnostics.len(), 1);
    assert_eq!(lowerer.diagnostics[0].message, "debugger statements are not supported");
}

#[test]
fn redeclaring_a_name_in_one_block_is_reported() {
    let mut lowerer = Lowerer::new();
    let _ = lowerer.lower_program(&program(
        30,
        vec![
            declaration(0, 10, SourceDeclarationKind::Let, binding(4, "x"), None),
            declaration(11, 21, SourceDeclarationKind::Const, binding(17, "x"), Some(number(19, 20, 1.0))),
        ],
    ));
    assert_eq!(lowerer.diagnostics.len(), 1);
    assert_eq!(lowerer.diagnostics[0].message, "SyntaxError: Identifier `x` has already been declared");
    assert_eq!(lowerer.diagnostics[0].span, Some(sp(17, 18)));
}

#[test]
fn concise_arrow_bodies_become_returns_with_rest_parameters() {
    let mut lowerer = Lowerer::new();
    let arrow = SourceArrowFunction {
        span: sp(0, 20),
        is_async: true,
        expression: true,
        params: SourceParameters {
            items: vec![SourceParameter { span: sp(1, 2), pattern: binding(1, "a"), initializer: None }],
            rest: Some(jslite::source::SourceRestParameter { span: sp(8, 15), argument: binding(11, "rest") }),
        },
        body: vec![expression_statement(19, 20, ident(19, "a"))],
    };
    let lowered = lowerer.lower_expr(&SourceExpression::Arrow(Box::new(arrow))).expect("arrow should lower");
    match lowered {
        Expr::Function(f) => {
            assert!(f.is_arrow && f.is_async);
            assert_eq!(f.params.len(), 1);
            assert!(matches!(&f.params[0], Pattern::Identifier { name, .. } if name == "a"));
            assert!(matches!(&f.rest, Some(Pattern::Identifier { name, .. }) if name == "rest"));
            assert_eq!(f.body.len(), 1);
            assert!(matches!(&f.body[0], Stmt::Return { value: Some(Expr::Identifier { .. }), .. }));
        }
        other => panic!("unexpected expression: {other:?}"),
    }
    assert!(lowerer.diagnostics.is_empty());
}

#[test]
fn undefined_lowers_to_the_undefined_literal_and_parentheses_vanish() {
    let mut lowerer = Lowerer::new();
    let lowered = lowerer
        .lower_expr(&SourceExpression::Parenthesized(Box::new(ident(1, "undefined"))))
        .expect("undefined should lower");
    assert!(matches!(lowered, Expr::Undefined { span } if span == sp(1, 10)));
}

#[test]
fn template_pieces_use_cooked_text_when_present() {
    let mut lowerer = Lowerer::new();
    let template = SourceExpression::Template {
        span: sp(0, 12),
        quasis: vec![
            jslite::source::SourceTemplateElement { cooked: Some("a\n".to_string()), raw: "a\\n".to_string() },
            jslite::source::SourceTemplateElement { cooked: None, raw: "\\u{".to_string() },
        ],
        expressions: vec![ident(5, "eval"), ident(8, "x")],
    };
    match lowerer.lower_expr(&template) {
        Some(Expr::Template { quasis, expressions, .. }) => {
            assert_eq!(quasis, vec!["a\n".to_string(), "\\u{".to_string()]);
            assert_eq!(expressions.len(), 1);
        }
        _ => panic!("template should lower"),
    }
    assert_eq!(lowerer.diagnostics.len(), 1);
}

#[test]
fn a_dropped_statement_fails_compilation() {
    // `debugger; let x = 1;`: the refused statement is left out of the
    // lowered script, and its diagnostic fails the compilation.
    let body = vec![
        SourceStatement::Refused { span: sp(0, 9), form: RefusedStatement::Debugger },
        declaration(10, 20, SourceDeclarationKind::Let, binding(14, "x"), Some(number(18, 19, 1.0))),
    ];
    let text = error_text("debugger; let x = 1;", body);
    assert_eq!(text, "Validation: debugger statements are not supported [0..9]");
}

#[test]
fn rejects_default_parameters() {
    let function = SourceFunction {
        span: sp(0, 42),
        id: Some(SourceIdentifier { span: sp(9, 13), name: "wrap".to_string() }),
        generator: false,
        is_async: false,
        params: SourceParameters {
            items: vec![SourceParameter {
                span: sp(14, 23),
                pattern: binding(14, "value"),
                initializer: Some(number(22, 23, 1.0)),
            }],
            rest: None,
        },
        body: Some(vec![SourceStatement::Return { span: sp(27, 40), argument: Some(ident(34, "value")) }]),
    };
    let text = error_text(
        "function wrap(value = 1) { return value; }",
        vec![SourceStatement::FunctionDeclaration(function)],
    );
    assert!(text.contains("default parameters are not supported in v1"));
}

#[test]
fn rejects_default_destructuring() {
    let pattern = SourceBindingPattern::Object {
        span: sp(6, 19),
        properties: vec![jslite::source::SourceBindingProperty {
            span: sp(8, 17),
            key: jslite::operators::SourcePropertyKey::StaticIdentifier("value".to_string()),
            value: SourceBindingPattern::Assignment {
                span: sp(8, 17),
                left: Box::new(binding(8, "value")),
                right: number(16, 17, 1.0),
            },
        }],
        rest: None,
    };
    let body = vec![declaration(
        0,
        26,
        SourceDeclarationKind::Const,
        pattern,
        Some(SourceExpression::Object { span: sp(22, 24), properties: vec![] }),
    )];
    let text = error_text("const { value = 1 } = {};", body);
    assert!(text.contains("default destructuring is not supported in v1"));
}

#[test]
fn rejects_object_literal_accessors() {
    let getter = SourceFunction {
        span: sp(12, 28),
        id: None,
        generator: false,
        is_async: false,
        params: no_params(),
        body: Some(vec![SourceStatement::Return { span: sp(17, 26), argument: Some(number(24, 25, 1.0)) }]),
    };
    let object = SourceExpression::Object {
        span: sp(1, 30),
        properties: vec![SourceObjectMember::Property {
            span: sp(3, 28),
            kind: SourcePropertyKind::Getter,
            method: false,
            key: jslite::operators::SourcePropertyKey::StaticIdentifier("value".to_string()),
            value: SourceExpression::Function(Box::new(getter)),
        }],
    };
    let text = error_text("({ get value() { return 1; } });", vec![expression_statement(0, 32, object)]);
    assert!(text.contains("object literal accessors are not supported in v1"));
}

#[test]
fn rejects_for_in_destructuring_assignment_targets() {
    let for_in = SourceStatement::ForIn {
        span: sp(16, 56),
        left: SourceForOfLeft::Target {
            span: sp(21, 28),
            target: SourceAssignmentTarget::Destructuring { span: sp(21, 28) },
        },
        right: SourceExpression::Object { span: sp(32, 44), properties: vec![] },
        body: Box::new(SourceStatement::Block(SourceBlock {
            span: sp(46, 56),
            body: vec![expression_statement(48, 54, ident(48, "value"))],
        })),
    };
    let body = vec![declaration(0, 15, SourceDeclarationKind::Let, binding(4, "value"), Some(string(12, 14, ""))), for_in];
    let text = error_text("let value = ''; for ([value] in { alpha: 1 }) { value; }", body);
    assert!(text.contains("destructuring assignment is not supported in v1"));
}

#[test]
fn for_in_with_a_plain_binding_is_refused_whole() {
    let for_in = SourceStatement::ForIn {
        span: sp(0, 30),
        left: SourceForOfLeft::Declaration(SourceVariableDeclaration {
            span: sp(5, 14),
            kind: SourceDeclarationKind::Const,
            declarations: vec![SourceDeclarator { span: sp(11, 14), id: binding(11, "key"), init: None }],
        }),
        right: SourceExpression::Object { span: sp(18, 20), properties: vec![] },
        body: Box::new(SourceStatement::Block(SourceBlock { span: sp(22, 30), body: vec![] })),
    };
    let text = error_text("for (const key in {}) { key; }", vec![for_in]);
    assert!(text.contains("for...in is not supported in v1"));
    assert!(!text.contains("destructuring"));
}

fn binary_in(start: u32, end: u32, left: SourceExpression, right: SourceExpression) -> SourceExpression {
    SourceExpression::Binary {
        span: sp(start, end),
        operator: SourceBinaryOperator::In,
        left: Box::new(left),
        right: Box::new(right),
    }
}

#[test]
fn parses_in_operator_expressions() {
    let object = SourceExpression::Object {
        span: sp(15, 35),
        properties: vec![SourceObjectMember::Property {
            span: sp(17, 33),
            kind: SourcePropertyKind::Init,
            method: false,
            key: jslite::operators::SourcePropertyKey::StaticIdentifier("alpha".to_string()),
            value: ident(24, "undefined"),
        }],
    };
    let array = SourceExpression::Array {
        span: sp(51, 57),
        elements: vec![
            SourceArrayElement::Expression(number(52, 53, 1.0)),
            SourceArrayElement::Expression(number(55, 56, 2.0)),
        ],
    };
    let tests = SourceExpression::Array {
        span: sp(59, 107),
        elements: vec![
            SourceArrayElement::Expression(binary_in(60, 77, string(60, 67, "alpha"), ident(71, "object"))),
            SourceArrayElement::Expression(binary_in(79, 89, number(79, 80, 1.0), ident(84, "array"))),
            SourceArrayElement::Expression(binary_in(91, 106, string(91, 97, "push"), ident(101, "array"))),
        ],
    };
    let body = vec![
        declaration(0, 36, SourceDeclarationKind::Const, binding(6, "object"), Some(object)),
        declaration(37, 58, SourceDeclarationKind::Const, binding(43, "array"), Some(array)),
        expression_statement(59, 108, tests),
    ];
    let program = compile(
        "const object = { alpha: undefined }; const array = [1, 2]; [\"alpha\" in object, 1 in array, \"push\" in array];",
        body,
    )
    .expect("in operator expressions should compile");
    match &program.script.body[2] {
        Stmt::Expression { expression: Expr::Array { elements, .. }, .. } => {
            assert_eq!(elements.len(), 3);
            assert!(elements.iter().all(|e| matches!(e, Expr::Binary { operator: BinaryOp::In, .. })));
        },
        other => panic!("unexpected statement {other:?}"),
    }
}

fn binary(start: u32, end: u32, operator: SourceBinaryOperator, left: SourceExpression, right: SourceExpression) -> SourceExpression {
    SourceExpression::Binary { span: sp(start, end), operator, left: Box::new(left), right: Box::new(right) }
}

fn assign_total(start: u32, value: SourceExpression) -> SourceExpression {
    SourceExpression::Assignment {
        span: sp(start, start + 17),
        target: SourceAssignmentTarget::Identifier { span: sp(start, start + 5), name: "total".to_string() },
        operator: SourceAssignmentOperator::Assign,
        value: Box::new(value),
    }
}

#[test]
fn parses_sequence_and_exponentiation_expressions() {
    let first = assign_total(
        30,
        binary(38, 47, SourceBinaryOperator::Addition, ident(38, "total"), number(46, 47, 1.0)),
    );
    let second = assign_total(
        49,
        binary(57, 66, SourceBinaryOperator::Addition, ident(57, "total"), number(65, 66, 2.0)),
    );
    let power = binary(
        68,
        79,
        SourceBinaryOperator::Exponential,
        number(68, 69, 2.0),
        binary(73, 79, SourceBinaryOperator::Exponential, number(73, 74, 3.0), number(78, 79, 2.0)),
    );
    let sequence = SourceExpression::Sequence { span: sp(30, 79), expressions: vec![first, second, power] };
    let tail = SourceExpression::Array {
        span: sp(82, 96),
        elements: vec![
            SourceArrayElement::Expression(ident(83, "value")),
            SourceArrayElement::Expression(ident(90, "total")),
        ],
    };
    let body = vec![
        declaration(0, 14, SourceDeclarationKind::Let, binding(4, "total"), Some(number(12, 13, 0.0))),
        declaration(
            15,
            81,
            SourceDeclarationKind::Const,
            binding(21, "value"),
            Some(SourceExpression::Parenthesized(Box::new(sequence))),
        ),
        expression_statement(82, 97, tail),
    ];
    let program = compile(
        "let total = 0; const value = (total = total + 1, total = total + 2, 2 ** 3 ** 2); [value, total];",
        body,
    )
    .expect("sequence expressions and exponentiation should compile");
    match &program.script.body[1] {
        Stmt::VariableDecl { declarators, .. } => match &declarators[0].initializer {
            Some(Expr::Sequence { expressions, .. }) => {
                assert_eq!(expressions.len(), 3);
                assert!(matches!(expressions[2], Expr::Binary { operator: BinaryOp::Pow, .. }));
            },
            other => panic!("unexpected initializer {other:?}"),
        },
        other => panic!("unexpected statement {other:?}"),
    }
}
