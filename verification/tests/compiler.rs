use jslite::bytecode::{BytecodeProgram, Instruction};
use jslite::compiler::lower_to_bytecode;
use jslite::diagnostic::{DiagnosticKind, JsliteError};
use jslite::ir::{
    AssignOp, AssignTarget, BinaryOp, BindingKind, CatchClause, CompiledProgram, Declarator, Expr,
    FunctionExpr, LogicalOp, MemberProperty, ObjectProperty, Pattern, PropertyName, Script, Stmt,
    SwitchCase,
};
use jslite::span::SourceSpan;

fn sp(start: u32, end: u32) -> SourceSpan {
    SourceSpan::new(start, end)
}

fn program(body: Vec<Stmt>) -> CompiledProgram {
    CompiledProgram { source: String::new(), script: Script { span: sp(0, 100), body } }
}

fn ident(name: &str) -> Expr {
    Expr::Identifier { span: sp(0, 1), name: name.to_string() }
}

fn number(value: f64) -> Expr {
    Expr::Number { span: sp(0, 1), value_bits: value.to_bits() }
}

fn expr_stmt(expression: Expr) -> Stmt {
    Stmt::Expression { span: sp(0, 1), expression }
}

fn block(body: Vec<Stmt>) -> Stmt {
    Stmt::Block { span: sp(0, 1), body }
}

fn jump_target(ins: &Instruction) -> Option<usize> {
    match ins {
        Instruction::Jump(t)
        | Instruction::JumpIfFalse(t)
        | Instruction::JumpIfTrue(t)
        | Instruction::JumpIfNullish(t) => Some(*t),
        Instruction::EnterFinally { exit } => Some(*exit),
        Instruction::PushPendingJump { target, .. } => Some(*target),
        _ => None,
    }
}

fn all_targets_within(p: &BytecodeProgram) -> bool {
    p.functions.iter().all(|f| {
        f.code.iter().all(|ins| {
            let direct = jump_target(ins).map_or(true, |t| t <= f.code.len());
            let handler = match ins {
                Instruction::PushHandler { catch, finally } => {
                    catch.map_or(true, |c| c <= f.code.len())
                        && finally.map_or(true, |x| x <= f.code.len())
                }
                _ => true,
            };
            direct && handler
        })
    })
}

fn expect_runtime_error(result: Result<BytecodeProgram, JsliteError>, message: &str, span: Option<SourceSpan>) {
    match result {
        Err(JsliteError::Message { kind, message: m, span: s }) => {
            assert_eq!(kind, DiagnosticKind::Runtime);
            assert_eq!(m, message);
            assert_eq!(s, span);
        }
        other => panic!("expected a runtime error, got {:?}", other),
    }
}

#[test]
fn empty_program_compiles_to_undefined_and_return() {
    let p = lower_to_bytecode(&program(vec![])).unwrap();
    assert_eq!(p.functions.len(), 1);
    assert_eq!(p.root, 0);
    let code = &p.functions[0].code;
    assert_eq!(code.len(), 2);
    assert!(matches!(code[0], Instruction::PushUndefined));
    assert!(matches!(code[1], Instruction::Return));
}

#[test]
fn last_expression_statement_is_the_completion_value() {
    let p = lower_to_bytecode(&program(vec![expr_stmt(number(1.5))])).unwrap();
    let code = &p.functions[p.root].code;
    assert_eq!(code.len(), 2);
    assert!(matches!(code[0], Instruction::PushNumber(bits) if bits == 1.5f64.to_bits()));
    assert!(matches!(code[1], Instruction::Return));
}

#[test]
fn earlier_expression_statements_are_popped() {
    let p = lower_to_bytecode(&program(vec![expr_stmt(ident("a")), expr_stmt(ident("b"))])).unwrap();
    let code = &p.functions[p.root].code;
    assert!(matches!(&code[0], Instruction::LoadName(n) if n == "a"));
    assert!(matches!(code[1], Instruction::Pop));
    assert!(matches!(&code[2], Instruction::LoadName(n) if n == "b"));
    assert!(matches!(code[3], Instruction::Return));
}

#[test]
fn break_outside_loop_is_refused_with_its_span() {
    let result = lower_to_bytecode(&program(vec![Stmt::Break { span: sp(3, 9) }]));
    expect_runtime_error(result, "`break` used outside of a loop", Some(sp(3, 9)));
}

#[test]
fn continue_outside_loop_is_refused_with_its_span() {
    let result = lower_to_bytecode(&program(vec![block(vec![Stmt::Continue { span: sp(4, 12) }])]));
    expect_runtime_error(result, "`continue` used outside of a loop", Some(sp(4, 12)));
}

#[test]
fn break_inside_nested_function_is_refused_even_inside_a_loop() {
    let inner = FunctionExpr {
        span: sp(0, 1),
        name: None,
        params: vec![],
        rest: None,
        body: vec![Stmt::Break { span: sp(20, 26) }],
        is_async: false,
        is_arrow: true,
    };
    let body = Stmt::While {
        span: sp(0, 1),
        test: Expr::Bool { span: sp(0, 1), value: true },
        body: Box::new(block(vec![expr_stmt(Expr::Function(Box::new(inner))), Stmt::Break {
            span: sp(30, 36),
        }])),
    };
    let result = lower_to_bytecode(&program(vec![body]));
    expect_runtime_error(result, "`break` used outside of a loop", Some(sp(20, 26)));
}

#[test]
fn logical_assignment_is_refused() {
    let assign = Expr::Assignment {
        span: sp(0, 1),
        target: AssignTarget::Identifier { span: sp(0, 1), name: "x".to_string() },
        operator: AssignOp::OrAssign,
        value: Box::new(number(1.0)),
    };
    let result = lower_to_bytecode(&program(vec![expr_stmt(assign)]));
    expect_runtime_error(result, "invalid compound assignment", None);
}

#[test]
fn the_first_fault_in_compile_order_is_reported() {
    let assign = Expr::Assignment {
        span: sp(0, 1),
        target: AssignTarget::Identifier { span: sp(0, 1), name: "x".to_string() },
        operator: AssignOp::AndAssign,
        value: Box::new(number(1.0)),
    };
    let result = lower_to_bytecode(&program(vec![
        expr_stmt(assign),
        Stmt::Break { span: sp(50, 56) },
    ]));
    expect_runtime_error(result, "invalid compound assignment", None);
}

#[test]
fn compound_assignment_applies_its_operator() {
    let assign = Expr::Assignment {
        span: sp(0, 1),
        target: AssignTarget::Identifier { span: sp(0, 1), name: "x".to_string() },
        operator: AssignOp::AddAssign,
        value: Box::new(number(2.0)),
    };
    let p = lower_to_bytecode(&program(vec![expr_stmt(assign)])).unwrap();
    let code = &p.functions[p.root].code;
    assert!(matches!(&code[0], Instruction::LoadName(n) if n == "x"));
    assert!(matches!(code[1], Instruction::PushNumber(_)));
    assert!(matches!(code[2], Instruction::Binary(BinaryOp::Add)));
    assert!(matches!(&code[3], Instruction::StoreName(n) if n == "x"));
}

#[test]
fn nested_functions_come_before_the_script() {
    let inner = FunctionExpr {
        span: sp(0, 1),
        name: Some("f".to_string()),
        params: vec![],
        rest: None,
        body: vec![Stmt::Return { span: sp(0, 1), value: Some(number(7.0)) }],
        is_async: false,
        is_arrow: false,
    };
    let p = lower_to_bytecode(&program(vec![Stmt::FunctionDecl { span: sp(0, 1), function: inner }]))
        .unwrap();
    assert_eq!(p.functions.len(), 2);
    assert_eq!(p.root, 1);
    assert_eq!(p.functions[0].name.as_deref(), Some("f"));
    assert!(p.functions[p.root]
        .code
        .iter()
        .any(|i| matches!(i, Instruction::MakeClosure { function_id: 0 })));
    assert!(matches!(p.functions[0].code.last(), Some(Instruction::Return)));
    assert!(all_targets_within(&p));
}

#[test]
fn loops_and_conditionals_jump_inside_their_code() {
    let counter = Stmt::VariableDecl {
        span: sp(0, 1),
        kind: BindingKind::Let,
        declarators: vec![Declarator {
            span: sp(0, 1),
            pattern: Pattern::Identifier { span: sp(0, 1), name: "i".to_string() },
            initializer: Some(number(0.0)),
        }],
    };
    let test = Expr::Binary {
        span: sp(0, 1),
        operator: BinaryOp::LessThan,
        left: Box::new(ident("i")),
        right: Box::new(number(3.0)),
    };
    let body = block(vec![
        Stmt::If {
            span: sp(0, 1),
            test: Expr::Logical {
                span: sp(0, 1),
                operator: LogicalOp::NullishCoalesce,
                left: Box::new(ident("a")),
                right: Box::new(ident("b")),
            },
            consequent: Box::new(Stmt::Continue { span: sp(0, 1) }),
            alternate: Some(Box::new(Stmt::Break { span: sp(0, 1) })),
        },
        expr_stmt(Expr::Conditional {
            span: sp(0, 1),
            test: Box::new(ident("c")),
            consequent: Box::new(number(1.0)),
            alternate: Box::new(number(2.0)),
        }),
    ]);
    let loops = vec![
        counter,
        Stmt::While { span: sp(0, 1), test, body: Box::new(body) },
        Stmt::DoWhile {
            span: sp(0, 1),
            body: Box::new(block(vec![Stmt::Break { span: sp(0, 1) }])),
            test: ident("d"),
        },
    ];
    let p = lower_to_bytecode(&program(loops)).unwrap();
    assert!(all_targets_within(&p));
}

#[test]
fn try_catch_finally_jumps_inside_its_code() {
    let try_stmt = Stmt::Try {
        span: sp(0, 1),
        body: Box::new(block(vec![Stmt::Throw { span: sp(0, 1), value: ident("e") }])),
        catch: Some(CatchClause {
            span: sp(0, 1),
            parameter: Some(Pattern::Identifier { span: sp(0, 1), name: "err".to_string() }),
            body: Box::new(block(vec![expr_stmt(ident("err"))])),
        }),
        finally: Some(Box::new(block(vec![expr_stmt(ident("cleanup"))]))),
    };
    let looped = Stmt::While {
        span: sp(0, 1),
        test: ident("go"),
        body: Box::new(Stmt::Try {
            span: sp(0, 1),
            body: Box::new(block(vec![Stmt::Break { span: sp(0, 1) }])),
            catch: None,
            finally: Some(Box::new(block(vec![]))),
        }),
    };
    let p = lower_to_bytecode(&program(vec![try_stmt, looped])).unwrap();
    let code = &p.functions[p.root].code;
    assert!(code.iter().any(|i| matches!(i, Instruction::PushHandler { catch: Some(_), finally: Some(_) })));
    assert!(code.iter().any(|i| matches!(i, Instruction::EnterFinally { .. })));
    assert!(code.iter().any(|i| matches!(i, Instruction::ContinuePending)));
    assert!(all_targets_within(&p));
}

#[test]
fn switch_break_jumps_inside_its_code() {
    let switch = Stmt::Switch {
        span: sp(0, 1),
        discriminant: ident("x"),
        cases: vec![
            SwitchCase {
                span: sp(0, 1),
                test: Some(number(1.0)),
                consequent: vec![expr_stmt(ident("one")), Stmt::Break { span: sp(0, 1) }],
            },
            SwitchCase { span: sp(0, 1), test: None, consequent: vec![expr_stmt(ident("other"))] },
        ],
    };
    let p = lower_to_bytecode(&program(vec![switch])).unwrap();
    assert!(all_targets_within(&p));
}

#[test]
fn continue_bound_to_a_switch_is_accepted_but_never_resolved() {
    let switch = Stmt::Switch {
        span: sp(0, 1),
        discriminant: ident("x"),
        cases: vec![SwitchCase {
            span: sp(0, 1),
            test: Some(number(1.0)),
            consequent: vec![Stmt::Continue { span: sp(0, 1) }],
        }],
    };
    let p = lower_to_bytecode(&program(vec![switch])).unwrap();
    let code = &p.functions[p.root].code;
    assert!(code.iter().any(|i| matches!(i, Instruction::Jump(t) if *t == usize::MAX)));
    assert!(!all_targets_within(&p));
}

#[test]
fn for_of_binds_a_fresh_iterator() {
    let for_of = Stmt::ForOf {
        span: sp(0, 1),
        kind: BindingKind::Const,
        pattern: Pattern::Identifier { span: sp(0, 1), name: "v".to_string() },
        iterable: ident("items"),
        body: Box::new(block(vec![Stmt::Continue { span: sp(0, 1) }])),
    };
    let p = lower_to_bytecode(&program(vec![for_of])).unwrap();
    let code = &p.functions[p.root].code;
    assert!(code.iter().any(|i| matches!(i, Instruction::CreateIterator)));
    assert!(code.iter().any(|i| matches!(i, Instruction::IteratorNext)));
    assert!(code
        .iter()
        .any(|i| matches!(i, Instruction::DeclareName { name, mutable: false } if name == "\u{0}jslite_iter_0")));
    assert!(all_targets_within(&p));
}

#[test]
fn template_literal_without_parts_is_the_empty_string() {
    let template = Expr::Template { span: sp(0, 1), quasis: vec![String::new()], expressions: vec![] };
    let p = lower_to_bytecode(&program(vec![expr_stmt(template)])).unwrap();
    let code = &p.functions[p.root].code;
    assert!(matches!(&code[0], Instruction::PushString(s) if s.is_empty()));
}

#[test]
fn functions_are_compiled_in_compile_order_with_their_shapes() {
    let leaf = |name: &str, is_async: bool| FunctionExpr {
        span: sp(10, 20),
        name: Some(name.to_string()),
        params: vec![Pattern::Identifier { span: sp(0, 1), name: "p".to_string() }],
        rest: None,
        body: vec![],
        is_async,
        is_arrow: false,
    };
    let outer = FunctionExpr {
        span: sp(30, 90),
        name: Some("outer".to_string()),
        params: vec![],
        rest: Some(Pattern::Identifier { span: sp(0, 1), name: "rest".to_string() }),
        body: vec![
            expr_stmt(Expr::Function(Box::new(leaf("second", false)))),
            Stmt::FunctionDecl { span: sp(0, 1), function: leaf("first", true) },
        ],
        is_async: false,
        is_arrow: false,
    };
    let arrow = FunctionExpr {
        span: sp(91, 95),
        name: None,
        params: vec![],
        rest: None,
        body: vec![],
        is_async: false,
        is_arrow: true,
    };
    let p = lower_to_bytecode(&program(vec![
        expr_stmt(Expr::Function(Box::new(arrow))),
        Stmt::FunctionDecl { span: sp(0, 1), function: outer },
        Stmt::If {
            span: sp(0, 1),
            test: ident("c"),
            consequent: Box::new(Stmt::FunctionDecl { span: sp(0, 1), function: leaf("never", false) }),
            alternate: None,
        },
    ]))
    .unwrap();
    let names: Vec<Option<&str>> = p.functions.iter().map(|f| f.name.as_deref()).collect();
    assert_eq!(names, vec![Some("first"), Some("second"), Some("outer"), None, None]);
    assert!(p.functions[0].is_async);
    assert_eq!(p.functions[0].params.len(), 1);
    assert!(p.functions[2].rest.is_some());
    assert!(p.functions[3].is_arrow);
    assert_eq!(p.functions[3].span, sp(91, 95));
    assert_eq!(p.root, 4);
    assert_eq!(p.functions[4].span, sp(0, 100));
    assert!(!p.functions[4].is_arrow && p.functions[4].params.is_empty());
}

#[test]
fn while_loop_pops_its_test_on_both_paths() {
    let while_false = Stmt::While {
        span: sp(0, 15),
        test: Expr::Bool { span: sp(7, 12), value: false },
        body: Box::new(Stmt::Empty { span: sp(14, 15) }),
    };
    let p = lower_to_bytecode(&program(vec![while_false])).unwrap();
    let code = &p.functions[p.root].code;
    assert_eq!(code.len(), 7);
    assert!(matches!(code[0], Instruction::PushBool(false)));
    assert!(matches!(code[1], Instruction::JumpIfFalse(4)));
    assert!(matches!(code[2], Instruction::Pop));
    assert!(matches!(code[3], Instruction::Jump(0)));
    assert!(matches!(code[4], Instruction::Pop));
    assert!(matches!(code[5], Instruction::PushUndefined));
    assert!(matches!(code[6], Instruction::Return));
}

#[test]
fn sequence_expressions_pop_all_but_the_last_value() {
    let sequence = Expr::Sequence { span: sp(0, 7), expressions: vec![ident("a"), ident("b"), number(2.0)] };
    let p = lower_to_bytecode(&program(vec![expr_stmt(sequence)])).unwrap();
    let code = &p.functions[p.root].code;
    assert!(matches!(&code[0], Instruction::LoadName(n) if n == "a"));
    assert!(matches!(code[1], Instruction::Pop));
    assert!(matches!(&code[2], Instruction::LoadName(n) if n == "b"));
    assert!(matches!(code[3], Instruction::Pop));
    assert!(matches!(code[4], Instruction::PushNumber(bits) if bits == 2.0f64.to_bits()));
    assert!(matches!(code[5], Instruction::Return));
}

#[test]
fn in_operator_compiles_to_its_binary_instruction() {
    let test = Expr::Binary {
        span: sp(0, 8),
        operator: BinaryOp::In,
        left: Box::new(Expr::String { span: sp(0, 3), value: "a".to_string() }),
        right: Box::new(ident("o")),
    };
    let p = lower_to_bytecode(&program(vec![expr_stmt(test)])).unwrap();
    let code = &p.functions[p.root].code;
    assert!(matches!(&code[0], Instruction::PushString(s) if s == "a"));
    assert!(matches!(&code[1], Instruction::LoadName(n) if n == "o"));
    assert!(matches!(code[2], Instruction::Binary(BinaryOp::In)));
}

#[test]
fn if_else_jumps_over_the_else_part() {
    let statement = Stmt::If {
        span: sp(0, 20),
        test: ident("c"),
        consequent: Box::new(expr_stmt(number(1.0))),
        alternate: Some(Box::new(expr_stmt(number(2.0)))),
    };
    let p = lower_to_bytecode(&program(vec![statement])).unwrap();
    let code = &p.functions[p.root].code;
    assert_eq!(code.len(), 11);
    assert!(matches!(&code[0], Instruction::LoadName(n) if n == "c"));
    assert!(matches!(code[1], Instruction::JumpIfFalse(6)));
    assert!(matches!(code[2], Instruction::Pop));
    assert!(matches!(code[3], Instruction::PushNumber(bits) if bits == 1.0f64.to_bits()));
    assert!(matches!(code[4], Instruction::Pop));
    assert!(matches!(code[5], Instruction::Jump(9)));
    assert!(matches!(code[6], Instruction::Pop));
    assert!(matches!(code[7], Instruction::PushNumber(bits) if bits == 2.0f64.to_bits()));
    assert!(matches!(code[8], Instruction::Pop));
    assert!(matches!(code[9], Instruction::PushUndefined));
    assert!(matches!(code[10], Instruction::Return));
}

#[test]
fn do_while_runs_its_body_before_the_test() {
    let statement = Stmt::DoWhile {
        span: sp(0, 20),
        body: Box::new(Stmt::Empty { span: sp(3, 4) }),
        test: Expr::Bool { span: sp(12, 17), value: false },
    };
    let p = lower_to_bytecode(&program(vec![statement])).unwrap();
    let code = &p.functions[p.root].code;
    assert_eq!(code.len(), 7);
    assert!(matches!(code[0], Instruction::PushBool(false)));
    assert!(matches!(code[1], Instruction::JumpIfFalse(4)));
    assert!(matches!(code[2], Instruction::Pop));
    assert!(matches!(code[3], Instruction::Jump(0)));
    assert!(matches!(code[4], Instruction::Pop));
    assert!(matches!(code[5], Instruction::PushUndefined));
    assert!(matches!(code[6], Instruction::Return));
}

fn logical(operator: LogicalOp) -> Expr {
    Expr::Logical { span: sp(0, 6), operator, left: Box::new(ident("a")), right: Box::new(ident("b")) }
}

#[test]
fn logical_and_keeps_the_left_value_when_it_is_falsy() {
    let p = lower_to_bytecode(&program(vec![expr_stmt(logical(LogicalOp::And))])).unwrap();
    let code = &p.functions[p.root].code;
    assert_eq!(code.len(), 5);
    assert!(matches!(&code[0], Instruction::LoadName(n) if n == "a"));
    assert!(matches!(code[1], Instruction::JumpIfFalse(4)));
    assert!(matches!(code[2], Instruction::Pop));
    assert!(matches!(&code[3], Instruction::LoadName(n) if n == "b"));
    assert!(matches!(code[4], Instruction::Return));
}

#[test]
fn nullish_coalescing_jumps_to_the_right_side_on_nullish() {
    let p = lower_to_bytecode(&program(vec![expr_stmt(logical(LogicalOp::NullishCoalesce))])).unwrap();
    let code = &p.functions[p.root].code;
    assert_eq!(code.len(), 6);
    assert!(matches!(&code[0], Instruction::LoadName(n) if n == "a"));
    assert!(matches!(code[1], Instruction::JumpIfNullish(3)));
    assert!(matches!(code[2], Instruction::Jump(5)));
    assert!(matches!(code[3], Instruction::Pop));
    assert!(matches!(&code[4], Instruction::LoadName(n) if n == "b"));
    assert!(matches!(code[5], Instruction::Return));
}

#[test]
fn conditional_expression_selects_one_branch_value() {
    let conditional = Expr::Conditional {
        span: sp(0, 9),
        test: Box::new(ident("c")),
        consequent: Box::new(number(1.0)),
        alternate: Box::new(number(2.0)),
    };
    let p = lower_to_bytecode(&program(vec![expr_stmt(conditional)])).unwrap();
    let code = &p.functions[p.root].code;
    assert_eq!(code.len(), 8);
    assert!(matches!(&code[0], Instruction::LoadName(n) if n == "c"));
    assert!(matches!(code[1], Instruction::JumpIfFalse(5)));
    assert!(matches!(code[2], Instruction::Pop));
    assert!(matches!(code[3], Instruction::PushNumber(bits) if bits == 1.0f64.to_bits()));
    assert!(matches!(code[4], Instruction::Jump(7)));
    assert!(matches!(code[5], Instruction::Pop));
    assert!(matches!(code[6], Instruction::PushNumber(bits) if bits == 2.0f64.to_bits()));
    assert!(matches!(code[7], Instruction::Return));
}

#[test]
fn assignments_to_a_name_store_after_computing_the_value() {
    let plain = Expr::Assignment {
        span: sp(0, 5),
        target: AssignTarget::Identifier { span: sp(0, 1), name: "x".to_string() },
        operator: AssignOp::Assign,
        value: Box::new(number(1.0)),
    };
    let compound = Expr::Assignment {
        span: sp(7, 13),
        target: AssignTarget::Identifier { span: sp(7, 8), name: "x".to_string() },
        operator: AssignOp::AddAssign,
        value: Box::new(number(2.0)),
    };
    let p = lower_to_bytecode(&program(vec![expr_stmt(plain), expr_stmt(compound)])).unwrap();
    let code = &p.functions[p.root].code;
    assert_eq!(code.len(), 8);
    assert!(matches!(code[0], Instruction::PushNumber(bits) if bits == 1.0f64.to_bits()));
    assert!(matches!(&code[1], Instruction::StoreName(n) if n == "x"));
    assert!(matches!(code[2], Instruction::Pop));
    assert!(matches!(&code[3], Instruction::LoadName(n) if n == "x"));
    assert!(matches!(code[4], Instruction::PushNumber(bits) if bits == 2.0f64.to_bits()));
    assert!(matches!(code[5], Instruction::Binary(BinaryOp::Add)));
    assert!(matches!(&code[6], Instruction::StoreName(n) if n == "x"));
    assert!(matches!(code[7], Instruction::Return));
}

#[test]
fn a_block_body_runs_inside_its_own_environment() {
    let statement = Stmt::While {
        span: sp(0, 16),
        test: ident("c"),
        body: Box::new(block(vec![expr_stmt(ident("x"))])),
    };
    let p = lower_to_bytecode(&program(vec![statement])).unwrap();
    let code = &p.functions[p.root].code;
    assert_eq!(code.len(), 11);
    assert!(matches!(&code[0], Instruction::LoadName(n) if n == "c"));
    assert!(matches!(code[1], Instruction::JumpIfFalse(8)));
    assert!(matches!(code[2], Instruction::Pop));
    assert!(matches!(code[3], Instruction::PushEnv));
    assert!(matches!(&code[4], Instruction::LoadName(n) if n == "x"));
    assert!(matches!(code[5], Instruction::Pop));
    assert!(matches!(code[6], Instruction::PopEnv));
    assert!(matches!(code[7], Instruction::Jump(0)));
    assert!(matches!(code[8], Instruction::Pop));
    assert!(matches!(code[9], Instruction::PushUndefined));
    assert!(matches!(code[10], Instruction::Return));
}

fn root_code(body: Vec<Stmt>) -> Vec<Instruction> {
    let mut p = lower_to_bytecode(&program(body)).unwrap();
    let root = p.root;
    std::mem::take(&mut p.functions[root].code)
}

fn static_key(name: &str) -> MemberProperty {
    MemberProperty::Static(PropertyName::Identifier(name.to_string()))
}

fn member(object: Expr, property: MemberProperty, optional: bool) -> Expr {
    Expr::Member { span: sp(0, 1), object: Box::new(object), property, optional }
}

#[test]
fn this_loads_the_this_binding() {
    let code = root_code(vec![expr_stmt(Expr::This { span: sp(0, 4) })]);
    assert_eq!(code.len(), 2);
    assert!(matches!(&code[0], Instruction::LoadName(n) if n == "this"));
    assert!(matches!(code[1], Instruction::Return));
}

#[test]
fn member_reads_compile_the_object_then_the_key() {
    let code = root_code(vec![
        expr_stmt(member(ident("o"), static_key("k"), false)),
        expr_stmt(member(ident("o"), MemberProperty::Computed(Box::new(ident("k"))), true)),
    ]);
    assert_eq!(code.len(), 7);
    assert!(matches!(&code[0], Instruction::LoadName(n) if n == "o"));
    assert!(matches!(&code[1], Instruction::GetPropStatic { name, optional: false } if name == "k"));
    assert!(matches!(code[2], Instruction::Pop));
    assert!(matches!(&code[3], Instruction::LoadName(n) if n == "o"));
    assert!(matches!(&code[4], Instruction::LoadName(n) if n == "k"));
    assert!(matches!(code[5], Instruction::GetPropComputed { optional: true }));
    assert!(matches!(code[6], Instruction::Return));
}

#[test]
fn a_method_call_keeps_its_receiver_and_a_plain_call_does_not() {
    let method = Expr::Call {
        span: sp(0, 6),
        callee: Box::new(member(ident("o"), static_key("f"), false)),
        arguments: vec![number(1.0)],
        optional: false,
    };
    let plain = Expr::Call { span: sp(0, 3), callee: Box::new(ident("g")), arguments: vec![], optional: true };
    let code = root_code(vec![expr_stmt(method), expr_stmt(plain)]);
    assert_eq!(code.len(), 9);
    assert!(matches!(&code[0], Instruction::LoadName(n) if n == "o"));
    assert!(matches!(code[1], Instruction::Dup));
    assert!(matches!(&code[2], Instruction::GetPropStatic { name, optional: false } if name == "f"));
    assert!(matches!(code[3], Instruction::PushNumber(bits) if bits == 1.0f64.to_bits()));
    assert!(matches!(code[4], Instruction::Call { argc: 1, with_this: true, optional: false }));
    assert!(matches!(code[5], Instruction::Pop));
    assert!(matches!(&code[6], Instruction::LoadName(n) if n == "g"));
    assert!(matches!(code[7], Instruction::Call { argc: 0, with_this: false, optional: true }));
    assert!(matches!(code[8], Instruction::Return));
}

#[test]
fn new_constructs_with_its_arguments_in_order() {
    let construct = Expr::New {
        span: sp(0, 10),
        callee: Box::new(ident("C")),
        arguments: vec![number(1.0), number(2.0)],
    };
    let code = root_code(vec![expr_stmt(construct)]);
    assert_eq!(code.len(), 5);
    assert!(matches!(&code[0], Instruction::LoadName(n) if n == "C"));
    assert!(matches!(code[1], Instruction::PushNumber(bits) if bits == 1.0f64.to_bits()));
    assert!(matches!(code[2], Instruction::PushNumber(bits) if bits == 2.0f64.to_bits()));
    assert!(matches!(code[3], Instruction::Construct { argc: 2 }));
    assert!(matches!(code[4], Instruction::Return));
}

#[test]
fn await_and_regexp_literals_compile_to_their_instructions() {
    let waited = Expr::Await { span: sp(0, 7), value: Box::new(ident("p")) };
    let pattern = Expr::RegExp { span: sp(0, 5), pattern: "a+".to_string(), flags: "g".to_string() };
    let code = root_code(vec![expr_stmt(waited), expr_stmt(pattern)]);
    assert_eq!(code.len(), 5);
    assert!(matches!(&code[0], Instruction::LoadName(n) if n == "p"));
    assert!(matches!(code[1], Instruction::Await));
    assert!(matches!(code[2], Instruction::Pop));
    assert!(matches!(&code[3], Instruction::PushRegExp { pattern, flags } if pattern == "a+" && flags == "g"));
    assert!(matches!(code[4], Instruction::Return));
}

#[test]
fn an_object_literal_pushes_its_values_then_makes_the_object() {
    let object = Expr::Object {
        span: sp(0, 12),
        properties: vec![
            ObjectProperty { span: sp(1, 5), key: PropertyName::Identifier("a".to_string()), value: number(1.0) },
            ObjectProperty { span: sp(6, 11), key: PropertyName::String("b".to_string()), value: ident("x") },
        ],
    };
    let code = root_code(vec![expr_stmt(object)]);
    assert_eq!(code.len(), 4);
    assert!(matches!(code[0], Instruction::PushNumber(bits) if bits == 1.0f64.to_bits()));
    assert!(matches!(&code[1], Instruction::LoadName(n) if n == "x"));
    match &code[2] {
        Instruction::MakeObject { keys } => {
            assert_eq!(keys.len(), 2);
            assert!(matches!(&keys[0], PropertyName::Identifier(k) if k == "a"));
            assert!(matches!(&keys[1], PropertyName::String(k) if k == "b"));
        }
        other => panic!("expected MakeObject, got {:?}", other),
    }
    assert!(matches!(code[3], Instruction::Return));
}

#[test]
fn a_computed_member_assignment_stores_through_set_prop_computed() {
    let store = Expr::Assignment {
        span: sp(0, 8),
        target: AssignTarget::Member {
            span: sp(0, 4),
            object: Box::new(ident("o")),
            property: MemberProperty::Computed(Box::new(ident("k"))),
            optional: false,
        },
        operator: AssignOp::Assign,
        value: Box::new(ident("v")),
    };
    let code = root_code(vec![expr_stmt(store)]);
    assert_eq!(code.len(), 5);
    assert!(matches!(&code[0], Instruction::LoadName(n) if n == "o"));
    assert!(matches!(&code[1], Instruction::LoadName(n) if n == "k"));
    assert!(matches!(&code[2], Instruction::LoadName(n) if n == "v"));
    assert!(matches!(code[3], Instruction::SetPropComputed));
    assert!(matches!(code[4], Instruction::Return));
}

#[test]
fn static_member_assignments_store_by_name() {
    let target = || AssignTarget::Member {
        span: sp(0, 3),
        object: Box::new(ident("o")),
        property: static_key("p"),
        optional: false,
    };
    let plain = Expr::Assignment {
        span: sp(0, 7),
        target: target(),
        operator: AssignOp::Assign,
        value: Box::new(number(1.0)),
    };
    let compound = Expr::Assignment {
        span: sp(0, 8),
        target: target(),
        operator: AssignOp::AddAssign,
        value: Box::new(number(2.0)),
    };
    let code = root_code(vec![expr_stmt(plain), expr_stmt(compound)]);
    assert_eq!(code.len(), 11);
    assert!(matches!(&code[0], Instruction::LoadName(n) if n == "o"));
    assert!(matches!(code[1], Instruction::PushNumber(bits) if bits == 1.0f64.to_bits()));
    assert!(matches!(&code[2], Instruction::SetPropStatic { name } if name == "p"));
    assert!(matches!(code[3], Instruction::Pop));
    assert!(matches!(&code[4], Instruction::LoadName(n) if n == "o"));
    assert!(matches!(code[5], Instruction::Dup));
    assert!(matches!(&code[6], Instruction::GetPropStatic { name, optional: false } if name == "p"));
    assert!(matches!(code[7], Instruction::PushNumber(bits) if bits == 2.0f64.to_bits()));
    assert!(matches!(code[8], Instruction::Binary(BinaryOp::Add)));
    assert!(matches!(&code[9], Instruction::SetPropStatic { name } if name == "p"));
    assert!(matches!(code[10], Instruction::Return));
}

#[test]
fn try_catch_pops_its_handler_and_binds_the_error_in_a_scope_of_its_own() {
    let statement = Stmt::Try {
        span: sp(0, 20),
        body: Box::new(block(vec![expr_stmt(ident("a"))])),
        catch: Some(CatchClause {
            span: sp(8, 20),
            parameter: Some(Pattern::Identifier { span: sp(9, 10), name: "e".to_string() }),
            body: Box::new(block(vec![expr_stmt(ident("e"))])),
        }),
        finally: None,
    };
    let code = root_code(vec![statement]);
    assert_eq!(code.len(), 18);
    assert!(matches!(code[0], Instruction::PushHandler { catch: Some(7), finally: None }));
    assert!(matches!(code[1], Instruction::PushEnv));
    assert!(matches!(&code[2], Instruction::LoadName(n) if n == "a"));
    assert!(matches!(code[3], Instruction::Pop));
    assert!(matches!(code[4], Instruction::PopEnv));
    assert!(matches!(code[5], Instruction::PopHandler));
    assert!(matches!(code[6], Instruction::Jump(16)));
    assert!(matches!(code[7], Instruction::PushEnv));
    assert!(matches!(&code[8], Instruction::DeclareName { name, mutable: true } if name == "e"));
    assert!(matches!(code[9], Instruction::BeginCatch));
    assert!(matches!(&code[10], Instruction::InitializePattern(Pattern::Identifier { name, .. }) if name == "e"));
    assert!(matches!(code[11], Instruction::PushEnv));
    assert!(matches!(&code[12], Instruction::LoadName(n) if n == "e"));
    assert!(matches!(code[13], Instruction::Pop));
    assert!(matches!(code[14], Instruction::PopEnv));
    assert!(matches!(code[15], Instruction::PopEnv));
    assert!(matches!(code[16], Instruction::PushUndefined));
    assert!(matches!(code[17], Instruction::Return));
}

#[test]
fn a_catch_without_binding_drops_the_error() {
    let statement = Stmt::Try {
        span: sp(0, 12),
        body: Box::new(block(vec![])),
        catch: Some(CatchClause { span: sp(7, 12), parameter: None, body: Box::new(block(vec![])) }),
        finally: None,
    };
    let code = root_code(vec![statement]);
    assert_eq!(code.len(), 13);
    assert!(matches!(code[0], Instruction::PushHandler { catch: Some(5), finally: None }));
    assert!(matches!(code[1], Instruction::PushEnv));
    assert!(matches!(code[2], Instruction::PopEnv));
    assert!(matches!(code[3], Instruction::PopHandler));
    assert!(matches!(code[4], Instruction::Jump(11)));
    assert!(matches!(code[5], Instruction::PushEnv));
    assert!(matches!(code[6], Instruction::BeginCatch));
    assert!(matches!(code[7], Instruction::Pop));
    assert!(matches!(code[8], Instruction::PushEnv));
    assert!(matches!(code[9], Instruction::PopEnv));
    assert!(matches!(code[10], Instruction::PopEnv));
    assert!(matches!(code[11], Instruction::PushUndefined));
    assert!(matches!(code[12], Instruction::Return));
}

fn declaration(kind: BindingKind, name: &str, initializer: Option<Expr>) -> Stmt {
    Stmt::VariableDecl {
        span: sp(0, 10),
        kind,
        declarators: vec![Declarator {
            span: sp(4, 9),
            pattern: Pattern::Identifier { span: sp(4, 5), name: name.to_string() },
            initializer,
        }],
    }
}

#[test]
fn script_declarations_come_first_and_declarators_initialize_their_patterns() {
    let code = root_code(vec![
        declaration(BindingKind::Let, "x", Some(number(1.0))),
        declaration(BindingKind::Const, "y", None),
        declaration(BindingKind::Let, "x", None),
        expr_stmt(ident("x")),
    ]);
    assert_eq!(code.len(), 10);
    assert!(matches!(&code[0], Instruction::DeclareName { name, mutable: true } if name == "x"));
    assert!(matches!(&code[1], Instruction::DeclareName { name, mutable: false } if name == "y"));
    assert!(matches!(code[2], Instruction::PushNumber(bits) if bits == 1.0f64.to_bits()));
    assert!(matches!(&code[3], Instruction::InitializePattern(Pattern::Identifier { name, .. }) if name == "x"));
    assert!(matches!(code[4], Instruction::PushUndefined));
    assert!(matches!(&code[5], Instruction::InitializePattern(Pattern::Identifier { name, .. }) if name == "y"));
    assert!(matches!(code[6], Instruction::PushUndefined));
    assert!(matches!(&code[7], Instruction::InitializePattern(Pattern::Identifier { name, .. }) if name == "x"));
    assert!(matches!(&code[8], Instruction::LoadName(n) if n == "x"));
    assert!(matches!(code[9], Instruction::Return));
}

#[test]
fn a_block_declares_its_names_inside_its_environment() {
    let code = root_code(vec![block(vec![declaration(BindingKind::Const, "k", Some(number(2.0)))])]);
    assert_eq!(code.len(), 7);
    assert!(matches!(code[0], Instruction::PushEnv));
    assert!(matches!(&code[1], Instruction::DeclareName { name, mutable: false } if name == "k"));
    assert!(matches!(code[2], Instruction::PushNumber(bits) if bits == 2.0f64.to_bits()));
    assert!(matches!(&code[3], Instruction::InitializePattern(Pattern::Identifier { name, .. }) if name == "k"));
    assert!(matches!(code[4], Instruction::PopEnv));
    assert!(matches!(code[5], Instruction::PushUndefined));
    assert!(matches!(code[6], Instruction::Return));
}

#[test]
fn a_template_adds_each_piece_and_substitution_to_the_value_before() {
    let template = Expr::Template {
        span: sp(0, 8),
        quasis: vec!["a".to_string(), "b".to_string()],
        expressions: vec![ident("x")],
    };
    let code = root_code(vec![expr_stmt(template)]);
    assert_eq!(code.len(), 6);
    assert!(matches!(&code[0], Instruction::PushString(s) if s == "a"));
    assert!(matches!(&code[1], Instruction::LoadName(n) if n == "x"));
    assert!(matches!(code[2], Instruction::Binary(BinaryOp::Add)));
    assert!(matches!(&code[3], Instruction::PushString(s) if s == "b"));
    assert!(matches!(code[4], Instruction::Binary(BinaryOp::Add)));
    assert!(matches!(code[5], Instruction::Return));
}

#[test]
fn a_template_of_one_substitution_skips_empty_pieces() {
    let template = Expr::Template {
        span: sp(0, 4),
        quasis: vec![String::new(), String::new()],
        expressions: vec![ident("x")],
    };
    let code = root_code(vec![expr_stmt(template)]);
    assert_eq!(code.len(), 2);
    assert!(matches!(&code[0], Instruction::LoadName(n) if n == "x"));
    assert!(matches!(code[1], Instruction::Return));
}

#[test]
fn a_function_expression_makes_a_closure_of_the_function_just_compiled() {
    let function = FunctionExpr {
        span: sp(0, 14),
        name: None,
        params: vec![],
        rest: None,
        body: vec![],
        is_async: false,
        is_arrow: true,
    };
    let p = lower_to_bytecode(&program(vec![expr_stmt(Expr::Function(Box::new(function)))])).unwrap();
    assert_eq!(p.functions.len(), 2);
    assert_eq!(p.root, 1);
    let code = &p.functions[p.root].code;
    assert_eq!(code.len(), 2);
    assert!(matches!(code[0], Instruction::MakeClosure { function_id: 0 }));
    assert!(matches!(code[1], Instruction::Return));
}

#[test]
fn a_throw_outside_any_finally_throws_its_value_at_its_span() {
    let code = root_code(vec![Stmt::Throw { span: sp(3, 11), value: ident("x") }]);
    assert_eq!(code.len(), 4);
    assert!(matches!(&code[0], Instruction::LoadName(n) if n == "x"));
    assert!(matches!(code[1], Instruction::Throw { span } if span == sp(3, 11)));
    assert!(matches!(code[2], Instruction::PushUndefined));
    assert!(matches!(code[3], Instruction::Return));
}
