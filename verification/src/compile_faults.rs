use vstd::prelude::*;

use crate::diagnostic::{DiagnosticKind, JsliteError};
use crate::ir::{
    AssignOp, AssignTarget, Declarator, Expr, ForInit, FunctionExpr, MemberProperty,
    ObjectProperty, Stmt, SwitchCase,
};
use crate::span::SourceSpan;

verus! {

// Which programs the bytecode compiler refuses, and with which error: the
// first fault met in compile order. Function declarations of a block are
// compiled (hoisted) before its statements; each function body starts with
// no enclosing loop or `switch`.

/// A construct the compiler refuses.
pub enum CompileFault {
    /// `break` with no enclosing loop or `switch`.
    Break(SourceSpan),
    /// `continue` with no enclosing loop or `switch`.
    Continue(SourceSpan),
    /// `||=` or `&&=`, which have no binary operator to lower to.
    CompoundAssign,
}

/// The error the compiler reports for a fault.
pub open spec fn fault_error(e: JsliteError, f: CompileFault) -> bool {
    match f {
        CompileFault::Break(at) => e matches JsliteError::Message { kind, message, span }
            && kind == DiagnosticKind::Runtime && span == Some(at)
            && message@ == "`break` used outside of a loop"@,
        CompileFault::Continue(at) => e matches JsliteError::Message { kind, message, span }
            && kind == DiagnosticKind::Runtime && span == Some(at)
            && message@ == "`continue` used outside of a loop"@,
        CompileFault::CompoundAssign => e matches JsliteError::Message { kind, message, span }
            && kind == DiagnosticKind::Runtime && span is None
            && message@ == "invalid compound assignment"@,
    }
}

/// `r` is `Ok` when there is no fault, and the fault's error otherwise.
pub open spec fn outcome_matches<T>(r: Result<T, JsliteError>, f: Option<CompileFault>) -> bool {
    match f {
        None => r is Ok,
        Some(fault) => r matches Err(e) && fault_error(e, fault),
    }
}

/// The earlier of two faults in compile order.
pub open spec fn first_of(a: Option<CompileFault>, b: Option<CompileFault>) -> Option<CompileFault> {
    if a is Some {
        a
    } else {
        b
    }
}

/// A compound assignment operator that lowers to no binary operator.
pub open spec fn logical_assign(op: AssignOp) -> bool {
    op == AssignOp::OrAssign || op == AssignOp::AndAssign
}

/// The first fault of a function: its body starts a fresh context.
pub open spec fn function_fault(f: FunctionExpr) -> Option<CompileFault>
    decreases f, 2int,
{
    block_fault(f.body@, false)
}

/// The first fault of a block: its named function declarations first, then
/// its statements.
pub open spec fn block_fault(stmts: Seq<Stmt>, breakable: bool) -> Option<CompileFault>
    decreases stmts, stmts.len() + 1,
{
    first_of(
        hoisted_fault(stmts, stmts.len() as int),
        stmts_fault(stmts, stmts.len() as int, breakable),
    )
}

/// The first fault among the named function declarations of `stmts[..n]`.
pub open spec fn hoisted_fault(stmts: Seq<Stmt>, n: int) -> Option<CompileFault>
    decreases stmts, n,
{
    if n <= 0 || n > stmts.len() {
        None
    } else {
        first_of(
            hoisted_fault(stmts, n - 1),
            match stmts[n - 1] {
                Stmt::FunctionDecl { function, .. } => if function.name is Some {
                    function_fault(function)
                } else {
                    None
                },
                _ => None,
            },
        )
    }
}

/// The first fault among `stmts[..n]`, compiled one after the other.
pub open spec fn stmts_fault(stmts: Seq<Stmt>, n: int, breakable: bool) -> Option<CompileFault>
    decreases stmts, n,
{
    if n <= 0 || n > stmts.len() {
        None
    } else {
        first_of(stmts_fault(stmts, n - 1, breakable), stmt_fault(stmts[n - 1], breakable))
    }
}

pub open spec fn opt_expr_fault(e: Option<Expr>) -> Option<CompileFault>
    decreases e, 1int,
{
    match e {
        Some(x) => expr_fault(x),
        None => None,
    }
}

/// The first fault among the initializers of `decls[..n]`.
pub open spec fn declarators_fault(decls: Seq<Declarator>, n: int) -> Option<CompileFault>
    decreases decls, n,
{
    if n <= 0 || n > decls.len() {
        None
    } else {
        first_of(declarators_fault(decls, n - 1), opt_expr_fault(decls[n - 1].initializer))
    }
}

/// The first fault among the case tests of `cases[..n]`.
pub open spec fn case_tests_fault(cases: Seq<SwitchCase>, n: int) -> Option<CompileFault>
    decreases cases, n,
{
    if n <= 0 || n > cases.len() {
        None
    } else {
        first_of(case_tests_fault(cases, n - 1), opt_expr_fault(cases[n - 1].test))
    }
}

/// The first fault among the case bodies of `cases[..n]`, inside the
/// `switch` (so `break` and `continue` have a target).
pub open spec fn case_bodies_fault(cases: Seq<SwitchCase>, n: int) -> Option<CompileFault>
    decreases cases, n,
{
    if n <= 0 || n > cases.len() {
        None
    } else {
        first_of(
            case_bodies_fault(cases, n - 1),
            stmts_fault(cases[n - 1].consequent@, cases[n - 1].consequent@.len() as int, true),
        )
    }
}

/// The first fault of one statement; `breakable` tells whether a loop or a
/// `switch` of the same function encloses it.
pub open spec fn stmt_fault(s: Stmt, breakable: bool) -> Option<CompileFault>
    decreases s, 0int,
{
    match s {
        Stmt::Block { body, .. } => block_fault(body@, breakable),
        Stmt::Break { span } => if breakable {
            None
        } else {
            Some(CompileFault::Break(span))
        },
        Stmt::Continue { span } => if breakable {
            None
        } else {
            Some(CompileFault::Continue(span))
        },
        Stmt::Empty { .. } => None,
        Stmt::Expression { expression, .. } => expr_fault(expression),
        Stmt::For { init, test, update, body, .. } => first_of(
            match init {
                Some(ForInit::VariableDecl { declarators, .. }) => declarators_fault(
                    declarators@,
                    declarators@.len() as int,
                ),
                Some(ForInit::Expression(e)) => expr_fault(e),
                None => None,
            },
            first_of(
                opt_expr_fault(test),
                first_of(stmt_fault(*body, true), opt_expr_fault(update)),
            ),
        ),
        Stmt::ForOf { iterable, body, .. } => first_of(
            expr_fault(iterable),
            stmt_fault(*body, true),
        ),
        Stmt::If { test, consequent, alternate, .. } => first_of(
            expr_fault(test),
            first_of(
                stmt_fault(*consequent, breakable),
                match alternate {
                    Some(a) => stmt_fault(*a, breakable),
                    None => None,
                },
            ),
        ),
        Stmt::Return { value, .. } => opt_expr_fault(value),
        Stmt::Switch { discriminant, cases, .. } => first_of(
            expr_fault(discriminant),
            first_of(
                case_tests_fault(cases@, cases@.len() as int),
                case_bodies_fault(cases@, cases@.len() as int),
            ),
        ),
        Stmt::Throw { value, .. } => expr_fault(value),
        Stmt::Try { body, catch, finally, .. } => first_of(
            stmt_fault(*body, breakable),
            first_of(
                match catch {
                    Some(c) => stmt_fault(*c.body, breakable),
                    None => None,
                },
                match finally {
                    Some(f) => stmt_fault(*f, breakable),
                    None => None,
                },
            ),
        ),
        Stmt::VariableDecl { declarators, .. } => declarators_fault(
            declarators@,
            declarators@.len() as int,
        ),
        Stmt::While { test, body, .. } => first_of(expr_fault(test), stmt_fault(*body, true)),
        Stmt::DoWhile { body, test, .. } => first_of(stmt_fault(*body, true), expr_fault(test)),
        Stmt::FunctionDecl { .. } => None,
    }
}

/// The first fault among `exprs[..n]`.
pub open spec fn exprs_fault(exprs: Seq<Expr>, n: int) -> Option<CompileFault>
    decreases exprs, n,
{
    if n <= 0 || n > exprs.len() {
        None
    } else {
        first_of(exprs_fault(exprs, n - 1), expr_fault(exprs[n - 1]))
    }
}

/// The first fault among the values of `props[..n]`.
pub open spec fn properties_fault(props: Seq<ObjectProperty>, n: int) -> Option<CompileFault>
    decreases props, n,
{
    if n <= 0 || n > props.len() {
        None
    } else {
        first_of(properties_fault(props, n - 1), expr_fault(props[n - 1].value))
    }
}

/// The fault of a member key: only a computed key is compiled.
pub open spec fn member_key_fault(p: MemberProperty) -> Option<CompileFault>
    decreases p, 1int,
{
    match p {
        MemberProperty::Computed(e) => expr_fault(*e),
        MemberProperty::Static(_) => None,
    }
}

/// The fault an assignment operator adds after its operands: `||=` and
/// `&&=` lower to no binary operator.
pub open spec fn operator_fault(op: AssignOp) -> Option<CompileFault> {
    if logical_assign(op) {
        Some(CompileFault::CompoundAssign)
    } else {
        None
    }
}

/// The first fault of an expression.
pub open spec fn expr_fault(e: Expr) -> Option<CompileFault>
    decreases e, 0int,
{
    match e {
        Expr::Template { quasis, expressions, .. } => exprs_fault(
            expressions@,
            if quasis@.len() < expressions@.len() {
                quasis@.len() as int
            } else {
                expressions@.len() as int
            },
        ),
        Expr::Array { elements, .. } => exprs_fault(elements@, elements@.len() as int),
        Expr::Sequence { expressions, .. } => exprs_fault(expressions@, expressions@.len() as int),
        Expr::Object { properties, .. } => properties_fault(properties@, properties@.len() as int),
        Expr::Function(f) => function_fault(*f),
        Expr::Unary { argument, .. } => expr_fault(*argument),
        Expr::Binary { left, right, .. } => first_of(expr_fault(*left), expr_fault(*right)),
        Expr::Logical { left, right, .. } => first_of(expr_fault(*left), expr_fault(*right)),
        Expr::Conditional { test, consequent, alternate, .. } => first_of(
            expr_fault(*test),
            first_of(expr_fault(*consequent), expr_fault(*alternate)),
        ),
        Expr::Assignment { target, operator, value, .. } => match target {
            AssignTarget::Identifier { .. } => first_of(expr_fault(*value), operator_fault(operator)),
            AssignTarget::Member { object, property, .. } => first_of(
                expr_fault(*object),
                first_of(
                    member_key_fault(property),
                    first_of(expr_fault(*value), operator_fault(operator)),
                ),
            ),
        },
        Expr::Call { callee, arguments, .. } => first_of(
            match *callee {
                Expr::Member { object, property, .. } => first_of(
                    expr_fault(*object),
                    member_key_fault(property),
                ),
                _ => expr_fault(*callee),
            },
            exprs_fault(arguments@, arguments@.len() as int),
        ),
        Expr::Member { object, property, .. } => first_of(
            expr_fault(*object),
            member_key_fault(property),
        ),
        Expr::Await { value, .. } => expr_fault(*value),
        Expr::New { callee, arguments, .. } => first_of(
            expr_fault(*callee),
            exprs_fault(arguments@, arguments@.len() as int),
        ),
        _ => None,
    }
}

// ---------------------------------------------------------------------------
// `continue` inside `switch`.
// ---------------------------------------------------------------------------
//
// A `switch` is a breakable context like a loop, so a `continue` whose
// innermost breakable context is a `switch` is accepted, but nothing ever
// resolves its jump. The specs below find such a `continue`.

/// `s` holds a `continue` that no loop or `switch` inside `s` encloses (not
/// counting nested functions).
pub open spec fn free_continue(s: Stmt) -> bool
    decreases s, 0int,
{
    match s {
        Stmt::Continue { .. } => true,
        Stmt::Block { body, .. } => stmts_free_continue(body@, body@.len() as int),
        Stmt::If { consequent, alternate, .. } => free_continue(*consequent) || match alternate {
            Some(a) => free_continue(*a),
            None => false,
        },
        Stmt::Try { body, catch, finally, .. } => free_continue(*body) || match catch {
            Some(c) => free_continue(*c.body),
            None => false,
        } || match finally {
            Some(f) => free_continue(*f),
            None => false,
        },
        _ => false,
    }
}

/// Some statement of `stmts[..n]` holds a free `continue`.
pub open spec fn stmts_free_continue(stmts: Seq<Stmt>, n: int) -> bool
    decreases stmts, n,
{
    if n <= 0 || n > stmts.len() {
        false
    } else {
        stmts_free_continue(stmts, n - 1) || free_continue(stmts[n - 1])
    }
}

/// A function whose body holds a `continue` bound to a `switch`.
pub open spec fn function_switch_continue(f: FunctionExpr) -> bool
    decreases f, 2int,
{
    stmts_switch_continue(f.body@, f.body@.len() as int)
}

pub open spec fn stmts_switch_continue(stmts: Seq<Stmt>, n: int) -> bool
    decreases stmts, n,
{
    if n <= 0 || n > stmts.len() {
        false
    } else {
        stmts_switch_continue(stmts, n - 1) || stmt_switch_continue(stmts[n - 1])
    }
}

pub open spec fn opt_expr_switch_continue(e: Option<Expr>) -> bool
    decreases e, 1int,
{
    match e {
        Some(x) => expr_switch_continue(x),
        None => false,
    }
}

pub open spec fn declarators_switch_continue(decls: Seq<Declarator>, n: int) -> bool
    decreases decls, n,
{
    if n <= 0 || n > decls.len() {
        false
    } else {
        declarators_switch_continue(decls, n - 1) || opt_expr_switch_continue(
            decls[n - 1].initializer,
        )
    }
}

/// Some case of `cases[..n]` has a test, or a body, holding a `continue`
/// bound to a `switch`; a free `continue` of a body is bound to this one.
pub open spec fn cases_switch_continue(cases: Seq<SwitchCase>, n: int) -> bool
    decreases cases, n,
{
    if n <= 0 || n > cases.len() {
        false
    } else {
        cases_switch_continue(cases, n - 1) || opt_expr_switch_continue(cases[n - 1].test)
            || stmts_switch_continue(cases[n - 1].consequent@, cases[n - 1].consequent@.len() as int)
            || stmts_free_continue(cases[n - 1].consequent@, cases[n - 1].consequent@.len() as int)
    }
}

/// `s` holds a `continue` bound to a `switch`, itself or in a function it
/// declares or holds.
pub open spec fn stmt_switch_continue(s: Stmt) -> bool
    decreases s, 0int,
{
    match s {
        Stmt::Block { body, .. } => stmts_switch_continue(body@, body@.len() as int),
        Stmt::Expression { expression, .. } => expr_switch_continue(expression),
        Stmt::VariableDecl { declarators, .. } => declarators_switch_continue(
            declarators@,
            declarators@.len() as int,
        ),
        Stmt::FunctionDecl { function, .. } => function_switch_continue(function),
        Stmt::If { test, consequent, alternate, .. } => expr_switch_continue(test)
            || stmt_switch_continue(*consequent) || match alternate {
            Some(a) => stmt_switch_continue(*a),
            None => false,
        },
        Stmt::While { test, body, .. } => expr_switch_continue(test) || stmt_switch_continue(*body),
        Stmt::DoWhile { body, test, .. } => stmt_switch_continue(*body) || expr_switch_continue(test),
        Stmt::For { init, test, update, body, .. } => (match init {
            Some(ForInit::VariableDecl { declarators, .. }) => declarators_switch_continue(
                declarators@,
                declarators@.len() as int,
            ),
            Some(ForInit::Expression(e)) => expr_switch_continue(e),
            None => false,
        }) || opt_expr_switch_continue(test) || stmt_switch_continue(*body)
            || opt_expr_switch_continue(update),
        Stmt::ForOf { iterable, body, .. } => expr_switch_continue(iterable) || stmt_switch_continue(
            *body,
        ),
        Stmt::Return { value, .. } => opt_expr_switch_continue(value),
        Stmt::Throw { value, .. } => expr_switch_continue(value),
        Stmt::Try { body, catch, finally, .. } => stmt_switch_continue(*body) || match catch {
            Some(c) => stmt_switch_continue(*c.body),
            None => false,
        } || match finally {
            Some(f) => stmt_switch_continue(*f),
            None => false,
        },
        Stmt::Switch { discriminant, cases, .. } => expr_switch_continue(discriminant)
            || cases_switch_continue(cases@, cases@.len() as int),
        _ => false,
    }
}

pub open spec fn exprs_switch_continue(exprs: Seq<Expr>, n: int) -> bool
    decreases exprs, n,
{
    if n <= 0 || n > exprs.len() {
        false
    } else {
        exprs_switch_continue(exprs, n - 1) || expr_switch_continue(exprs[n - 1])
    }
}

pub open spec fn properties_switch_continue(props: Seq<ObjectProperty>, n: int) -> bool
    decreases props, n,
{
    if n <= 0 || n > props.len() {
        false
    } else {
        properties_switch_continue(props, n - 1) || expr_switch_continue(props[n - 1].value)
    }
}

pub open spec fn member_key_switch_continue(p: MemberProperty) -> bool
    decreases p, 1int,
{
    match p {
        MemberProperty::Computed(e) => expr_switch_continue(*e),
        MemberProperty::Static(_) => false,
    }
}

/// `e` holds a function with a `continue` bound to a `switch`.
pub open spec fn expr_switch_continue(e: Expr) -> bool
    decreases e, 0int,
{
    match e {
        Expr::Template { expressions, .. } => exprs_switch_continue(
            expressions@,
            expressions@.len() as int,
        ),
        Expr::Array { elements, .. } => exprs_switch_continue(elements@, elements@.len() as int),
        Expr::Sequence { expressions, .. } => exprs_switch_continue(
            expressions@,
            expressions@.len() as int,
        ),
        Expr::Object { properties, .. } => properties_switch_continue(
            properties@,
            properties@.len() as int,
        ),
        Expr::Function(f) => function_switch_continue(*f),
        Expr::Unary { argument, .. } => expr_switch_continue(*argument),
        Expr::Binary { left, right, .. } => expr_switch_continue(*left) || expr_switch_continue(*right),
        Expr::Logical { left, right, .. } => expr_switch_continue(*left) || expr_switch_continue(*right),
        Expr::Conditional { test, consequent, alternate, .. } => expr_switch_continue(*test)
            || expr_switch_continue(*consequent) || expr_switch_continue(*alternate),
        Expr::Assignment { target, value, .. } => match target {
            AssignTarget::Identifier { .. } => expr_switch_continue(*value),
            AssignTarget::Member { object, property, .. } => expr_switch_continue(*object)
                || member_key_switch_continue(property) || expr_switch_continue(*value),
        },
        Expr::Call { callee, arguments, .. } => expr_switch_continue(*callee) || exprs_switch_continue(
            arguments@,
            arguments@.len() as int,
        ),
        Expr::Member { object, property, .. } => expr_switch_continue(*object)
            || member_key_switch_continue(property),
        Expr::Await { value, .. } => expr_switch_continue(*value),
        Expr::New { callee, arguments, .. } => expr_switch_continue(*callee) || exprs_switch_continue(
            arguments@,
            arguments@.len() as int,
        ),
        _ => false,
    }
}

/// Once a prefix has a fault, every longer prefix has that same first fault.
pub proof fn lemma_hoisted_fault_settled(s: Seq<Stmt>, i: int, n: int)
    requires
        0 <= i <= n <= s.len(),
        hoisted_fault(s, i) is Some,
    ensures
        hoisted_fault(s, n) == hoisted_fault(s, i),
    decreases n - i,
{
    if n > i {
        lemma_hoisted_fault_settled(s, i, n - 1);
    }
}

/// Once a prefix has a fault, every longer prefix has that same first fault.
pub proof fn lemma_stmts_fault_settled(s: Seq<Stmt>, i: int, n: int, breakable: bool)
    requires
        0 <= i <= n <= s.len(),
        stmts_fault(s, i, breakable) is Some,
    ensures
        stmts_fault(s, n, breakable) == stmts_fault(s, i, breakable),
    decreases n - i,
{
    if n > i {
        lemma_stmts_fault_settled(s, i, n - 1, breakable);
    }
}

/// Once a prefix has a fault, every longer prefix has that same first fault.
pub proof fn lemma_declarators_fault_settled(s: Seq<Declarator>, i: int, n: int)
    requires
        0 <= i <= n <= s.len(),
        declarators_fault(s, i) is Some,
    ensures
        declarators_fault(s, n) == declarators_fault(s, i),
    decreases n - i,
{
    if n > i {
        lemma_declarators_fault_settled(s, i, n - 1);
    }
}

/// Once a prefix has a fault, every longer prefix has that same first fault.
pub proof fn lemma_case_tests_fault_settled(s: Seq<SwitchCase>, i: int, n: int)
    requires
        0 <= i <= n <= s.len(),
        case_tests_fault(s, i) is Some,
    ensures
        case_tests_fault(s, n) == case_tests_fault(s, i),
    decreases n - i,
{
    if n > i {
        lemma_case_tests_fault_settled(s, i, n - 1);
    }
}

/// Once a prefix has a fault, every longer prefix has that same first fault.
pub proof fn lemma_case_bodies_fault_settled(s: Seq<SwitchCase>, i: int, n: int)
    requires
        0 <= i <= n <= s.len(),
        case_bodies_fault(s, i) is Some,
    ensures
        case_bodies_fault(s, n) == case_bodies_fault(s, i),
    decreases n - i,
{
    if n > i {
        lemma_case_bodies_fault_settled(s, i, n - 1);
    }
}

/// Once a prefix has a fault, every longer prefix has that same first fault.
pub proof fn lemma_exprs_fault_settled(s: Seq<Expr>, i: int, n: int)
    requires
        0 <= i <= n <= s.len(),
        exprs_fault(s, i) is Some,
    ensures
        exprs_fault(s, n) == exprs_fault(s, i),
    decreases n - i,
{
    if n > i {
        lemma_exprs_fault_settled(s, i, n - 1);
    }
}

/// Once a prefix has a fault, every longer prefix has that same first fault.
pub proof fn lemma_properties_fault_settled(s: Seq<ObjectProperty>, i: int, n: int)
    requires
        0 <= i <= n <= s.len(),
        properties_fault(s, i) is Some,
    ensures
        properties_fault(s, n) == properties_fault(s, i),
    decreases n - i,
{
    if n > i {
        lemma_properties_fault_settled(s, i, n - 1);
    }
}

/// A prefix that has one keeps it in every longer prefix.
pub proof fn lemma_stmts_switch_continue_grows(s: Seq<Stmt>, i: int, n: int)
    requires
        0 <= i <= n <= s.len(),
        stmts_switch_continue(s, i),
    ensures
        stmts_switch_continue(s, n),
    decreases n - i,
{
    if n > i {
        lemma_stmts_switch_continue_grows(s, i, n - 1);
    }
}

/// A prefix that has one keeps it in every longer prefix.
pub proof fn lemma_exprs_switch_continue_grows(s: Seq<Expr>, i: int, n: int)
    requires
        0 <= i <= n <= s.len(),
        exprs_switch_continue(s, i),
    ensures
        exprs_switch_continue(s, n),
    decreases n - i,
{
    if n > i {
        lemma_exprs_switch_continue_grows(s, i, n - 1);
    }
}

/// A prefix that has one keeps it in every longer prefix.
pub proof fn lemma_properties_switch_continue_grows(s: Seq<ObjectProperty>, i: int, n: int)
    requires
        0 <= i <= n <= s.len(),
        properties_switch_continue(s, i),
    ensures
        properties_switch_continue(s, n),
    decreases n - i,
{
    if n > i {
        lemma_properties_switch_continue_grows(s, i, n - 1);
    }
}

/// A prefix that has one keeps it in every longer prefix.
pub proof fn lemma_declarators_switch_continue_grows(s: Seq<Declarator>, i: int, n: int)
    requires
        0 <= i <= n <= s.len(),
        declarators_switch_continue(s, i),
    ensures
        declarators_switch_continue(s, n),
    decreases n - i,
{
    if n > i {
        lemma_declarators_switch_continue_grows(s, i, n - 1);
    }
}

/// A prefix that has one keeps it in every longer prefix.
pub proof fn lemma_cases_switch_continue_grows(s: Seq<SwitchCase>, i: int, n: int)
    requires
        0 <= i <= n <= s.len(),
        cases_switch_continue(s, i),
    ensures
        cases_switch_continue(s, n),
    decreases n - i,
{
    if n > i {
        lemma_cases_switch_continue_grows(s, i, n - 1);
    }
}

/// A prefix that has one keeps it in every longer prefix.
pub proof fn lemma_stmts_free_continue_grows(s: Seq<Stmt>, i: int, n: int)
    requires
        0 <= i <= n <= s.len(),
        stmts_free_continue(s, i),
    ensures
        stmts_free_continue(s, n),
    decreases n - i,
{
    if n > i {
        lemma_stmts_free_continue_grows(s, i, n - 1);
    }
}

/// One more declarator: its initializer's functions join the prefix's.
pub proof fn lemma_declarators_switch_continue_step(s: Seq<Declarator>, i: int)
    requires
        0 <= i < s.len(),
    ensures
        declarators_switch_continue(s, i + 1) == (declarators_switch_continue(s, i) || match s[i].initializer {
            Some(x) => expr_switch_continue(x),
            None => false,
        }),
{
    assert(opt_expr_switch_continue(s[i].initializer) == match s[i].initializer {
        Some(x) => expr_switch_continue(x),
        None => false,
    });
}

/// One more case: its test's and its body's functions, and a free
/// `continue` of its body, join the prefix's.
pub proof fn lemma_cases_switch_continue_step(s: Seq<SwitchCase>, i: int)
    requires
        0 <= i < s.len(),
    ensures
        cases_switch_continue(s, i + 1) == (cases_switch_continue(s, i) || (match s[i].test {
            Some(x) => expr_switch_continue(x),
            None => false,
        }) || stmts_switch_continue(s[i].consequent@, s[i].consequent@.len() as int)
            || stmts_free_continue(s[i].consequent@, s[i].consequent@.len() as int)),
{
    assert(opt_expr_switch_continue(s[i].test) == match s[i].test {
        Some(x) => expr_switch_continue(x),
        None => false,
    });
}

} // verus!
