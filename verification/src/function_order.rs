use vstd::prelude::*;

use crate::bytecode::FunctionPrototype;
use crate::ir::{
    AssignTarget, CatchClause, Declarator, Expr, ForInit, FunctionExpr, MemberProperty,
    ObjectProperty, Stmt, SwitchCase,
};
use crate::span::SourceSpan;

verus! {

// Which functions the bytecode compiler compiles, and in which order: each
// function literal after the literals it holds, a block's named function
// declarations before its statements. A function declaration anywhere else
// (a case body, or the branch of an `if`) is never compiled.

/// What a compiled function keeps of its literal: its name, how many
/// parameters it has, whether it has a rest parameter, whether it is
/// `async` or an arrow function, and its span.
pub struct FunctionShape {
    pub name: Option<Seq<char>>,
    pub param_count: nat,
    pub has_rest: bool,
    pub is_async: bool,
    pub is_arrow: bool,
    pub span: SourceSpan,
}

pub open spec fn literal_shape(f: FunctionExpr) -> FunctionShape {
    FunctionShape {
        name: match f.name {
            Some(n) => Some(n@),
            None => None,
        },
        param_count: f.params@.len(),
        has_rest: f.rest is Some,
        is_async: f.is_async,
        is_arrow: f.is_arrow,
        span: f.span,
    }
}

pub open spec fn prototype_shape(p: FunctionPrototype) -> FunctionShape {
    FunctionShape {
        name: match p.name {
            Some(n) => Some(n@),
            None => None,
        },
        param_count: p.params@.len(),
        has_rest: p.rest is Some,
        is_async: p.is_async,
        is_arrow: p.is_arrow,
        span: p.span,
    }
}

/// The shape of the script's own function.
pub open spec fn script_shape(span: SourceSpan) -> FunctionShape {
    FunctionShape {
        name: None,
        param_count: 0,
        has_rest: false,
        is_async: false,
        is_arrow: false,
        span,
    }
}

/// `b` is `a` followed by functions of the shapes `x`, in order.
pub open spec fn appended(a: Seq<FunctionPrototype>, b: Seq<FunctionPrototype>, x: Seq<FunctionShape>) -> bool {
    &&& b.len() == a.len() + x.len()
    &&& forall|k: int| 0 <= k < a.len() ==> #[trigger] b[k] == a[k]
    &&& forall|k: int| 0 <= k < x.len() ==> prototype_shape(#[trigger] b[a.len() + k]) == x[k]
}

pub proof fn lemma_appended_refl(a: Seq<FunctionPrototype>)
    ensures
        appended(a, a, seq![]),
{
}

pub proof fn lemma_appended_trans(
    a: Seq<FunctionPrototype>,
    b: Seq<FunctionPrototype>,
    c: Seq<FunctionPrototype>,
    x: Seq<FunctionShape>,
    y: Seq<FunctionShape>,
)
    requires
        appended(a, b, x),
        appended(b, c, y),
    ensures
        appended(a, c, x + y),
{
    assert forall|k: int| 0 <= k < (x + y).len() implies prototype_shape(
        #[trigger] c[a.len() + k],
    ) == (x + y)[k] by {
        if k < x.len() {
            assert(c[a.len() + k] == b[a.len() + k]);
        } else {
            assert(c[b.len() + (k - x.len())] == c[a.len() + k]);
        }
    }
}

pub proof fn lemma_appended_three(
    a: Seq<FunctionPrototype>,
    b: Seq<FunctionPrototype>,
    c: Seq<FunctionPrototype>,
    d: Seq<FunctionPrototype>,
    x: Seq<FunctionShape>,
    y: Seq<FunctionShape>,
    z: Seq<FunctionShape>,
)
    requires
        appended(a, b, x),
        appended(b, c, y),
        appended(c, d, z),
    ensures
        appended(a, d, x + y + z),
{
    lemma_appended_trans(a, b, c, x, y);
    lemma_appended_trans(a, c, d, x + y, z);
}

/// The functions compiled for a function literal: its named nested
/// declarations, those its statements hold, then the literal itself.
pub open spec fn function_shapes(f: FunctionExpr) -> Seq<FunctionShape>
    decreases f, 2int,
{
    hoisted_shapes(f.body@, f.body@.len() as int) + stmts_shapes(f.body@, f.body@.len() as int)
        + seq![literal_shape(f)]
}

/// The functions compiled for the named function declarations among
/// `stmts[..n]`.
pub open spec fn hoisted_shapes(stmts: Seq<Stmt>, n: int) -> Seq<FunctionShape>
    decreases stmts, n,
{
    if n <= 0 || n > stmts.len() {
        seq![]
    } else {
        hoisted_shapes(stmts, n - 1) + match stmts[n - 1] {
            Stmt::FunctionDecl { function, .. } => if function.name is Some {
                function_shapes(function)
            } else {
                seq![]
            },
            _ => seq![],
        }
    }
}

/// The functions compiled for `stmts[..n]`, one statement after the other.
pub open spec fn stmts_shapes(stmts: Seq<Stmt>, n: int) -> Seq<FunctionShape>
    decreases stmts, n,
{
    if n <= 0 || n > stmts.len() {
        seq![]
    } else {
        stmts_shapes(stmts, n - 1) + stmt_shapes(stmts[n - 1])
    }
}

pub open spec fn opt_expr_shapes(e: Option<Expr>) -> Seq<FunctionShape>
    decreases e, 1int,
{
    match e {
        Some(x) => expr_shapes(x),
        None => seq![],
    }
}

/// The functions compiled for the initializers of `decls[..n]`.
pub open spec fn declarators_shapes(decls: Seq<Declarator>, n: int) -> Seq<FunctionShape>
    decreases decls, n,
{
    if n <= 0 || n > decls.len() {
        seq![]
    } else {
        declarators_shapes(decls, n - 1) + opt_expr_shapes(decls[n - 1].initializer)
    }
}

/// The functions compiled for the tests of `cases[..n]`.
pub open spec fn case_tests_shapes(cases: Seq<SwitchCase>, n: int) -> Seq<FunctionShape>
    decreases cases, n,
{
    if n <= 0 || n > cases.len() {
        seq![]
    } else {
        case_tests_shapes(cases, n - 1) + opt_expr_shapes(cases[n - 1].test)
    }
}

/// The functions compiled for the bodies of `cases[..n]`.
pub open spec fn case_bodies_shapes(cases: Seq<SwitchCase>, n: int) -> Seq<FunctionShape>
    decreases cases, n,
{
    if n <= 0 || n > cases.len() {
        seq![]
    } else {
        case_bodies_shapes(cases, n - 1) + stmts_shapes(
            cases[n - 1].consequent@,
            cases[n - 1].consequent@.len() as int,
        )
    }
}

/// The functions compiled for one statement.
pub open spec fn stmt_shapes(s: Stmt) -> Seq<FunctionShape>
    decreases s, 0int,
{
    match s {
        Stmt::Block { body, .. } => hoisted_shapes(body@, body@.len() as int) + stmts_shapes(
            body@,
            body@.len() as int,
        ),
        Stmt::Expression { expression, .. } => expr_shapes(expression),
        Stmt::For { init, test, update, body, .. } => (match init {
            Some(ForInit::VariableDecl { declarators, .. }) => declarators_shapes(
                declarators@,
                declarators@.len() as int,
            ),
            Some(ForInit::Expression(e)) => expr_shapes(e),
            None => seq![],
        }) + opt_expr_shapes(test) + stmt_shapes(*body) + opt_expr_shapes(update),
        Stmt::ForOf { iterable, body, .. } => expr_shapes(iterable) + stmt_shapes(*body),
        Stmt::If { test, consequent, alternate, .. } => expr_shapes(test) + stmt_shapes(*consequent)
            + match alternate {
            Some(a) => stmt_shapes(*a),
            None => seq![],
        },
        Stmt::Return { value, .. } => opt_expr_shapes(value),
        Stmt::Switch { discriminant, cases, .. } => expr_shapes(discriminant) + case_tests_shapes(
            cases@,
            cases@.len() as int,
        ) + case_bodies_shapes(cases@, cases@.len() as int),
        Stmt::Throw { value, .. } => expr_shapes(value),
        Stmt::Try { body, catch, finally, .. } => stmt_shapes(*body) + (match catch {
            Some(c) => stmt_shapes(*c.body),
            None => seq![],
        }) + match finally {
            Some(f) => stmt_shapes(*f),
            None => seq![],
        },
        Stmt::VariableDecl { declarators, .. } => declarators_shapes(
            declarators@,
            declarators@.len() as int,
        ),
        Stmt::While { test, body, .. } => expr_shapes(test) + stmt_shapes(*body),
        Stmt::DoWhile { body, test, .. } => stmt_shapes(*body) + expr_shapes(test),
        _ => seq![],
    }
}

/// The functions compiled for `exprs[..n]`.
pub open spec fn exprs_shapes(exprs: Seq<Expr>, n: int) -> Seq<FunctionShape>
    decreases exprs, n,
{
    if n <= 0 || n > exprs.len() {
        seq![]
    } else {
        exprs_shapes(exprs, n - 1) + expr_shapes(exprs[n - 1])
    }
}

/// The functions compiled for the values of `props[..n]`.
pub open spec fn properties_shapes(props: Seq<ObjectProperty>, n: int) -> Seq<FunctionShape>
    decreases props, n,
{
    if n <= 0 || n > props.len() {
        seq![]
    } else {
        properties_shapes(props, n - 1) + expr_shapes(props[n - 1].value)
    }
}

pub open spec fn member_key_shapes(p: MemberProperty) -> Seq<FunctionShape>
    decreases p, 1int,
{
    match p {
        MemberProperty::Computed(e) => expr_shapes(*e),
        MemberProperty::Static(_) => seq![],
    }
}

/// The functions compiled for one expression.
pub open spec fn expr_shapes(e: Expr) -> Seq<FunctionShape>
    decreases e, 0int,
{
    match e {
        Expr::Template { quasis, expressions, .. } => exprs_shapes(
            expressions@,
            if quasis@.len() < expressions@.len() {
                quasis@.len() as int
            } else {
                expressions@.len() as int
            },
        ),
        Expr::Array { elements, .. } => exprs_shapes(elements@, elements@.len() as int),
        Expr::Sequence { expressions, .. } => exprs_shapes(expressions@, expressions@.len() as int),
        Expr::Object { properties, .. } => properties_shapes(properties@, properties@.len() as int),
        Expr::Function(f) => function_shapes(*f),
        Expr::Unary { argument, .. } => expr_shapes(*argument),
        Expr::Binary { left, right, .. } => expr_shapes(*left) + expr_shapes(*right),
        Expr::Logical { left, right, .. } => expr_shapes(*left) + expr_shapes(*right),
        Expr::Conditional { test, consequent, alternate, .. } => expr_shapes(*test) + expr_shapes(
            *consequent,
        ) + expr_shapes(*alternate),
        Expr::Assignment { target, value, .. } => match target {
            AssignTarget::Identifier { .. } => expr_shapes(*value),
            AssignTarget::Member { object, property, .. } => expr_shapes(*object) + member_key_shapes(
                property,
            ) + expr_shapes(*value),
        },
        Expr::Call { callee, arguments, .. } => expr_shapes(*callee) + exprs_shapes(
            arguments@,
            arguments@.len() as int,
        ),
        Expr::Member { object, property, .. } => expr_shapes(*object) + member_key_shapes(property),
        Expr::Await { value, .. } => expr_shapes(*value),
        Expr::New { callee, arguments, .. } => expr_shapes(*callee) + exprs_shapes(
            arguments@,
            arguments@.len() as int,
        ),
        _ => seq![],
    }
}

/// The functions compiled for the head of a `for` loop.
pub open spec fn for_init_shapes(init: Option<ForInit>) -> Seq<FunctionShape> {
    match init {
        Some(ForInit::VariableDecl { declarators, .. }) => declarators_shapes(
            declarators@,
            declarators@.len() as int,
        ),
        Some(ForInit::Expression(e)) => expr_shapes(e),
        None => seq![],
    }
}

/// The functions compiled for a `catch` clause's body.
pub open spec fn catch_shapes(c: Option<CatchClause>) -> Seq<FunctionShape> {
    match c {
        Some(clause) => stmt_shapes(*clause.body),
        None => seq![],
    }
}

/// The functions compiled for an optional statement.
pub open spec fn opt_stmt_shapes(s: Option<Box<Stmt>>) -> Seq<FunctionShape> {
    match s {
        Some(b) => stmt_shapes(*b),
        None => seq![],
    }
}

} // verus!
