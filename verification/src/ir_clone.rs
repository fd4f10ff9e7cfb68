use vstd::prelude::*;

use crate::ir::{
    AssignTarget, CatchClause, Declarator, Expr, ForInit, FunctionExpr, MemberProperty,
    ObjectPatternProperty, ObjectProperty, Pattern, PropertyName, Stmt, SwitchCase,
};

verus! {

// Deep copies of the IR, for instructions that carry a pattern, a key or a
// parameter list of their own. The recursive IR types hold `Vec`s, whose
// equality Verus cannot derive from their contents, so a copy is stated
// node by node: `x_copy(c, x)` holds when `c` is `x` with every list copied
// element by element.

/// `c` is a copy of the pattern `p`.
pub open spec fn pattern_copy(c: Pattern, p: Pattern) -> bool
    decreases p, 0int,
{
    match p {
        Pattern::Identifier { .. } => c == p,
        Pattern::Object { span, properties, rest } => match c {
            Pattern::Object { span: s, properties: ps, rest: r } => {
                &&& s == span
                &&& property_patterns_copy(ps@, properties@, properties@.len() as int)
                &&& boxed_pattern_copy(r, rest)
            },
            _ => false,
        },
        Pattern::Array { span, elements, rest } => match c {
            Pattern::Array { span: s, elements: es, rest: r } => {
                &&& s == span
                &&& opt_patterns_copy(es@, elements@, elements@.len() as int)
                &&& boxed_pattern_copy(r, rest)
            },
            _ => false,
        },
        Pattern::Default { span, target, default_value } => match c {
            Pattern::Default { span: s, target: t, default_value: d } => s == span && pattern_copy(
                *t,
                *target,
            ) && expr_copy(d, default_value),
            _ => false,
        },
    }
}

pub open spec fn property_pattern_copy(c: ObjectPatternProperty, p: ObjectPatternProperty) -> bool
    decreases p, 0int,
{
    c.span == p.span && c.key == p.key && pattern_copy(c.value, p.value)
}

pub open spec fn opt_pattern_copy(c: Option<Pattern>, p: Option<Pattern>) -> bool
    decreases p, 1int,
{
    match p {
        Some(x) => c matches Some(y) && pattern_copy(y, x),
        None => c is None,
    }
}

pub open spec fn boxed_pattern_copy(c: Option<Box<Pattern>>, p: Option<Box<Pattern>>) -> bool
    decreases p, 1int,
{
    match p {
        Some(x) => c matches Some(y) && pattern_copy(*y, *x),
        None => c is None,
    }
}

/// `c` copies the first `n` patterns of `p`, in order.
pub open spec fn patterns_copy(c: Seq<Pattern>, p: Seq<Pattern>, n: int) -> bool
    decreases p, n,
{
    if n <= 0 || n > p.len() {
        c.len() == 0
    } else {
        c.len() > 0 && patterns_copy(c.drop_last(), p, n - 1) && pattern_copy(c.last(), p[n - 1])
    }
}

/// `c` copies the first `n` properties of an object pattern, in order.
pub open spec fn property_patterns_copy(c: Seq<ObjectPatternProperty>, p: Seq<ObjectPatternProperty>, n: int) -> bool
    decreases p, n,
{
    if n <= 0 || n > p.len() {
        c.len() == 0
    } else {
        c.len() > 0 && property_patterns_copy(c.drop_last(), p, n - 1) && property_pattern_copy(
            c.last(),
            p[n - 1],
        )
    }
}

/// `c` copies the first `n` elements of an array pattern, holes included.
pub open spec fn opt_patterns_copy(c: Seq<Option<Pattern>>, p: Seq<Option<Pattern>>, n: int) -> bool
    decreases p, n,
{
    if n <= 0 || n > p.len() {
        c.len() == 0
    } else {
        c.len() > 0 && opt_patterns_copy(c.drop_last(), p, n - 1) && opt_pattern_copy(
            c.last(),
            p[n - 1],
        )
    }
}

/// `c` is a copy of the expression `e`.
pub open spec fn expr_copy(c: Expr, e: Expr) -> bool
    decreases e, 0int,
{
    match e {
        Expr::Template { span, quasis, expressions } => match c {
            Expr::Template { span: s, quasis: q, expressions: x } => s == span && q@ == quasis@
                && exprs_copy(x@, expressions@, expressions@.len() as int),
            _ => false,
        },
        Expr::Sequence { span, expressions } => match c {
            Expr::Sequence { span: s, expressions: x } => s == span && exprs_copy(
                x@,
                expressions@,
                expressions@.len() as int,
            ),
            _ => false,
        },
        Expr::Array { span, elements } => match c {
            Expr::Array { span: s, elements: x } => s == span && exprs_copy(
                x@,
                elements@,
                elements@.len() as int,
            ),
            _ => false,
        },
        Expr::Object { span, properties } => match c {
            Expr::Object { span: s, properties: ps } => {
                &&& s == span
                &&& properties_copy(ps@, properties@, properties@.len() as int)
            },
            _ => false,
        },
        Expr::Function(f) => match c {
            Expr::Function(g) => function_copy(*g, *f),
            _ => false,
        },
        Expr::Unary { span, operator, argument } => match c {
            Expr::Unary { span: s, operator: o, argument: a } => s == span && o == operator
                && expr_copy(*a, *argument),
            _ => false,
        },
        Expr::Binary { span, operator, left, right } => match c {
            Expr::Binary { span: s, operator: o, left: l, right: r } => s == span && o == operator
                && expr_copy(*l, *left) && expr_copy(*r, *right),
            _ => false,
        },
        Expr::Logical { span, operator, left, right } => match c {
            Expr::Logical { span: s, operator: o, left: l, right: r } => s == span && o == operator
                && expr_copy(*l, *left) && expr_copy(*r, *right),
            _ => false,
        },
        Expr::Conditional { span, test, consequent, alternate } => match c {
            Expr::Conditional { span: s, test: t, consequent: k, alternate: a } => s == span
                && expr_copy(*t, *test) && expr_copy(*k, *consequent) && expr_copy(*a, *alternate),
            _ => false,
        },
        Expr::Assignment { span, target, operator, value } => match c {
            Expr::Assignment { span: s, target: t, operator: o, value: v } => s == span && o
                == operator && target_copy(t, target) && expr_copy(*v, *value),
            _ => false,
        },
        Expr::Call { span, callee, arguments, optional } => match c {
            Expr::Call { span: s, callee: k, arguments: a, optional: o } => s == span && o
                == optional && expr_copy(*k, *callee) && exprs_copy(a@, arguments@, arguments@.len() as int),
            _ => false,
        },
        Expr::Member { span, object, property, optional } => match c {
            Expr::Member { span: s, object: b, property: p, optional: o } => s == span && o
                == optional && expr_copy(*b, *object) && member_copy(p, property),
            _ => false,
        },
        Expr::Await { span, value } => match c {
            Expr::Await { span: s, value: v } => s == span && expr_copy(*v, *value),
            _ => false,
        },
        Expr::New { span, callee, arguments } => match c {
            Expr::New { span: s, callee: k, arguments: a } => s == span && expr_copy(*k, *callee)
                && exprs_copy(a@, arguments@, arguments@.len() as int),
            _ => false,
        },
        _ => c == e,
    }
}

pub open spec fn property_copy(c: ObjectProperty, p: ObjectProperty) -> bool
    decreases p, 0int,
{
    c.span == p.span && c.key == p.key && expr_copy(c.value, p.value)
}

/// `c` copies the first `n` properties of an object literal, in order.
pub open spec fn properties_copy(c: Seq<ObjectProperty>, p: Seq<ObjectProperty>, n: int) -> bool
    decreases p, n,
{
    if n <= 0 || n > p.len() {
        c.len() == 0
    } else {
        c.len() > 0 && properties_copy(c.drop_last(), p, n - 1) && property_copy(c.last(), p[n - 1])
    }
}

/// `c` copies the first `n` expressions of `e`, in order.
pub open spec fn exprs_copy(c: Seq<Expr>, e: Seq<Expr>, n: int) -> bool
    decreases e, n,
{
    if n <= 0 || n > e.len() {
        c.len() == 0
    } else {
        c.len() > 0 && exprs_copy(c.drop_last(), e, n - 1) && expr_copy(c.last(), e[n - 1])
    }
}

pub open spec fn opt_expr_copy(c: Option<Expr>, e: Option<Expr>) -> bool
    decreases e, 1int,
{
    match e {
        Some(x) => c matches Some(y) && expr_copy(y, x),
        None => c is None,
    }
}

/// `c` is a copy of the member property `m`.
pub open spec fn member_copy(c: MemberProperty, m: MemberProperty) -> bool
    decreases m, 0int,
{
    match m {
        MemberProperty::Static(_) => c == m,
        MemberProperty::Computed(x) => c matches MemberProperty::Computed(y) && expr_copy(*y, *x),
    }
}

/// `c` is a copy of the assignment target `t`.
pub open spec fn target_copy(c: AssignTarget, t: AssignTarget) -> bool
    decreases t, 0int,
{
    match t {
        AssignTarget::Identifier { .. } => c == t,
        AssignTarget::Member { span, object, property, optional } => match c {
            AssignTarget::Member { span: s, object: b, property: p, optional: o } => s == span && o
                == optional && expr_copy(*b, *object) && member_copy(p, property),
            _ => false,
        },
    }
}

/// `c` is a copy of the function `f`.
pub open spec fn function_copy(c: FunctionExpr, f: FunctionExpr) -> bool
    decreases f, 0int,
{
    &&& c.span == f.span
    &&& c.name == f.name
    &&& patterns_copy(c.params@, f.params@, f.params@.len() as int)
    &&& opt_pattern_copy(c.rest, f.rest)
    &&& stmts_copy(c.body@, f.body@, f.body@.len() as int)
    &&& c.is_async == f.is_async
    &&& c.is_arrow == f.is_arrow
}

/// `c` is a copy of the statement `s`.
pub open spec fn stmt_copy(c: Stmt, s: Stmt) -> bool
    decreases s, 0int,
{
    match s {
        Stmt::Block { span, body } => match c {
            Stmt::Block { span: sp, body: b } => sp == span && stmts_copy(b@, body@, body@.len() as int),
            _ => false,
        },
        Stmt::Expression { span, expression } => match c {
            Stmt::Expression { span: sp, expression: x } => sp == span && expr_copy(x, expression),
            _ => false,
        },
        Stmt::For { span, init, test, update, body } => match c {
            Stmt::For { span: sp, init: i, test: t, update: u, body: b } => sp == span
                && for_init_copy(i, init) && opt_expr_copy(t, test) && opt_expr_copy(u, update)
                && stmt_copy(*b, *body),
            _ => false,
        },
        Stmt::ForOf { span, kind, pattern, iterable, body } => match c {
            Stmt::ForOf { span: sp, kind: k, pattern: p, iterable: it, body: b } => sp == span && k
                == kind && pattern_copy(p, pattern) && expr_copy(it, iterable) && stmt_copy(
                *b,
                *body,
            ),
            _ => false,
        },
        Stmt::If { span, test, consequent, alternate } => match c {
            Stmt::If { span: sp, test: t, consequent: k, alternate: a } => sp == span && expr_copy(
                t,
                test,
            ) && stmt_copy(*k, *consequent) && boxed_stmt_copy(a, alternate),
            _ => false,
        },
        Stmt::Return { span, value } => match c {
            Stmt::Return { span: sp, value: v } => sp == span && opt_expr_copy(v, value),
            _ => false,
        },
        Stmt::Switch { span, discriminant, cases } => match c {
            Stmt::Switch { span: sp, discriminant: d, cases: cs } => {
                &&& sp == span
                &&& expr_copy(d, discriminant)
                &&& cases_copy(cs@, cases@, cases@.len() as int)
            },
            _ => false,
        },
        Stmt::Throw { span, value } => match c {
            Stmt::Throw { span: sp, value: v } => sp == span && expr_copy(v, value),
            _ => false,
        },
        Stmt::Try { span, body, catch, finally } => match c {
            Stmt::Try { span: sp, body: b, catch: k, finally: f } => sp == span && stmt_copy(
                *b,
                *body,
            ) && opt_catch_copy(k, catch) && boxed_stmt_copy(f, finally),
            _ => false,
        },
        Stmt::VariableDecl { span, kind, declarators } => match c {
            Stmt::VariableDecl { span: sp, kind: k, declarators: ds } => sp == span && k == kind
                && declarators_copy(ds@, declarators@, declarators@.len() as int),
            _ => false,
        },
        Stmt::While { span, test, body } => match c {
            Stmt::While { span: sp, test: t, body: b } => sp == span && expr_copy(t, test)
                && stmt_copy(*b, *body),
            _ => false,
        },
        Stmt::DoWhile { span, body, test } => match c {
            Stmt::DoWhile { span: sp, body: b, test: t } => sp == span && stmt_copy(*b, *body)
                && expr_copy(t, test),
            _ => false,
        },
        Stmt::FunctionDecl { span, function } => match c {
            Stmt::FunctionDecl { span: sp, function: g } => sp == span && function_copy(g, function),
            _ => false,
        },
        _ => c == s,
    }
}

pub open spec fn boxed_stmt_copy(c: Option<Box<Stmt>>, s: Option<Box<Stmt>>) -> bool
    decreases s, 1int,
{
    match s {
        Some(x) => c matches Some(y) && stmt_copy(*y, *x),
        None => c is None,
    }
}

pub open spec fn for_init_copy(c: Option<ForInit>, i: Option<ForInit>) -> bool
    decreases i, 1int,
{
    match i {
        Some(ForInit::VariableDecl { kind, declarators }) => c matches Some(
            ForInit::VariableDecl { kind: k, declarators: ds },
        ) && k == kind && declarators_copy(ds@, declarators@, declarators@.len() as int),
        Some(ForInit::Expression(x)) => c matches Some(ForInit::Expression(y)) && expr_copy(y, x),
        None => c is None,
    }
}

pub open spec fn case_copy(c: SwitchCase, k: SwitchCase) -> bool
    decreases k, 0int,
{
    c.span == k.span && opt_expr_copy(c.test, k.test) && stmts_copy(
        c.consequent@,
        k.consequent@,
        k.consequent@.len() as int,
    )
}

/// `c` copies the first `n` cases of a `switch`, in order.
pub open spec fn cases_copy(c: Seq<SwitchCase>, k: Seq<SwitchCase>, n: int) -> bool
    decreases k, n,
{
    if n <= 0 || n > k.len() {
        c.len() == 0
    } else {
        c.len() > 0 && cases_copy(c.drop_last(), k, n - 1) && case_copy(c.last(), k[n - 1])
    }
}

pub open spec fn opt_catch_copy(c: Option<CatchClause>, k: Option<CatchClause>) -> bool
    decreases k, 1int,
{
    match k {
        Some(x) => c matches Some(y) && y.span == x.span && opt_pattern_copy(
            y.parameter,
            x.parameter,
        ) && stmt_copy(*y.body, *x.body),
        None => c is None,
    }
}

pub open spec fn declarator_copy(c: Declarator, d: Declarator) -> bool
    decreases d, 0int,
{
    c.span == d.span && pattern_copy(c.pattern, d.pattern) && opt_expr_copy(
        c.initializer,
        d.initializer,
    )
}

/// `c` copies the first `n` declarators of `d`, in order.
pub open spec fn declarators_copy(c: Seq<Declarator>, d: Seq<Declarator>, n: int) -> bool
    decreases d, n,
{
    if n <= 0 || n > d.len() {
        c.len() == 0
    } else {
        c.len() > 0 && declarators_copy(c.drop_last(), d, n - 1) && declarator_copy(c.last(), d[n - 1])
    }
}

/// `c` copies the first `n` statements of `s`, in order.
pub open spec fn stmts_copy(c: Seq<Stmt>, s: Seq<Stmt>, n: int) -> bool
    decreases s, n,
{
    if n <= 0 || n > s.len() {
        c.len() == 0
    } else {
        c.len() > 0 && stmts_copy(c.drop_last(), s, n - 1) && stmt_copy(c.last(), s[n - 1])
    }
}

pub fn clone_string_opt(s: &Option<String>) -> (r: Option<String>)
    ensures
        r == *s,
{
    match s {
        Some(v) => Some(v.clone()),
        None => None,
    }
}

pub fn clone_property_name(p: &PropertyName) -> (r: PropertyName)
    ensures
        r == *p,
{
    match p {
        PropertyName::Identifier(name) => PropertyName::Identifier(name.clone()),
        PropertyName::String(name) => PropertyName::String(name.clone()),
        PropertyName::Number { value_bits, key } => PropertyName::Number {
            value_bits: *value_bits,
            key: key.clone(),
        },
    }
}

#[verifier::loop_isolation(false)]
pub(crate) fn clone_pattern(p: &Pattern) -> (r: Pattern)
    ensures
        pattern_copy(r, *p),
    decreases *p,
{
    match p {
        Pattern::Identifier { span, name } => Pattern::Identifier { span: *span, name: name.clone() },
        Pattern::Object { span, properties, rest } => {
            let mut out: Vec<ObjectPatternProperty> = Vec::new();
            let mut i: usize = 0;
            while i < properties.len()
                invariant
                    i <= properties.len(),
                    out@.len() == i,
                    property_patterns_copy(out@, properties@, i as int),
                decreases properties.len() - i,
            {
                proof {
                    assert(decreases_to!(*p => properties@[i as int].value));
                }
                let prop = &properties[i];
                let ghost prev = out@;
                out.push(
                    ObjectPatternProperty {
                        span: prop.span,
                        key: clone_property_name(&prop.key),
                        value: clone_pattern(&prop.value),
                    },
                );
                assert(out@.drop_last() =~= prev);
                assert(property_pattern_copy(out@[i as int], properties@[i as int]));
                i = i + 1;
            }
            let rest_copy = match rest {
                Some(r) => Some(Box::new(clone_pattern(r))),
                None => None,
            };
            assert(boxed_pattern_copy(rest_copy, *rest));
            Pattern::Object { span: *span, properties: out, rest: rest_copy }
        },
        Pattern::Array { span, elements, rest } => {
            let mut out: Vec<Option<Pattern>> = Vec::new();
            let mut i: usize = 0;
            while i < elements.len()
                invariant
                    i <= elements.len(),
                    out@.len() == i,
                    opt_patterns_copy(out@, elements@, i as int),
                decreases elements.len() - i,
            {
                let element = match &elements[i] {
                    Some(e) => {
                        proof {
                            assert(decreases_to!(*p => elements@[i as int]));
                        }
                        Some(clone_pattern(e))
                    },
                    None => None,
                };
                let ghost prev = out@;
                out.push(element);
                assert(out@.drop_last() =~= prev);
                assert(opt_pattern_copy(out@[i as int], elements@[i as int]));
                i = i + 1;
            }
            let rest_copy = match rest {
                Some(r) => Some(Box::new(clone_pattern(r))),
                None => None,
            };
            assert(boxed_pattern_copy(rest_copy, *rest));
            Pattern::Array { span: *span, elements: out, rest: rest_copy }
        },
        Pattern::Default { span, target, default_value } => Pattern::Default {
            span: *span,
            target: Box::new(clone_pattern(target)),
            default_value: clone_expr(default_value),
        },
    }
}

pub(crate) fn clone_patterns(v: &Vec<Pattern>) -> (r: Vec<Pattern>)
    ensures
        r@.len() == v@.len(),
        patterns_copy(r@, v@, v@.len() as int),
    decreases *v,
{
    let mut out: Vec<Pattern> = Vec::new();
    let mut i: usize = 0;
    while i < v.len()
        invariant
            i <= v.len(),
            out@.len() == i,
            patterns_copy(out@, v@, i as int),
        decreases v.len() - i,
    {
        proof {
            assert(decreases_to!(*v => v[i as int]));
        }
        let ghost prev = out@;
        out.push(clone_pattern(&v[i]));
        assert(out@.drop_last() =~= prev);
        i = i + 1;
    }
    out
}

pub(crate) fn clone_pattern_opt(p: &Option<Pattern>) -> (r: Option<Pattern>)
    ensures
        r is Some == p is Some,
        opt_pattern_copy(r, *p),
    decreases *p,
{
    match p {
        Some(q) => Some(clone_pattern(q)),
        None => None,
    }
}

pub(crate) fn clone_exprs(v: &Vec<Expr>) -> (r: Vec<Expr>)
    ensures
        r@.len() == v@.len(),
        exprs_copy(r@, v@, v@.len() as int),
    decreases *v,
{
    let mut out: Vec<Expr> = Vec::new();
    let mut i: usize = 0;
    while i < v.len()
        invariant
            i <= v.len(),
            out@.len() == i,
            exprs_copy(out@, v@, i as int),
        decreases v.len() - i,
    {
        proof {
            assert(decreases_to!(*v => v[i as int]));
        }
        let ghost prev = out@;
        out.push(clone_expr(&v[i]));
        assert(out@.drop_last() =~= prev);
        i = i + 1;
    }
    out
}

pub(crate) fn clone_expr_opt(e: &Option<Expr>) -> (r: Option<Expr>)
    ensures
        opt_expr_copy(r, *e),
    decreases *e,
{
    match e {
        Some(x) => Some(clone_expr(x)),
        None => None,
    }
}

pub(crate) fn clone_member_property(m: &MemberProperty) -> (r: MemberProperty)
    ensures
        member_copy(r, *m),
    decreases *m,
{
    match m {
        MemberProperty::Static(name) => MemberProperty::Static(clone_property_name(name)),
        MemberProperty::Computed(e) => MemberProperty::Computed(Box::new(clone_expr(e))),
    }
}

pub(crate) fn clone_assign_target(t: &AssignTarget) -> (r: AssignTarget)
    ensures
        target_copy(r, *t),
    decreases *t,
{
    match t {
        AssignTarget::Identifier { span, name } => AssignTarget::Identifier {
            span: *span,
            name: name.clone(),
        },
        AssignTarget::Member { span, object, property, optional } => AssignTarget::Member {
            span: *span,
            object: Box::new(clone_expr(object)),
            property: clone_member_property(property),
            optional: *optional,
        },
    }
}

pub(crate) fn clone_function(f: &FunctionExpr) -> (r: FunctionExpr)
    ensures
        r.span == f.span,
        r.name == f.name,
        r.params@.len() == f.params@.len(),
        r.is_async == f.is_async,
        r.is_arrow == f.is_arrow,
        function_copy(r, *f),
    decreases *f,
{
    FunctionExpr {
        span: f.span,
        name: clone_string_opt(&f.name),
        params: clone_patterns(&f.params),
        rest: clone_pattern_opt(&f.rest),
        body: clone_stmts(&f.body),
        is_async: f.is_async,
        is_arrow: f.is_arrow,
    }
}

#[verifier::loop_isolation(false)]
pub(crate) fn clone_expr(e: &Expr) -> (r: Expr)
    ensures
        expr_copy(r, *e),
    decreases *e,
{
    match e {
        Expr::Undefined { span } => Expr::Undefined { span: *span },
        Expr::Null { span } => Expr::Null { span: *span },
        Expr::Bool { span, value } => Expr::Bool { span: *span, value: *value },
        Expr::Number { span, value_bits } => Expr::Number { span: *span, value_bits: *value_bits },
        Expr::String { span, value } => Expr::String { span: *span, value: value.clone() },
        Expr::Template { span, quasis, expressions } => {
            let mut qs: Vec<String> = Vec::new();
            let mut i: usize = 0;
            while i < quasis.len()
                invariant
                    i <= quasis.len(),
                    qs@.len() == i,
                    forall|j: int| 0 <= j < i ==> qs@[j] == quasis@[j],
                decreases quasis.len() - i,
            {
                qs.push(quasis[i].clone());
                i = i + 1;
            }
            assert(qs@ =~= quasis@);
            Expr::Template { span: *span, quasis: qs, expressions: clone_exprs(expressions) }
        },
        Expr::Identifier { span, name } => Expr::Identifier { span: *span, name: name.clone() },
        Expr::This { span } => Expr::This { span: *span },
        Expr::Array { span, elements } => Expr::Array {
            span: *span,
            elements: clone_exprs(elements),
        },
        Expr::Sequence { span, expressions } => Expr::Sequence {
            span: *span,
            expressions: clone_exprs(expressions),
        },
        Expr::Object { span, properties } => {
            let mut out: Vec<ObjectProperty> = Vec::new();
            let mut i: usize = 0;
            while i < properties.len()
                invariant
                    i <= properties.len(),
                    out@.len() == i,
                    properties_copy(out@, properties@, i as int),
                decreases properties.len() - i,
            {
                proof {
                    assert(decreases_to!(*e => properties@[i as int].value));
                }
                let prop = &properties[i];
                let ghost prev = out@;
                out.push(
                    ObjectProperty {
                        span: prop.span,
                        key: clone_property_name(&prop.key),
                        value: clone_expr(&prop.value),
                    },
                );
                assert(out@.drop_last() =~= prev);
                assert(property_copy(out@[i as int], properties@[i as int]));
                i = i + 1;
            }
            Expr::Object { span: *span, properties: out }
        },
        Expr::Function(f) => Expr::Function(Box::new(clone_function(f))),
        Expr::Unary { span, operator, argument } => Expr::Unary {
            span: *span,
            operator: *operator,
            argument: Box::new(clone_expr(argument)),
        },
        Expr::Binary { span, operator, left, right } => Expr::Binary {
            span: *span,
            operator: *operator,
            left: Box::new(clone_expr(left)),
            right: Box::new(clone_expr(right)),
        },
        Expr::Logical { span, operator, left, right } => Expr::Logical {
            span: *span,
            operator: *operator,
            left: Box::new(clone_expr(left)),
            right: Box::new(clone_expr(right)),
        },
        Expr::Conditional { span, test, consequent, alternate } => Expr::Conditional {
            span: *span,
            test: Box::new(clone_expr(test)),
            consequent: Box::new(clone_expr(consequent)),
            alternate: Box::new(clone_expr(alternate)),
        },
        Expr::Assignment { span, target, operator, value } => Expr::Assignment {
            span: *span,
            target: clone_assign_target(target),
            operator: *operator,
            value: Box::new(clone_expr(value)),
        },
        Expr::Call { span, callee, arguments, optional } => Expr::Call {
            span: *span,
            callee: Box::new(clone_expr(callee)),
            arguments: clone_exprs(arguments),
            optional: *optional,
        },
        Expr::Member { span, object, property, optional } => Expr::Member {
            span: *span,
            object: Box::new(clone_expr(object)),
            property: clone_member_property(property),
            optional: *optional,
        },
        Expr::Await { span, value } => Expr::Await {
            span: *span,
            value: Box::new(clone_expr(value)),
        },
        Expr::New { span, callee, arguments } => Expr::New {
            span: *span,
            callee: Box::new(clone_expr(callee)),
            arguments: clone_exprs(arguments),
        },
        Expr::RegExp { span, pattern, flags } => Expr::RegExp {
            span: *span,
            pattern: pattern.clone(),
            flags: flags.clone(),
        },
    }
}

pub(crate) fn clone_declarators(v: &Vec<Declarator>) -> (r: Vec<Declarator>)
    ensures
        r@.len() == v@.len(),
        declarators_copy(r@, v@, v@.len() as int),
    decreases *v,
{
    let mut out: Vec<Declarator> = Vec::new();
    let mut i: usize = 0;
    while i < v.len()
        invariant
            i <= v.len(),
            out@.len() == i,
            declarators_copy(out@, v@, i as int),
        decreases v.len() - i,
    {
        proof {
            assert(decreases_to!(*v => v[i as int]));
        }
        let d = &v[i];
        let ghost prev = out@;
        out.push(
            Declarator {
                span: d.span,
                pattern: clone_pattern(&d.pattern),
                initializer: clone_expr_opt(&d.initializer),
            },
        );
        assert(out@.drop_last() =~= prev);
        assert(declarator_copy(out@[i as int], v@[i as int]));
        i = i + 1;
    }
    out
}

pub(crate) fn clone_stmts(v: &Vec<Stmt>) -> (r: Vec<Stmt>)
    ensures
        r@.len() == v@.len(),
        stmts_copy(r@, v@, v@.len() as int),
    decreases *v,
{
    let mut out: Vec<Stmt> = Vec::new();
    let mut i: usize = 0;
    while i < v.len()
        invariant
            i <= v.len(),
            out@.len() == i,
            stmts_copy(out@, v@, i as int),
        decreases v.len() - i,
    {
        proof {
            assert(decreases_to!(*v => v[i as int]));
        }
        let ghost prev = out@;
        out.push(clone_stmt(&v[i]));
        assert(out@.drop_last() =~= prev);
        i = i + 1;
    }
    out
}

#[verifier::loop_isolation(false)]
pub(crate) fn clone_stmt(s: &Stmt) -> (r: Stmt)
    ensures
        stmt_copy(r, *s),
    decreases *s,
{
    match s {
        Stmt::Block { span, body } => Stmt::Block { span: *span, body: clone_stmts(body) },
        Stmt::Break { span } => Stmt::Break { span: *span },
        Stmt::Continue { span } => Stmt::Continue { span: *span },
        Stmt::Empty { span } => Stmt::Empty { span: *span },
        Stmt::Expression { span, expression } => Stmt::Expression {
            span: *span,
            expression: clone_expr(expression),
        },
        Stmt::For { span, init, test, update, body } => {
            let init_copy = match init {
                Some(ForInit::VariableDecl { kind, declarators }) => Some(
                    ForInit::VariableDecl { kind: *kind, declarators: clone_declarators(declarators) },
                ),
                Some(ForInit::Expression(e)) => Some(ForInit::Expression(clone_expr(e))),
                None => None,
            };
            assert(for_init_copy(init_copy, *init));
            Stmt::For {
                span: *span,
                init: init_copy,
                test: clone_expr_opt(test),
                update: clone_expr_opt(update),
                body: Box::new(clone_stmt(body)),
            }
        },
        Stmt::ForOf { span, kind, pattern, iterable, body } => Stmt::ForOf {
            span: *span,
            kind: *kind,
            pattern: clone_pattern(pattern),
            iterable: clone_expr(iterable),
            body: Box::new(clone_stmt(body)),
        },
        Stmt::If { span, test, consequent, alternate } => {
            let alternate_copy = match alternate {
                Some(a) => Some(Box::new(clone_stmt(a))),
                None => None,
            };
            assert(boxed_stmt_copy(alternate_copy, *alternate));
            Stmt::If {
                span: *span,
                test: clone_expr(test),
                consequent: Box::new(clone_stmt(consequent)),
                alternate: alternate_copy,
            }
        },
        Stmt::Return { span, value } => Stmt::Return { span: *span, value: clone_expr_opt(value) },
        Stmt::Switch { span, discriminant, cases } => {
            let mut out: Vec<SwitchCase> = Vec::new();
            let mut i: usize = 0;
            while i < cases.len()
                invariant
                    i <= cases.len(),
                    out@.len() == i,
                    cases_copy(out@, cases@, i as int),
                decreases cases.len() - i,
            {
                proof {
                    assert(decreases_to!(*s => cases@[i as int].test));
                    assert(decreases_to!(*s => cases@[i as int].consequent));
                }
                let case = &cases[i];
                let ghost prev = out@;
                out.push(
                    SwitchCase {
                        span: case.span,
                        test: clone_expr_opt(&case.test),
                        consequent: clone_stmts(&case.consequent),
                    },
                );
                assert(out@.drop_last() =~= prev);
                assert(case_copy(out@[i as int], cases@[i as int]));
                i = i + 1;
            }
            Stmt::Switch { span: *span, discriminant: clone_expr(discriminant), cases: out }
        },
        Stmt::Throw { span, value } => Stmt::Throw { span: *span, value: clone_expr(value) },
        Stmt::Try { span, body, catch, finally } => {
            let catch_copy = match catch {
                Some(c) => Some(
                    CatchClause {
                        span: c.span,
                        parameter: clone_pattern_opt(&c.parameter),
                        body: Box::new(clone_stmt(&c.body)),
                    },
                ),
                None => None,
            };
            let finally_copy = match finally {
                Some(f) => Some(Box::new(clone_stmt(f))),
                None => None,
            };
            assert(opt_catch_copy(catch_copy, *catch));
            assert(boxed_stmt_copy(finally_copy, *finally));
            Stmt::Try {
                span: *span,
                body: Box::new(clone_stmt(body)),
                catch: catch_copy,
                finally: finally_copy,
            }
        },
        Stmt::VariableDecl { span, kind, declarators } => Stmt::VariableDecl {
            span: *span,
            kind: *kind,
            declarators: clone_declarators(declarators),
        },
        Stmt::While { span, test, body } => Stmt::While {
            span: *span,
            test: clone_expr(test),
            body: Box::new(clone_stmt(body)),
        },
        Stmt::DoWhile { span, body, test } => Stmt::DoWhile {
            span: *span,
            body: Box::new(clone_stmt(body)),
            test: clone_expr(test),
        },
        Stmt::FunctionDecl { span, function } => Stmt::FunctionDecl {
            span: *span,
            function: clone_function(function),
        },
    }
}

} // verus!
