use vstd::prelude::*;

use crate::lowering::{program_diagnostics, program_scope};
use crate::lowering_spec::{
    args_step, arrow_step, belems_state, block_state, body_scope, bprop_step, bprops_state,
    case_state, cases_state, catch_scope, catch_state, chain_step, declarator_step,
    declarators_state, elements_step, sequence_step, expr_step, exprs_state, for_init_step, function_step,
    items_step, member_step, members_state, opt_expr_state, opt_pattern_state, opt_stmt_state,
    param_step, params_step, pattern_step, predeclare_one, predeclared, stmt_step, stmts_state,
    target_step, with_scope, without_scope,
};
use crate::scope::{declare_all, declare_spec, ScopeState};
use crate::source::{
    SourceArgument, SourceArrayElement, SourceArrowFunction, SourceAssignmentTarget,
    SourceBindingPattern, SourceBindingProperty, SourceBlock, SourceCatchClause,
    SourceChainElement, SourceDeclarationKind, SourceDeclarator, SourceExpression, SourceForInit, SourceForOfLeft,
    SourceFunction, SourceObjectMember, SourceParameter, SourceParameters, SourceProgram,
    SourceStatement, SourceSwitchCase,
};
use crate::span::SourceSpan;
use crate::ir::BindingKind;

verus! {

// Lowering fails closed: it never takes a report back, and a construct that
// fails to lower always leaves a report behind. Since a script compiles
// only when nothing was reported, a construct that is dropped from the
// lowered program because it failed always fails the compilation.

/// Every diagnostic of `a` is still in `b`, at the same place.
pub open spec fn keeps_reports(a: ScopeState, b: ScopeState) -> bool {
    &&& a.diagnostics.len() <= b.diagnostics.len()
    &&& forall|i: int| 0 <= i < a.diagnostics.len() ==> #[trigger] b.diagnostics[i] == a.diagnostics[i]
}

/// `b` keeps the reports of `a`, and holds more of them when `failed`.
pub open spec fn fails_closed(a: ScopeState, b: ScopeState, failed: bool) -> bool {
    &&& keeps_reports(a, b)
    &&& failed ==> a.diagnostics.len() < b.diagnostics.len()
}

proof fn lemma_keeps_trans(a: ScopeState, b: ScopeState, c: ScopeState)
    requires
        keeps_reports(a, b),
        keeps_reports(b, c),
    ensures
        keeps_reports(a, c),
{
    assert forall|i: int| 0 <= i < a.diagnostics.len() implies #[trigger] c.diagnostics[i]
        == a.diagnostics[i] by {
        assert(b.diagnostics[i] == a.diagnostics[i]);
    }
}

proof fn lemma_declare_keeps(st: ScopeState, name: Seq<char>, span: SourceSpan)
    ensures
        keeps_reports(st, declare_spec(st, name, span)),
{
}

proof fn lemma_declare_all_keeps(st: ScopeState, names: Seq<(Seq<char>, SourceSpan)>)
    ensures
        keeps_reports(st, declare_all(st, names)),
    decreases names.len(),
{
    if names.len() > 0 {
        let s1 = declare_spec(st, names[0].0, names[0].1);
        lemma_declare_keeps(st, names[0].0, names[0].1);
        lemma_declare_all_keeps(s1, names.drop_first());
        lemma_keeps_trans(st, s1, declare_all(s1, names.drop_first()));
    }
}

proof fn lemma_predeclared_keeps(st: ScopeState, ss: Seq<SourceStatement>, n: int)
    ensures
        keeps_reports(st, predeclared(st, ss, n)),
    decreases n,
{
    if 0 < n <= ss.len() {
        let s1 = predeclared(st, ss, n - 1);
        lemma_predeclared_keeps(st, ss, n - 1);
        match ss[n - 1] {
            SourceStatement::FunctionDeclaration(f) => match f.id {
                Some(id) => lemma_declare_keeps(s1, id.name@, id.span),
                None => {},
            },
            SourceStatement::VariableDeclaration(decl) => {
                lemma_declare_all_keeps(
                    s1,
                    crate::lowering_spec::declarators_idents(
                        decl.declarations@,
                        decl.declarations@.len() as int,
                    ),
                );
            },
            _ => {},
        }
        lemma_keeps_trans(st, s1, predeclare_one(s1, ss[n - 1]));
    }
}

proof fn lemma_scopes_keep(st: ScopeState)
    ensures
        keeps_reports(st, with_scope(st)),
        keeps_reports(with_scope(st), st),
        keeps_reports(st, without_scope(st)),
        keeps_reports(without_scope(st), st),
{
}


proof fn lemma_body_scope_keeps(st: ScopeState, ps: SourceParameters, body: Seq<SourceStatement>)
    ensures
        keeps_reports(params_step(st, ps).after, body_scope(st, ps, body)),
{
    let a = params_step(st, ps).after;
    let s1 = declare_all(with_scope(a), crate::lowering_spec::params_idents(st, ps));
    lemma_scopes_keep(a);
    lemma_declare_all_keeps(with_scope(a), crate::lowering_spec::params_idents(st, ps));
    lemma_keeps_trans(a, with_scope(a), s1);
    lemma_predeclared_keeps(s1, body, body.len() as int);
    lemma_keeps_trans(a, s1, body_scope(st, ps, body));
}

proof fn lemma_catch_scope_keeps(st: ScopeState, h: SourceCatchClause)
    ensures
        keeps_reports(st, catch_scope(st, h)),
{
    lemma_scopes_keep(st);
    let s1 = match h.param {
        Some(p) => declare_all(with_scope(st), crate::lowering_spec::source_idents(p)),
        None => with_scope(st),
    };
    match h.param {
        Some(p) => {
            lemma_declare_all_keeps(with_scope(st), crate::lowering_spec::source_idents(p));
            lemma_keeps_trans(st, with_scope(st), s1);
        },
        None => {},
    }
    lemma_predeclared_keeps(s1, h.body.body@, h.body.body@.len() as int);
    lemma_keeps_trans(st, s1, catch_scope(st, h));
}

proof fn lemma_expr(st: ScopeState, e: SourceExpression)
    ensures
        fails_closed(st, expr_step(st, e).after, !expr_step(st, e).ok),
    decreases e, 0int,
{
    match e {
        SourceExpression::Template { expressions, .. } => {
            lemma_exprs(st, expressions@, expressions@.len() as int);
        },
        SourceExpression::Sequence { expressions, .. } => {
            lemma_sequence(st, expressions@, expressions@.len() as int);
        },
        SourceExpression::Array { elements, .. } => {
            lemma_elements(st, elements@, elements@.len() as int);
        },
        SourceExpression::Object { properties, .. } => {
            lemma_members(st, properties@, properties@.len() as int);
        },
        SourceExpression::Arrow(f) => {
            lemma_arrow(st, *f);
        },
        SourceExpression::Function(f) => {
            lemma_function(st, *f);
        },
        SourceExpression::Unary { argument, .. } => {
            lemma_expr(st, *argument);
        },
        SourceExpression::Binary { left, right, .. } => {
            lemma_expr(st, *left);
            let a = expr_step(st, *left);
            lemma_expr(a.after, *right);
            lemma_keeps_trans(st, a.after, expr_step(a.after, *right).after);
        },
        SourceExpression::Logical { left, right, .. } => {
            lemma_expr(st, *left);
            let a = expr_step(st, *left);
            lemma_expr(a.after, *right);
            lemma_keeps_trans(st, a.after, expr_step(a.after, *right).after);
        },
        SourceExpression::Conditional { test, consequent, alternate, .. } => {
            lemma_expr(st, *test);
            let a = expr_step(st, *test);
            lemma_expr(a.after, *consequent);
            let b = expr_step(a.after, *consequent);
            lemma_keeps_trans(st, a.after, b.after);
            lemma_expr(b.after, *alternate);
            lemma_keeps_trans(st, b.after, expr_step(b.after, *alternate).after);
        },
        SourceExpression::Assignment { span, target, value, .. } => {
            lemma_target(st, target);
            let a = target_step(st, target);
            lemma_expr(a.after, *value);
            lemma_keeps_trans(st, a.after, expr_step(a.after, *value).after);
            lemma_keeps_trans(st, a.after, crate::lowering_spec::report(a.after, "unsupported assignment operator in v1"@, span));
        },
        SourceExpression::Call { callee, arguments, .. } => {
            lemma_expr(st, *callee);
            let a = expr_step(st, *callee);
            lemma_args(a.after, arguments@, arguments@.len() as int);
            lemma_keeps_trans(st, a.after, args_step(a.after, arguments@, arguments@.len() as int).after);
        },
        SourceExpression::Chain(c) => {
            lemma_chain(st, c);
        },
        SourceExpression::ComputedMember { object, expression, .. } => {
            lemma_expr(st, *object);
            let a = expr_step(st, *object);
            lemma_expr(a.after, *expression);
            lemma_keeps_trans(st, a.after, expr_step(a.after, *expression).after);
        },
        SourceExpression::StaticMember { object, .. } => {
            lemma_expr(st, *object);
        },
        SourceExpression::Await { argument, .. } => {
            lemma_expr(st, *argument);
        },
        SourceExpression::New { callee, arguments, .. } => {
            lemma_expr(st, *callee);
            let a = expr_step(st, *callee);
            lemma_args(a.after, arguments@, arguments@.len() as int);
            lemma_keeps_trans(st, a.after, args_step(a.after, arguments@, arguments@.len() as int).after);
        },
        SourceExpression::Parenthesized(inner) => {
            lemma_expr(st, *inner);
        },
        _ => {},
    }
}

proof fn lemma_opt_expr(st: ScopeState, e: Option<SourceExpression>)
    ensures
        keeps_reports(st, opt_expr_state(st, e)),
    decreases e, 1int,
{
    match e {
        Some(x) => lemma_expr(st, x),
        None => {},
    }
}

proof fn lemma_exprs(st: ScopeState, es: Seq<SourceExpression>, n: int)
    ensures
        keeps_reports(st, exprs_state(st, es, n)),
    decreases es, n,
{
    if 0 < n <= es.len() {
        lemma_exprs(st, es, n - 1);
        let s = exprs_state(st, es, n - 1);
        lemma_expr(s, es[n - 1]);
        lemma_keeps_trans(st, s, exprs_state(st, es, n));
    }
}

proof fn lemma_sequence(st: ScopeState, es: Seq<SourceExpression>, n: int)
    ensures
        fails_closed(st, sequence_step(st, es, n).after, !sequence_step(st, es, n).ok),
    decreases es, n,
{
    if 0 < n <= es.len() {
        lemma_sequence(st, es, n - 1);
        let a = sequence_step(st, es, n - 1);
        if a.ok {
            lemma_expr(a.after, es[n - 1]);
            lemma_keeps_trans(st, a.after, sequence_step(st, es, n).after);
        }
    }
}

proof fn lemma_elements(st: ScopeState, es: Seq<SourceArrayElement>, n: int)
    ensures
        fails_closed(st, elements_step(st, es, n).after, !elements_step(st, es, n).ok),
    decreases es, n,
{
    if 0 < n <= es.len() {
        lemma_elements(st, es, n - 1);
        let a = elements_step(st, es, n - 1);
        if a.ok {
            match es[n - 1] {
                SourceArrayElement::Expression(x) => lemma_expr(a.after, x),
                _ => {},
            }
            lemma_keeps_trans(st, a.after, elements_step(st, es, n).after);
        }
    }
}

proof fn lemma_member(st: ScopeState, m: SourceObjectMember)
    ensures
        fails_closed(st, member_step(st, m).after, !member_step(st, m).ok),
    decreases m, 0int,
{
    match m {
        SourceObjectMember::Property { value, .. } => lemma_expr(st, value),
        _ => {},
    }
}

proof fn lemma_members(st: ScopeState, ms: Seq<SourceObjectMember>, n: int)
    ensures
        keeps_reports(st, members_state(st, ms, n)),
    decreases ms, n,
{
    if 0 < n <= ms.len() {
        lemma_members(st, ms, n - 1);
        let s = members_state(st, ms, n - 1);
        lemma_member(s, ms[n - 1]);
        lemma_keeps_trans(st, s, members_state(st, ms, n));
    }
}

proof fn lemma_args(st: ScopeState, args: Seq<SourceArgument>, n: int)
    ensures
        fails_closed(st, args_step(st, args, n).after, !args_step(st, args, n).ok),
    decreases args, n,
{
    if 0 < n <= args.len() {
        lemma_args(st, args, n - 1);
        let a = args_step(st, args, n - 1);
        if a.ok {
            match args[n - 1] {
                SourceArgument::Expression(x) => lemma_expr(a.after, x),
                _ => {},
            }
            lemma_keeps_trans(st, a.after, args_step(st, args, n).after);
        }
    }
}

proof fn lemma_chain(st: ScopeState, c: SourceChainElement)
    ensures
        fails_closed(st, chain_step(st, c).after, !chain_step(st, c).ok),
    decreases c, 0int,
{
    match c {
        SourceChainElement::Call { callee, arguments, .. } => {
            lemma_expr(st, *callee);
            let a = expr_step(st, *callee);
            lemma_args(a.after, arguments@, arguments@.len() as int);
            lemma_keeps_trans(st, a.after, args_step(a.after, arguments@, arguments@.len() as int).after);
        },
        SourceChainElement::ComputedMember { object, expression, .. } => {
            lemma_expr(st, *object);
            let a = expr_step(st, *object);
            lemma_expr(a.after, *expression);
            lemma_keeps_trans(st, a.after, expr_step(a.after, *expression).after);
        },
        SourceChainElement::StaticMember { object, .. } => lemma_expr(st, *object),
        SourceChainElement::NonNull(inner) => lemma_expr(st, *inner),
        _ => {},
    }
}

proof fn lemma_target(st: ScopeState, t: SourceAssignmentTarget)
    ensures
        fails_closed(st, target_step(st, t).after, !target_step(st, t).ok),
    decreases t, 0int,
{
    match t {
        SourceAssignmentTarget::ComputedMember { object, expression, .. } => {
            lemma_expr(st, *object);
            let a = expr_step(st, *object);
            lemma_expr(a.after, *expression);
            lemma_keeps_trans(st, a.after, expr_step(a.after, *expression).after);
        },
        SourceAssignmentTarget::StaticMember { object, .. } => lemma_expr(st, *object),
        _ => {},
    }
}

proof fn lemma_pattern(st: ScopeState, p: SourceBindingPattern)
    ensures
        fails_closed(st, pattern_step(st, p).after, !pattern_step(st, p).ok),
    decreases p, 0int,
{
    match p {
        SourceBindingPattern::Object { properties, rest, .. } => {
            lemma_bprops(st, properties@, properties@.len() as int);
            let s = bprops_state(st, properties@, properties@.len() as int);
            lemma_opt_pattern(s, rest);
            lemma_keeps_trans(st, s, opt_pattern_state(s, rest));
        },
        SourceBindingPattern::Array { elements, rest, .. } => {
            lemma_belems(st, elements@, elements@.len() as int);
            let s = belems_state(st, elements@, elements@.len() as int);
            lemma_opt_pattern(s, rest);
            lemma_keeps_trans(st, s, opt_pattern_state(s, rest));
        },
        SourceBindingPattern::Assignment { left, right, .. } => {
            lemma_pattern(st, *left);
            let a = pattern_step(st, *left);
            lemma_expr(a.after, right);
            lemma_keeps_trans(st, a.after, expr_step(a.after, right).after);
        },
        _ => {},
    }
}

proof fn lemma_opt_pattern(st: ScopeState, p: Option<Box<SourceBindingPattern>>)
    ensures
        keeps_reports(st, opt_pattern_state(st, p)),
    decreases p, 1int,
{
    match p {
        Some(x) => lemma_pattern(st, *x),
        None => {},
    }
}

proof fn lemma_bprop(st: ScopeState, prop: SourceBindingProperty)
    ensures
        fails_closed(st, bprop_step(st, prop).after, !bprop_step(st, prop).ok),
    decreases prop, 0int,
{
    lemma_pattern(st, prop.value);
}

proof fn lemma_bprops(st: ScopeState, props: Seq<SourceBindingProperty>, n: int)
    ensures
        keeps_reports(st, bprops_state(st, props, n)),
    decreases props, n,
{
    if 0 < n <= props.len() {
        lemma_bprops(st, props, n - 1);
        let s = bprops_state(st, props, n - 1);
        lemma_bprop(s, props[n - 1]);
        lemma_keeps_trans(st, s, bprops_state(st, props, n));
    }
}

proof fn lemma_belems(st: ScopeState, elems: Seq<Option<SourceBindingPattern>>, n: int)
    ensures
        keeps_reports(st, belems_state(st, elems, n)),
    decreases elems, n,
{
    if 0 < n <= elems.len() {
        lemma_belems(st, elems, n - 1);
        let s = belems_state(st, elems, n - 1);
        match elems[n - 1] {
            Some(p) => lemma_pattern(s, p),
            None => {},
        }
        lemma_keeps_trans(st, s, belems_state(st, elems, n));
    }
}

proof fn lemma_param(st: ScopeState, p: SourceParameter)
    ensures
        fails_closed(st, param_step(st, p).after, !param_step(st, p).ok),
    decreases p, 0int,
{
    lemma_pattern(st, p.pattern);
    let a = pattern_step(st, p.pattern);
    match p.initializer {
        Some(x) => {
            lemma_expr(a.after, x);
            lemma_keeps_trans(st, a.after, expr_step(a.after, x).after);
        },
        None => {},
    }
}

proof fn lemma_items(st: ScopeState, items: Seq<SourceParameter>, n: int)
    ensures
        fails_closed(st, items_step(st, items, n).after, !items_step(st, items, n).ok),
    decreases items, n,
{
    if 0 < n <= items.len() {
        lemma_items(st, items, n - 1);
        let a = items_step(st, items, n - 1);
        if a.ok {
            lemma_param(a.after, items[n - 1]);
            lemma_keeps_trans(st, a.after, items_step(st, items, n).after);
        }
    }
}

proof fn lemma_params(st: ScopeState, ps: SourceParameters)
    ensures
        fails_closed(st, params_step(st, ps).after, !params_step(st, ps).ok),
    decreases ps, 0int,
{
    lemma_items(st, ps.items@, ps.items@.len() as int);
    let a = items_step(st, ps.items@, ps.items@.len() as int);
    match ps.rest {
        Some(r) => {
            lemma_pattern(a.after, r.argument);
            lemma_keeps_trans(st, a.after, pattern_step(a.after, r.argument).after);
        },
        None => {},
    }
}

proof fn lemma_function(st: ScopeState, f: SourceFunction)
    ensures
        fails_closed(st, function_step(st, f).after, !function_step(st, f).ok),
    decreases f, 0int,
{
    if !f.generator {
        match f.body {
            Some(body) => {
                lemma_params(st, f.params);
                let a = params_step(st, f.params);
                if a.ok {
                    let s = body_scope(st, f.params, body@);
                    lemma_body_scope_keeps(st, f.params, body@);
                    lemma_keeps_trans(st, a.after, s);
                    lemma_stmts(s, body@, body@.len() as int);
                    let t = stmts_state(s, body@, body@.len() as int);
                    lemma_keeps_trans(st, s, t);
                    lemma_scopes_keep(t);
                    lemma_keeps_trans(st, t, without_scope(t));
                }
            },
            None => {},
        }
    }
}

proof fn lemma_arrow(st: ScopeState, f: SourceArrowFunction)
    ensures
        fails_closed(st, arrow_step(st, f).after, !arrow_step(st, f).ok),
    decreases f, 0int,
{
    lemma_params(st, f.params);
    let a = params_step(st, f.params);
    if a.ok {
        let s = body_scope(st, f.params, f.body@);
        lemma_body_scope_keeps(st, f.params, f.body@);
        lemma_keeps_trans(st, a.after, s);
        if f.expression && f.body@.len() == 1 {
            let b = match f.body@[0] {
                SourceStatement::Expression { expression, .. } => {
                    lemma_expr(s, expression);
                    expr_step(s, expression)
                },
                other => {
                    lemma_stmt(s, other);
                    stmt_step(s, other)
                },
            };
            lemma_keeps_trans(st, s, b.after);
            lemma_scopes_keep(b.after);
            lemma_keeps_trans(st, b.after, without_scope(b.after));
        } else {
            lemma_stmts(s, f.body@, f.body@.len() as int);
            let t = stmts_state(s, f.body@, f.body@.len() as int);
            lemma_keeps_trans(st, s, t);
            lemma_scopes_keep(t);
            lemma_keeps_trans(st, t, without_scope(t));
        }
    }
}

proof fn lemma_stmt(st: ScopeState, s: SourceStatement)
    ensures
        fails_closed(st, stmt_step(st, s).after, !stmt_step(st, s).ok),
    decreases s, 0int,
{
    match s {
        SourceStatement::Block(b) => lemma_block(st, b),
        SourceStatement::Expression { expression, .. } => lemma_expr(st, expression),
        SourceStatement::For { init, test, update, body, .. } => {
            lemma_for_init(st, init);
            let a = for_init_step(st, init);
            if a.ok {
                lemma_opt_expr(a.after, test);
                let s1 = opt_expr_state(a.after, test);
                lemma_keeps_trans(st, a.after, s1);
                lemma_opt_expr(s1, update);
                let s2 = opt_expr_state(s1, update);
                lemma_keeps_trans(st, s1, s2);
                lemma_stmt(s2, *body);
                lemma_keeps_trans(st, s2, stmt_step(s2, *body).after);
            }
        },
        SourceStatement::ForOf { is_await, left, right, body, .. } => {
            if !is_await {
                match left {
                    SourceForOfLeft::Target { target, .. } => {
                        lemma_target(st, target);
                        let a = target_step(st, target);
                        lemma_keeps_trans(st, a.after, stmt_step(st, s).after);
                    },
                    SourceForOfLeft::Declaration(decl) => {
                        if decl.declarations@.len() == 1 && decl.declarations@[0].init is None
                            && crate::lowering_spec::kind_spec(decl.kind) is Some {
                            let id = decl.declarations@[0].id;
                            lemma_pattern(st, id);
                            let a = pattern_step(st, id);
                            if a.ok {
                                lemma_expr(a.after, right);
                                let b = expr_step(a.after, right);
                                lemma_keeps_trans(st, a.after, b.after);
                                if b.ok {
                                    let names = crate::lowering_spec::lowered_idents(st, id);
                                    lemma_scopes_keep(b.after);
                                    lemma_declare_all_keeps(with_scope(b.after), names);
                                    let s1 = declare_all(with_scope(b.after), names);
                                    lemma_keeps_trans(b.after, with_scope(b.after), s1);
                                    lemma_keeps_trans(st, b.after, s1);
                                    lemma_stmt(s1, *body);
                                    let c = stmt_step(s1, *body);
                                    lemma_keeps_trans(st, s1, c.after);
                                    lemma_scopes_keep(c.after);
                                    lemma_keeps_trans(st, c.after, without_scope(c.after));
                                }
                            }
                        }
                    },
                }
            }
        },
        SourceStatement::ForIn { left, .. } => {
            match left {
                SourceForOfLeft::Target { target, .. } => {
                    lemma_target(st, target);
                    let a = target_step(st, target);
                    lemma_keeps_trans(st, a.after, stmt_step(st, s).after);
                },
                SourceForOfLeft::Declaration(decl) => {
                    if decl.declarations@.len() == 1 && decl.declarations@[0].init is None
                        && crate::lowering_spec::kind_spec(decl.kind) is Some {
                        let id = decl.declarations@[0].id;
                        lemma_pattern(st, id);
                        let a = pattern_step(st, id);
                        lemma_keeps_trans(st, a.after, stmt_step(st, s).after);
                    }
                },
            }
        },
        SourceStatement::If { test, consequent, alternate, .. } => {
            lemma_expr(st, test);
            let a = expr_step(st, test);
            if a.ok {
                lemma_stmt(a.after, *consequent);
                let b = stmt_step(a.after, *consequent);
                lemma_keeps_trans(st, a.after, b.after);
                if b.ok {
                    lemma_opt_stmt(b.after, alternate);
                    lemma_keeps_trans(st, b.after, opt_stmt_state(b.after, alternate));
                }
            }
        },
        SourceStatement::Return { argument, .. } => lemma_opt_expr(st, argument),
        SourceStatement::Switch { discriminant, cases, .. } => {
            lemma_expr(st, discriminant);
            let a = expr_step(st, discriminant);
            if a.ok {
                lemma_cases(a.after, cases@, cases@.len() as int);
                lemma_keeps_trans(st, a.after, cases_state(a.after, cases@, cases@.len() as int));
            }
        },
        SourceStatement::Throw { argument, .. } => lemma_expr(st, argument),
        SourceStatement::Try { block, handler, finalizer, .. } => {
            lemma_block(st, block);
            let s1 = block_state(st, block);
            let s2 = match handler {
                Some(h) => catch_state(s1, h),
                None => s1,
            };
            match handler {
                Some(h) => {
                    lemma_catch(s1, h);
                    lemma_keeps_trans(st, s1, s2);
                },
                None => {},
            }
            match finalizer {
                Some(f) => {
                    lemma_block(s2, f);
                    lemma_keeps_trans(st, s2, block_state(s2, f));
                },
                None => {},
            }
        },
        SourceStatement::VariableDeclaration(decl) => {
            lemma_declarators(st, decl.declarations@, decl.declarations@.len() as int);
        },
        SourceStatement::While { test, body, .. } => {
            lemma_expr(st, test);
            let a = expr_step(st, test);
            if a.ok {
                lemma_stmt(a.after, *body);
                lemma_keeps_trans(st, a.after, stmt_step(a.after, *body).after);
            }
        },
        SourceStatement::DoWhile { body, test, .. } => {
            lemma_stmt(st, *body);
            let a = stmt_step(st, *body);
            if a.ok {
                lemma_expr(a.after, test);
                lemma_keeps_trans(st, a.after, expr_step(a.after, test).after);
            }
        },
        SourceStatement::FunctionDeclaration(f) => lemma_function(st, f),
        _ => {},
    }
}

proof fn lemma_for_init(st: ScopeState, init: Option<SourceForInit>)
    ensures
        fails_closed(st, for_init_step(st, init).after, !for_init_step(st, init).ok),
    decreases init, 1int,
{
    match init {
        Some(SourceForInit::Declaration(decl)) => {
            lemma_declarators(st, decl.declarations@, decl.declarations@.len() as int);
        },
        Some(SourceForInit::Expression(x)) => lemma_expr(st, x),
        None => {},
    }
}

proof fn lemma_opt_stmt(st: ScopeState, s: Option<Box<SourceStatement>>)
    ensures
        keeps_reports(st, opt_stmt_state(st, s)),
    decreases s, 1int,
{
    match s {
        Some(x) => lemma_stmt(st, *x),
        None => {},
    }
}

proof fn lemma_stmts(st: ScopeState, ss: Seq<SourceStatement>, n: int)
    ensures
        keeps_reports(st, stmts_state(st, ss, n)),
    decreases ss, n,
{
    if 0 < n <= ss.len() {
        lemma_stmts(st, ss, n - 1);
        let s = stmts_state(st, ss, n - 1);
        lemma_stmt(s, ss[n - 1]);
        lemma_keeps_trans(st, s, stmts_state(st, ss, n));
    }
}

proof fn lemma_block(st: ScopeState, b: SourceBlock)
    ensures
        keeps_reports(st, block_state(st, b)),
    decreases b, 0int,
{
    lemma_scopes_keep(st);
    let s1 = predeclared(with_scope(st), b.body@, b.body@.len() as int);
    lemma_predeclared_keeps(with_scope(st), b.body@, b.body@.len() as int);
    lemma_keeps_trans(st, with_scope(st), s1);
    lemma_stmts(s1, b.body@, b.body@.len() as int);
    let s2 = stmts_state(s1, b.body@, b.body@.len() as int);
    lemma_keeps_trans(st, s1, s2);
    lemma_scopes_keep(s2);
    lemma_keeps_trans(st, s2, without_scope(s2));
}

proof fn lemma_catch(st: ScopeState, h: SourceCatchClause)
    ensures
        keeps_reports(st, catch_state(st, h)),
    decreases h, 0int,
{
    let s = catch_scope(st, h);
    lemma_catch_scope_keeps(st, h);
    let s1 = match h.param {
        Some(p) => pattern_step(s, p).after,
        None => s,
    };
    match h.param {
        Some(p) => {
            lemma_pattern(s, p);
            lemma_keeps_trans(st, s, s1);
        },
        None => {},
    }
    lemma_block(s1, h.body);
    let s2 = block_state(s1, h.body);
    lemma_keeps_trans(st, s1, s2);
    lemma_scopes_keep(s2);
    lemma_keeps_trans(st, s2, without_scope(s2));
}

proof fn lemma_declarator(st: ScopeState, d: SourceDeclarator)
    ensures
        fails_closed(st, declarator_step(st, d).after, !declarator_step(st, d).ok),
    decreases d, 0int,
{
    lemma_pattern(st, d.id);
    let a = pattern_step(st, d.id);
    lemma_opt_expr(a.after, d.init);
    lemma_keeps_trans(st, a.after, opt_expr_state(a.after, d.init));
}

proof fn lemma_declarators(st: ScopeState, ds: Seq<SourceDeclarator>, n: int)
    ensures
        keeps_reports(st, declarators_state(st, ds, n)),
    decreases ds, n,
{
    if 0 < n <= ds.len() {
        lemma_declarators(st, ds, n - 1);
        let s = declarators_state(st, ds, n - 1);
        lemma_declarator(s, ds[n - 1]);
        lemma_keeps_trans(st, s, declarators_state(st, ds, n));
    }
}

proof fn lemma_case(st: ScopeState, c: SourceSwitchCase)
    ensures
        keeps_reports(st, case_state(st, c)),
    decreases c, 0int,
{
    lemma_opt_expr(st, c.test);
    let s = opt_expr_state(st, c.test);
    lemma_stmts(s, c.consequent@, c.consequent@.len() as int);
    lemma_keeps_trans(st, s, case_state(st, c));
}

proof fn lemma_cases(st: ScopeState, cs: Seq<SourceSwitchCase>, n: int)
    ensures
        keeps_reports(st, cases_state(st, cs, n)),
    decreases cs, n,
{
    if 0 < n <= cs.len() {
        lemma_cases(st, cs, n - 1);
        let s = cases_state(st, cs, n - 1);
        lemma_case(s, cs[n - 1]);
        lemma_keeps_trans(st, s, cases_state(st, cs, n));
    }
}

/// Lowering a statement never takes back a diagnostic reported before it,
/// and a statement that fails to lower always reports one.
pub proof fn law_statement_lowering_fails_closed(st: ScopeState, s: SourceStatement)
    ensures
        fails_closed(st, stmt_step(st, s).after, !stmt_step(st, s).ok),
{
    lemma_stmt(st, s);
}

/// Lowering an expression never takes back a diagnostic reported before
/// it, and an expression that fails to lower always reports one.
pub proof fn law_expression_lowering_fails_closed(st: ScopeState, e: SourceExpression)
    ensures
        fails_closed(st, expr_step(st, e).after, !expr_step(st, e).ok),
{
    lemma_expr(st, e);
}

proof fn lemma_stmts_mono(st: ScopeState, ss: Seq<SourceStatement>, k: int, m: int)
    requires
        0 <= k <= m <= ss.len(),
    ensures
        keeps_reports(stmts_state(st, ss, k), stmts_state(st, ss, m)),
    decreases m - k,
{
    if m > k {
        lemma_stmts_mono(st, ss, k, m - 1);
        let s = stmts_state(st, ss, m - 1);
        lemma_stmt(s, ss[m - 1]);
        lemma_keeps_trans(stmts_state(st, ss, k), s, stmts_state(st, ss, m));
    }
}

/// A top-level statement that fails to lower, and so is left out of the
/// lowered script, leaves a diagnostic behind: the script does not compile.
pub proof fn law_dropped_statement_fails_compilation(program: SourceProgram, k: int)
    requires
        0 <= k < program.body@.len(),
        !stmt_step(stmts_state(program_scope(program), program.body@, k), program.body@[k]).ok,
    ensures
        program_diagnostics(program).len() > 0,
{
    let st = program_scope(program);
    let ss = program.body@;
    let s = stmts_state(st, ss, k);
    lemma_stmt(s, ss[k]);
    assert(stmts_state(st, ss, k + 1) == stmt_step(s, ss[k]).after);
    lemma_stmts_mono(st, ss, k + 1, ss.len() as int);
}


/// A `let` declaration lowers to a mutable binding and a `const` declaration
/// to an immutable one: each lowered kind comes from exactly that source
/// kind, and every other declaration kind is refused.
pub proof fn law_declaration_kinds_keep_their_mutability(k: SourceDeclarationKind)
    ensures
        crate::lowering_spec::kind_spec(k) == Some(BindingKind::Let) <==> k == SourceDeclarationKind::Let,
        crate::lowering_spec::kind_spec(k) == Some(BindingKind::Const) <==> k == SourceDeclarationKind::Const,
        crate::lowering_spec::kind_spec(k) is None <==> !(k == SourceDeclarationKind::Let || k
            == SourceDeclarationKind::Const),
{
}

} // verus!
