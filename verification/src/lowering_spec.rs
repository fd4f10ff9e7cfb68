use vstd::prelude::*;

use crate::bindings::{elements_idents, pattern_idents, props_idents};
use crate::diagnostic::DiagnosticKind;
use crate::ir::{
    AssignTarget, BindingKind, CatchClause, Declarator, Expr, ForInit, FunctionExpr,
    MemberProperty, ObjectPatternProperty, ObjectProperty, Pattern, PropertyName, Stmt, SwitchCase,
};
use crate::operators::{
    assign_op_spec, binary_op_spec, logical_op_spec, unary_op_message, unary_op_spec,
    SourcePropertyKey,
};
use crate::scope::{declare_all, declare_spec, is_forbidden_global, ScopeState};
use crate::source::{
    RefusedExpression, RefusedStatement, SourceArgument, SourceArrayElement, SourceArrowFunction,
    SourceAssignmentTarget, SourceBindingPattern, SourceBindingProperty, SourceBlock,
    SourceCatchClause, SourceChainElement, SourceDeclarationKind, SourceDeclarator,
    SourceExpression, SourceForInit, SourceForOfLeft, SourceFunction, SourceObjectMember, SourcePropertyKind,
    SourceParameter, SourceParameters, SourceStatement, SourceSwitchCase, SourceTemplateElement,
};
use crate::span::SourceSpan;

verus! {

// What lowering a source tree does, as functions of the lowerer's state
// before it: the state after (open scopes and diagnostics), whether the node
// lowers at all, and how a lowered node relates to its source. A node that
// fails to lower is dropped where the lowering lists its siblings one by one
// (statements of a block, object properties, template expressions,
// declarators) and fails its parent where the parent needs it.

/// The lowerer after one node: its state, and whether the node lowered.
pub struct Step {
    pub after: ScopeState,
    pub ok: bool,
}

/// `st` with one more validation diagnostic.
pub open spec fn report(st: ScopeState, message: Seq<char>, span: SourceSpan) -> ScopeState {
    ScopeState {
        scopes: st.scopes,
        diagnostics: st.diagnostics.push((DiagnosticKind::Validation, message, Some(span))),
    }
}

pub open spec fn passed(st: ScopeState) -> Step {
    Step { after: st, ok: true }
}

pub open spec fn refused(st: ScopeState, message: Seq<char>, span: SourceSpan) -> Step {
    Step { after: report(st, message, span), ok: false }
}

pub open spec fn with_scope(st: ScopeState) -> ScopeState {
    ScopeState { scopes: st.scopes.push(Seq::<Seq<char>>::empty()), diagnostics: st.diagnostics }
}

pub open spec fn without_scope(st: ScopeState) -> ScopeState {
    ScopeState {
        scopes: if st.scopes.len() == 0 {
            st.scopes
        } else {
            st.scopes.drop_last()
        },
        diagnostics: st.diagnostics,
    }
}

/// `name` is declared in some open scope.
pub open spec fn bound_in(st: ScopeState, name: Seq<char>) -> bool {
    exists|i: int| 0 <= i < st.scopes.len() && st.scopes[i].contains(name)
}

/// `let` and `const` are the declaration kinds the runtime supports.
pub open spec fn kind_spec(kind: SourceDeclarationKind) -> Option<BindingKind> {
    match kind {
        SourceDeclarationKind::Let => Some(BindingKind::Let),
        SourceDeclarationKind::Const => Some(BindingKind::Const),
        _ => None,
    }
}

pub open spec fn refused_statement_message(form: RefusedStatement) -> Seq<char> {
    match form {
        RefusedStatement::Debugger => "debugger statements are not supported"@,
        RefusedStatement::Labeled => "labeled statements are not supported in v1"@,
        RefusedStatement::ModuleDeclaration => "module syntax is not supported"@,
        RefusedStatement::With => "with is not supported"@,
        RefusedStatement::Class => "classes are not supported in v1"@,
    }
}

pub open spec fn refused_expression_message(form: RefusedExpression) -> Seq<char> {
    match form {
        RefusedExpression::MetaProperty => "meta properties are not supported"@,
        RefusedExpression::Import => "dynamic import() is not supported"@,
        RefusedExpression::BigInt => "bigint is not supported in v1"@,
        RefusedExpression::Super => "super is not supported in v1"@,
        RefusedExpression::PrivateField => "private fields are not supported in v1"@,
        RefusedExpression::Update => "update expressions are not supported in v1"@,
        RefusedExpression::Yield => "yield is not supported in v1"@,
        RefusedExpression::TaggedTemplate => "tagged templates are not supported in v1"@,
        RefusedExpression::Class => "classes are not supported in v1"@,
        RefusedExpression::Other => "unsupported expression form in v1"@,
    }
}

pub open spec fn free_forbidden_message(name: Seq<char>) -> Seq<char> {
    "free reference to forbidden ambient global `"@ + name + "`"@
}

/// The text of one template piece: cooked when its escapes are valid, raw
/// otherwise.
pub open spec fn template_text(e: SourceTemplateElement) -> Seq<char> {
    match e.cooked {
        Some(c) => c@,
        None => e.raw@,
    }
}

/// The names a source binding pattern declares, left to right.
pub open spec fn source_idents(p: SourceBindingPattern) -> Seq<(Seq<char>, SourceSpan)>
    decreases p, 0int,
{
    match p {
        SourceBindingPattern::Identifier { span, name } => seq![(name@, span)],
        SourceBindingPattern::Object { properties, rest, .. } => source_props_idents(
            properties@,
            properties@.len() as int,
        ) + match rest {
            Some(r) => source_idents(*r),
            None => seq![],
        },
        SourceBindingPattern::Array { elements, rest, .. } => source_elements_idents(
            elements@,
            elements@.len() as int,
        ) + match rest {
            Some(r) => source_idents(*r),
            None => seq![],
        },
        SourceBindingPattern::Assignment { left, .. } => source_idents(*left),
    }
}

pub open spec fn source_props_idents(props: Seq<SourceBindingProperty>, n: int) -> Seq<
    (Seq<char>, SourceSpan),
>
    decreases props, n,
{
    if n <= 0 || n > props.len() {
        seq![]
    } else {
        source_props_idents(props, n - 1) + source_idents(props[n - 1].value)
    }
}

pub open spec fn source_elements_idents(elems: Seq<Option<SourceBindingPattern>>, n: int) -> Seq<
    (Seq<char>, SourceSpan),
>
    decreases elems, n,
{
    if n <= 0 || n > elems.len() {
        seq![]
    } else {
        source_elements_idents(elems, n - 1) + match elems[n - 1] {
            Some(e) => source_idents(e),
            None => seq![],
        }
    }
}

pub open spec fn declarators_idents(decls: Seq<SourceDeclarator>, n: int) -> Seq<
    (Seq<char>, SourceSpan),
>
    decreases decls, n,
{
    if n <= 0 || n > decls.len() {
        seq![]
    } else {
        declarators_idents(decls, n - 1) + source_idents(decls[n - 1].id)
    }
}

/// Declaring, before a block's statements are lowered, the function names
/// and lexical bindings of one of them.
pub open spec fn predeclare_one(st: ScopeState, s: SourceStatement) -> ScopeState {
    match s {
        SourceStatement::FunctionDeclaration(f) => match f.id {
            Some(id) => declare_spec(st, id.name@, id.span),
            None => st,
        },
        SourceStatement::VariableDeclaration(decl) => if kind_spec(decl.kind) is None {
            report(st, "only let and const are supported"@, decl.span)
        } else {
            declare_all(st, declarators_idents(decl.declarations@, decl.declarations@.len() as int))
        },
        _ => st,
    }
}

pub open spec fn predeclared(st: ScopeState, stmts: Seq<SourceStatement>, n: int) -> ScopeState
    decreases n,
{
    if n <= 0 || n > stmts.len() {
        st
    } else {
        predeclare_one(predeclared(st, stmts, n - 1), stmts[n - 1])
    }
}

// ---------------------------------------------------------------------------
// The state after lowering a node, and whether it lowers.

pub open spec fn expr_step(st: ScopeState, e: SourceExpression) -> Step
    decreases e, 0int,
{
    match e {
        SourceExpression::Template { expressions, .. } => passed(
            exprs_state(st, expressions@, expressions@.len() as int),
        ),
        SourceExpression::Identifier { span, name } => if is_forbidden_global(name@) && !bound_in(
            st,
            name@,
        ) {
            refused(st, free_forbidden_message(name@), span)
        } else {
            passed(st)
        },
        SourceExpression::Array { elements, .. } => elements_step(
            st,
            elements@,
            elements@.len() as int,
        ),
        SourceExpression::Sequence { expressions, .. } => sequence_step(
            st,
            expressions@,
            expressions@.len() as int,
        ),
        SourceExpression::Object { properties, .. } => passed(
            members_state(st, properties@, properties@.len() as int),
        ),
        SourceExpression::Arrow(f) => arrow_step(st, *f),
        SourceExpression::Function(f) => function_step(st, *f),
        SourceExpression::Unary { span, operator, argument } => if unary_op_spec(operator) is None {
            refused(st, unary_op_message(operator), span)
        } else {
            expr_step(st, *argument)
        },
        SourceExpression::Binary { span, operator, left, right } => if binary_op_spec(
            operator,
        ) is None {
            refused(st, "unsupported binary operator in v1"@, span)
        } else {
            let a = expr_step(st, *left);
            if !a.ok {
                a
            } else {
                expr_step(a.after, *right)
            }
        },
        SourceExpression::Logical { left, right, .. } => {
            let a = expr_step(st, *left);
            if !a.ok {
                a
            } else {
                expr_step(a.after, *right)
            }
        },
        SourceExpression::Conditional { test, consequent, alternate, .. } => {
            let a = expr_step(st, *test);
            if !a.ok {
                a
            } else {
                let b = expr_step(a.after, *consequent);
                if !b.ok {
                    b
                } else {
                    expr_step(b.after, *alternate)
                }
            }
        },
        SourceExpression::Assignment { span, target, operator, value } => {
            let a = target_step(st, target);
            if !a.ok {
                a
            } else if assign_op_spec(operator) is None {
                refused(a.after, "unsupported assignment operator in v1"@, span)
            } else {
                expr_step(a.after, *value)
            }
        },
        SourceExpression::Call { callee, arguments, .. } => {
            let a = expr_step(st, *callee);
            if !a.ok {
                a
            } else {
                args_step(a.after, arguments@, arguments@.len() as int)
            }
        },
        SourceExpression::Chain(c) => chain_step(st, c),
        SourceExpression::ComputedMember { object, expression, .. } => {
            let a = expr_step(st, *object);
            if !a.ok {
                a
            } else {
                expr_step(a.after, *expression)
            }
        },
        SourceExpression::StaticMember { object, .. } => expr_step(st, *object),
        SourceExpression::Await { argument, .. } => expr_step(st, *argument),
        SourceExpression::New { callee, arguments, .. } => {
            let a = expr_step(st, *callee);
            if !a.ok {
                a
            } else {
                args_step(a.after, arguments@, arguments@.len() as int)
            }
        },
        SourceExpression::Parenthesized(inner) => expr_step(st, *inner),
        SourceExpression::Refused { span, form } => refused(
            st,
            refused_expression_message(form),
            span,
        ),
        _ => passed(st),
    }
}

pub open spec fn opt_expr_state(st: ScopeState, e: Option<SourceExpression>) -> ScopeState
    decreases e, 1int,
{
    match e {
        Some(x) => expr_step(st, x).after,
        None => st,
    }
}

/// Template expressions: each one that fails is dropped.
pub open spec fn exprs_state(st: ScopeState, es: Seq<SourceExpression>, n: int) -> ScopeState
    decreases es, n,
{
    if n <= 0 || n > es.len() {
        st
    } else {
        expr_step(exprs_state(st, es, n - 1), es[n - 1]).after
    }
}

/// Array elements: a spread, a hole or an element that fails fails the
/// literal.
/// Lowering the first `n` expressions of a sequence: the first that fails
/// fails the sequence.
pub open spec fn sequence_step(st: ScopeState, es: Seq<SourceExpression>, n: int) -> Step
    decreases es, n,
{
    if n <= 0 || n > es.len() {
        passed(st)
    } else {
        let a = sequence_step(st, es, n - 1);
        if !a.ok {
            a
        } else {
            expr_step(a.after, es[n - 1])
        }
    }
}

pub open spec fn elements_step(st: ScopeState, es: Seq<SourceArrayElement>, n: int) -> Step
    decreases es, n,
{
    if n <= 0 || n > es.len() {
        passed(st)
    } else {
        let a = elements_step(st, es, n - 1);
        if !a.ok {
            a
        } else {
            match es[n - 1] {
                SourceArrayElement::Spread { span } => refused(
                    a.after,
                    "array spread is not supported in v1"@,
                    span,
                ),
                SourceArrayElement::Hole { span } => refused(
                    a.after,
                    "array holes are not supported in v1"@,
                    span,
                ),
                SourceArrayElement::Expression(x) => expr_step(a.after, x),
            }
        }
    }
}

pub open spec fn member_step(st: ScopeState, m: SourceObjectMember) -> Step
    decreases m, 0int,
{
    match m {
        SourceObjectMember::Property { span, kind, method, key, value } => if kind
            != SourcePropertyKind::Init {
            refused(st, "object literal accessors are not supported in v1"@, span)
        } else if method {
            refused(st, "object literal methods are not supported in v1"@, span)
        } else {
            match key {
                SourcePropertyKey::Other { span: ks } => refused(
                    st,
                    "unsupported property key in v1"@,
                    ks,
                ),
                _ => expr_step(st, value),
            }
        },
        SourceObjectMember::Spread { span } => refused(
            st,
            "object spread is not supported in v1"@,
            span,
        ),
    }
}

/// Object members: each one that fails is dropped.
pub open spec fn members_state(st: ScopeState, ms: Seq<SourceObjectMember>, n: int) -> ScopeState
    decreases ms, n,
{
    if n <= 0 || n > ms.len() {
        st
    } else {
        member_step(members_state(st, ms, n - 1), ms[n - 1]).after
    }
}

/// Call arguments: a spread or an argument that fails fails the call.
pub open spec fn args_step(st: ScopeState, args: Seq<SourceArgument>, n: int) -> Step
    decreases args, n,
{
    if n <= 0 || n > args.len() {
        passed(st)
    } else {
        let a = args_step(st, args, n - 1);
        if !a.ok {
            a
        } else {
            match args[n - 1] {
                SourceArgument::Spread { span } => refused(
                    a.after,
                    "spread arguments are not supported in v1"@,
                    span,
                ),
                SourceArgument::Expression(x) => expr_step(a.after, x),
            }
        }
    }
}

pub open spec fn chain_step(st: ScopeState, c: SourceChainElement) -> Step
    decreases c, 0int,
{
    match c {
        SourceChainElement::Call { callee, arguments, .. } => {
            let a = expr_step(st, *callee);
            if !a.ok {
                a
            } else {
                args_step(a.after, arguments@, arguments@.len() as int)
            }
        },
        SourceChainElement::ComputedMember { object, expression, .. } => {
            let a = expr_step(st, *object);
            if !a.ok {
                a
            } else {
                expr_step(a.after, *expression)
            }
        },
        SourceChainElement::StaticMember { object, .. } => expr_step(st, *object),
        SourceChainElement::PrivateField { span } => refused(
            st,
            "private fields are not supported in v1"@,
            span,
        ),
        SourceChainElement::NonNull(inner) => expr_step(st, *inner),
    }
}

pub open spec fn target_step(st: ScopeState, t: SourceAssignmentTarget) -> Step
    decreases t, 0int,
{
    match t {
        SourceAssignmentTarget::Identifier { .. } => passed(st),
        SourceAssignmentTarget::ComputedMember { object, expression, .. } => {
            let a = expr_step(st, *object);
            if !a.ok {
                a
            } else {
                expr_step(a.after, *expression)
            }
        },
        SourceAssignmentTarget::StaticMember { object, .. } => expr_step(st, *object),
        SourceAssignmentTarget::PrivateField { span } => refused(
            st,
            "private fields are not supported in v1"@,
            span,
        ),
        SourceAssignmentTarget::Destructuring { span } => refused(
            st,
            "destructuring assignment is not supported in v1"@,
            span,
        ),
        SourceAssignmentTarget::Other { span } => refused(
            st,
            "unsupported assignment target in v1"@,
            span,
        ),
    }
}

pub open spec fn pattern_step(st: ScopeState, p: SourceBindingPattern) -> Step
    decreases p, 0int,
{
    match p {
        SourceBindingPattern::Identifier { .. } => passed(st),
        SourceBindingPattern::Object { properties, rest, .. } => passed(
            opt_pattern_state(bprops_state(st, properties@, properties@.len() as int), rest),
        ),
        SourceBindingPattern::Array { elements, rest, .. } => passed(
            opt_pattern_state(belems_state(st, elements@, elements@.len() as int), rest),
        ),
        SourceBindingPattern::Assignment { span, .. } => refused(
            st,
            "default destructuring is not supported in v1"@,
            span,
        ),
    }
}

pub open spec fn opt_pattern_state(st: ScopeState, p: Option<Box<SourceBindingPattern>>) -> ScopeState
    decreases p, 1int,
{
    match p {
        Some(x) => pattern_step(st, *x).after,
        None => st,
    }
}

/// A property of an object pattern: its key first, then its value.
pub open spec fn bprop_step(st: ScopeState, prop: SourceBindingProperty) -> Step
    decreases prop, 0int,
{
    match prop.key {
        SourcePropertyKey::Other { span } => refused(st, "unsupported property key in v1"@, span),
        _ => pattern_step(st, prop.value),
    }
}

/// Object-pattern properties: each one that fails is dropped.
pub open spec fn bprops_state(st: ScopeState, props: Seq<SourceBindingProperty>, n: int) -> ScopeState
    decreases props, n,
{
    if n <= 0 || n > props.len() {
        st
    } else {
        bprop_step(bprops_state(st, props, n - 1), props[n - 1]).after
    }
}

/// Array-pattern elements: one that fails becomes a hole.
pub open spec fn belems_state(st: ScopeState, elems: Seq<Option<SourceBindingPattern>>, n: int) -> ScopeState
    decreases elems, n,
{
    if n <= 0 || n > elems.len() {
        st
    } else {
        let s = belems_state(st, elems, n - 1);
        match elems[n - 1] {
            Some(p) => pattern_step(s, p).after,
            None => s,
        }
    }
}

pub open spec fn param_step(st: ScopeState, p: SourceParameter) -> Step
    decreases p, 0int,
{
    let a = pattern_step(st, p.pattern);
    if !a.ok {
        a
    } else {
        match p.initializer {
            Some(x) => expr_step(a.after, x),
            None => a,
        }
    }
}

/// Parameters: one that fails fails the function.
pub open spec fn items_step(st: ScopeState, items: Seq<SourceParameter>, n: int) -> Step
    decreases items, n,
{
    if n <= 0 || n > items.len() {
        passed(st)
    } else {
        let a = items_step(st, items, n - 1);
        if !a.ok {
            a
        } else {
            param_step(a.after, items[n - 1])
        }
    }
}

/// A parameter with a default value, written either way.
pub open spec fn has_default(p: SourceParameter) -> bool {
    p.initializer is Some || p.pattern is Assignment
}

/// The span of the first of `items[..n]` that has a default value.
pub open spec fn first_default(items: Seq<SourceParameter>, n: int) -> Option<SourceSpan>
    decreases n,
{
    if n <= 0 || n > items.len() {
        None
    } else {
        match first_default(items, n - 1) {
            Some(sp) => Some(sp),
            None => if has_default(items[n - 1]) {
                Some(items[n - 1].span)
            } else {
                None
            },
        }
    }
}

/// Parameters: default values are refused at the first parameter that has
/// one; otherwise each is lowered, and one that fails fails the function.
pub open spec fn params_step(st: ScopeState, ps: SourceParameters) -> Step
    decreases ps, 1int,
{
    match first_default(ps.items@, ps.items@.len() as int) {
        Some(sp) => refused(st, "default parameters are not supported in v1"@, sp),
        None => lowered_params_step(st, ps),
    }
}

pub open spec fn lowered_params_step(st: ScopeState, ps: SourceParameters) -> Step
    decreases ps, 0int,
{
    let a = items_step(st, ps.items@, ps.items@.len() as int);
    if !a.ok {
        a
    } else {
        match ps.rest {
            Some(r) => pattern_step(a.after, r.argument),
            None => a,
        }
    }
}

/// The state in which a function's body is lowered: a new scope holding
/// its parameters, then the body's own declarations.
pub open spec fn body_scope(st: ScopeState, ps: SourceParameters, body: Seq<SourceStatement>) -> ScopeState
    decreases ps, 2int,
{
    predeclared(
        declare_all(with_scope(params_step(st, ps).after), params_idents(st, ps)),
        body,
        body.len() as int,
    )
}

pub open spec fn function_step(st: ScopeState, f: SourceFunction) -> Step
    decreases f, 0int,
{
    if f.generator {
        refused(st, "generators are not supported in v1"@, f.span)
    } else {
        match f.body {
            None => refused(st, "functions without bodies are not supported"@, f.span),
            Some(body) => {
                let a = params_step(st, f.params);
                if !a.ok {
                    a
                } else {
                    passed(without_scope(stmts_state(body_scope(st, f.params, body@), body@, body@.len() as int)))
                }
            },
        }
    }
}

/// An arrow function. A concise body whose expression fails leaves the
/// function's scope open.
pub open spec fn arrow_step(st: ScopeState, f: SourceArrowFunction) -> Step
    decreases f, 0int,
{
    let a = params_step(st, f.params);
    if !a.ok {
        a
    } else {
        let s = body_scope(st, f.params, f.body@);
        if f.expression && f.body@.len() == 1 {
            let b = match f.body@[0] {
                SourceStatement::Expression { expression, .. } => expr_step(s, expression),
                other => stmt_step(s, other),
            };
            if !b.ok {
                b
            } else {
                passed(without_scope(b.after))
            }
        } else {
            passed(without_scope(stmts_state(s, f.body@, f.body@.len() as int)))
        }
    }
}

pub open spec fn stmt_step(st: ScopeState, s: SourceStatement) -> Step
    decreases s, 0int,
{
    match s {
        SourceStatement::Block(b) => passed(block_state(st, b)),
        SourceStatement::Expression { expression, .. } => expr_step(st, expression),
        SourceStatement::For { init, test, update, body, .. } => {
            let a = for_init_step(st, init);
            if !a.ok {
                a
            } else {
                stmt_step(opt_expr_state(opt_expr_state(a.after, test), update), *body)
            }
        },
        SourceStatement::ForOf { span, is_await, left, right, body } => if is_await {
            refused(st, "for await...of is not supported"@, span)
        } else {
            match left {
                SourceForOfLeft::Target { span: ts, target } => {
                    let a = target_step(st, target);
                    if !a.ok {
                        a
                    } else {
                        refused(a.after, "for...of currently requires exactly one let or const binding"@, ts)
                    }
                },
                SourceForOfLeft::Declaration(decl) => if decl.declarations@.len() != 1 {
                    refused(
                        st,
                        "for...of currently requires exactly one let or const binding"@,
                        decl.span,
                    )
                } else if decl.declarations@[0].init is Some {
                    refused(
                        st,
                        "for...of binding initializers are not supported"@,
                        decl.declarations@[0].span,
                    )
                } else if kind_spec(decl.kind) is None {
                    refused(st, "only let and const are supported"@, decl.span)
                } else {
                    let a = pattern_step(st, decl.declarations@[0].id);
                    if !a.ok {
                        a
                    } else {
                        let b = expr_step(a.after, right);
                        if !b.ok {
                            b
                        } else {
                            let c = stmt_step(
                                declare_all(
                                    with_scope(b.after),
                                    lowered_idents(st, decl.declarations@[0].id),
                                ),
                                *body,
                            );
                            Step { after: without_scope(c.after), ok: c.ok }
                        }
                    }
                },
            }
        },
        SourceStatement::ForIn { span, left, .. } => {
            let a = match left {
                SourceForOfLeft::Target { target, .. } => target_step(st, target),
                SourceForOfLeft::Declaration(decl) => if decl.declarations@.len() != 1 {
                    refused(
                        st,
                        "for...in currently requires exactly one let or const binding"@,
                        decl.span,
                    )
                } else if decl.declarations@[0].init is Some {
                    refused(
                        st,
                        "for...in binding initializers are not supported"@,
                        decl.declarations@[0].span,
                    )
                } else if kind_spec(decl.kind) is None {
                    refused(st, "only let and const are supported"@, decl.span)
                } else {
                    pattern_step(st, decl.declarations@[0].id)
                },
            };
            if !a.ok {
                a
            } else {
                refused(a.after, "for...in is not supported in v1"@, span)
            }
        },
        SourceStatement::If { test, consequent, alternate, .. } => {
            let a = expr_step(st, test);
            if !a.ok {
                a
            } else {
                let b = stmt_step(a.after, *consequent);
                if !b.ok {
                    b
                } else {
                    passed(opt_stmt_state(b.after, alternate))
                }
            }
        },
        SourceStatement::Return { argument, .. } => passed(opt_expr_state(st, argument)),
        SourceStatement::Switch { discriminant, cases, .. } => {
            let a = expr_step(st, discriminant);
            if !a.ok {
                a
            } else {
                passed(cases_state(a.after, cases@, cases@.len() as int))
            }
        },
        SourceStatement::Throw { argument, .. } => expr_step(st, argument),
        SourceStatement::Try { block, handler, finalizer, .. } => {
            let s1 = block_state(st, block);
            let s2 = match handler {
                Some(h) => catch_state(s1, h),
                None => s1,
            };
            passed(
                match finalizer {
                    Some(f) => block_state(s2, f),
                    None => s2,
                },
            )
        },
        SourceStatement::VariableDeclaration(decl) => if kind_spec(decl.kind) is None {
            refused(st, "only let and const are supported"@, decl.span)
        } else {
            passed(declarators_state(st, decl.declarations@, decl.declarations@.len() as int))
        },
        SourceStatement::While { test, body, .. } => {
            let a = expr_step(st, test);
            if !a.ok {
                a
            } else {
                stmt_step(a.after, *body)
            }
        },
        SourceStatement::DoWhile { body, test, .. } => {
            let a = stmt_step(st, *body);
            if !a.ok {
                a
            } else {
                expr_step(a.after, test)
            }
        },
        SourceStatement::FunctionDeclaration(f) => function_step(st, f),
        SourceStatement::Refused { span, form } => refused(
            st,
            refused_statement_message(form),
            span,
        ),
        SourceStatement::Other { span, description } => refused(
            st,
            "unsupported statement form: "@ + description@,
            span,
        ),
        _ => passed(st),
    }
}

pub open spec fn for_init_step(st: ScopeState, init: Option<SourceForInit>) -> Step
    decreases init, 1int,
{
    match init {
        None => passed(st),
        Some(SourceForInit::Declaration(decl)) => if kind_spec(decl.kind) is None {
            refused(st, "only let and const are supported"@, decl.span)
        } else {
            passed(declarators_state(st, decl.declarations@, decl.declarations@.len() as int))
        },
        Some(SourceForInit::Expression(x)) => expr_step(st, x),
    }
}

pub open spec fn opt_stmt_state(st: ScopeState, s: Option<Box<SourceStatement>>) -> ScopeState
    decreases s, 1int,
{
    match s {
        Some(x) => stmt_step(st, *x).after,
        None => st,
    }
}

/// Statements of a list: each one that fails is dropped.
pub open spec fn stmts_state(st: ScopeState, ss: Seq<SourceStatement>, n: int) -> ScopeState
    decreases ss, n,
{
    if n <= 0 || n > ss.len() {
        st
    } else {
        stmt_step(stmts_state(st, ss, n - 1), ss[n - 1]).after
    }
}

/// A block: a scope of its own, its declarations first.
pub open spec fn block_state(st: ScopeState, b: SourceBlock) -> ScopeState
    decreases b, 0int,
{
    without_scope(
        stmts_state(
            predeclared(with_scope(st), b.body@, b.body@.len() as int),
            b.body@,
            b.body@.len() as int,
        ),
    )
}

/// The state in which a catch clause's body is lowered.
pub open spec fn catch_scope(st: ScopeState, h: SourceCatchClause) -> ScopeState {
    predeclared(
        match h.param {
            Some(p) => declare_all(with_scope(st), source_idents(p)),
            None => with_scope(st),
        },
        h.body.body@,
        h.body.body@.len() as int,
    )
}

pub open spec fn catch_state(st: ScopeState, h: SourceCatchClause) -> ScopeState
    decreases h, 0int,
{
    let s = catch_scope(st, h);
    let s1 = match h.param {
        Some(p) => pattern_step(s, p).after,
        None => s,
    };
    without_scope(block_state(s1, h.body))
}

pub open spec fn declarator_step(st: ScopeState, d: SourceDeclarator) -> Step
    decreases d, 0int,
{
    let a = pattern_step(st, d.id);
    if !a.ok {
        a
    } else {
        passed(opt_expr_state(a.after, d.init))
    }
}

/// Declarators: each one that fails is dropped.
pub open spec fn declarators_state(st: ScopeState, ds: Seq<SourceDeclarator>, n: int) -> ScopeState
    decreases ds, n,
{
    if n <= 0 || n > ds.len() {
        st
    } else {
        declarator_step(declarators_state(st, ds, n - 1), ds[n - 1]).after
    }
}

pub open spec fn case_state(st: ScopeState, c: SourceSwitchCase) -> ScopeState
    decreases c, 0int,
{
    stmts_state(opt_expr_state(st, c.test), c.consequent@, c.consequent@.len() as int)
}

pub open spec fn cases_state(st: ScopeState, cs: Seq<SourceSwitchCase>, n: int) -> ScopeState
    decreases cs, n,
{
    if n <= 0 || n > cs.len() {
        st
    } else {
        case_state(cases_state(st, cs, n - 1), cs[n - 1])
    }
}

// ---------------------------------------------------------------------------
// The names a lowered pattern binds: those of the parts that lowered.

pub open spec fn lowered_idents(st: ScopeState, p: SourceBindingPattern) -> Seq<(Seq<char>, SourceSpan)>
    decreases p, 0int,
{
    match p {
        SourceBindingPattern::Identifier { span, name } => seq![(name@, span)],
        SourceBindingPattern::Object { properties, rest, .. } => lowered_props_idents(
            st,
            properties@,
            properties@.len() as int,
        ) + opt_lowered_idents(bprops_state(st, properties@, properties@.len() as int), rest),
        SourceBindingPattern::Array { elements, rest, .. } => lowered_elements_idents(
            st,
            elements@,
            elements@.len() as int,
        ) + opt_lowered_idents(belems_state(st, elements@, elements@.len() as int), rest),
        SourceBindingPattern::Assignment { .. } => seq![],
    }
}

pub open spec fn opt_lowered_idents(st: ScopeState, p: Option<Box<SourceBindingPattern>>) -> Seq<
    (Seq<char>, SourceSpan),
>
    decreases p, 1int,
{
    match p {
        Some(x) => if pattern_step(st, *x).ok {
            lowered_idents(st, *x)
        } else {
            seq![]
        },
        None => seq![],
    }
}

pub open spec fn lowered_props_idents(st: ScopeState, props: Seq<SourceBindingProperty>, n: int) -> Seq<
    (Seq<char>, SourceSpan),
>
    decreases props, n,
{
    if n <= 0 || n > props.len() {
        seq![]
    } else {
        let s = bprops_state(st, props, n - 1);
        lowered_props_idents(st, props, n - 1) + if bprop_step(s, props[n - 1]).ok {
            lowered_idents(s, props[n - 1].value)
        } else {
            seq![]
        }
    }
}

pub open spec fn lowered_elements_idents(
    st: ScopeState,
    elems: Seq<Option<SourceBindingPattern>>,
    n: int,
) -> Seq<(Seq<char>, SourceSpan)>
    decreases elems, n,
{
    if n <= 0 || n > elems.len() {
        seq![]
    } else {
        let s = belems_state(st, elems, n - 1);
        lowered_elements_idents(st, elems, n - 1) + match elems[n - 1] {
            Some(e) => if pattern_step(s, e).ok {
                lowered_idents(s, e)
            } else {
                seq![]
            },
            None => seq![],
        }
    }
}

/// The names the lowered parameters of a function bind, in order.
pub open spec fn params_idents(st: ScopeState, ps: SourceParameters) -> Seq<(Seq<char>, SourceSpan)>
    decreases ps, 1int,
{
    items_idents(st, ps.items@, ps.items@.len() as int) + match ps.rest {
        Some(r) => lowered_idents(items_step(st, ps.items@, ps.items@.len() as int).after, r.argument),
        None => seq![],
    }
}

pub open spec fn items_idents(st: ScopeState, items: Seq<SourceParameter>, n: int) -> Seq<
    (Seq<char>, SourceSpan),
>
    decreases items, n,
{
    if n <= 0 || n > items.len() {
        seq![]
    } else {
        items_idents(st, items, n - 1) + lowered_idents(
            items_step(st, items, n - 1).after,
            items[n - 1].pattern,
        )
    }
}


// ---------------------------------------------------------------------------
// How a lowered node relates to its source (meaningful when it lowered).

pub open spec fn key_out(k: SourcePropertyKey, out: PropertyName) -> bool {
    match k {
        SourcePropertyKey::StaticIdentifier(name) => out matches PropertyName::Identifier(n)
            && n@ == name@,
        SourcePropertyKey::StringLiteral(value) => out matches PropertyName::String(v) && v@
            == value@,
        SourcePropertyKey::NumericLiteral { value_bits, key } => out matches PropertyName::Number {
            value_bits: b,
            key: t,
        } && b == value_bits && t@ == key@,
        SourcePropertyKey::Other { .. } => false,
    }
}

pub open spec fn quasis_out(src: Seq<SourceTemplateElement>, out: Seq<String>) -> bool {
    &&& out.len() == src.len()
    &&& forall|i: int| 0 <= i < src.len() ==> #[trigger] out[i]@ == template_text(src[i])
}

pub open spec fn expr_out(st: ScopeState, e: SourceExpression, out: Expr) -> bool
    decreases e, 0int,
{
    match e {
        SourceExpression::Bool { span, value } => out matches Expr::Bool { span: s, value: v }
            && s == span && v == value,
        SourceExpression::Null { span } => out matches Expr::Null { span: s } && s == span,
        SourceExpression::Number { span, value_bits } => out matches Expr::Number {
            span: s,
            value_bits: b,
        } && s == span && b == value_bits,
        SourceExpression::String { span, value } => out matches Expr::String { span: s, value: v }
            && s == span && v@ == value@,
        SourceExpression::Sequence { span, expressions } => out matches Expr::Sequence {
            span: s,
            expressions: x,
        } && s == span && sequence_out(st, expressions@, expressions@.len() as int, x@),
        SourceExpression::Template { span, quasis, expressions } => out matches Expr::Template {
            span: s,
            quasis: q,
            expressions: x,
        } && s == span && quasis_out(quasis@, q@) && exprs_out(
            st,
            expressions@,
            expressions@.len() as int,
            x@,
        ),
        SourceExpression::Identifier { span, name } => if name@ == "undefined"@ {
            out matches Expr::Undefined { span: s } && s == span
        } else {
            out matches Expr::Identifier { span: s, name: n } && s == span && n@ == name@
        },
        SourceExpression::This { span } => out matches Expr::This { span: s } && s == span,
        SourceExpression::Array { span, elements } => out matches Expr::Array { span: s, elements: x }
            && s == span && elements_out(st, elements@, elements@.len() as int, x@),
        SourceExpression::Object { span, properties } => out matches Expr::Object {
            span: s,
            properties: x,
        } && s == span && members_out(st, properties@, properties@.len() as int, x@),
        SourceExpression::Arrow(f) => out matches Expr::Function(g) && arrow_out(st, *f, *g),
        SourceExpression::Function(f) => out matches Expr::Function(g) && function_out(st, *f, false, *g),
        SourceExpression::Unary { span, operator, argument } => out matches Expr::Unary {
            span: s,
            operator: o,
            argument: a,
        } && s == span && unary_op_spec(operator) == Some(o) && expr_out(st, *argument, *a),
        SourceExpression::Binary { span, operator, left, right } => out matches Expr::Binary {
            span: s,
            operator: o,
            left: l,
            right: r,
        } && s == span && binary_op_spec(operator) == Some(o) && expr_out(st, *left, *l)
            && expr_out(expr_step(st, *left).after, *right, *r),
        SourceExpression::Logical { span, operator, left, right } => out matches Expr::Logical {
            span: s,
            operator: o,
            left: l,
            right: r,
        } && s == span && logical_op_spec(operator) == o && expr_out(st, *left, *l) && expr_out(
            expr_step(st, *left).after,
            *right,
            *r,
        ),
        SourceExpression::Conditional { span, test, consequent, alternate } => out matches Expr::Conditional {
            span: s,
            test: t,
            consequent: c,
            alternate: a,
        } && s == span && expr_out(st, *test, *t) && expr_out(
            expr_step(st, *test).after,
            *consequent,
            *c,
        ) && expr_out(
            expr_step(expr_step(st, *test).after, *consequent).after,
            *alternate,
            *a,
        ),
        SourceExpression::Assignment { span, target, operator, value } => out matches Expr::Assignment {
            span: s,
            target: t,
            operator: o,
            value: v,
        } && s == span && target_out(st, target, t) && assign_op_spec(operator) == Some(o)
            && expr_out(target_step(st, target).after, *value, *v),
        SourceExpression::Call { span, callee, arguments, optional } => out matches Expr::Call {
            span: s,
            callee: c,
            arguments: a,
            optional: o,
        } && s == span && o == optional && expr_out(st, *callee, *c) && args_out(
            expr_step(st, *callee).after,
            arguments@,
            arguments@.len() as int,
            a@,
        ),
        SourceExpression::Chain(c) => chain_out(st, c, out),
        SourceExpression::ComputedMember { span, object, expression, optional } => out matches Expr::Member {
            span: s,
            object: o,
            property: MemberProperty::Computed(p),
            optional: op,
        } && s == span && op == optional && expr_out(st, *object, *o) && expr_out(
            expr_step(st, *object).after,
            *expression,
            *p,
        ),
        SourceExpression::StaticMember { span, object, property, optional } => out matches Expr::Member {
            span: s,
            object: o,
            property: MemberProperty::Static(PropertyName::Identifier(n)),
            optional: op,
        } && s == span && op == optional && n@ == property@ && expr_out(st, *object, *o),
        SourceExpression::Await { span, argument } => out matches Expr::Await { span: s, value: v }
            && s == span && expr_out(st, *argument, *v),
        SourceExpression::New { span, callee, arguments } => out matches Expr::New {
            span: s,
            callee: c,
            arguments: a,
        } && s == span && expr_out(st, *callee, *c) && args_out(
            expr_step(st, *callee).after,
            arguments@,
            arguments@.len() as int,
            a@,
        ),
        SourceExpression::Parenthesized(inner) => expr_out(st, *inner, out),
        SourceExpression::RegExp { span, pattern, flags } => out matches Expr::RegExp {
            span: s,
            pattern: p,
            flags: f,
        } && s == span && p@ == pattern@ && f@ == flags@,
        SourceExpression::Refused { .. } => false,
    }
}

pub open spec fn opt_expr_out(st: ScopeState, e: Option<SourceExpression>, out: Option<Expr>) -> bool
    decreases e, 1int,
{
    match e {
        Some(x) => if expr_step(st, x).ok {
            out matches Some(y) && expr_out(st, x, y)
        } else {
            out is None
        },
        None => out is None,
    }
}

pub open spec fn exprs_out(st: ScopeState, es: Seq<SourceExpression>, n: int, outs: Seq<Expr>) -> bool
    decreases es, n,
{
    if n <= 0 || n > es.len() {
        outs.len() == 0
    } else {
        let s = exprs_state(st, es, n - 1);
        if expr_step(s, es[n - 1]).ok {
            outs.len() > 0 && exprs_out(st, es, n - 1, outs.drop_last()) && expr_out(
                s,
                es[n - 1],
                outs.last(),
            )
        } else {
            exprs_out(st, es, n - 1, outs)
        }
    }
}

pub open spec fn sequence_out(st: ScopeState, es: Seq<SourceExpression>, n: int, outs: Seq<Expr>) -> bool
    decreases es, n,
{
    if n <= 0 || n > es.len() {
        outs.len() == 0
    } else {
        outs.len() > 0 && sequence_out(st, es, n - 1, outs.drop_last()) && expr_out(
            sequence_step(st, es, n - 1).after,
            es[n - 1],
            outs.last(),
        )
    }
}

pub open spec fn elements_out(st: ScopeState, es: Seq<SourceArrayElement>, n: int, outs: Seq<Expr>) -> bool
    decreases es, n,
{
    if n <= 0 || n > es.len() {
        outs.len() == 0
    } else {
        outs.len() > 0 && elements_out(st, es, n - 1, outs.drop_last()) && match es[n - 1] {
            SourceArrayElement::Expression(x) => expr_out(
                elements_step(st, es, n - 1).after,
                x,
                outs.last(),
            ),
            _ => false,
        }
    }
}

pub open spec fn member_out(st: ScopeState, m: SourceObjectMember, out: ObjectProperty) -> bool
    decreases m, 0int,
{
    match m {
        SourceObjectMember::Property { span, key, value, .. } => out.span == span && key_out(
            key,
            out.key,
        ) && expr_out(st, value, out.value),
        SourceObjectMember::Spread { .. } => false,
    }
}

pub open spec fn members_out(
    st: ScopeState,
    ms: Seq<SourceObjectMember>,
    n: int,
    outs: Seq<ObjectProperty>,
) -> bool
    decreases ms, n,
{
    if n <= 0 || n > ms.len() {
        outs.len() == 0
    } else {
        let s = members_state(st, ms, n - 1);
        if member_step(s, ms[n - 1]).ok {
            outs.len() > 0 && members_out(st, ms, n - 1, outs.drop_last()) && member_out(
                s,
                ms[n - 1],
                outs.last(),
            )
        } else {
            members_out(st, ms, n - 1, outs)
        }
    }
}

pub open spec fn args_out(st: ScopeState, args: Seq<SourceArgument>, n: int, outs: Seq<Expr>) -> bool
    decreases args, n,
{
    if n <= 0 || n > args.len() {
        outs.len() == 0
    } else {
        outs.len() > 0 && args_out(st, args, n - 1, outs.drop_last()) && match args[n - 1] {
            SourceArgument::Expression(x) => expr_out(args_step(st, args, n - 1).after, x, outs.last()),
            _ => false,
        }
    }
}

pub open spec fn chain_out(st: ScopeState, c: SourceChainElement, out: Expr) -> bool
    decreases c, 0int,
{
    match c {
        SourceChainElement::Call { span, callee, arguments } => out matches Expr::Call {
            span: s,
            callee: x,
            arguments: a,
            optional: o,
        } && s == span && o && expr_out(st, *callee, *x) && args_out(
            expr_step(st, *callee).after,
            arguments@,
            arguments@.len() as int,
            a@,
        ),
        SourceChainElement::ComputedMember { span, object, expression } => out matches Expr::Member {
            span: s,
            object: o,
            property: MemberProperty::Computed(p),
            optional: op,
        } && s == span && op && expr_out(st, *object, *o) && expr_out(
            expr_step(st, *object).after,
            *expression,
            *p,
        ),
        SourceChainElement::StaticMember { span, object, property } => out matches Expr::Member {
            span: s,
            object: o,
            property: MemberProperty::Static(PropertyName::Identifier(n)),
            optional: op,
        } && s == span && op && n@ == property@ && expr_out(st, *object, *o),
        SourceChainElement::PrivateField { .. } => false,
        SourceChainElement::NonNull(inner) => expr_out(st, *inner, out),
    }
}

pub open spec fn target_out(st: ScopeState, t: SourceAssignmentTarget, out: AssignTarget) -> bool
    decreases t, 0int,
{
    match t {
        SourceAssignmentTarget::Identifier { span, name } => out matches AssignTarget::Identifier {
            span: s,
            name: n,
        } && s == span && n@ == name@,
        SourceAssignmentTarget::ComputedMember { span, object, expression, optional } => out matches AssignTarget::Member {
            span: s,
            object: o,
            property: MemberProperty::Computed(p),
            optional: op,
        } && s == span && op == optional && expr_out(st, *object, *o) && expr_out(
            expr_step(st, *object).after,
            *expression,
            *p,
        ),
        SourceAssignmentTarget::StaticMember { span, object, property, optional } => out matches AssignTarget::Member {
            span: s,
            object: o,
            property: MemberProperty::Static(PropertyName::Identifier(n)),
            optional: op,
        } && s == span && op == optional && n@ == property@ && expr_out(st, *object, *o),
        _ => false,
    }
}

pub open spec fn pattern_out(st: ScopeState, p: SourceBindingPattern, out: Pattern) -> bool
    decreases p, 0int,
{
    match p {
        SourceBindingPattern::Identifier { span, name } => out matches Pattern::Identifier {
            span: s,
            name: n,
        } && s == span && n@ == name@,
        SourceBindingPattern::Object { span, properties, rest } => out matches Pattern::Object {
            span: s,
            properties: ps,
            rest: r,
        } && s == span && bprops_out(st, properties@, properties@.len() as int, ps@)
            && opt_pattern_out(bprops_state(st, properties@, properties@.len() as int), rest, r),
        SourceBindingPattern::Array { span, elements, rest } => out matches Pattern::Array {
            span: s,
            elements: es,
            rest: r,
        } && s == span && belems_out(st, elements@, elements@.len() as int, es@)
            && opt_pattern_out(belems_state(st, elements@, elements@.len() as int), rest, r),
        SourceBindingPattern::Assignment { .. } => false,
    }
}

pub open spec fn opt_pattern_out(
    st: ScopeState,
    p: Option<Box<SourceBindingPattern>>,
    out: Option<Box<Pattern>>,
) -> bool
    decreases p, 1int,
{
    match p {
        Some(x) => if pattern_step(st, *x).ok {
            out matches Some(y) && pattern_out(st, *x, *y)
        } else {
            out is None
        },
        None => out is None,
    }
}

pub open spec fn bprop_out(st: ScopeState, prop: SourceBindingProperty, out: ObjectPatternProperty) -> bool
    decreases prop, 0int,
{
    out.span == prop.span && key_out(prop.key, out.key) && pattern_out(st, prop.value, out.value)
}

pub open spec fn bprops_out(
    st: ScopeState,
    props: Seq<SourceBindingProperty>,
    n: int,
    outs: Seq<ObjectPatternProperty>,
) -> bool
    decreases props, n,
{
    if n <= 0 || n > props.len() {
        outs.len() == 0
    } else {
        let s = bprops_state(st, props, n - 1);
        if bprop_step(s, props[n - 1]).ok {
            outs.len() > 0 && bprops_out(st, props, n - 1, outs.drop_last()) && bprop_out(
                s,
                props[n - 1],
                outs.last(),
            )
        } else {
            bprops_out(st, props, n - 1, outs)
        }
    }
}

pub open spec fn belems_out(
    st: ScopeState,
    elems: Seq<Option<SourceBindingPattern>>,
    n: int,
    outs: Seq<Option<Pattern>>,
) -> bool
    decreases elems, n,
{
    if n <= 0 || n > elems.len() {
        outs.len() == 0
    } else {
        let s = belems_state(st, elems, n - 1);
        outs.len() > 0 && belems_out(st, elems, n - 1, outs.drop_last()) && match elems[n - 1] {
            Some(e) => if pattern_step(s, e).ok {
                outs.last() matches Some(x) && pattern_out(s, e, x)
            } else {
                outs.last() is None
            },
            None => outs.last() is None,
        }
    }
}

pub open spec fn param_out(st: ScopeState, p: SourceParameter, out: Pattern) -> bool
    decreases p, 0int,
{
    match p.initializer {
        None => pattern_out(st, p.pattern, out),
        Some(x) => out matches Pattern::Default { span: s, target: t, default_value: d } && s
            == p.span && pattern_out(st, p.pattern, *t) && expr_out(
            pattern_step(st, p.pattern).after,
            x,
            d,
        ),
    }
}

pub open spec fn items_out(st: ScopeState, items: Seq<SourceParameter>, n: int, outs: Seq<Pattern>) -> bool
    decreases items, n,
{
    if n <= 0 || n > items.len() {
        outs.len() == 0
    } else {
        outs.len() > 0 && items_out(st, items, n - 1, outs.drop_last()) && param_out(
            items_step(st, items, n - 1).after,
            items[n - 1],
            outs.last(),
        )
    }
}

pub open spec fn params_out(
    st: ScopeState,
    ps: SourceParameters,
    outs: Seq<Pattern>,
    rest: Option<Pattern>,
) -> bool
    decreases ps, 0int,
{
    items_out(st, ps.items@, ps.items@.len() as int, outs) && match ps.rest {
        Some(r) => rest matches Some(x) && pattern_out(
            items_step(st, ps.items@, ps.items@.len() as int).after,
            r.argument,
            x,
        ),
        None => rest is None,
    }
}

pub open spec fn function_out(st: ScopeState, f: SourceFunction, is_arrow: bool, out: FunctionExpr) -> bool
    decreases f, 0int,
{
    match f.body {
        Some(body) => {
            &&& out.span == f.span
            &&& match f.id {
                Some(id) => out.name matches Some(n) && n@ == id.name@,
                None => out.name is None,
            }
            &&& params_out(st, f.params, out.params@, out.rest)
            &&& stmts_out(body_scope(st, f.params, body@), body@, body@.len() as int, out.body@)
            &&& out.is_async == f.is_async
            &&& out.is_arrow == is_arrow
        },
        None => false,
    }
}

pub open spec fn arrow_out(st: ScopeState, f: SourceArrowFunction, out: FunctionExpr) -> bool
    decreases f, 0int,
{
    let s = body_scope(st, f.params, f.body@);
    &&& out.span == f.span
    &&& out.name is None
    &&& params_out(st, f.params, out.params@, out.rest)
    &&& out.is_async == f.is_async
    &&& out.is_arrow
    &&& if f.expression && f.body@.len() == 1 {
        out.body@.len() == 1 && match f.body@[0] {
            SourceStatement::Expression { span, expression } => out.body@[0] matches Stmt::Return {
                span: sp,
                value: Some(v),
            } && sp == span && expr_out(s, expression, v),
            other => stmt_out(s, other, out.body@[0]),
        }
    } else {
        stmts_out(s, f.body@, f.body@.len() as int, out.body@)
    }
}

pub open spec fn stmt_out(st: ScopeState, s: SourceStatement, out: Stmt) -> bool
    decreases s, 0int,
{
    match s {
        SourceStatement::Block(b) => block_out(st, b, out),
        SourceStatement::Break { span } => out matches Stmt::Break { span: sp } && sp == span,
        SourceStatement::Continue { span } => out matches Stmt::Continue { span: sp } && sp == span,
        SourceStatement::Empty { span } => out matches Stmt::Empty { span: sp } && sp == span,
        SourceStatement::Expression { span, expression } => out matches Stmt::Expression {
            span: sp,
            expression: x,
        } && sp == span && expr_out(st, expression, x),
        SourceStatement::For { span, init, test, update, body } => {
            let s1 = for_init_step(st, init).after;
            let s2 = opt_expr_state(s1, test);
            &&& out matches Stmt::For { span: sp, init: i, test: t, update: u, body: b }
            &&& sp == span
            &&& for_init_out(st, init, i)
            &&& opt_expr_out(s1, test, t)
            &&& opt_expr_out(s2, update, u)
            &&& stmt_out(opt_expr_state(s2, update), *body, *b)
        },
        SourceStatement::ForOf { span, left, right, body, .. } => match left {
            SourceForOfLeft::Declaration(decl) => decl.declarations@.len() == 1 && {
                let id = decl.declarations@[0].id;
                let s1 = pattern_step(st, id).after;
                let s2 = expr_step(s1, right).after;
                &&& out matches Stmt::ForOf { span: sp, kind: k, pattern: p, iterable: it, body: b }
                &&& sp == span
                &&& kind_spec(decl.kind) == Some(k)
                &&& pattern_out(st, id, p)
                &&& expr_out(s1, right, it)
                &&& stmt_out(declare_all(with_scope(s2), lowered_idents(st, id)), *body, *b)
            },
            SourceForOfLeft::Target { .. } => false,
        },
        SourceStatement::If { span, test, consequent, alternate } => {
            let s1 = expr_step(st, test).after;
            &&& out matches Stmt::If { span: sp, test: t, consequent: c, alternate: a }
            &&& sp == span
            &&& expr_out(st, test, t)
            &&& stmt_out(s1, *consequent, *c)
            &&& opt_stmt_out(stmt_step(s1, *consequent).after, alternate, a)
        },
        SourceStatement::Return { span, argument } => out matches Stmt::Return { span: sp, value: v }
            && sp == span && opt_expr_out(st, argument, v),
        SourceStatement::Switch { span, discriminant, cases } => out matches Stmt::Switch {
            span: sp,
            discriminant: d,
            cases: c,
        } && sp == span && expr_out(st, discriminant, d) && cases_out(
            expr_step(st, discriminant).after,
            cases@,
            cases@.len() as int,
            c@,
        ),
        SourceStatement::Throw { span, argument } => out matches Stmt::Throw { span: sp, value: v }
            && sp == span && expr_out(st, argument, v),
        SourceStatement::Try { span, block, handler, finalizer } => {
            let s1 = block_state(st, block);
            let s2 = match handler {
                Some(h) => catch_state(s1, h),
                None => s1,
            };
            &&& out matches Stmt::Try { span: sp, body: b, catch: c, finally: f }
            &&& sp == span
            &&& block_out(st, block, *b)
            &&& catch_out(s1, handler, c)
            &&& match finalizer {
                Some(fb) => f matches Some(y) && block_out(s2, fb, *y),
                None => f is None,
            }
        },
        SourceStatement::VariableDeclaration(decl) => out matches Stmt::VariableDecl {
            span: sp,
            kind: k,
            declarators: ds,
        } && sp == decl.span && kind_spec(decl.kind) == Some(k) && declarators_out(
            st,
            decl.declarations@,
            decl.declarations@.len() as int,
            ds@,
        ),
        SourceStatement::While { span, test, body } => out matches Stmt::While {
            span: sp,
            test: t,
            body: b,
        } && sp == span && expr_out(st, test, t) && stmt_out(expr_step(st, test).after, *body, *b),
        SourceStatement::DoWhile { span, body, test } => out matches Stmt::DoWhile {
            span: sp,
            body: b,
            test: t,
        } && sp == span && stmt_out(st, *body, *b) && expr_out(stmt_step(st, *body).after, test, t),
        SourceStatement::FunctionDeclaration(f) => out matches Stmt::FunctionDecl {
            span: sp,
            function: g,
        } && sp == f.span && function_out(st, f, false, g),
        _ => false,
    }
}

pub open spec fn for_init_out(st: ScopeState, init: Option<SourceForInit>, out: Option<ForInit>) -> bool
    decreases init, 1int,
{
    match init {
        None => out is None,
        Some(SourceForInit::Declaration(decl)) => out matches Some(
            ForInit::VariableDecl { kind: k, declarators: ds },
        ) && kind_spec(decl.kind) == Some(k) && declarators_out(
            st,
            decl.declarations@,
            decl.declarations@.len() as int,
            ds@,
        ),
        Some(SourceForInit::Expression(x)) => out matches Some(ForInit::Expression(y)) && expr_out(
            st,
            x,
            y,
        ),
    }
}

pub open spec fn opt_stmt_out(st: ScopeState, s: Option<Box<SourceStatement>>, out: Option<Box<Stmt>>) -> bool
    decreases s, 1int,
{
    match s {
        Some(x) => if stmt_step(st, *x).ok {
            out matches Some(y) && stmt_out(st, *x, *y)
        } else {
            out is None
        },
        None => out is None,
    }
}

pub open spec fn stmts_out(st: ScopeState, ss: Seq<SourceStatement>, n: int, outs: Seq<Stmt>) -> bool
    decreases ss, n,
{
    if n <= 0 || n > ss.len() {
        outs.len() == 0
    } else {
        let s = stmts_state(st, ss, n - 1);
        if stmt_step(s, ss[n - 1]).ok {
            outs.len() > 0 && stmts_out(st, ss, n - 1, outs.drop_last()) && stmt_out(
                s,
                ss[n - 1],
                outs.last(),
            )
        } else {
            stmts_out(st, ss, n - 1, outs)
        }
    }
}

pub open spec fn block_out(st: ScopeState, b: SourceBlock, out: Stmt) -> bool
    decreases b, 0int,
{
    out matches Stmt::Block { span: sp, body: xs } && sp == b.span && stmts_out(
        predeclared(with_scope(st), b.body@, b.body@.len() as int),
        b.body@,
        b.body@.len() as int,
        xs@,
    )
}

pub open spec fn catch_out(st: ScopeState, h: Option<SourceCatchClause>, out: Option<CatchClause>) -> bool
    decreases h, 1int,
{
    match h {
        None => out is None,
        Some(c) => {
            let s = catch_scope(st, c);
            &&& out matches Some(x)
            &&& x.span == c.span
            &&& match c.param {
                Some(p) => if pattern_step(s, p).ok {
                    x.parameter matches Some(y) && pattern_out(s, p, y)
                } else {
                    x.parameter is None
                },
                None => x.parameter is None,
            }
            &&& block_out(
                match c.param {
                    Some(p) => pattern_step(s, p).after,
                    None => s,
                },
                c.body,
                *x.body,
            )
        },
    }
}

pub open spec fn declarator_out(st: ScopeState, d: SourceDeclarator, out: Declarator) -> bool
    decreases d, 0int,
{
    out.span == d.span && pattern_out(st, d.id, out.pattern) && opt_expr_out(
        pattern_step(st, d.id).after,
        d.init,
        out.initializer,
    )
}

pub open spec fn declarators_out(
    st: ScopeState,
    ds: Seq<SourceDeclarator>,
    n: int,
    outs: Seq<Declarator>,
) -> bool
    decreases ds, n,
{
    if n <= 0 || n > ds.len() {
        outs.len() == 0
    } else {
        let s = declarators_state(st, ds, n - 1);
        if declarator_step(s, ds[n - 1]).ok {
            outs.len() > 0 && declarators_out(st, ds, n - 1, outs.drop_last()) && declarator_out(
                s,
                ds[n - 1],
                outs.last(),
            )
        } else {
            declarators_out(st, ds, n - 1, outs)
        }
    }
}

pub open spec fn case_out(st: ScopeState, c: SourceSwitchCase, out: SwitchCase) -> bool
    decreases c, 0int,
{
    out.span == c.span && opt_expr_out(st, c.test, out.test) && stmts_out(
        opt_expr_state(st, c.test),
        c.consequent@,
        c.consequent@.len() as int,
        out.consequent@,
    )
}

pub open spec fn cases_out(st: ScopeState, cs: Seq<SourceSwitchCase>, n: int, outs: Seq<SwitchCase>) -> bool
    decreases cs, n,
{
    if n <= 0 || n > cs.len() {
        outs.len() == 0
    } else {
        outs.len() > 0 && cases_out(st, cs, n - 1, outs.drop_last()) && case_out(
            cases_state(st, cs, n - 1),
            cs[n - 1],
            outs.last(),
        )
    }
}


// ---------------------------------------------------------------------------
// The names a lowered pattern binds are `lowered_idents`.

proof fn lemma_props_idents_prefix(a: Seq<ObjectPatternProperty>, b: Seq<ObjectPatternProperty>, k: int)
    requires
        0 <= k <= a.len(),
        k <= b.len(),
        forall|i: int| 0 <= i < k ==> a[i] == b[i],
    ensures
        props_idents(a, k) == props_idents(b, k),
    decreases k,
{
    if k > 0 {
        lemma_props_idents_prefix(a, b, k - 1);
    }
}

proof fn lemma_elements_idents_prefix(a: Seq<Option<Pattern>>, b: Seq<Option<Pattern>>, k: int)
    requires
        0 <= k <= a.len(),
        k <= b.len(),
        forall|i: int| 0 <= i < k ==> a[i] == b[i],
    ensures
        elements_idents(a, k) == elements_idents(b, k),
    decreases k,
{
    if k > 0 {
        lemma_elements_idents_prefix(a, b, k - 1);
    }
}

pub proof fn lemma_lowered_idents(st: ScopeState, p: SourceBindingPattern, out: Pattern)
    requires
        pattern_out(st, p, out),
    ensures
        pattern_idents(out) == lowered_idents(st, p),
    decreases p, 0int,
{
    match p {
        SourceBindingPattern::Identifier { .. } => {},
        SourceBindingPattern::Object { properties, rest, .. } => {
            match out {
                Pattern::Object { properties: ps, rest: r, .. } => {
                    lemma_props_lowered(st, properties@, properties@.len() as int, ps@);
                    lemma_opt_lowered(bprops_state(st, properties@, properties@.len() as int), rest, r);
                },
                _ => {},
            }
        },
        SourceBindingPattern::Array { elements, rest, .. } => {
            match out {
                Pattern::Array { elements: es, rest: r, .. } => {
                    lemma_elements_lowered(st, elements@, elements@.len() as int, es@);
                    lemma_opt_lowered(belems_state(st, elements@, elements@.len() as int), rest, r);
                },
                _ => {},
            }
        },
        SourceBindingPattern::Assignment { .. } => {},
    }
}

proof fn lemma_opt_lowered(st: ScopeState, p: Option<Box<SourceBindingPattern>>, out: Option<Box<Pattern>>)
    requires
        opt_pattern_out(st, p, out),
    ensures
        (match out {
            Some(r) => pattern_idents(*r),
            None => seq![],
        }) == opt_lowered_idents(st, p),
    decreases p, 1int,
{
    match p {
        Some(x) => {
            if pattern_step(st, *x).ok {
                lemma_lowered_idents(st, *x, *out->0);
            }
        },
        None => {},
    }
}

proof fn lemma_props_lowered(
    st: ScopeState,
    props: Seq<SourceBindingProperty>,
    n: int,
    outs: Seq<ObjectPatternProperty>,
)
    requires
        0 <= n <= props.len(),
        bprops_out(st, props, n, outs),
    ensures
        props_idents(outs, outs.len() as int) == lowered_props_idents(st, props, n),
    decreases props, n,
{
    if n > 0 {
        let s = bprops_state(st, props, n - 1);
        if bprop_step(s, props[n - 1]).ok {
            lemma_props_lowered(st, props, n - 1, outs.drop_last());
            lemma_props_idents_prefix(outs.drop_last(), outs, outs.len() - 1);
            assert(bprop_out(s, props[n - 1], outs.last()));
            assert(pattern_out(s, props[n - 1].value, outs.last().value));
            lemma_lowered_idents(s, props[n - 1].value, outs.last().value);
        } else {
            lemma_props_lowered(st, props, n - 1, outs);
        }
    }
}

proof fn lemma_elements_lowered(
    st: ScopeState,
    elems: Seq<Option<SourceBindingPattern>>,
    n: int,
    outs: Seq<Option<Pattern>>,
)
    requires
        0 <= n <= elems.len(),
        belems_out(st, elems, n, outs),
    ensures
        elements_idents(outs, outs.len() as int) == lowered_elements_idents(st, elems, n),
    decreases elems, n,
{
    if n > 0 {
        let s = belems_state(st, elems, n - 1);
        lemma_elements_lowered(st, elems, n - 1, outs.drop_last());
        lemma_elements_idents_prefix(outs.drop_last(), outs, outs.len() - 1);
        match elems[n - 1] {
            Some(e) => {
                if pattern_step(s, e).ok {
                    lemma_lowered_idents(s, e, outs.last()->0);
                }
            },
            None => {},
        }
    }
}

} // verus!
