use vstd::prelude::*;

use crate::bindings::pattern_idents;
use crate::diagnostic::{Diagnostic, JsliteError};
use crate::ir::{
    AssignTarget, BindingKind, CatchClause, CompiledProgram, Declarator, Expr, ForInit,
    FunctionExpr, MemberProperty, ObjectPatternProperty, ObjectProperty, Pattern, PropertyName,
    Script, Stmt, SwitchCase,
};
use crate::lowering_spec::{
    first_default,
    args_out, args_step, arrow_out, arrow_step, belems_out, belems_state, block_out, block_state,
    body_scope, bprop_out, bprop_step, bprops_out, bprops_state, case_out, case_state, cases_out,
    cases_state, catch_out, catch_state, chain_out, chain_step, declarator_out,
    declarator_step, declarators_idents, declarators_out, declarators_state, elements_out, sequence_out, sequence_step,
    elements_step, expr_out, expr_step, exprs_out, exprs_state, for_init_out, for_init_step,
    function_out, function_step, items_out, items_step, kind_spec,
    lemma_lowered_idents, lowered_idents, member_out, member_step, members_out, members_state,
    opt_expr_out, opt_expr_state, opt_pattern_out, opt_pattern_state, opt_stmt_out,
    opt_stmt_state, param_out, param_step, params_idents, params_out, params_step, pattern_out,
    pattern_step, predeclare_one, predeclared, quasis_out, refused_expression_message,
    refused_statement_message, source_elements_idents, source_idents, source_props_idents,
    stmt_out, stmt_step, stmts_out, stmts_state, target_out, target_step, template_text,
};
use crate::scope::{declare_all, declare_spec, diags_view, lemma_declare_all_concat, Lowerer, ScopeState};
use crate::source::{
    RefusedExpression, RefusedStatement, SourceArgument, SourceArrayElement, SourceArrowFunction,
    SourceAssignmentTarget, SourceBindingPattern, SourceBlock,
    SourceCatchClause, SourceChainElement, SourceDeclarationKind, SourceDeclarator,
    SourceExpression, SourceForInit, SourceForOfLeft, SourceFunction, SourceObjectMember, SourcePropertyKind,
    SourceParameter, SourceParameters, SourceProgram, SourceStatement, SourceSwitchCase,
    SourceTemplateElement,
};
use crate::span::SourceSpan;
use crate::strings::{chars_of, extend_chars, string_from_chars};

verus! {

proof fn lemma_declare_one(st: ScopeState, name: Seq<char>, span: SourceSpan)
    ensures
        declare_all(st, seq![(name, span)]) == declare_spec(st, name, span),
{
    assert(seq![(name, span)].drop_first() =~= Seq::<(Seq<char>, SourceSpan)>::empty());
    assert(declare_all(declare_spec(st, name, span), Seq::<(Seq<char>, SourceSpan)>::empty())
        == declare_spec(st, name, span));
}

fn copy_string(s: &String) -> (r: String)
    ensures
        r@ == s@,
{
    s.as_str().to_owned()
}

impl Lowerer {
    /// Declares, in source order, every name a source binding pattern binds.
    pub fn collect_pattern_bindings(&mut self, pattern: &SourceBindingPattern)
        ensures
            final(self).state() == declare_all(old(self).state(), source_idents(*pattern)),
        decreases *pattern,
    {
        let ghost start = self.state();
        match pattern {
            SourceBindingPattern::Identifier { span, name } => {
                self.declare_name_in_current_scope(name.as_str(), *span);
                proof {
                    lemma_declare_one(start, name@, *span);
                }
            },
            SourceBindingPattern::Object { properties, rest, .. } => {
                let mut i: usize = 0;
                while i < properties.len()
                    invariant
                        i <= properties.len(),
                        self.state() == declare_all(start, source_props_idents(properties@, i as int)),
                        *pattern matches SourceBindingPattern::Object { properties: ps, .. } && ps == *properties,
                    decreases properties.len() - i,
                {
                    assert(decreases_to!(*pattern => properties@[i as int].value));
                    self.collect_pattern_bindings(&properties[i].value);
                    proof {
                        lemma_declare_all_concat(
                            start,
                            source_props_idents(properties@, i as int),
                            source_idents(properties@[i as int].value),
                        );
                    }
                    i += 1;
                }
                if let Some(r) = rest {
                    self.collect_pattern_bindings(r);
                }
                proof {
                    lemma_declare_all_concat(
                        start,
                        source_props_idents(properties@, properties@.len() as int),
                        match rest {
                            Some(r) => source_idents(**r),
                            None => seq![],
                        },
                    );
                }
            },
            SourceBindingPattern::Array { elements, rest, .. } => {
                let mut i: usize = 0;
                while i < elements.len()
                    invariant
                        i <= elements.len(),
                        self.state() == declare_all(start, source_elements_idents(elements@, i as int)),
                        *pattern matches SourceBindingPattern::Array { elements: es, .. } && es == *elements,
                    decreases elements.len() - i,
                {
                    if let Some(element) = &elements[i] {
                        assert(decreases_to!(*pattern => elements@[i as int]->0));
                        self.collect_pattern_bindings(element);
                    }
                    proof {
                        lemma_declare_all_concat(
                            start,
                            source_elements_idents(elements@, i as int),
                            match elements@[i as int] {
                                Some(e) => source_idents(e),
                                None => seq![],
                            },
                        );
                    }
                    i += 1;
                }
                if let Some(r) = rest {
                    self.collect_pattern_bindings(r);
                }
                proof {
                    lemma_declare_all_concat(
                        start,
                        source_elements_idents(elements@, elements@.len() as int),
                        match rest {
                            Some(r) => source_idents(**r),
                            None => seq![],
                        },
                    );
                }
            },
            SourceBindingPattern::Assignment { left, .. } => {
                self.collect_pattern_bindings(left);
            },
        }
    }

    /// Declares the names a statement introduces into its block before the
    /// block is lowered: a named function, or the bindings of a `let` or
    /// `const` declaration; any other declaration kind is reported.
    pub fn predeclare_stmt(&mut self, statement: &SourceStatement)
        ensures
            final(self).state() == predeclare_one(old(self).state(), *statement),
    {
        let ghost start = self.state();
        match statement {
            SourceStatement::FunctionDeclaration(function) => {
                if let Some(id) = &function.id {
                    self.declare_name_in_current_scope(id.name.as_str(), id.span);
                }
            },
            SourceStatement::VariableDeclaration(decl) => {
                match decl.kind {
                    SourceDeclarationKind::Let | SourceDeclarationKind::Const => {},
                    _ => {
                        self.unsupported(
                            "only let and const are supported".to_owned(),
                            Some(decl.span),
                        );
                        return;
                    },
                }
                let mut i: usize = 0;
                while i < decl.declarations.len()
                    invariant
                        i <= decl.declarations.len(),
                        self.state() == declare_all(start, declarators_idents(decl.declarations@, i as int)),
                    decreases decl.declarations.len() - i,
                {
                    self.collect_pattern_bindings(&decl.declarations[i].id);
                    proof {
                        lemma_declare_all_concat(
                            start,
                            declarators_idents(decl.declarations@, i as int),
                            source_idents(decl.declarations@[i as int].id),
                        );
                    }
                    i += 1;
                }
            },
            _ => {},
        }
    }

    /// Declares what each of `statements` introduces, in order.
    pub fn predeclare_block(&mut self, statements: &Vec<SourceStatement>)
        ensures
            final(self).state() == predeclared(old(self).state(), statements@, statements@.len() as int),
    {
        let ghost start = self.state();
        let mut i: usize = 0;
        while i < statements.len()
            invariant
                i <= statements.len(),
                self.state() == predeclared(start, statements@, i as int),
            decreases statements.len() - i,
        {
            self.predeclare_stmt(&statements[i]);
            i += 1;
        }
    }
}


fn refused_expression_text(form: RefusedExpression) -> (r: &'static str)
    ensures
        r@ == refused_expression_message(form),
{
    match form {
        RefusedExpression::MetaProperty => "meta properties are not supported",
        RefusedExpression::Import => "dynamic import() is not supported",
        RefusedExpression::BigInt => "bigint is not supported in v1",
        RefusedExpression::Super => "super is not supported in v1",
        RefusedExpression::PrivateField => "private fields are not supported in v1",
        RefusedExpression::Update => "update expressions are not supported in v1",
        RefusedExpression::Yield => "yield is not supported in v1",
        RefusedExpression::TaggedTemplate => "tagged templates are not supported in v1",
        RefusedExpression::Class => "classes are not supported in v1",
        RefusedExpression::Other => "unsupported expression form in v1",
    }
}

fn refused_statement_text(form: RefusedStatement) -> (r: &'static str)
    ensures
        r@ == refused_statement_message(form),
{
    match form {
        RefusedStatement::Debugger => "debugger statements are not supported",
        RefusedStatement::Labeled => "labeled statements are not supported in v1",
        RefusedStatement::ModuleDeclaration => "module syntax is not supported",
        RefusedStatement::With => "with is not supported",
        RefusedStatement::Class => "classes are not supported in v1",
    }
}

/// The text of each piece of a template literal.
fn template_texts(quasis: &Vec<SourceTemplateElement>) -> (r: Vec<String>)
    ensures
        quasis_out(quasis@, r@),
{
    let mut out: Vec<String> = Vec::new();
    let mut i: usize = 0;
    while i < quasis.len()
        invariant
            i <= quasis.len(),
            out@.len() == i,
            forall|j: int| 0 <= j < i ==> #[trigger] out@[j]@ == template_text(quasis@[j]),
        decreases quasis.len() - i,
    {
        let text = match &quasis[i].cooked {
            Some(c) => copy_string(c),
            None => copy_string(&quasis[i].raw),
        };
        out.push(text);
        i += 1;
    }
    out
}

impl Lowerer {
    /// Lowers a binding pattern. Object-pattern properties that fail are
    /// dropped, array-pattern elements that fail become holes, and a rest
    /// element that fails is left out; a default value that fails fails the
    /// pattern.
    pub fn lower_pattern(&mut self, pattern: &SourceBindingPattern) -> (r: Option<Pattern>)
        ensures
            final(self).state() == pattern_step(old(self).state(), *pattern).after,
            r is Some == pattern_step(old(self).state(), *pattern).ok,
            r matches Some(x) ==> pattern_out(old(self).state(), *pattern, x),
        decreases *pattern, 0int,
    {
        let ghost s0 = self.state();
        match pattern {
            SourceBindingPattern::Identifier { span, name } => Some(
                Pattern::Identifier { span: *span, name: copy_string(name) },
            ),
            SourceBindingPattern::Object { span, properties, rest } => {
                let mut out: Vec<ObjectPatternProperty> = Vec::new();
                let mut i: usize = 0;
                while i < properties.len()
                    invariant
                        i <= properties.len(),
                        *pattern matches SourceBindingPattern::Object { properties: ps, .. } && ps
                            == *properties,
                        self.state() == bprops_state(s0, properties@, i as int),
                        bprops_out(s0, properties@, i as int, out@),
                    decreases properties.len() - i,
                {
                    let ghost s = self.state();
                    let ghost prev = out@;
                    let property = &properties[i];
                    let key = self.lower_property_name(&property.key);
                    match key {
                        Some(k) => {
                            assert(decreases_to!(*pattern => properties@[i as int].value));
                            let value = self.lower_pattern(&property.value);
                            match value {
                                Some(v) => {
                                    out.push(ObjectPatternProperty { span: property.span, key: k, value: v });
                                    assert(out@.drop_last() =~= prev);
                                    assert(bprop_out(s, properties@[i as int], out@.last()));
                                },
                                None => {},
                            }
                        },
                        None => {},
                    }
                    assert(self.state() == bprop_step(s, properties@[i as int]).after);
                    i += 1;
                }
                let ghost s1 = self.state();
                let lowered_rest = match rest {
                    Some(r) => match self.lower_pattern(r) {
                        Some(x) => Some(Box::new(x)),
                        None => None,
                    },
                    None => None,
                };
                assert(opt_pattern_out(s1, *rest, lowered_rest));
                assert(self.state() == opt_pattern_state(s1, *rest));
                Some(Pattern::Object { span: *span, properties: out, rest: lowered_rest })
            },
            SourceBindingPattern::Array { span, elements, rest } => {
                let mut out: Vec<Option<Pattern>> = Vec::new();
                let mut i: usize = 0;
                while i < elements.len()
                    invariant
                        i <= elements.len(),
                        *pattern matches SourceBindingPattern::Array { elements: es, .. } && es
                            == *elements,
                        self.state() == belems_state(s0, elements@, i as int),
                        belems_out(s0, elements@, i as int, out@),
                    decreases elements.len() - i,
                {
                    let ghost prev = out@;
                    let element = match &elements[i] {
                        Some(e) => {
                            assert(decreases_to!(*pattern => elements@[i as int]->0));
                            self.lower_pattern(e)
                        },
                        None => None,
                    };
                    out.push(element);
                    assert(out@.drop_last() =~= prev);
                    i += 1;
                }
                let ghost s1 = self.state();
                let lowered_rest = match rest {
                    Some(r) => match self.lower_pattern(r) {
                        Some(x) => Some(Box::new(x)),
                        None => None,
                    },
                    None => None,
                };
                assert(opt_pattern_out(s1, *rest, lowered_rest));
                assert(self.state() == opt_pattern_state(s1, *rest));
                Some(Pattern::Array { span: *span, elements: out, rest: lowered_rest })
            },
            SourceBindingPattern::Assignment { span, .. } => {
                self.unsupported(
                    "default destructuring is not supported in v1".to_owned(),
                    Some(*span),
                );
                None
            },
        }
    }

    /// Lowers an optional expression that may be dropped when it fails.
    pub fn lower_opt_expr(&mut self, expression: &Option<SourceExpression>) -> (r: Option<Expr>)
        ensures
            final(self).state() == opt_expr_state(old(self).state(), *expression),
            opt_expr_out(old(self).state(), *expression, r),
        decreases *expression, 1int,
    {
        match expression {
            Some(x) => self.lower_expr(x),
            None => None,
        }
    }

    /// Lowers an expression.
    pub fn lower_expr(&mut self, expression: &SourceExpression) -> (r: Option<Expr>)
        ensures
            final(self).state() == expr_step(old(self).state(), *expression).after,
            r is Some == expr_step(old(self).state(), *expression).ok,
            r matches Some(x) ==> expr_out(old(self).state(), *expression, x),
        decreases *expression, 0int,
    {
        let ghost s0 = self.state();
        match expression {
            SourceExpression::Bool { span, value } => Some(Expr::Bool { span: *span, value: *value }),
            SourceExpression::Null { span } => Some(Expr::Null { span: *span }),
            SourceExpression::Number { span, value_bits } => Some(
                Expr::Number { span: *span, value_bits: *value_bits },
            ),
            SourceExpression::String { span, value } => Some(
                Expr::String { span: *span, value: copy_string(value) },
            ),
            SourceExpression::Template { span, quasis, expressions } => {
                let texts = template_texts(quasis);
                let lowered = self.lower_template_expressions(expressions);
                Some(Expr::Template { span: *span, quasis: texts, expressions: lowered })
            },
            SourceExpression::Identifier { span, name } => self.lower_identifier_reference(
                name.as_str(),
                *span,
            ),
            SourceExpression::This { span } => Some(Expr::This { span: *span }),
            SourceExpression::Array { span, elements } => match self.lower_array_elements(elements) {
                Some(lowered) => Some(Expr::Array { span: *span, elements: lowered }),
                None => None,
            },
            SourceExpression::Sequence { span, expressions } => match self.lower_sequence(expressions) {
                Some(lowered) => Some(Expr::Sequence { span: *span, expressions: lowered }),
                None => None,
            },
            SourceExpression::Object { span, properties } => {
                let lowered = self.lower_object_members(properties);
                Some(Expr::Object { span: *span, properties: lowered })
            },
            SourceExpression::Arrow(function) => match self.lower_arrow_function(function) {
                Some(f) => Some(Expr::Function(Box::new(f))),
                None => None,
            },
            SourceExpression::Function(function) => match self.lower_function(function, false) {
                Some(f) => Some(Expr::Function(Box::new(f))),
                None => None,
            },
            SourceExpression::Unary { span, operator, argument } => {
                let op = match self.lower_unary_op(*operator, *span) {
                    Some(o) => o,
                    None => return None,
                };
                match self.lower_expr(argument) {
                    Some(a) => Some(Expr::Unary { span: *span, operator: op, argument: Box::new(a) }),
                    None => None,
                }
            },
            SourceExpression::Binary { span, operator, left, right } => {
                let op = match self.lower_binary_op(*operator, *span) {
                    Some(o) => o,
                    None => return None,
                };
                let l = match self.lower_expr(left) {
                    Some(l) => l,
                    None => return None,
                };
                match self.lower_expr(right) {
                    Some(r) => Some(
                        Expr::Binary { span: *span, operator: op, left: Box::new(l), right: Box::new(r) },
                    ),
                    None => None,
                }
            },
            SourceExpression::Logical { span, operator, left, right } => {
                let op = match self.lower_logical_op(*operator, *span) {
                    Some(o) => o,
                    None => return None,
                };
                let l = match self.lower_expr(left) {
                    Some(l) => l,
                    None => return None,
                };
                match self.lower_expr(right) {
                    Some(r) => Some(
                        Expr::Logical { span: *span, operator: op, left: Box::new(l), right: Box::new(r) },
                    ),
                    None => None,
                }
            },
            SourceExpression::Conditional { span, test, consequent, alternate } => {
                let t = match self.lower_expr(test) {
                    Some(t) => t,
                    None => return None,
                };
                let c = match self.lower_expr(consequent) {
                    Some(c) => c,
                    None => return None,
                };
                match self.lower_expr(alternate) {
                    Some(a) => Some(
                        Expr::Conditional {
                            span: *span,
                            test: Box::new(t),
                            consequent: Box::new(c),
                            alternate: Box::new(a),
                        },
                    ),
                    None => None,
                }
            },
            SourceExpression::Assignment { span, target, operator, value } => {
                let t = match self.lower_assignment_target(target) {
                    Some(t) => t,
                    None => return None,
                };
                let op = match self.lower_assign_op(*operator, *span) {
                    Some(o) => o,
                    None => return None,
                };
                match self.lower_expr(value) {
                    Some(v) => Some(
                        Expr::Assignment { span: *span, target: t, operator: op, value: Box::new(v) },
                    ),
                    None => None,
                }
            },
            SourceExpression::Call { span, callee, arguments, optional } => {
                let c = match self.lower_expr(callee) {
                    Some(c) => c,
                    None => return None,
                };
                match self.lower_call_args(arguments) {
                    Some(a) => Some(
                        Expr::Call { span: *span, callee: Box::new(c), arguments: a, optional: *optional },
                    ),
                    None => None,
                }
            },
            SourceExpression::Chain(element) => self.lower_chain(element),
            SourceExpression::ComputedMember { span, object, expression: property, optional } => {
                let o = match self.lower_expr(object) {
                    Some(o) => o,
                    None => return None,
                };
                match self.lower_expr(property) {
                    Some(p) => Some(
                        Expr::Member {
                            span: *span,
                            object: Box::new(o),
                            property: MemberProperty::Computed(Box::new(p)),
                            optional: *optional,
                        },
                    ),
                    None => None,
                }
            },
            SourceExpression::StaticMember { span, object, property, optional } => {
                match self.lower_expr(object) {
                    Some(o) => Some(
                        Expr::Member {
                            span: *span,
                            object: Box::new(o),
                            property: MemberProperty::Static(PropertyName::Identifier(copy_string(property))),
                            optional: *optional,
                        },
                    ),
                    None => None,
                }
            },
            SourceExpression::Await { span, argument } => match self.lower_expr(argument) {
                Some(v) => Some(Expr::Await { span: *span, value: Box::new(v) }),
                None => None,
            },
            SourceExpression::New { span, callee, arguments } => {
                let c = match self.lower_expr(callee) {
                    Some(c) => c,
                    None => return None,
                };
                match self.lower_call_args(arguments) {
                    Some(a) => Some(Expr::New { span: *span, callee: Box::new(c), arguments: a }),
                    None => None,
                }
            },
            SourceExpression::Parenthesized(inner) => self.lower_expr(inner),
            SourceExpression::RegExp { span, pattern, flags } => Some(
                Expr::RegExp { span: *span, pattern: copy_string(pattern), flags: copy_string(flags) },
            ),
            SourceExpression::Refused { span, form } => {
                self.unsupported(refused_expression_text(*form).to_owned(), Some(*span));
                None
            },
        }
    }

    /// Lowers the expressions of a template literal; one that fails is
    /// dropped.
    pub fn lower_template_expressions(&mut self, expressions: &Vec<SourceExpression>) -> (r: Vec<Expr>)
        ensures
            final(self).state() == exprs_state(old(self).state(), expressions@, expressions@.len() as int),
            exprs_out(old(self).state(), expressions@, expressions@.len() as int, r@),
        decreases *expressions, 0int,
    {
        let ghost s0 = self.state();
        let mut out: Vec<Expr> = Vec::new();
        let mut i: usize = 0;
        while i < expressions.len()
            invariant
                i <= expressions.len(),
                self.state() == exprs_state(s0, expressions@, i as int),
                exprs_out(s0, expressions@, i as int, out@),
            decreases expressions.len() - i,
        {
            let ghost prev = out@;
            assert(decreases_to!(*expressions => expressions@[i as int]));
            match self.lower_expr(&expressions[i]) {
                Some(x) => {
                    out.push(x);
                    assert(out@.drop_last() =~= prev);
                },
                None => {},
            }
            i += 1;
        }
        out
    }

    /// Lowers the elements of an array literal; a spread, a hole or an
    /// element that fails fails the literal.
    pub fn lower_array_elements(&mut self, elements: &Vec<SourceArrayElement>) -> (r: Option<Vec<Expr>>)
        ensures
            final(self).state() == elements_step(old(self).state(), elements@, elements@.len() as int).after,
            r is Some == elements_step(old(self).state(), elements@, elements@.len() as int).ok,
            r matches Some(xs) ==> elements_out(old(self).state(), elements@, elements@.len() as int, xs@),
        decreases *elements, 0int,
    {
        let ghost s0 = self.state();
        let mut out: Vec<Expr> = Vec::new();
        let mut i: usize = 0;
        while i < elements.len()
            invariant
                i <= elements.len(),
                elements_step(s0, elements@, i as int).ok,
                s0 == old(self).state(),
                self.state() == elements_step(s0, elements@, i as int).after,
                elements_out(s0, elements@, i as int, out@),
            decreases elements.len() - i,
        {
            let ghost prev = out@;
            let ghost s = self.state();
            match &elements[i] {
                SourceArrayElement::Spread { span } => {
                    self.unsupported(
                        "array spread is not supported in v1".to_owned(),
                        Some(*span),
                    );
                    proof {
                        assert(elements_step(s0, elements@, i + 1).after == crate::lowering_spec::report(elements_step(s0, elements@, i as int).after, "array spread is not supported in v1"@, *span));
                        assert(self.state() == elements_step(s0, elements@, i + 1).after);
                        lemma_elements_stuck(s0, elements@, i + 1, elements@.len() as int);
                    }
                    return None;
                },
                SourceArrayElement::Hole { span } => {
                    self.unsupported(
                        "array holes are not supported in v1".to_owned(),
                        Some(*span),
                    );
                    proof {
                        assert(elements_step(s0, elements@, i + 1).after == crate::lowering_spec::report(s, "array holes are not supported in v1"@, *span));
                        assert(self.state() == elements_step(s0, elements@, i + 1).after);
                        lemma_elements_stuck(s0, elements@, i + 1, elements@.len() as int);
                    }
                    return None;
                },
                SourceArrayElement::Expression(x) => {
                    assert(decreases_to!(*elements => elements@[i as int]));
                    match self.lower_expr(x) {
                        Some(e) => {
                            out.push(e);
                            assert(out@.drop_last() =~= prev);
                            assert(elements_step(s0, elements@, i + 1) == expr_step(s, *x));
                        },
                        None => {
                            proof {
                                assert(elements_step(s0, elements@, i + 1) == expr_step(s, *x));
                                lemma_elements_stuck(s0, elements@, i + 1, elements@.len() as int);
                            }
                            return None;
                        },
                    }
                },
            }
            i += 1;
        }
        Some(out)
    }

    /// Lowers the expressions of a sequence; the first that fails fails the
    /// sequence.
    pub fn lower_sequence(&mut self, expressions: &Vec<SourceExpression>) -> (r: Option<Vec<Expr>>)
        ensures
            final(self).state() == sequence_step(old(self).state(), expressions@, expressions@.len() as int).after,
            r is Some == sequence_step(old(self).state(), expressions@, expressions@.len() as int).ok,
            r matches Some(xs) ==> sequence_out(old(self).state(), expressions@, expressions@.len() as int, xs@),
        decreases *expressions, 0int,
    {
        let ghost s0 = self.state();
        let mut out: Vec<Expr> = Vec::new();
        let mut i: usize = 0;
        while i < expressions.len()
            invariant
                i <= expressions.len(),
                sequence_step(s0, expressions@, i as int).ok,
                s0 == old(self).state(),
                self.state() == sequence_step(s0, expressions@, i as int).after,
                sequence_out(s0, expressions@, i as int, out@),
            decreases expressions.len() - i,
        {
            let ghost prev = out@;
            let ghost s = self.state();
            assert(decreases_to!(*expressions => expressions@[i as int]));
            match self.lower_expr(&expressions[i]) {
                Some(e) => {
                    out.push(e);
                    assert(out@.drop_last() =~= prev);
                    assert(sequence_step(s0, expressions@, i + 1) == expr_step(s, expressions@[i as int]));
                },
                None => {
                    proof {
                        assert(sequence_step(s0, expressions@, i + 1) == expr_step(s, expressions@[i as int]));
                        lemma_sequence_stuck(s0, expressions@, i + 1, expressions@.len() as int);
                    }
                    return None;
                },
            }
            i += 1;
        }
        Some(out)
    }

    /// Lowers the members of an object literal; a method, a spread or a
    /// member that fails is dropped.
    pub fn lower_object_members(&mut self, members: &Vec<SourceObjectMember>) -> (r: Vec<ObjectProperty>)
        ensures
            final(self).state() == members_state(old(self).state(), members@, members@.len() as int),
            members_out(old(self).state(), members@, members@.len() as int, r@),
        decreases *members, 0int,
    {
        let ghost s0 = self.state();
        let mut out: Vec<ObjectProperty> = Vec::new();
        let mut i: usize = 0;
        while i < members.len()
            invariant
                i <= members.len(),
                self.state() == members_state(s0, members@, i as int),
                members_out(s0, members@, i as int, out@),
            decreases members.len() - i,
        {
            let ghost s = self.state();
            let ghost prev = out@;
            match &members[i] {
                SourceObjectMember::Property { span, kind, method, key, value } => {
                    if !matches!(kind, SourcePropertyKind::Init) {
                        self.unsupported(
                            "object literal accessors are not supported in v1".to_owned(),
                            Some(*span),
                        );
                    } else if *method {
                        self.unsupported(
                            "object literal methods are not supported in v1".to_owned(),
                            Some(*span),
                        );
                    } else {
                        match self.lower_property_name(key) {
                            Some(k) => {
                                assert(decreases_to!(*members => members@[i as int]));
                                match self.lower_expr(value) {
                                    Some(v) => {
                                        out.push(ObjectProperty { span: *span, key: k, value: v });
                                        assert(out@.drop_last() =~= prev);
                                        assert(member_out(s, members@[i as int], out@.last()));
                                    },
                                    None => {},
                                }
                            },
                            None => {},
                        }
                    }
                },
                SourceObjectMember::Spread { span } => {
                    self.unsupported(
                        "object spread is not supported in v1".to_owned(),
                        Some(*span),
                    );
                },
            }
            assert(self.state() == member_step(s, members@[i as int]).after);
            i += 1;
        }
        out
    }

    /// Lowers the arguments of a call; a spread or an argument that fails
    /// fails the call.
    pub fn lower_call_args(&mut self, args: &Vec<SourceArgument>) -> (r: Option<Vec<Expr>>)
        ensures
            final(self).state() == args_step(old(self).state(), args@, args@.len() as int).after,
            r is Some == args_step(old(self).state(), args@, args@.len() as int).ok,
            r matches Some(xs) ==> args_out(old(self).state(), args@, args@.len() as int, xs@),
        decreases *args, 0int,
    {
        let ghost s0 = self.state();
        let mut out: Vec<Expr> = Vec::new();
        let mut i: usize = 0;
        while i < args.len()
            invariant
                i <= args.len(),
                args_step(s0, args@, i as int).ok,
                s0 == old(self).state(),
                self.state() == args_step(s0, args@, i as int).after,
                args_out(s0, args@, i as int, out@),
            decreases args.len() - i,
        {
            let ghost prev = out@;
            let ghost s = self.state();
            match &args[i] {
                SourceArgument::Spread { span } => {
                    self.unsupported(
                        "spread arguments are not supported in v1".to_owned(),
                        Some(*span),
                    );
                    proof {
                        assert(args_step(s0, args@, i + 1).after == crate::lowering_spec::report(s, "spread arguments are not supported in v1"@, *span));
                        assert(self.state() == args_step(s0, args@, i + 1).after);
                        lemma_args_stuck(s0, args@, i + 1, args@.len() as int);
                    }
                    return None;
                },
                SourceArgument::Expression(x) => {
                    assert(decreases_to!(*args => args@[i as int]));
                    match self.lower_expr(x) {
                        Some(e) => {
                            out.push(e);
                            assert(out@.drop_last() =~= prev);
                            assert(args_step(s0, args@, i + 1) == expr_step(s, *x));
                        },
                        None => {
                            proof {
                                assert(args_step(s0, args@, i + 1) == expr_step(s, *x));
                                lemma_args_stuck(s0, args@, i + 1, args@.len() as int);
                            }
                            return None;
                        },
                    }
                },
            }
            i += 1;
        }
        Some(out)
    }

    /// Lowers the expression inside an optional chain; its call or member
    /// access is optional.
    pub fn lower_chain(&mut self, element: &SourceChainElement) -> (r: Option<Expr>)
        ensures
            final(self).state() == chain_step(old(self).state(), *element).after,
            r is Some == chain_step(old(self).state(), *element).ok,
            r matches Some(x) ==> chain_out(old(self).state(), *element, x),
        decreases *element, 0int,
    {
        match element {
            SourceChainElement::Call { span, callee, arguments } => {
                let c = match self.lower_expr(callee) {
                    Some(c) => c,
                    None => return None,
                };
                match self.lower_call_args(arguments) {
                    Some(a) => Some(
                        Expr::Call { span: *span, callee: Box::new(c), arguments: a, optional: true },
                    ),
                    None => None,
                }
            },
            SourceChainElement::ComputedMember { span, object, expression } => {
                let o = match self.lower_expr(object) {
                    Some(o) => o,
                    None => return None,
                };
                match self.lower_expr(expression) {
                    Some(p) => Some(
                        Expr::Member {
                            span: *span,
                            object: Box::new(o),
                            property: MemberProperty::Computed(Box::new(p)),
                            optional: true,
                        },
                    ),
                    None => None,
                }
            },
            SourceChainElement::StaticMember { span, object, property } => {
                match self.lower_expr(object) {
                    Some(o) => Some(
                        Expr::Member {
                            span: *span,
                            object: Box::new(o),
                            property: MemberProperty::Static(PropertyName::Identifier(copy_string(property))),
                            optional: true,
                        },
                    ),
                    None => None,
                }
            },
            SourceChainElement::PrivateField { span } => {
                self.unsupported(
                    "private fields are not supported in v1".to_owned(),
                    Some(*span),
                );
                None
            },
            SourceChainElement::NonNull(inner) => self.lower_expr(inner),
        }
    }

    /// Lowers the target of an assignment: a name or a member access;
    /// destructuring and private fields are refused.
    pub fn lower_assignment_target(&mut self, target: &SourceAssignmentTarget) -> (r: Option<AssignTarget>)
        ensures
            final(self).state() == target_step(old(self).state(), *target).after,
            r is Some == target_step(old(self).state(), *target).ok,
            r matches Some(x) ==> target_out(old(self).state(), *target, x),
        decreases *target, 0int,
    {
        match target {
            SourceAssignmentTarget::Identifier { span, name } => Some(
                AssignTarget::Identifier { span: *span, name: copy_string(name) },
            ),
            SourceAssignmentTarget::ComputedMember { span, object, expression, optional } => {
                let o = match self.lower_expr(object) {
                    Some(o) => o,
                    None => return None,
                };
                match self.lower_expr(expression) {
                    Some(p) => Some(
                        AssignTarget::Member {
                            span: *span,
                            object: Box::new(o),
                            property: MemberProperty::Computed(Box::new(p)),
                            optional: *optional,
                        },
                    ),
                    None => None,
                }
            },
            SourceAssignmentTarget::StaticMember { span, object, property, optional } => {
                match self.lower_expr(object) {
                    Some(o) => Some(
                        AssignTarget::Member {
                            span: *span,
                            object: Box::new(o),
                            property: MemberProperty::Static(PropertyName::Identifier(copy_string(property))),
                            optional: *optional,
                        },
                    ),
                    None => None,
                }
            },
            SourceAssignmentTarget::PrivateField { span } => {
                self.unsupported(
                    "private fields are not supported in v1".to_owned(),
                    Some(*span),
                );
                None
            },
            SourceAssignmentTarget::Destructuring { span } => {
                self.unsupported(
                    "destructuring assignment is not supported in v1".to_owned(),
                    Some(*span),
                );
                None
            },
            SourceAssignmentTarget::Other { span } => {
                self.unsupported(
                    "unsupported assignment target in v1".to_owned(),
                    Some(*span),
                );
                None
            },
        }
    }
}


proof fn lemma_sequence_stuck(st: ScopeState, es: Seq<SourceExpression>, k: int, m: int)
    requires
        0 <= k <= m <= es.len(),
        !sequence_step(st, es, k).ok,
    ensures
        sequence_step(st, es, m) == sequence_step(st, es, k),
    decreases m - k,
{
    if m > k {
        lemma_sequence_stuck(st, es, k, m - 1);
    }
}

proof fn lemma_elements_stuck(st: ScopeState, es: Seq<SourceArrayElement>, k: int, m: int)
    requires
        0 <= k <= m <= es.len(),
        !elements_step(st, es, k).ok,
    ensures
        elements_step(st, es, m) == elements_step(st, es, k),
    decreases m - k,
{
    if m > k {
        lemma_elements_stuck(st, es, k, m - 1);
    }
}

proof fn lemma_args_stuck(st: ScopeState, args: Seq<SourceArgument>, k: int, m: int)
    requires
        0 <= k <= m <= args.len(),
        !args_step(st, args, k).ok,
    ensures
        args_step(st, args, m) == args_step(st, args, k),
    decreases m - k,
{
    if m > k {
        lemma_args_stuck(st, args, k, m - 1);
    }
}

proof fn lemma_first_default_stays(items: Seq<SourceParameter>, k: int, m: int)
    requires
        0 <= k <= m <= items.len(),
        first_default(items, k) is Some,
    ensures
        first_default(items, m) == first_default(items, k),
    decreases m - k,
{
    if m > k {
        lemma_first_default_stays(items, k, m - 1);
    }
}

proof fn lemma_items_stuck(st: ScopeState, items: Seq<SourceParameter>, k: int, m: int)
    requires
        0 <= k <= m <= items.len(),
        !items_step(st, items, k).ok,
    ensures
        items_step(st, items, m) == items_step(st, items, k),
    decreases m - k,
{
    if m > k {
        lemma_items_stuck(st, items, k, m - 1);
    }
}

proof fn lemma_items_out_index(st: ScopeState, items: Seq<SourceParameter>, n: int, outs: Seq<Pattern>, j: int)
    requires
        0 <= j < n <= items.len(),
        items_out(st, items, n, outs),
    ensures
        outs.len() == n,
        param_out(items_step(st, items, j).after, items[j], outs[j]),
    decreases n,
{
    if j < n - 1 {
        lemma_items_out_index(st, items, n - 1, outs.drop_last(), j);
        assert(outs.drop_last()[j] == outs[j]);
    }
    lemma_items_out_len(st, items, n, outs);
}

proof fn lemma_items_out_len(st: ScopeState, items: Seq<SourceParameter>, n: int, outs: Seq<Pattern>)
    requires
        0 <= n <= items.len(),
        items_out(st, items, n, outs),
    ensures
        outs.len() == n,
    decreases n,
{
    if n > 0 {
        lemma_items_out_len(st, items, n - 1, outs.drop_last());
    }
}

/// A lowered parameter binds what its pattern binds.
proof fn lemma_param_idents(st: ScopeState, p: SourceParameter, out: Pattern)
    requires
        param_out(st, p, out),
    ensures
        pattern_idents(out) == lowered_idents(st, p.pattern),
{
    match p.initializer {
        None => lemma_lowered_idents(st, p.pattern, out),
        Some(x) => {
            match out {
                Pattern::Default { target, .. } => lemma_lowered_idents(st, p.pattern, *target),
                _ => {},
            }
        },
    }
}

impl Lowerer {
    /// Declares the names the lowered parameters of a function bind.
    fn declare_params(
        &mut self,
        params: &Vec<Pattern>,
        rest: &Option<Pattern>,
        Ghost(st): Ghost<ScopeState>,
        Ghost(ps): Ghost<SourceParameters>,
    )
        requires
            params_out(st, ps, params@, *rest),
        ensures
            final(self).state() == declare_all(old(self).state(), params_idents(st, ps)),
    {
        let ghost start = self.state();
        let ghost items = ps.items@;
        proof {
            lemma_items_out_len(st, items, items.len() as int, params@);
        }
        let mut j: usize = 0;
        while j < params.len()
            invariant
                j <= params.len(),
                params@.len() == items.len(),
                items_out(st, items, items.len() as int, params@),
                self.state() == declare_all(start, crate::lowering_spec::items_idents(st, items, j as int)),
            decreases params.len() - j,
        {
            self.collect_ir_pattern_bindings(&params[j]);
            proof {
                lemma_items_out_index(st, items, items.len() as int, params@, j as int);
                lemma_param_idents(items_step(st, items, j as int).after, items[j as int], params@[j as int]);
                lemma_declare_all_concat(
                    start,
                    crate::lowering_spec::items_idents(st, items, j as int),
                    pattern_idents(params@[j as int]),
                );
            }
            j += 1;
        }
        let ghost mid = self.state();
        if let Some(r) = rest {
            self.collect_ir_pattern_bindings(r);
        }
        proof {
            let tail = match ps.rest {
                Some(r) => lowered_idents(items_step(st, items, items.len() as int).after, r.argument),
                None => seq![],
            };
            match ps.rest {
                Some(r) => {
                    lemma_lowered_idents(items_step(st, items, items.len() as int).after, r.argument, rest->0);
                },
                None => {
                    assert(declare_all(mid, tail) == mid);
                },
            }
            lemma_declare_all_concat(start, crate::lowering_spec::items_idents(st, items, items.len() as int), tail);
        }
    }

    /// Lowers a parameter list: each parameter's pattern, wrapped in a
    /// default when it has an initializer, and the rest parameter. One that
    /// fails fails the list.
    pub fn lower_function_params(&mut self, params: &SourceParameters) -> (r: Option<(Vec<Pattern>, Option<Pattern>)>)
        ensures
            final(self).state() == params_step(old(self).state(), *params).after,
            r is Some == params_step(old(self).state(), *params).ok,
            r matches Some(pr) ==> params_out(old(self).state(), *params, pr.0@, pr.1),
        decreases *params, 0int,
    {
        let ghost s0 = self.state();
        let mut k: usize = 0;
        while k < params.items.len()
            invariant
                k <= params.items.len(),
                first_default(params.items@, k as int) is None,
                s0 == old(self).state(),
                self.state() == s0,
            decreases params.items.len() - k,
        {
            let item = &params.items[k];
            let defaulted = item.initializer.is_some() || match &item.pattern {
                SourceBindingPattern::Assignment { .. } => true,
                _ => false,
            };
            if defaulted {
                self.unsupported(
                    "default parameters are not supported in v1".to_owned(),
                    Some(item.span),
                );
                proof {
                    assert(first_default(params.items@, k + 1) == Some(item.span));
                    lemma_first_default_stays(params.items@, k + 1, params.items@.len() as int);
                }
                return None;
            }
            k += 1;
        }
        assert(params_step(s0, *params) == crate::lowering_spec::lowered_params_step(s0, *params));
        let mut out: Vec<Pattern> = Vec::new();
        let mut i: usize = 0;
        while i < params.items.len()
            invariant
                i <= params.items.len(),
                items_step(s0, params.items@, i as int).ok,
                s0 == old(self).state(),
                params_step(s0, *params) == crate::lowering_spec::lowered_params_step(s0, *params),
                self.state() == items_step(s0, params.items@, i as int).after,
                items_out(s0, params.items@, i as int, out@),
            decreases params.items.len() - i,
        {
            let ghost s = self.state();
            let ghost prev = out@;
            let item = &params.items[i];
            assert(decreases_to!(*params => params.items@[i as int].pattern));
            let pattern = match self.lower_pattern(&item.pattern) {
                Some(p) => p,
                None => {
                    proof {
                        assert(!param_step(s, params.items@[i as int]).ok);
                        lemma_items_stuck(s0, params.items@, i + 1, params.items@.len() as int);
                    }
                    return None;
                },
            };
            let lowered = match &item.initializer {
                Some(x) => {
                    assert(decreases_to!(*params => params.items@[i as int].initializer->0));
                    match self.lower_expr(x) {
                        Some(d) => Pattern::Default { span: item.span, target: Box::new(pattern), default_value: d },
                        None => {
                            proof {
                                assert(!param_step(s, params.items@[i as int]).ok);
                                lemma_items_stuck(s0, params.items@, i + 1, params.items@.len() as int);
                            }
                            return None;
                        },
                    }
                },
                None => pattern,
            };
            assert(param_step(s, params.items@[i as int]).ok);
            assert(self.state() == param_step(s, params.items@[i as int]).after);
            out.push(lowered);
            assert(out@.drop_last() =~= prev);
            assert(param_out(s, params.items@[i as int], out@.last()));
            i += 1;
        }
        let rest = match &params.rest {
            Some(r) => match self.lower_pattern(&r.argument) {
                Some(x) => Some(x),
                None => return None,
            },
            None => None,
        };
        Some((out, rest))
    }

    /// Lowers a function declaration or expression: generators and
    /// functions without a body are refused; the body is lowered in a new
    /// scope holding the parameters.
    pub fn lower_function(&mut self, function: &SourceFunction, is_arrow: bool) -> (r: Option<FunctionExpr>)
        ensures
            final(self).state() == function_step(old(self).state(), *function).after,
            r is Some == function_step(old(self).state(), *function).ok,
            r matches Some(g) ==> function_out(old(self).state(), *function, is_arrow, g),
        decreases *function, 0int,
    {
        let ghost s0 = self.state();
        if function.generator {
            self.unsupported("generators are not supported in v1".to_owned(), Some(function.span));
            return None;
        }
        let body = match &function.body {
            Some(b) => b,
            None => {
                self.unsupported(
                    "functions without bodies are not supported".to_owned(),
                    Some(function.span),
                );
                return None;
            },
        };
        let (params, rest) = match self.lower_function_params(&function.params) {
            Some(pr) => pr,
            None => return None,
        };
        self.push_scope();
        self.declare_params(&params, &rest, Ghost(s0), Ghost(function.params));
        self.predeclare_block(body);
        assert(self.state() == body_scope(s0, function.params, body@));
        assert(decreases_to!(*function => *body));
        let lowered = self.lower_stmts(body);
        self.pop_scope();
        let name = match &function.id {
            Some(id) => Some(copy_string(&id.name)),
            None => None,
        };
        Some(
            FunctionExpr {
                span: function.span,
                name,
                params,
                rest,
                body: lowered,
                is_async: function.is_async,
                is_arrow,
            },
        )
    }

    /// Lowers an arrow function; a concise body becomes a `return` of its
    /// expression.
    pub fn lower_arrow_function(&mut self, function: &SourceArrowFunction) -> (r: Option<FunctionExpr>)
        ensures
            final(self).state() == arrow_step(old(self).state(), *function).after,
            r is Some == arrow_step(old(self).state(), *function).ok,
            r matches Some(g) ==> arrow_out(old(self).state(), *function, g),
        decreases *function, 0int,
    {
        let ghost s0 = self.state();
        let (params, rest) = match self.lower_function_params(&function.params) {
            Some(pr) => pr,
            None => return None,
        };
        self.push_scope();
        self.declare_params(&params, &rest, Ghost(s0), Ghost(function.params));
        self.predeclare_block(&function.body);
        assert(self.state() == body_scope(s0, function.params, function.body@));
        let body = if function.expression && function.body.len() == 1 {
            let mut out: Vec<Stmt> = Vec::new();
            assert(decreases_to!(*function => function.body@[0]));
            match &function.body[0] {
                SourceStatement::Expression { span, expression } => {
                    match self.lower_expr(expression) {
                        Some(v) => out.push(Stmt::Return { span: *span, value: Some(v) }),
                        None => return None,
                    }
                },
                other => {
                    match self.lower_stmt(other) {
                        Some(x) => out.push(x),
                        None => return None,
                    }
                },
            }
            self.pop_scope();
            out
        } else {
            assert(decreases_to!(*function => function.body));
            let lowered = self.lower_stmts(&function.body);
            self.pop_scope();
            lowered
        };
        Some(
            FunctionExpr {
                span: function.span,
                name: None,
                params,
                rest,
                body,
                is_async: function.is_async,
                is_arrow: true,
            },
        )
    }

    /// Lowers the statements of a list; one that fails is dropped.
    pub fn lower_stmts(&mut self, statements: &Vec<SourceStatement>) -> (r: Vec<Stmt>)
        ensures
            final(self).state() == stmts_state(old(self).state(), statements@, statements@.len() as int),
            stmts_out(old(self).state(), statements@, statements@.len() as int, r@),
        decreases *statements, 0int,
    {
        let ghost s0 = self.state();
        let mut out: Vec<Stmt> = Vec::new();
        let mut i: usize = 0;
        while i < statements.len()
            invariant
                i <= statements.len(),
                self.state() == stmts_state(s0, statements@, i as int),
                stmts_out(s0, statements@, i as int, out@),
            decreases statements.len() - i,
        {
            let ghost prev = out@;
            assert(decreases_to!(*statements => statements@[i as int]));
            match self.lower_stmt(&statements[i]) {
                Some(x) => {
                    out.push(x);
                    assert(out@.drop_last() =~= prev);
                },
                None => {},
            }
            i += 1;
        }
        out
    }

    /// Lowers a block in a scope of its own, its declarations first.
    pub fn lower_block_stmt(&mut self, block: &SourceBlock) -> (r: Stmt)
        ensures
            final(self).state() == block_state(old(self).state(), *block),
            block_out(old(self).state(), *block, r),
        decreases *block, 0int,
    {
        self.push_scope();
        self.predeclare_block(&block.body);
        let body = self.lower_stmts(&block.body);
        self.pop_scope();
        Stmt::Block { span: block.span, body }
    }

    /// `let` and `const`; any other declaration kind is refused.
    pub fn lower_binding_kind(&mut self, kind: SourceDeclarationKind, span: SourceSpan) -> (r: Option<BindingKind>)
        ensures
            r == kind_spec(kind),
            final(self).state() == (if r is Some {
                old(self).state()
            } else {
                crate::lowering_spec::report(old(self).state(), "only let and const are supported"@, span)
            }),
    {
        match kind {
            SourceDeclarationKind::Let => Some(BindingKind::Let),
            SourceDeclarationKind::Const => Some(BindingKind::Const),
            _ => {
                self.unsupported("only let and const are supported".to_owned(), Some(span));
                None
            },
        }
    }

    /// Lowers declarators; one whose pattern fails is dropped, an
    /// initializer that fails is left out.
    pub fn lower_declarators(&mut self, declarators: &Vec<SourceDeclarator>) -> (r: Vec<Declarator>)
        ensures
            final(self).state() == declarators_state(old(self).state(), declarators@, declarators@.len() as int),
            declarators_out(old(self).state(), declarators@, declarators@.len() as int, r@),
        decreases *declarators, 0int,
    {
        let ghost s0 = self.state();
        let mut out: Vec<Declarator> = Vec::new();
        let mut i: usize = 0;
        while i < declarators.len()
            invariant
                i <= declarators.len(),
                self.state() == declarators_state(s0, declarators@, i as int),
                declarators_out(s0, declarators@, i as int, out@),
            decreases declarators.len() - i,
        {
            let ghost s = self.state();
            let ghost prev = out@;
            let declarator = &declarators[i];
            assert(decreases_to!(*declarators => declarators@[i as int].id));
            match self.lower_pattern(&declarator.id) {
                Some(p) => {
                    assert(decreases_to!(*declarators => declarators@[i as int].init));
                    let init = self.lower_opt_expr(&declarator.init);
                    out.push(Declarator { span: declarator.span, pattern: p, initializer: init });
                    assert(out@.drop_last() =~= prev);
                    assert(declarator_out(s, declarators@[i as int], out@.last()));
                },
                None => {},
            }
            assert(self.state() == declarator_step(s, declarators@[i as int]).after);
            i += 1;
        }
        out
    }

    /// Lowers the cases of a `switch`; a test that fails is left out.
    pub fn lower_switch_cases(&mut self, cases: &Vec<SourceSwitchCase>) -> (r: Vec<SwitchCase>)
        ensures
            final(self).state() == cases_state(old(self).state(), cases@, cases@.len() as int),
            cases_out(old(self).state(), cases@, cases@.len() as int, r@),
        decreases *cases, 0int,
    {
        let ghost s0 = self.state();
        let mut out: Vec<SwitchCase> = Vec::new();
        let mut i: usize = 0;
        while i < cases.len()
            invariant
                i <= cases.len(),
                self.state() == cases_state(s0, cases@, i as int),
                cases_out(s0, cases@, i as int, out@),
            decreases cases.len() - i,
        {
            let ghost s = self.state();
            let ghost prev = out@;
            let case = &cases[i];
            assert(decreases_to!(*cases => cases@[i as int].test));
            let test = self.lower_opt_expr(&case.test);
            assert(decreases_to!(*cases => cases@[i as int].consequent));
            let consequent = self.lower_stmts(&case.consequent);
            out.push(SwitchCase { span: case.span, test, consequent });
            assert(out@.drop_last() =~= prev);
            assert(case_out(s, cases@[i as int], out@.last()));
            assert(self.state() == case_state(s, cases@[i as int]));
            i += 1;
        }
        out
    }

    /// Lowers a `catch` clause in a scope of its own holding its parameter.
    pub fn lower_catch_clause(&mut self, handler: &SourceCatchClause) -> (r: CatchClause)
        ensures
            final(self).state() == catch_state(old(self).state(), *handler),
            catch_out(old(self).state(), Some(*handler), Some(r)),
        decreases *handler, 0int,
    {
        self.push_scope();
        if let Some(p) = &handler.param {
            self.collect_pattern_bindings(p);
        }
        self.predeclare_block(&handler.body.body);
        let parameter = match &handler.param {
            Some(p) => self.lower_pattern(p),
            None => None,
        };
        let body = self.lower_block_stmt(&handler.body);
        self.pop_scope();
        CatchClause { span: handler.span, parameter, body: Box::new(body) }
    }

    /// Lowers a statement.
    pub fn lower_stmt(&mut self, statement: &SourceStatement) -> (r: Option<Stmt>)
        ensures
            final(self).state() == stmt_step(old(self).state(), *statement).after,
            r is Some == stmt_step(old(self).state(), *statement).ok,
            r matches Some(x) ==> stmt_out(old(self).state(), *statement, x),
        decreases *statement, 0int,
    {
        let ghost s0 = self.state();
        match statement {
            SourceStatement::Block(block) => Some(self.lower_block_stmt(block)),
            SourceStatement::Break { span } => Some(Stmt::Break { span: *span }),
            SourceStatement::Continue { span } => Some(Stmt::Continue { span: *span }),
            SourceStatement::Empty { span } => Some(Stmt::Empty { span: *span }),
            SourceStatement::Expression { span, expression } => match self.lower_expr(expression) {
                Some(x) => Some(Stmt::Expression { span: *span, expression: x }),
                None => None,
            },
            SourceStatement::For { span, init, test, update, body } => {
                let lowered_init = match init {
                    Some(SourceForInit::Declaration(decl)) => {
                        let kind = match self.lower_binding_kind(decl.kind, decl.span) {
                            Some(k) => k,
                            None => {
                                assert(!for_init_step(s0, *init).ok);
                                return None;
                            },
                        };
                        let declarators = self.lower_declarators(&decl.declarations);
                        Some(ForInit::VariableDecl { kind, declarators })
                    },
                    Some(SourceForInit::Expression(x)) => match self.lower_expr(x) {
                        Some(y) => Some(ForInit::Expression(y)),
                        None => {
                            assert(!for_init_step(s0, *init).ok);
                            return None;
                        },
                    },
                    None => None,
                };
                assert(for_init_step(s0, *init).ok && self.state() == for_init_step(s0, *init).after);
                assert(for_init_out(s0, *init, lowered_init));
                let t = self.lower_opt_expr(test);
                let u = self.lower_opt_expr(update);
                match self.lower_stmt(body) {
                    Some(b) => Some(
                        Stmt::For { span: *span, init: lowered_init, test: t, update: u, body: Box::new(b) },
                    ),
                    None => None,
                }
            },
            SourceStatement::ForOf { span, is_await, left, right, body } => {
                if *is_await {
                    self.unsupported("for await...of is not supported".to_owned(), Some(*span));
                    return None;
                }
                match left {
                    SourceForOfLeft::Target { span: target_span, target } => {
                        if self.lower_assignment_target(target).is_none() {
                            return None;
                        }
                        self.unsupported(
                            string_from_chars(
                                &chars_of("for...of currently requires exactly one let or const binding"),
                            ),
                            Some(*target_span),
                        );
                        None
                    },
                    SourceForOfLeft::Declaration(decl) => {
                        if decl.declarations.len() != 1 {
                            self.unsupported(
                                string_from_chars(
                                    &chars_of("for...of currently requires exactly one let or const binding"),
                                ),
                                Some(decl.span),
                            );
                            return None;
                        }
                        let declarator = &decl.declarations[0];
                        if declarator.init.is_some() {
                            self.unsupported(
                                "for...of binding initializers are not supported".to_owned(),
                                Some(declarator.span),
                            );
                            return None;
                        }
                        let kind = match self.lower_binding_kind(decl.kind, decl.span) {
                            Some(k) => k,
                            None => return None,
                        };
                        assert(decreases_to!(*statement => decl.declarations@[0].id));
                        let pattern = match self.lower_pattern(&declarator.id) {
                            Some(p) => p,
                            None => return None,
                        };
                        let iterable = match self.lower_expr(right) {
                            Some(x) => x,
                            None => return None,
                        };
                        proof {
                            lemma_lowered_idents(s0, decl.declarations@[0].id, pattern);
                        }
                        self.push_scope();
                        self.collect_ir_pattern_bindings(&pattern);
                        let lowered_body = self.lower_stmt(body);
                        self.pop_scope();
                        match lowered_body {
                            Some(b) => Some(
                                Stmt::ForOf { span: *span, kind, pattern, iterable, body: Box::new(b) },
                            ),
                            None => None,
                        }
                    },
                }
            },
            SourceStatement::ForIn { span, left, .. } => {
                match left {
                    SourceForOfLeft::Target { target, .. } => {
                        if self.lower_assignment_target(target).is_none() {
                            return None;
                        }
                    },
                    SourceForOfLeft::Declaration(decl) => {
                        if decl.declarations.len() != 1 {
                            self.unsupported(
                                string_from_chars(
                                    &chars_of("for...in currently requires exactly one let or const binding"),
                                ),
                                Some(decl.span),
                            );
                            return None;
                        }
                        let declarator = &decl.declarations[0];
                        if declarator.init.is_some() {
                            self.unsupported(
                                "for...in binding initializers are not supported".to_owned(),
                                Some(declarator.span),
                            );
                            return None;
                        }
                        if self.lower_binding_kind(decl.kind, decl.span).is_none() {
                            return None;
                        }
                        assert(decreases_to!(*statement => decl.declarations@[0].id));
                        if self.lower_pattern(&declarator.id).is_none() {
                            return None;
                        }
                    },
                }
                self.unsupported("for...in is not supported in v1".to_owned(), Some(*span));
                None
            },
            SourceStatement::If { span, test, consequent, alternate } => {
                let t = match self.lower_expr(test) {
                    Some(t) => t,
                    None => return None,
                };
                let c = match self.lower_stmt(consequent) {
                    Some(c) => c,
                    None => return None,
                };
                let ghost s2 = self.state();
                let a = match alternate {
                    Some(x) => match self.lower_stmt(x) {
                        Some(y) => Some(Box::new(y)),
                        None => None,
                    },
                    None => None,
                };
                assert(opt_stmt_out(s2, *alternate, a));
                assert(self.state() == opt_stmt_state(s2, *alternate));
                Some(Stmt::If { span: *span, test: t, consequent: Box::new(c), alternate: a })
            },
            SourceStatement::Return { span, argument } => {
                let v = self.lower_opt_expr(argument);
                Some(Stmt::Return { span: *span, value: v })
            },
            SourceStatement::Switch { span, discriminant, cases } => {
                let d = match self.lower_expr(discriminant) {
                    Some(d) => d,
                    None => return None,
                };
                let c = self.lower_switch_cases(cases);
                Some(Stmt::Switch { span: *span, discriminant: d, cases: c })
            },
            SourceStatement::Throw { span, argument } => match self.lower_expr(argument) {
                Some(v) => Some(Stmt::Throw { span: *span, value: v }),
                None => None,
            },
            SourceStatement::Try { span, block, handler, finalizer } => {
                let b = self.lower_block_stmt(block);
                let ghost s1 = self.state();
                let c = match handler {
                    Some(h) => Some(self.lower_catch_clause(h)),
                    None => None,
                };
                assert(catch_out(s1, *handler, c));
                let f = match finalizer {
                    Some(fb) => Some(Box::new(self.lower_block_stmt(fb))),
                    None => None,
                };
                Some(Stmt::Try { span: *span, body: Box::new(b), catch: c, finally: f })
            },
            SourceStatement::VariableDeclaration(decl) => {
                let kind = match self.lower_binding_kind(decl.kind, decl.span) {
                    Some(k) => k,
                    None => return None,
                };
                let declarators = self.lower_declarators(&decl.declarations);
                Some(Stmt::VariableDecl { span: decl.span, kind, declarators })
            },
            SourceStatement::While { span, test, body } => {
                let t = match self.lower_expr(test) {
                    Some(t) => t,
                    None => return None,
                };
                match self.lower_stmt(body) {
                    Some(b) => Some(Stmt::While { span: *span, test: t, body: Box::new(b) }),
                    None => None,
                }
            },
            SourceStatement::DoWhile { span, body, test } => {
                let b = match self.lower_stmt(body) {
                    Some(b) => b,
                    None => return None,
                };
                match self.lower_expr(test) {
                    Some(t) => Some(Stmt::DoWhile { span: *span, body: Box::new(b), test: t }),
                    None => None,
                }
            },
            SourceStatement::FunctionDeclaration(function) => match self.lower_function(function, false) {
                Some(g) => Some(Stmt::FunctionDecl { span: function.span, function: g }),
                None => None,
            },
            SourceStatement::Refused { span, form } => {
                self.unsupported(refused_statement_text(*form).to_owned(), Some(*span));
                None
            },
            SourceStatement::Other { span, description } => {
                let mut message = chars_of("unsupported statement form: ");
                extend_chars(&mut message, &chars_of(description.as_str()));
                self.unsupported(string_from_chars(&message), Some(*span));
                None
            },
        }
    }

    /// Lowers a script: its declarations first, then its statements; one
    /// that fails is dropped.
    pub fn lower_program(&mut self, program: &SourceProgram) -> (r: Script)
        ensures
            final(self).state() == stmts_state(
                predeclared(old(self).state(), program.body@, program.body@.len() as int),
                program.body@,
                program.body@.len() as int,
            ),
            r.span == program.span,
            stmts_out(
                predeclared(old(self).state(), program.body@, program.body@.len() as int),
                program.body@,
                program.body@.len() as int,
                r.body@,
            ),
    {
        self.predeclare_block(&program.body);
        let body = self.lower_stmts(&program.body);
        Script { span: program.span, body }
    }
}


/// The lowerer's state before a program: one empty scope, no diagnostics.
pub open spec fn initial_state() -> ScopeState {
    ScopeState {
        scopes: seq![Seq::<Seq<char>>::empty()],
        diagnostics: Seq::<(crate::diagnostic::DiagnosticKind, Seq<char>, Option<SourceSpan>)>::empty(),
    }
}

/// The state in which a program's statements are lowered.
pub open spec fn program_scope(program: SourceProgram) -> ScopeState {
    predeclared(initial_state(), program.body@, program.body@.len() as int)
}

/// The diagnostics lowering `program` reports.
pub open spec fn program_diagnostics(program: SourceProgram) -> Seq<
    (crate::diagnostic::DiagnosticKind, Seq<char>, Option<SourceSpan>),
> {
    stmts_state(program_scope(program), program.body@, program.body@.len() as int).diagnostics
}

/// The parser's error messages as diagnostics without a span.
pub open spec fn parse_diagnostics_view(errors: Seq<String>) -> Seq<
    (crate::diagnostic::DiagnosticKind, Seq<char>, Option<SourceSpan>),
> {
    errors.map_values(|e: String| (crate::diagnostic::DiagnosticKind::Parse, e@, None::<SourceSpan>))
}

/// Compiles a parsed script. A parse that gave up fails with the parser's
/// errors alone; otherwise the script is lowered, and the result fails with
/// the parser's errors followed by the lowering's diagnostics when there is
/// any, and is the lowered script with its source otherwise.
pub fn compile_parsed(source: String, parse_errors: Vec<String>, panicked: bool, program: &SourceProgram) -> (r: Result<CompiledProgram, JsliteError>)
    ensures
        panicked ==> (r matches Err(JsliteError::Diagnostics(d)) && diags_view(d@)
            == parse_diagnostics_view(parse_errors@)),
        !panicked && (parse_errors@.len() > 0 || program_diagnostics(*program).len() > 0) ==> (
        r matches Err(JsliteError::Diagnostics(d)) && diags_view(d@) == parse_diagnostics_view(
            parse_errors@,
        ) + program_diagnostics(*program)),
        !panicked && parse_errors@.len() == 0 && program_diagnostics(*program).len() == 0 ==> (
        r matches Ok(p) && p.source@ == source@ && p.script.span == program.span && stmts_out(
            program_scope(*program),
            program.body@,
            program.body@.len() as int,
            p.script.body@,
        )),
{
    let mut diagnostics: Vec<Diagnostic> = Vec::new();
    let mut i: usize = 0;
    while i < parse_errors.len()
        invariant
            i <= parse_errors.len(),
            diagnostics@.len() == i,
            diags_view(diagnostics@) == parse_diagnostics_view(parse_errors@.take(i as int)),
        decreases parse_errors.len() - i,
    {
        let ghost prev = diagnostics@;
        diagnostics.push(Diagnostic::parse(copy_string(&parse_errors[i]), None));
        assert(diagnostics@.drop_last() =~= prev);
        assert(parse_errors@.take(i + 1).drop_last() =~= parse_errors@.take(i as int));
        assert forall|j: int| 0 <= j < i + 1 implies diags_view(diagnostics@)[j]
            == parse_diagnostics_view(parse_errors@.take(i + 1))[j] by {
            if j < i {
                assert(diags_view(prev)[j] == parse_diagnostics_view(parse_errors@.take(i as int))[j]);
                assert(diagnostics@[j] == prev[j]);
            }
        }
        assert(diags_view(diagnostics@) =~= parse_diagnostics_view(parse_errors@.take(i + 1)));
        i += 1;
    }
    assert(parse_errors@.take(parse_errors@.len() as int) =~= parse_errors@);
    if panicked {
        return Err(JsliteError::Diagnostics(diagnostics));
    }
    let mut lowerer = Lowerer::new();
    proof {
        assert(lowerer.state() =~~= initial_state());
    }
    let script = lowerer.lower_program(program);
    let ghost before = diagnostics@;
    let mut lowered = lowerer.into_diagnostics();
    diagnostics.append(&mut lowered);
    assert(diags_view(diagnostics@) =~= diags_view(before) + program_diagnostics(*program));
    if diagnostics.len() > 0 {
        return Err(JsliteError::Diagnostics(diagnostics));
    }
    Ok(CompiledProgram { source, script })
}

} // verus!
