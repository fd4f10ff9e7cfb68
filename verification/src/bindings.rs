use vstd::prelude::*;

use crate::diagnostic::{is_runtime_error, runtime_error_from, JsliteResult};
use crate::ir::{AssignOp, BinaryOp, BindingKind, Declarator, FunctionExpr, ObjectPatternProperty, Pattern, Stmt};
use crate::span::SourceSpan;

verus! {

// ---------------------------------------------------------------------------
// The identifiers a pattern binds, in source order.
// ---------------------------------------------------------------------------

/// Every identifier bound by `p`, with its span, left to right.
pub open spec fn pattern_idents(p: Pattern) -> Seq<(Seq<char>, SourceSpan)>
    decreases p, 0int,
{
    match p {
        Pattern::Identifier { span, name } => seq![(name@, span)],
        Pattern::Object { properties, rest, .. } => {
            props_idents(properties@, properties@.len() as int) + match rest {
                Some(r) => pattern_idents(*r),
                None => seq![],
            }
        },
        Pattern::Array { elements, rest, .. } => {
            elements_idents(elements@, elements@.len() as int) + match rest {
                Some(r) => pattern_idents(*r),
                None => seq![],
            }
        },
        Pattern::Default { target, .. } => pattern_idents(*target),
    }
}

/// Identifiers bound by the values of the first `n` object-pattern properties.
pub open spec fn props_idents(props: Seq<ObjectPatternProperty>, n: int) -> Seq<
    (Seq<char>, SourceSpan),
>
    decreases props, n,
{
    if n <= 0 || n > props.len() {
        seq![]
    } else {
        props_idents(props, n - 1) + pattern_idents(props[n - 1].value)
    }
}

/// Identifiers bound by the first `n` array-pattern elements (holes bind none).
pub open spec fn elements_idents(elems: Seq<Option<Pattern>>, n: int) -> Seq<
    (Seq<char>, SourceSpan),
>
    decreases elems, n,
{
    if n <= 0 || n > elems.len() {
        seq![]
    } else {
        elements_idents(elems, n - 1) + match elems[n - 1] {
            Some(e) => pattern_idents(e),
            None => seq![],
        }
    }
}

/// Number of pattern nodes in `p`.
pub open spec fn pattern_size(p: Pattern) -> nat
    decreases p, 0int,
{
    match p {
        Pattern::Identifier { .. } => 1,
        Pattern::Object { properties, rest, .. } => 1 + props_size(
            properties@,
            properties@.len() as int,
        ) + match rest {
            Some(r) => pattern_size(*r),
            None => 0,
        },
        Pattern::Array { elements, rest, .. } => 1 + elements_size(
            elements@,
            elements@.len() as int,
        ) + match rest {
            Some(r) => pattern_size(*r),
            None => 0,
        },
        Pattern::Default { target, .. } => 1 + pattern_size(*target),
    }
}

pub open spec fn props_size(props: Seq<ObjectPatternProperty>, n: int) -> nat
    decreases props, n,
{
    if n <= 0 || n > props.len() {
        0
    } else {
        props_size(props, n - 1) + pattern_size(props[n - 1].value)
    }
}

pub open spec fn elements_size(elems: Seq<Option<Pattern>>, n: int) -> nat
    decreases elems, n,
{
    if n <= 0 || n > elems.len() {
        0
    } else {
        elements_size(elems, n - 1) + match elems[n - 1] {
            Some(e) => pattern_size(e),
            None => 0,
        }
    }
}

pub proof fn lemma_props_size(props: Seq<ObjectPatternProperty>, n: int, k: int)
    requires
        0 <= k < n <= props.len(),
    ensures
        pattern_size(props[k].value) <= props_size(props, n),
    decreases n,
{
    if k < n - 1 {
        lemma_props_size(props, n - 1, k);
    }
}

pub proof fn lemma_elements_size(elems: Seq<Option<Pattern>>, n: int, k: int)
    requires
        0 <= k < n <= elems.len(),
    ensures
        elems[k] matches Some(e) ==> pattern_size(e) <= elements_size(elems, n),
    decreases n,
{
    if k < n - 1 {
        lemma_elements_size(elems, n - 1, k);
    }
}

/// The names bound by `p`, left to right.
pub open spec fn pattern_names(p: Pattern) -> Seq<Seq<char>> {
    pattern_idents(p).map_values(|entry: (Seq<char>, SourceSpan)| entry.0)
}

pub open spec fn pairs_view(v: Seq<(String, bool)>) -> Seq<(Seq<char>, bool)> {
    v.map_values(|entry: (String, bool)| (entry.0@, entry.1))
}

/// Each name of `names` paired with `flag`.
pub open spec fn with_flag(names: Seq<Seq<char>>, flag: bool) -> Seq<(Seq<char>, bool)> {
    names.map_values(|n: Seq<char>| (n, flag))
}

fn copy_string(s: &String) -> (r: String)
    ensures
        r@ == s@,
{
    s.as_str().to_owned()
}

fn collect_pattern_bindings(pattern: &Pattern, bindings: &mut Vec<(String, bool)>)
    ensures
        pairs_view(final(bindings)@) == pairs_view(old(bindings)@) + with_flag(
            pattern_names(*pattern),
            true,
        ),
    decreases pattern_size(*pattern),
{
    let ghost start = pairs_view(bindings@);
    match pattern {
        Pattern::Identifier { name, .. } => {
            bindings.push((copy_string(name), true));
            assert(pairs_view(bindings@) =~= start + with_flag(pattern_names(*pattern), true));
        },
        Pattern::Object { properties, rest, .. } => {
            let mut i: usize = 0;
            assert(props_size(properties@, properties@.len() as int) < pattern_size(*pattern));
            while i < properties.len()
                invariant
                    i <= properties.len(),
                    props_size(properties@, properties@.len() as int) < pattern_size(*pattern),
                    pairs_view(bindings@) == start + with_flag(
                        props_idents(properties@, i as int).map_values(
                            |entry: (Seq<char>, SourceSpan)| entry.0,
                        ),
                        true,
                    ),
                decreases properties.len() - i,
            {
                proof {
                    lemma_props_size(properties@, properties@.len() as int, i as int);
                }
                collect_pattern_bindings(&properties[i].value, bindings);
                proof {
                    let a = props_idents(properties@, i as int);
                    let b = pattern_idents(properties@[i as int].value);
                    assert(props_idents(properties@, i + 1) == a + b);
                    assert((a + b).map_values(|entry: (Seq<char>, SourceSpan)| entry.0) =~= a.map_values(
                        |entry: (Seq<char>, SourceSpan)| entry.0,
                    ) + b.map_values(|entry: (Seq<char>, SourceSpan)| entry.0));
                    assert(pairs_view(bindings@) =~= start + with_flag(
                        props_idents(properties@, i + 1).map_values(
                            |entry: (Seq<char>, SourceSpan)| entry.0,
                        ),
                        true,
                    ));
                }
                i += 1;
            }
            let ghost mid = pairs_view(bindings@);
            match rest {
                Some(r) => {
                    collect_pattern_bindings(r, bindings);
                },
                None => {},
            }
            proof {
                let a = props_idents(properties@, properties@.len() as int);
                let b = match rest {
                    Some(r) => pattern_idents(**r),
                    None => seq![],
                };
                assert(pattern_idents(*pattern) == a + b);
                assert((a + b).map_values(|entry: (Seq<char>, SourceSpan)| entry.0) =~= a.map_values(
                    |entry: (Seq<char>, SourceSpan)| entry.0,
                ) + b.map_values(|entry: (Seq<char>, SourceSpan)| entry.0));
                assert(pairs_view(bindings@) =~= start + with_flag(pattern_names(*pattern), true));
            }
        },
        Pattern::Array { elements, rest, .. } => {
            let mut i: usize = 0;
            assert(elements_size(elements@, elements@.len() as int) < pattern_size(*pattern));
            while i < elements.len()
                invariant
                    i <= elements.len(),
                    elements_size(elements@, elements@.len() as int) < pattern_size(*pattern),
                    pairs_view(bindings@) == start + with_flag(
                        elements_idents(elements@, i as int).map_values(
                            |entry: (Seq<char>, SourceSpan)| entry.0,
                        ),
                        true,
                    ),
                decreases elements.len() - i,
            {
                match &elements[i] {
                    Some(element) => {
                        proof {
                            lemma_elements_size(elements@, elements@.len() as int, i as int);
                        }
                        collect_pattern_bindings(element, bindings);
                    },
                    None => {},
                }
                proof {
                    let a = elements_idents(elements@, i as int);
                    let b = match elements@[i as int] {
                        Some(e) => pattern_idents(e),
                        None => seq![],
                    };
                    assert(elements_idents(elements@, i + 1) == a + b);
                    assert((a + b).map_values(|entry: (Seq<char>, SourceSpan)| entry.0) =~= a.map_values(
                        |entry: (Seq<char>, SourceSpan)| entry.0,
                    ) + b.map_values(|entry: (Seq<char>, SourceSpan)| entry.0));
                    assert(pairs_view(bindings@) =~= start + with_flag(
                        elements_idents(elements@, i + 1).map_values(
                            |entry: (Seq<char>, SourceSpan)| entry.0,
                        ),
                        true,
                    ));
                }
                i += 1;
            }
            match rest {
                Some(r) => {
                    collect_pattern_bindings(r, bindings);
                },
                None => {},
            }
            proof {
                let a = elements_idents(elements@, elements@.len() as int);
                let b = match rest {
                    Some(r) => pattern_idents(**r),
                    None => seq![],
                };
                assert(pattern_idents(*pattern) == a + b);
                assert((a + b).map_values(|entry: (Seq<char>, SourceSpan)| entry.0) =~= a.map_values(
                    |entry: (Seq<char>, SourceSpan)| entry.0,
                ) + b.map_values(|entry: (Seq<char>, SourceSpan)| entry.0));
                assert(pairs_view(bindings@) =~= start + with_flag(pattern_names(*pattern), true));
            }
        },
        Pattern::Default { target, .. } => {
            collect_pattern_bindings(target, bindings);
        },
    }
}

/// Every name `pattern` binds, in source order, each marked mutable.
pub fn pattern_bindings(pattern: &Pattern) -> (bindings: Vec<(String, bool)>)
    ensures
        pairs_view(bindings@) == with_flag(pattern_names(*pattern), true),
{
    let mut bindings: Vec<(String, bool)> = Vec::new();
    collect_pattern_bindings(pattern, &mut bindings);
    assert(pairs_view(Seq::<(String, bool)>::empty()) =~= Seq::empty());
    assert(pairs_view(bindings@) =~= with_flag(pattern_names(*pattern), true));
    bindings
}

// ---------------------------------------------------------------------------
// The bindings a block introduces.
// ---------------------------------------------------------------------------

/// A function declared in a block.
pub struct FunctionBinding<'a> {
    pub name: String,
    pub expr: &'a FunctionExpr,
}

/// The lexical bindings (name, mutable) and function declarations of a block.
pub struct BlockBindings<'a> {
    pub lexicals: Vec<(String, bool)>,
    pub functions: Vec<FunctionBinding<'a>>,
}

/// Names bound by the first `n` declarators, each marked mutable iff `mutable`.
pub open spec fn declarators_lexicals(decls: Seq<Declarator>, n: int, mutable: bool) -> Seq<
    (Seq<char>, bool),
>
    decreases n,
{
    if n <= 0 || n > decls.len() {
        seq![]
    } else {
        declarators_lexicals(decls, n - 1, mutable) + with_flag(
            pattern_names(decls[n - 1].pattern),
            mutable,
        )
    }
}

/// The lexical bindings one statement contributes to its block.
pub open spec fn stmt_lexicals(s: Stmt) -> Seq<(Seq<char>, bool)> {
    match s {
        Stmt::VariableDecl { kind, declarators, .. } => declarators_lexicals(
            declarators@,
            declarators@.len() as int,
            kind == BindingKind::Let,
        ),
        _ => seq![],
    }
}

/// The lexical bindings of the first `n` statements.
pub open spec fn block_lexicals(stmts: Seq<Stmt>, n: int) -> Seq<(Seq<char>, bool)>
    decreases n,
{
    if n <= 0 || n > stmts.len() {
        seq![]
    } else {
        block_lexicals(stmts, n - 1) + stmt_lexicals(stmts[n - 1])
    }
}

/// The function one statement declares under a name, if any.
pub open spec fn stmt_function(s: Stmt) -> Seq<(Seq<char>, FunctionExpr)> {
    match s {
        Stmt::FunctionDecl { function, .. } => match function.name {
            Some(name) => seq![(name@, function)],
            None => seq![],
        },
        _ => seq![],
    }
}

/// The named functions declared by the first `n` statements.
pub open spec fn block_functions(stmts: Seq<Stmt>, n: int) -> Seq<(Seq<char>, FunctionExpr)>
    decreases n,
{
    if n <= 0 || n > stmts.len() {
        seq![]
    } else {
        block_functions(stmts, n - 1) + stmt_function(stmts[n - 1])
    }
}

pub open spec fn functions_view(v: Seq<FunctionBinding>) -> Seq<(Seq<char>, FunctionExpr)> {
    v.map_values(|f: FunctionBinding| (f.name@, *f.expr))
}

/// Collects, in order, the `let`/`const` names (mutable iff `let`) and the
/// named function declarations of a block.
pub fn collect_block_bindings<'a>(statements: &'a [Stmt]) -> (b: BlockBindings<'a>)
    ensures
        pairs_view(b.lexicals@) == block_lexicals(statements@, statements@.len() as int),
        functions_view(b.functions@) == block_functions(statements@, statements@.len() as int),
{
    let mut lexicals: Vec<(String, bool)> = Vec::new();
    let mut functions: Vec<FunctionBinding<'a>> = Vec::new();
    let mut i: usize = 0;
    assert(pairs_view(lexicals@) =~= Seq::empty());
    assert(functions_view(functions@) =~= Seq::empty());
    while i < statements.len()
        invariant
            i <= statements.len(),
            pairs_view(lexicals@) == block_lexicals(statements@, i as int),
            functions_view(functions@) == block_functions(statements@, i as int),
        decreases statements.len() - i,
    {
        match &statements[i] {
            Stmt::VariableDecl { kind, declarators, .. } => {
                let mutable = match kind {
                    BindingKind::Let => true,
                    BindingKind::Const => false,
                };
                let ghost base = pairs_view(lexicals@);
                let mut j: usize = 0;
                while j < declarators.len()
                    invariant
                        j <= declarators.len(),
                        mutable == (*kind == BindingKind::Let),
                        pairs_view(lexicals@) == base + declarators_lexicals(
                            declarators@,
                            j as int,
                            mutable,
                        ),
                    decreases declarators.len() - j,
                {
                    let names = pattern_bindings(&declarators[j].pattern);
                    let ghost before = pairs_view(lexicals@);
                    let mut k: usize = 0;
                    while k < names.len()
                        invariant
                            k <= names.len(),
                            j < declarators.len(),
                            pairs_view(names@) == with_flag(
                                pattern_names(declarators@[j as int].pattern),
                                true,
                            ),
                            pairs_view(lexicals@) == before + with_flag(
                                pattern_names(declarators@[j as int].pattern),
                                mutable,
                            ).take(k as int),
                        decreases names.len() - k,
                    {
                        let name = copy_string(&names[k].0);
                        let ghost name_view = name@;
                        let ghost old_lex = lexicals@;
                        lexicals.push((name, mutable));
                        proof {
                            assert(pairs_view(lexicals@) =~= pairs_view(old_lex).push(
                                (name_view, mutable),
                            ));
                            let w = with_flag(pattern_names(declarators@[j as int].pattern), mutable);
                            let t = with_flag(pattern_names(declarators@[j as int].pattern), true);
                            assert(pairs_view(names@).len() == names@.len());
                            assert(t.len() == w.len());
                            assert(k < t.len());
                            assert(pairs_view(names@)[k as int] == t[k as int]);
                            assert(pairs_view(names@)[k as int].0 == names@[k as int].0@);
                            assert(w[k as int] == (t[k as int].0, mutable));
                            assert(w.take(k + 1) =~= w.take(k as int).push(w[k as int]));
                            assert(pairs_view(lexicals@) =~= before + with_flag(
                                pattern_names(declarators@[j as int].pattern),
                                mutable,
                            ).take(k + 1));
                        }
                        k += 1;
                    }
                    proof {
                        let w = with_flag(pattern_names(declarators@[j as int].pattern), mutable);
                        assert(w.take(k as int) =~= w);
                        assert(pairs_view(lexicals@) =~= base + declarators_lexicals(
                            declarators@,
                            j + 1,
                            mutable,
                        ));
                    }
                    j += 1;
                }
                assert(pairs_view(lexicals@) =~= block_lexicals(statements@, i + 1));
                assert(functions_view(functions@) =~= block_functions(statements@, i + 1));
            },
            Stmt::FunctionDecl { function, .. } => {
                match &function.name {
                    Some(name) => {
                        let ghost before = functions_view(functions@);
                        functions.push(FunctionBinding { name: copy_string(name), expr: function });
                        assert(functions_view(functions@) =~= before.push((name@, *function)));
                    },
                    None => {},
                }
                assert(pairs_view(lexicals@) =~= block_lexicals(statements@, i + 1));
                assert(functions_view(functions@) =~= block_functions(statements@, i + 1));
            },
            _ => {
                assert(pairs_view(lexicals@) =~= block_lexicals(statements@, i + 1));
                assert(functions_view(functions@) =~= block_functions(statements@, i + 1));
            },
        }
        i += 1;
    }
    BlockBindings { lexicals, functions }
}

// ---------------------------------------------------------------------------
// Compound assignment.
// ---------------------------------------------------------------------------

/// The arithmetic operator behind a compound assignment (`+=` is `+`, ...).
pub open spec fn compound_binary(op: AssignOp) -> Option<BinaryOp> {
    match op {
        AssignOp::AddAssign => Some(BinaryOp::Add),
        AssignOp::SubAssign => Some(BinaryOp::Sub),
        AssignOp::MulAssign => Some(BinaryOp::Mul),
        AssignOp::DivAssign => Some(BinaryOp::Div),
        _ => None,
    }
}

/// The binary operator a compound assignment applies; plain and logical
/// assignments have none.
pub fn assign_op_to_binary(operator: AssignOp) -> (r: JsliteResult<BinaryOp>)
    ensures
        match compound_binary(operator) {
            Some(op) => r == Ok::<BinaryOp, crate::diagnostic::JsliteError>(op),
            None => r matches Err(e) && is_runtime_error(e, "invalid compound assignment"@),
        },
{
    match operator {
        AssignOp::Assign | AssignOp::OrAssign | AssignOp::AndAssign | AssignOp::NullishAssign => {
            Err(runtime_error_from("invalid compound assignment"))
        },
        AssignOp::AddAssign => Ok(BinaryOp::Add),
        AssignOp::SubAssign => Ok(BinaryOp::Sub),
        AssignOp::MulAssign => Ok(BinaryOp::Mul),
        AssignOp::DivAssign => Ok(BinaryOp::Div),
    }
}

} // verus!
