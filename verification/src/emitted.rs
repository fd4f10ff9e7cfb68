//! The code the compiler emits, stated exactly for the expressions and
//! statements whose code depends on nothing but themselves and where it
//! starts.

use vstd::prelude::*;

use crate::bytecode::Instruction;
use crate::bindings::{block_lexicals, compound_binary, stmt_lexicals};
use crate::ir_clone::pattern_copy;
use crate::ir::{
    AssignOp, AssignTarget, BinaryOp, CatchClause, Declarator, Expr, ForInit, LogicalOp, MemberProperty, ObjectProperty, PropertyName, Stmt,
};
use crate::bindings::pattern_names;

verus! {

/// A string made of the characters `v`.
pub open spec fn named(v: Seq<char>) -> String {
    choose|s: String| s@ == v
}

/// The instruction `a` is `e`: a name loaded or declared taken by its
/// characters, a pattern initialized by a copy of it.
pub open spec fn instr_is(a: Instruction, e: Instruction) -> bool {
    match (a, e) {
        (Instruction::LoadName(x), Instruction::LoadName(y)) => x@ == y@,
        (
            Instruction::DeclareName { name: x, mutable: m },
            Instruction::DeclareName { name: y, mutable: n },
        ) => x@ == y@ && m == n,
        (Instruction::InitializePattern(x), Instruction::InitializePattern(y)) => x == y || pattern_copy(x, y),
        (Instruction::MakeObject { keys: x }, Instruction::MakeObject { keys: y }) => x@ == y@,
        (Instruction::PushString(x), Instruction::PushString(y)) => x@ == y@,
        _ => a == e,
    }
}

/// A vector holding `s`.
pub open spec fn vec_of(s: Seq<PropertyName>) -> Vec<PropertyName> {
    choose|v: Vec<PropertyName>| v@ == s
}

pub proof fn lemma_vec_of(v: Vec<PropertyName>)
    ensures
        vec_of(v@)@ == v@,
{
    assert(exists|w: Vec<PropertyName>| #![trigger w@] w@ == v@) by {
        assert(v@ == v@);
    }
}

/// The keys of `ps`, in order.
pub open spec fn property_keys(ps: Seq<ObjectProperty>) -> Seq<PropertyName> {
    Seq::new(ps.len(), |i: int| ps[i].key)
}

/// The code of the values of `ps[..n]`, one after another.
pub open spec fn properties_code(ps: Seq<ObjectProperty>, n: int, base: int) -> Option<Seq<Instruction>>
    decreases ps, n,
{
    if n <= 0 || n > ps.len() {
        Some(seq![])
    } else {
        match properties_code(ps, n - 1, base) {
            Some(a) => match expr_code(ps[n - 1].value, base + a.len()) {
                Some(b) => Some(a + b),
                None => None,
            },
            None => None,
        }
    }
}

pub proof fn lemma_properties_code_prefix(ps: Seq<ObjectProperty>, k: int, n: int, base: int)
    requires
        0 <= k <= n <= ps.len(),
        properties_code(ps, n, base) is Some,
    ensures
        properties_code(ps, k, base) is Some,
        k < n ==> expr_code(ps[k].value, base + properties_code(ps, k, base).unwrap().len()) is Some,
    decreases n - k,
{
    if k < n {
        lemma_properties_code_prefix(ps, k, n - 1, base);
    }
}

pub proof fn lemma_named(s: String)
    ensures
        named(s@)@ == s@,
{
    assert(exists|t: String| #![trigger t@] t@ == s@) by {
        assert(s@ == s@);
    }
}

/// The declarations of `names`, in order.
pub open spec fn declare_code(names: Seq<Seq<char>>, mutable: bool) -> Seq<Instruction> {
    Seq::new(names.len(), |j: int| Instruction::DeclareName { name: named(names[j]), mutable })
}

/// The code `new` is `old` followed by code that is `c`, instruction by
/// instruction.
pub open spec fn emits(old: Seq<Instruction>, new: Seq<Instruction>, c: Seq<Instruction>) -> bool {
    &&& new.len() == old.len() + c.len()
    &&& emits_each(old, new, c)
}

/// `new` keeps `old` and holds `c` after it, instruction by instruction.
#[verifier::opaque]
pub open spec fn emits_each(old: Seq<Instruction>, new: Seq<Instruction>, c: Seq<Instruction>) -> bool {
    &&& forall|i: int| 0 <= i < old.len() ==> #[trigger] new[i] == old[i]
    &&& forall|i: int| 0 <= i < c.len() ==> instr_is(new[old.len() + i], #[trigger] c[i])
}

pub proof fn lemma_emits_same(x: Seq<Instruction>, y: Seq<Instruction>, c: Seq<Instruction>)
    requires
        y == x + c,
    ensures
        emits(x, y, c),
{
    reveal(emits_each);
    assert forall|i: int| 0 <= i < c.len() implies instr_is(y[x.len() + i], #[trigger] c[i]) by {
        assert(y[x.len() + i] == c[i]);
    }
}

pub proof fn lemma_emits_refl(x: Seq<Instruction>)
    ensures
        emits(x, x, seq![]),
{
    reveal(emits_each);
}

/// Nothing emitted leaves the code as it was.
pub proof fn lemma_emits_nothing(x: Seq<Instruction>, y: Seq<Instruction>)
    requires
        emits(x, y, seq![]),
    ensures
        y == x,
{
    reveal(emits_each);
    assert(y =~= x);
}

pub proof fn lemma_emits_push(x: Seq<Instruction>, y: Seq<Instruction>, i: Instruction)
    requires
        y == x.push(i),
        instr_is(i, i),
    ensures
        emits(x, y, seq![i]),
{
    reveal(emits_each);
    assert(y[x.len() as int] == i);
}

pub proof fn lemma_emits_trans(
    x0: Seq<Instruction>,
    x1: Seq<Instruction>,
    x2: Seq<Instruction>,
    a: Seq<Instruction>,
    b: Seq<Instruction>,
)
    requires
        emits(x0, x1, a),
        emits(x1, x2, b),
    ensures
        emits(x0, x2, a + b),
{
    reveal(emits_each);
    assert forall|i: int| 0 <= i < x0.len() implies #[trigger] x2[i] == x0[i] by {
        assert(x2[i] == x1[i]);
    }
    assert forall|i: int| 0 <= i < (a + b).len() implies instr_is(x2[x0.len() + i], #[trigger] (a + b)[i]) by {
        if i < a.len() {
            assert(x2[x0.len() + i] == x1[x0.len() + i]);
            assert(instr_is(x1[x0.len() + i], a[i]));
        } else {
            let j = i - a.len();
            assert(x0.len() + i == x1.len() + j);
            assert(instr_is(x2[x1.len() + j], b[j]));
        }
    }
}

pub proof fn lemma_emits_then_as(
    x0: Seq<Instruction>,
    x1: Seq<Instruction>,
    x2: Seq<Instruction>,
    a: Seq<Instruction>,
    i: Instruction,
    e: Instruction,
)
    requires
        emits(x0, x1, a),
        x2 == x1.push(i),
        instr_is(i, e),
    ensures
        emits(x0, x2, a.push(e)),
{
    reveal(emits_each);
    assert forall|k: int| 0 <= k < x0.len() implies #[trigger] x2[k] == x0[k] by {
        assert(x2[k] == x1[k]);
    }
    assert forall|k: int| 0 <= k < a.push(e).len() implies instr_is(x2[x0.len() + k], #[trigger] a.push(e)[k]) by {
        if k < a.len() {
            assert(x2[x0.len() + k] == x1[x0.len() + k]);
            assert(instr_is(x1[x0.len() + k], a[k]));
        } else {
            assert(x2[x0.len() + k] == i);
        }
    }
}

pub proof fn lemma_emits_then(
    x0: Seq<Instruction>,
    x1: Seq<Instruction>,
    x2: Seq<Instruction>,
    a: Seq<Instruction>,
    i: Instruction,
)
    requires
        emits(x0, x1, a),
        x2 == x1.push(i),
        instr_is(i, i),
    ensures
        emits(x0, x2, a.push(i)),
{
    lemma_emits_push(x1, x2, i);
    lemma_emits_trans(x0, x1, x2, a, seq![i]);
    assert(a + seq![i] =~= a.push(i));
}

pub proof fn lemma_emits_at(x0: Seq<Instruction>, x1: Seq<Instruction>, c: Seq<Instruction>, k: int)
    requires
        emits(x0, x1, c),
        0 <= k < c.len(),
    ensures
        instr_is(x1[x0.len() + k], c[k]),
{
    reveal(emits_each);
}

pub proof fn lemma_emits_patch(x0: Seq<Instruction>, x1: Seq<Instruction>, c: Seq<Instruction>, k: int, j: Instruction)
    requires
        emits(x0, x1, c),
        0 <= k < c.len(),
        instr_is(j, j),
    ensures
        emits(x0, x1.update(x0.len() + k, j), c.update(k, j)),
{
    reveal(emits_each);
    let y = x1.update(x0.len() + k, j);
    assert forall|i: int| 0 <= i < x0.len() implies #[trigger] y[i] == x0[i] by {
        assert(y[i] == x1[i]);
    }
    assert forall|i: int| 0 <= i < c.len() implies instr_is(y[x0.len() + i], #[trigger] c.update(k, j)[i]) by {
        if i != k {
            assert(y[x0.len() + i] == x1[x0.len() + i]);
            assert(instr_is(x1[x0.len() + i], c[i]));
        }
    }
}

/// The string a static property key names.
pub open spec fn key_name(k: PropertyName) -> String {
    match k {
        PropertyName::Identifier(n) => n,
        PropertyName::String(n) => n,
        PropertyName::Number { key, .. } => key,
    }
}

/// The code that reads the property `p` of the object on the stack, when
/// it starts at `base`.
pub open spec fn member_key_code(p: MemberProperty, base: int, optional: bool) -> Option<Seq<Instruction>>
    decreases p, 0int,
{
    match p {
        MemberProperty::Static(k) => Some(seq![Instruction::GetPropStatic { name: key_name(k), optional }]),
        MemberProperty::Computed(e) => match expr_code(*e, base) {
            Some(c) => Some(c.push(Instruction::GetPropComputed { optional })),
            None => None,
        },
    }
}

/// The code that compiling `e` appends when it starts at `base`, for
/// literals, names, `this`, regular expressions, object and array literals,
/// unary, binary, logical, conditional and sequence expressions, member
/// reads, calls, `new`, `await`, plain or arithmetic assignments to a name
/// or a static member and plain assignments to a computed member built from
/// them, and template literals (`template_parts`, or the empty string when
/// nothing was pushed); `None` for any other expression (function
/// expressions, nullish assignments and arithmetic assignments to a
/// computed member).
///
/// A call whose callee is a member keeps the object under the method
/// (`Dup`) and is made `with_this`; any other callee is called plainly.
///
/// `a && b` and `a || b` are `a`, a jump past `b` that keeps `a`'s value
/// when it decides, a `Pop` of that value, and `b`; `a ?? b` jumps to `b`
/// when `a` is nullish and past it otherwise; `t ? c : a` is laid out as
/// an `if` statement with values for branches.
pub open spec fn expr_code(e: Expr, base: int) -> Option<Seq<Instruction>>
    decreases e, 1int,
{
    match e {
        Expr::Undefined { .. } => Some(seq![Instruction::PushUndefined]),
        Expr::Null { .. } => Some(seq![Instruction::PushNull]),
        Expr::Bool { value, .. } => Some(seq![Instruction::PushBool(value)]),
        Expr::Number { value_bits, .. } => Some(seq![Instruction::PushNumber(value_bits)]),
        Expr::String { value, .. } => Some(seq![Instruction::PushString(value)]),
        Expr::Identifier { name, .. } => Some(seq![Instruction::LoadName(name)]),
        Expr::Object { properties, .. } => match properties_code(properties@, properties@.len() as int, base) {
            Some(c) => Some(c.push(Instruction::MakeObject { keys: vec_of(property_keys(properties@)) })),
            None => None,
        },
        Expr::This { .. } => Some(seq![Instruction::LoadName(named("this"@))]),
        Expr::Template { quasis, expressions, .. } => match template_parts(
            quasis@,
            expressions@,
            quasis@.len() as int,
            base,
        ) {
            Some((a, produced)) => Some(
                if produced {
                    a
                } else {
                    a.push(Instruction::PushString(named(Seq::empty())))
                },
            ),
            None => None,
        },
        Expr::RegExp { pattern, flags, .. } => Some(seq![Instruction::PushRegExp { pattern, flags }]),
        Expr::Await { value, .. } => match expr_code(*value, base) {
            Some(c) => Some(c.push(Instruction::Await)),
            None => None,
        },
        Expr::Member { object, property, optional, .. } => match expr_code(*object, base) {
            Some(o) => match member_key_code(property, base + o.len(), optional) {
                Some(k) => Some(o + k),
                None => None,
            },
            None => None,
        },
        Expr::New { callee, arguments, .. } => match expr_code(*callee, base) {
            Some(c) => match exprs_code(arguments@, arguments@.len() as int, base + c.len()) {
                Some(a) => Some((c + a).push(Instruction::Construct { argc: arguments@.len() as usize })),
                None => None,
            },
            None => None,
        },
        Expr::Call { callee, arguments, optional, .. } => {
            let head = match *callee {
                Expr::Member { object, property, optional: member_optional, .. } => match expr_code(*object, base) {
                    Some(o) => match member_key_code(property, base + o.len() + 1, member_optional) {
                        Some(k) => Some(o.push(Instruction::Dup) + k),
                        None => None,
                    },
                    None => None,
                },
                _ => expr_code(*callee, base),
            };
            match head {
                Some(h) => match exprs_code(arguments@, arguments@.len() as int, base + h.len()) {
                    Some(a) => Some(
                        (h + a).push(
                            Instruction::Call {
                                argc: arguments@.len() as usize,
                                with_this: match *callee {
                                    Expr::Member { .. } => true,
                                    _ => false,
                                },
                                optional,
                            },
                        ),
                    ),
                    None => None,
                },
                None => None,
            }
        },
        Expr::Array { elements, .. } => match exprs_code(elements@, elements@.len() as int, base) {
            Some(c) => Some(c.push(Instruction::MakeArray { count: elements@.len() as usize })),
            None => None,
        },
        Expr::Sequence { expressions, .. } => if expressions@.len() == 0 {
            Some(seq![Instruction::PushUndefined])
        } else {
            sequence_code(expressions@, expressions@.len() as int, base)
        },
        Expr::Unary { operator, argument, .. } => match expr_code(*argument, base) {
            Some(c) => Some(c.push(Instruction::Unary(operator))),
            None => None,
        },
        Expr::Binary { operator, left, right, .. } => match expr_code(*left, base) {
            Some(a) => match expr_code(*right, base + a.len()) {
                Some(b) => Some((a + b).push(Instruction::Binary(operator))),
                None => None,
            },
            None => None,
        },
        Expr::Logical { operator, left, right, .. } => match expr_code(*left, base) {
            Some(a) => match operator {
                LogicalOp::NullishCoalesce => match expr_code(*right, base + a.len() + 3) {
                    Some(b) => Some(
                        a + seq![
                            Instruction::JumpIfNullish((base + a.len() + 2) as usize),
                            Instruction::Jump((base + a.len() + 3 + b.len()) as usize),
                            Instruction::Pop,
                        ] + b,
                    ),
                    None => None,
                },
                _ => match expr_code(*right, base + a.len() + 2) {
                    Some(b) => {
                        let end = (base + a.len() + 2 + b.len()) as usize;
                        let jump = if operator == LogicalOp::And {
                            Instruction::JumpIfFalse(end)
                        } else {
                            Instruction::JumpIfTrue(end)
                        };
                        Some(a + seq![jump, Instruction::Pop] + b)
                    },
                    None => None,
                },
            },
            None => None,
        },
        Expr::Conditional { test, consequent, alternate, .. } => match expr_code(*test, base) {
            Some(t) => match expr_code(*consequent, base + t.len() + 2) {
                Some(c) => {
                    let else_start = base + t.len() + 2 + c.len() + 1;
                    match expr_code(*alternate, else_start + 1) {
                        Some(a) => Some(
                            t + seq![Instruction::JumpIfFalse(else_start as usize), Instruction::Pop]
                                + c + seq![
                                Instruction::Jump((else_start + 1 + a.len()) as usize),
                                Instruction::Pop,
                            ] + a,
                        ),
                        None => None,
                    }
                },
                None => None,
            },
            None => None,
        },
        Expr::Assignment { target, operator, value, .. } => match target {
            AssignTarget::Identifier { name, .. } => if operator == AssignOp::Assign {
                match expr_code(*value, base) {
                    Some(c) => Some(c.push(Instruction::StoreName(name))),
                    None => None,
                }
            } else {
                match compound_binary(operator) {
                    Some(op) => match expr_code(*value, base + 1) {
                        Some(c) => Some(
                            seq![Instruction::LoadName(name)] + c + seq![
                                Instruction::Binary(op),
                                Instruction::StoreName(name),
                            ],
                        ),
                        None => None,
                    },
                    None => None,
                }
            },
            AssignTarget::Member { object, property, optional, .. } => match expr_code(*object, base) {
                Some(o) => match property {
                    MemberProperty::Static(k) => if operator == AssignOp::Assign {
                        match expr_code(*value, base + o.len()) {
                            Some(v) => Some((o + v).push(Instruction::SetPropStatic { name: key_name(k) })),
                            None => None,
                        }
                    } else {
                        match compound_binary(operator) {
                            Some(op) => match expr_code(*value, base + o.len() + 2) {
                                Some(v) => Some(
                                    o + seq![
                                        Instruction::Dup,
                                        Instruction::GetPropStatic { name: key_name(k), optional },
                                    ] + v + seq![
                                        Instruction::Binary(op),
                                        Instruction::SetPropStatic { name: key_name(k) },
                                    ],
                                ),
                                None => None,
                            },
                            None => None,
                        }
                    },
                    MemberProperty::Computed(key) => if operator == AssignOp::Assign {
                        match expr_code(*key, base + o.len()) {
                            Some(kc) => match expr_code(*value, base + o.len() + kc.len()) {
                                Some(v) => Some((o + kc + v).push(Instruction::SetPropComputed)),
                                None => None,
                            },
                            None => None,
                        }
                    } else {
                        None
                    },
                },
                None => None,
            },
        },
        _ => None,
    }
}

/// The code of the first `n` parts of a template literal with the text
/// pieces `qs` and the substitutions `es`, starting at `base`, and whether
/// it pushed a value: each non-empty piece, then the substitution after
/// it, each value added (`+`) to the one before.
pub open spec fn template_parts(qs: Seq<String>, es: Seq<Expr>, n: int, base: int) -> Option<(Seq<Instruction>, bool)>
    decreases es, n,
{
    if n <= 0 || n > qs.len() {
        Some((seq![], false))
    } else {
        match template_parts(qs, es, n - 1, base) {
            Some((a, p)) => {
                let i = n - 1;
                let a1 = if qs[i]@.len() == 0 {
                    a
                } else if p {
                    a.push(Instruction::PushString(qs[i])).push(Instruction::Binary(BinaryOp::Add))
                } else {
                    a.push(Instruction::PushString(qs[i]))
                };
                let p1 = p || qs[i]@.len() > 0;
                if i < es.len() {
                    match expr_code(es[i], base + a1.len()) {
                        Some(c) => Some(
                            (
                                if p1 {
                                    (a1 + c).push(Instruction::Binary(BinaryOp::Add))
                                } else {
                                    a1 + c
                                },
                                true,
                            ),
                        ),
                        None => None,
                    }
                } else {
                    Some((a1, p1))
                }
            },
            None => None,
        }
    }
}

pub proof fn lemma_template_parts_prefix(qs: Seq<String>, es: Seq<Expr>, k: int, n: int, base: int)
    requires
        0 <= k <= n <= qs.len(),
        template_parts(qs, es, n, base) is Some,
    ensures
        template_parts(qs, es, k, base) is Some,
    decreases n - k,
{
    if k < n {
        lemma_template_parts_prefix(qs, es, k, n - 1, base);
    }
}

/// The code of `es[..n]`, one after another, the first starting at `base`.
pub open spec fn exprs_code(es: Seq<Expr>, n: int, base: int) -> Option<Seq<Instruction>>
    decreases es, n,
{
    if n <= 0 || n > es.len() {
        Some(seq![])
    } else {
        match exprs_code(es, n - 1, base) {
            Some(a) => match expr_code(es[n - 1], base + a.len()) {
                Some(b) => Some(a + b),
                None => None,
            },
            None => None,
        }
    }
}

/// The code of the sequence `es[..n]` starting at `base`: each value but
/// the last popped before the next expression runs.
pub open spec fn sequence_code(es: Seq<Expr>, n: int, base: int) -> Option<Seq<Instruction>>
    decreases es, n,
{
    if n <= 0 || n > es.len() {
        Some(seq![])
    } else if n == 1 {
        expr_code(es[0], base)
    } else {
        match sequence_code(es, n - 1, base) {
            Some(a) => match expr_code(es[n - 1], base + a.len() + 1) {
                Some(b) => Some(a.push(Instruction::Pop) + b),
                None => None,
            },
            None => None,
        }
    }
}

/// The code that compiling `s` appends when it starts at `base`, for the
/// empty statement, function declarations (hoisted by the enclosing block,
/// so nothing here), expression statements over `expr_code`, variable
/// declarations, and blocks that declare no function, `if` statements,
/// `while` and `do`/`while` loops and `try` statements without `finally`
/// built from them; `None` for any other statement.
///
/// A block is `PushEnv`, a declaration of each of its `let`/`const` names
/// (`lexical_decls`), its statements and `PopEnv`. A declaration statement
/// is, for each declarator, its initializer's value (or `undefined`) and
/// the pattern initialized from it (`declarators_code`).
///
/// A `for` loop runs in a scope of its own: `PushEnv`, the initializer
/// (declarations with their names declared, or an expression whose value
/// is popped), then at the loop start the test with a jump out when it is
/// false and a `Pop` of its value, the body, the update with its value
/// popped, a jump back to the loop start, the `Pop` of the test's value
/// that the jump out lands on (when there is a test), and `PopEnv`.
///
/// A `try` without `catch` is its body between `PushHandler` and
/// `PopHandler`; with `catch` it is laid out by `try_catch_layout`.
///
/// An `if` statement is its test, a jump to the `else` part when the test
/// is false, a `Pop` of the test's value, the consequent, a jump past the
/// `else` part, and the `else` part: a `Pop` of the test's value and the
/// alternate, if any.
///
/// A `while` loop is its test, a jump out when the test is false, a `Pop`
/// of the test's value, the body, a jump back to the test, and the `Pop`
/// of the test's value that the jump out lands on. A `do`/`while` loop is
/// its body followed by the same test, jumps and `Pop`s.
#[verifier::opaque]
pub open spec fn stmt_code(s: Stmt, base: int) -> Option<Seq<Instruction>>
    decreases s, 1int,
{
    match s {
        Stmt::Empty { .. } => Some(seq![]),
        Stmt::FunctionDecl { .. } => Some(seq![]),
        Stmt::Block { body, .. } => if no_functions(body@) {
            let decls = lexical_decls(block_lexicals(body@, body@.len() as int));
            match stmts_code(body@, body@.len() as int, base + 1 + decls.len()) {
                Some(c) => Some(seq![Instruction::PushEnv] + decls + c + seq![Instruction::PopEnv]),
                None => None,
            }
        } else {
            None
        },
        Stmt::VariableDecl { declarators, .. } => declarators_code(
            declarators@,
            declarators@.len() as int,
            base,
            false,
        ),
        Stmt::For { init, test, update, body, .. } => match for_head(init, test, base) {
            Some(h) => match stmt_code(*body, base + h.len()) {
                Some(b) => for_finish(h, b, update, test is Some, for_start(init, base), base),
                None => None,
            },
            None => None,
        },
        Stmt::Expression { expression, .. } => match expr_code(expression, base) {
            Some(c) => Some(c.push(Instruction::Pop)),
            None => None,
        },
        Stmt::While { test, body, .. } => match expr_code(test, base) {
            Some(t) => match stmt_code(*body, base + t.len() + 2) {
                Some(b) => {
                    let exit = base + t.len() + 2 + b.len() + 1;
                    Some(
                        t + seq![Instruction::JumpIfFalse(exit as usize), Instruction::Pop] + b
                            + seq![Instruction::Jump(base as usize), Instruction::Pop],
                    )
                },
                None => None,
            },
            None => None,
        },
        Stmt::DoWhile { body, test, .. } => match stmt_code(*body, base) {
            Some(b) => match expr_code(test, base + b.len()) {
                Some(t) => {
                    let exit = base + b.len() + t.len() + 3;
                    Some(
                        b + t + seq![
                            Instruction::JumpIfFalse(exit as usize),
                            Instruction::Pop,
                            Instruction::Jump(base as usize),
                            Instruction::Pop,
                        ],
                    )
                },
                None => None,
            },
            None => None,
        },
        Stmt::Try { body, catch, finally, .. } => match finally {
            Some(_) => None,
            None => match stmt_code(*body, base + 1) {
                Some(b) => match catch {
                    None => Some(
                        seq![Instruction::PushHandler { catch: None, finally: None }] + b + seq![
                            Instruction::PopHandler,
                        ],
                    ),
                    Some(clause) => {
                        let catch_start = base + 1 + b.len() + 2;
                        let head = catch_head(clause);
                        match stmt_code(*clause.body, catch_start + 1 + head.len()) {
                            Some(k) => {
                                let end = catch_start + 1 + head.len() + k.len() + 1;
                                Some(try_catch_layout(b, head, k, catch_start as usize, end as usize))
                            },
                            None => None,
                        }
                    },
                },
                None => None,
            },
        },
        Stmt::If { test, consequent, alternate, .. } => match expr_code(test, base) {
            Some(t) => match stmt_code(*consequent, base + t.len() + 2) {
                Some(c) => {
                    let else_start = base + t.len() + 2 + c.len() + 1;
                    let alt = match alternate {
                        Some(x) => stmt_code(*x, else_start + 1),
                        None => Some(seq![]),
                    };
                    match alt {
                        Some(a) => Some(
                            t + seq![Instruction::JumpIfFalse(else_start as usize), Instruction::Pop]
                                + c + seq![
                                Instruction::Jump((else_start + 1 + a.len()) as usize),
                                Instruction::Pop,
                            ] + a,
                        ),
                        None => None,
                    }
                },
                None => None,
            },
            None => None,
        },
        _ => None,
    }
}

/// A `try`/`catch`: a handler whose catch entry is `catch_start`, the
/// protected code `b`, the handler popped and a jump to `end` past the
/// `catch` block, which runs in a scope of its own.
pub open spec fn try_catch_layout(
    b: Seq<Instruction>,
    head: Seq<Instruction>,
    k: Seq<Instruction>,
    catch_start: usize,
    end: usize,
) -> Seq<Instruction> {
    seq![Instruction::PushHandler { catch: Some(catch_start), finally: None }] + b + seq![
        Instruction::PopHandler,
        Instruction::Jump(end),
        Instruction::PushEnv,
    ] + head + k + seq![Instruction::PopEnv]
}

/// The layout of a `try`/`catch` statement starting at `base`, with the
/// jump past the `catch` block going to `jump`.
pub open spec fn try_catch_at(s: Stmt, base: int, jump: usize) -> Seq<Instruction> {
    match s {
        Stmt::Try { body, catch: Some(clause), .. } => {
            let b = stmt_code(*body, base + 1).unwrap();
            let catch_start = base + 1 + b.len() + 2;
            let head = catch_head(clause);
            let k = stmt_code(*clause.body, catch_start + 1 + head.len()).unwrap();
            try_catch_layout(b, head, k, catch_start as usize, jump)
        },
        _ => seq![],
    }
}

/// What `stmt_code` says of a `try` statement, spelled out.
pub proof fn lemma_try_shape(s: Stmt, base: int)
    requires
        s is Try,
        stmt_code(s, base) is Some,
    ensures
        match s {
            Stmt::Try { body, catch, finally, .. } => {
                &&& finally is None
                &&& stmt_code(*body, base + 1) is Some
                &&& match catch {
                    None => stmt_code(s, base) == Some(
                        seq![Instruction::PushHandler { catch: None, finally: None }] + stmt_code(
                            *body,
                            base + 1,
                        ).unwrap() + seq![Instruction::PopHandler],
                    ),
                    Some(clause) => {
                        let b = stmt_code(*body, base + 1).unwrap();
                        let catch_start = base + 1 + b.len() + 2;
                        &&& stmt_code(*clause.body, catch_start + 1 + catch_head(clause).len()) is Some
                        &&& stmt_code(s, base) == Some(
                            try_catch_at(s, base, (base + try_catch_at(s, base, 0).len()) as usize),
                        )
                    },
                }
            },
            _ => true,
        },
{
    reveal(stmt_code);
}

/// The start of a `catch` block inside its scope: the parameter's names
/// declared, `BeginCatch` taking the caught value, and that value bound to
/// the parameter, or dropped when there is none.
pub open spec fn catch_head(clause: CatchClause) -> Seq<Instruction> {
    match clause.parameter {
        Some(p) => declare_code(pattern_names(p), true) + seq![
            Instruction::BeginCatch,
            Instruction::InitializePattern(p),
        ],
        None => seq![Instruction::BeginCatch, Instruction::Pop],
    }
}

/// The code of `ss[..n]`, one after another, the first starting at `base`.
pub open spec fn stmts_code(ss: Seq<Stmt>, n: int, base: int) -> Option<Seq<Instruction>>
    decreases ss, n,
{
    if n <= 0 || n > ss.len() {
        Some(seq![])
    } else {
        match stmts_code(ss, n - 1, base) {
            Some(a) => match stmt_code(ss[n - 1], base + a.len()) {
                Some(b) => Some(a + b),
                None => None,
            },
            None => None,
        }
    }
}

/// The expression of a script's final expression statement, if it ends
/// with one.
pub open spec fn final_value(ss: Seq<Stmt>) -> Option<Expr> {
    if ss.len() > 0 {
        match ss.last() {
            Stmt::Expression { expression, .. } => Some(expression),
            _ => None,
        }
    } else {
        None
    }
}

/// The code of a top-level script that declares no function, made of
/// statements that `stmt_code` covers: a declaration of each of its
/// `let`/`const` names, the statements in turn, the value of a final
/// expression statement left as the result (`undefined` when there is
/// none), then `Return`.
pub open spec fn script_code(ss: Seq<Stmt>) -> Option<Seq<Instruction>> {
    if !no_functions(ss) {
        None
    } else {
        let decls = lexical_decls(block_lexicals(ss, ss.len() as int));
        match final_value(ss) {
            Some(e) => match stmts_code(ss, ss.len() - 1, decls.len() as int) {
                Some(a) => match expr_code(e, (decls.len() + a.len()) as int) {
                    Some(c) => Some(decls + a + c + seq![Instruction::Return]),
                    None => None,
                },
                None => None,
            },
            None => match stmts_code(ss, ss.len() as int, decls.len() as int) {
                Some(a) => Some(decls + a + seq![Instruction::PushUndefined, Instruction::Return]),
                None => None,
            },
        }
    }
}

/// `ss` declares no function.
pub open spec fn no_functions(ss: Seq<Stmt>) -> bool {
    forall|k: int| 0 <= k < ss.len() ==> !(#[trigger] ss[k] is FunctionDecl)
}

/// The `let`/`const` names of `lex[..n]`, each the first time it occurs,
/// with the mutability it has there.
pub open spec fn first_lexicals(lex: Seq<(Seq<char>, bool)>, n: int) -> Seq<(Seq<char>, bool)>
    decreases n,
{
    if n <= 0 || n > lex.len() {
        seq![]
    } else {
        let f = first_lexicals(lex, n - 1);
        if exists|j: int| 0 <= j < f.len() && #[trigger] f[j].0 == lex[n - 1].0 {
            f
        } else {
            f.push(lex[n - 1])
        }
    }
}

/// The declarations a block or script starts with: each of its `let` and
/// `const` names once, in the order they first occur.
pub open spec fn lexical_decls(lex: Seq<(Seq<char>, bool)>) -> Seq<Instruction> {
    decls_of(first_lexicals(lex, lex.len() as int))
}

/// A declaration for each name of `f`.
pub open spec fn decls_of(f: Seq<(Seq<char>, bool)>) -> Seq<Instruction> {
    Seq::new(f.len(), |j: int| Instruction::DeclareName { name: named(f[j].0), mutable: f[j].1 })
}

/// The code of `ds[..n]`: for each declarator, when `declare` holds a
/// mutable declaration of each name its pattern binds, then its initializer
/// or `undefined`, then the pattern bound to it.
pub open spec fn declarators_code(ds: Seq<Declarator>, n: int, base: int, declare: bool) -> Option<Seq<Instruction>>
    decreases ds, n,
{
    if n <= 0 || n > ds.len() {
        Some(seq![])
    } else {
        match declarators_code(ds, n - 1, base, declare) {
            Some(a) => {
                let d = if declare {
                    declare_code(pattern_names(ds[n - 1].pattern), true)
                } else {
                    seq![]
                };
                let init = match ds[n - 1].initializer {
                    Some(x) => expr_code(x, base + a.len() + d.len()),
                    None => Some(seq![Instruction::PushUndefined]),
                };
                match init {
                    Some(c) => Some(a + d + c + seq![Instruction::InitializePattern(ds[n - 1].pattern)]),
                    None => None,
                }
            },
            None => None,
        }
    }
}

/// The code of a `for` loop's initializer starting at `base`: its
/// declarations, with their names declared, or its expression's value
/// popped.
pub open spec fn for_init_code(init: Option<ForInit>, base: int) -> Option<Seq<Instruction>> {
    match init {
        None => Some(seq![]),
        Some(ForInit::Expression(e)) => match expr_code(e, base) {
            Some(c) => Some(c.push(Instruction::Pop)),
            None => None,
        },
        Some(ForInit::VariableDecl { declarators, .. }) => declarators_code(
            declarators@,
            declarators@.len() as int,
            base,
            true,
        ),
    }
}

/// The code of an optional expression whose value is popped.
pub open spec fn popped_code(e: Option<Expr>, base: int) -> Option<Seq<Instruction>> {
    match e {
        None => Some(seq![]),
        Some(x) => match expr_code(x, base) {
            Some(c) => Some(c.push(Instruction::Pop)),
            None => None,
        },
    }
}

/// The code of a `for` loop up to its body, starting at `base`: `PushEnv`,
/// the initializer, and, when there is a test, the test with a jump out
/// whose target is not known yet and a `Pop` of the test's value.
#[verifier::opaque]
pub open spec fn for_head(init: Option<ForInit>, test: Option<Expr>, base: int) -> Option<Seq<Instruction>> {
    match for_init_code(init, base + 1) {
        Some(i) => match test {
            None => Some(seq![Instruction::PushEnv] + i),
            Some(x) => match expr_code(x, base + 1 + i.len()) {
                Some(t) => Some(
                    seq![Instruction::PushEnv] + i + t + seq![
                        Instruction::JumpIfFalse(usize::MAX),
                        Instruction::Pop,
                    ],
                ),
                None => None,
            },
        },
        None => None,
    }
}

/// Where a `for` loop starting at `base` tests its condition: just after
/// its initializer.
pub open spec fn for_start(init: Option<ForInit>, base: int) -> int {
    base + 1 + for_init_code(init, base + 1).unwrap().len()
}

/// The whole `for` loop from its head `h` and body `b`: then the update
/// with its value popped, a jump back to `start`, the `Pop` that the jump
/// out lands on (when there is a test), and `PopEnv`; the jump out of the
/// head now goes to that `Pop`.
#[verifier::opaque]
pub open spec fn for_finish(
    h: Seq<Instruction>,
    b: Seq<Instruction>,
    update: Option<Expr>,
    has_test: bool,
    start: int,
    base: int,
) -> Option<Seq<Instruction>> {
    match popped_code(update, base + h.len() + b.len()) {
        Some(u) => {
            let exit = base + h.len() + b.len() + u.len() + 1;
            let tail = if has_test {
                seq![Instruction::Jump(start as usize), Instruction::Pop]
            } else {
                seq![Instruction::Jump(start as usize)]
            };
            let code = h + b + u + tail + seq![Instruction::PopEnv];
            Some(
                if has_test {
                    code.update(h.len() - 2, Instruction::JumpIfFalse(exit as usize))
                } else {
                    code
                },
            )
        },
        None => None,
    }
}

/// A `for` loop with a test runs in a scope of its own, tests before each
/// round and leaves exactly when its test is false: the test's code starts
/// just after the initializer, a `JumpIfFalse` right after it goes to the
/// loop's last `Pop`, and the round ends with a jump back to the test.
pub proof fn law_for_loop_leaves_when_its_test_is_false(s: Stmt, base: int)
    requires
        s matches Stmt::For { test: Some(_), .. },
        stmt_code(s, base) is Some,
    ensures
        match s {
            Stmt::For { init, test: Some(t), .. } => {
                let c = stmt_code(s, base).unwrap();
                let start = for_start(init, base);
                let tc = expr_code(t, start).unwrap();
                &&& expr_code(t, start) is Some
                &&& c[0] == Instruction::PushEnv
                &&& c.subrange(start - base, start - base + tc.len()) == tc
                &&& c[start - base + tc.len()] == Instruction::JumpIfFalse((base + c.len() - 2) as usize)
                &&& c[start - base + tc.len() + 1] == Instruction::Pop
                &&& c[c.len() - 3] == Instruction::Jump(start as usize)
                &&& c[c.len() - 2] == Instruction::Pop
                &&& c[c.len() - 1] == Instruction::PopEnv
            },
            _ => true,
        },
{
    lemma_for_parts(s, base);
    reveal(for_finish);
    match s {
        Stmt::For { init, test: Some(t), update, body, .. } => {
            let h = for_head(init, Some(t), base).unwrap();
            let i = for_init_code(init, base + 1).unwrap();
            let tc = expr_code(t, for_start(init, base)).unwrap();
            let b = stmt_code(*body, base + h.len()).unwrap();
            let u = popped_code(update, base + h.len() + b.len()).unwrap();
            let c = stmt_code(s, base).unwrap();
            assert(h.len() == 1 + i.len() + tc.len() + 2);
            assert(c.len() == h.len() + b.len() + u.len() + 3);
            assert(c.subrange(1 + i.len() as int, (1 + i.len() + tc.len()) as int) =~= tc);
        },
        _ => {},
    }
}

/// A `while` loop tests first and leaves exactly when its test is false:
/// its code starts with the test, then a `JumpIfFalse` to its last
/// instruction (a `Pop` of the test's value), and ends each round with a
/// jump back to the test.
pub proof fn law_while_loop_leaves_when_its_test_is_false(s: Stmt, base: int)
    requires
        s is While,
        stmt_code(s, base) is Some,
    ensures
        match s {
            Stmt::While { test, .. } => {
                let c = stmt_code(s, base).unwrap();
                let tc = expr_code(test, base).unwrap();
                &&& expr_code(test, base) is Some
                &&& c.subrange(0, tc.len() as int) == tc
                &&& c[tc.len() as int] == Instruction::JumpIfFalse((base + c.len() - 1) as usize)
                &&& c[tc.len() + 1int] == Instruction::Pop
                &&& c[c.len() - 2] == Instruction::Jump(base as usize)
                &&& c[c.len() - 1] == Instruction::Pop
            },
            _ => true,
        },
{
    reveal(stmt_code);
    match s {
        Stmt::While { test, body, .. } => {
            let tc = expr_code(test, base).unwrap();
            let c = stmt_code(s, base).unwrap();
            assert(c.subrange(0, tc.len() as int) =~= tc);
        },
        _ => {},
    }
}

/// A `do`/`while` loop runs its body first and goes round again exactly
/// when its test is true: after the test comes a `JumpIfFalse` to its last
/// instruction, and a jump back to the body's start before that.
pub proof fn law_do_while_loop_repeats_while_its_test_is_true(s: Stmt, base: int)
    requires
        s is DoWhile,
        stmt_code(s, base) is Some,
    ensures
        ({
            let c = stmt_code(s, base).unwrap();
            &&& c[c.len() - 4] == Instruction::JumpIfFalse((base + c.len() - 1) as usize)
            &&& c[c.len() - 3] == Instruction::Pop
            &&& c[c.len() - 2] == Instruction::Jump(base as usize)
            &&& c[c.len() - 1] == Instruction::Pop
        }),
{
    reveal(stmt_code);
}

/// An `if` statement runs its consequent exactly when its test is true:
/// right after the test comes a `JumpIfFalse` to the `Pop` that starts the
/// `else` part, which the consequent's end jumps over to the statement's
/// end.
pub proof fn law_if_takes_the_else_part_when_its_test_is_false(s: Stmt, base: int)
    requires
        s is If,
        stmt_code(s, base) is Some,
    ensures
        match s {
            Stmt::If { test, .. } => {
                let c = stmt_code(s, base).unwrap();
                let tc = expr_code(test, base).unwrap();
                &&& expr_code(test, base) is Some
                &&& c.subrange(0, tc.len() as int) == tc
                &&& exists|e: int|
                    #![trigger c[e]]
                    tc.len() + 2 < e < c.len() && c[tc.len() as int] == Instruction::JumpIfFalse(
                        (base + e) as usize,
                    ) && c[e] == Instruction::Pop && c[e - 1] == Instruction::Jump((base + c.len()) as usize)
                &&& c[tc.len() + 1int] == Instruction::Pop
            },
            _ => true,
        },
{
    reveal(stmt_code);
    match s {
        Stmt::If { test, consequent, alternate, .. } => {
            let tc = expr_code(test, base).unwrap();
            let c = stmt_code(s, base).unwrap();
            assert(c.subrange(0, tc.len() as int) =~= tc);
            let cc = stmt_code(*consequent, base + tc.len() + 2).unwrap();
            let e: int = (tc.len() + 2 + cc.len() + 1) as int;
            assert(c[e] == Instruction::Pop);
        },
        _ => {},
    }
}

/// `a && b` keeps `a`'s value when it is falsy, `a || b` when it is truthy,
/// and `a ?? b` when it is neither null nor undefined: right after `a`'s
/// code comes the jump that decides, and `b` runs only past it.
pub proof fn law_logical_operators_short_circuit(e: Expr, base: int)
    requires
        e is Logical,
        expr_code(e, base) is Some,
    ensures
        match e {
            Expr::Logical { operator, left, .. } => {
                let c = expr_code(e, base).unwrap();
                let a = expr_code(*left, base).unwrap();
                &&& expr_code(*left, base) is Some
                &&& c.subrange(0, a.len() as int) == a
                &&& operator == LogicalOp::And ==> c[a.len() as int] == Instruction::JumpIfFalse(
                    (base + c.len()) as usize,
                ) && c[a.len() + 1int] == Instruction::Pop
                &&& operator == LogicalOp::Or ==> c[a.len() as int] == Instruction::JumpIfTrue(
                    (base + c.len()) as usize,
                ) && c[a.len() + 1int] == Instruction::Pop
                &&& operator == LogicalOp::NullishCoalesce ==> c[a.len() as int] == Instruction::JumpIfNullish(
                    (base + a.len() + 2) as usize,
                ) && c[a.len() + 1int] == Instruction::Jump((base + c.len()) as usize) && c[a.len() + 2int]
                    == Instruction::Pop
            },
            _ => true,
        },
{
    match e {
        Expr::Logical { left, .. } => {
            let c = expr_code(e, base).unwrap();
            let a = expr_code(*left, base).unwrap();
            assert(c.subrange(0, a.len() as int) =~= a);
        },
        _ => {},
    }
}

/// A unary or binary expression computes its operands first and ends with
/// the instruction of its own operator.
pub proof fn law_operators_compile_to_their_own_instruction(e: Expr, base: int)
    requires
        e is Unary || e is Binary,
        expr_code(e, base) is Some,
    ensures
        match e {
            Expr::Unary { operator, .. } => expr_code(e, base).unwrap().last() == Instruction::Unary(operator),
            Expr::Binary { operator, .. } => expr_code(e, base).unwrap().last() == Instruction::Binary(operator),
            _ => true,
        },
{
}

/// A `for` loop that has code is its head, its body and the rest, each
/// with code.
pub proof fn lemma_for_parts(s: Stmt, base: int)
    requires
        s is For,
        stmt_code(s, base) is Some,
    ensures
        match s {
            Stmt::For { init, test, update, body, .. } => {
                &&& for_init_code(init, base + 1) is Some
                &&& for_head(init, test, base) is Some
                &&& for_head(init, test, base).unwrap() == match test {
                    None => seq![Instruction::PushEnv] + for_init_code(init, base + 1).unwrap(),
                    Some(x) => seq![Instruction::PushEnv] + for_init_code(init, base + 1).unwrap()
                        + expr_code(x, for_start(init, base)).unwrap() + seq![
                        Instruction::JumpIfFalse(usize::MAX),
                        Instruction::Pop,
                    ],
                }
                &&& (test matches Some(x) ==> expr_code(x, for_start(init, base)) is Some)
                &&& stmt_code(*body, base + for_head(init, test, base).unwrap().len()) is Some
                &&& stmt_code(s, base) == for_finish(
                    for_head(init, test, base).unwrap(),
                    stmt_code(*body, base + for_head(init, test, base).unwrap().len()).unwrap(),
                    update,
                    test is Some,
                    for_start(init, base),
                    base,
                )
                &&& popped_code(
                    update,
                    base + for_head(init, test, base).unwrap().len() + stmt_code(
                        *body,
                        base + for_head(init, test, base).unwrap().len(),
                    ).unwrap().len(),
                ) is Some
            },
            _ => false,
        },
{
    reveal(stmt_code);
    reveal(for_head);
    reveal(for_finish);
}


pub proof fn lemma_stmts_code_step(ss: Seq<Stmt>, i: int, base: int)
    requires
        0 <= i < ss.len(),
        stmts_code(ss, i + 1, base) is Some,
    ensures
        stmts_code(ss, i, base) is Some,
        stmt_code(ss[i], base + stmts_code(ss, i, base).unwrap().len()) is Some,
        stmts_code(ss, i + 1, base).unwrap() == stmts_code(ss, i, base).unwrap() + stmt_code(
            ss[i],
            base + stmts_code(ss, i, base).unwrap().len(),
        ).unwrap(),
{
    reveal(stmt_code);
}

/// The code of the empty statement and of an expression statement.
pub proof fn lemma_simple_stmt_code(s: Stmt, base: int)
    ensures
        s is Empty || s is FunctionDecl ==> stmt_code(s, base) == Some(Seq::<Instruction>::empty()),
        s matches Stmt::Expression { expression, .. } ==> stmt_code(s, base) == match expr_code(expression, base) {
            Some(c) => Some(c.push(Instruction::Pop)),
            None => None,
        },
        !(s is Empty || s is FunctionDecl || s is Expression || s is Block || s is If || s is While
            || s is DoWhile || s is Try || s is VariableDecl || s is For) ==> stmt_code(s, base) is None,
        s matches Stmt::VariableDecl { declarators, .. } ==> stmt_code(s, base) == declarators_code(
            declarators@,
            declarators@.len() as int,
            base,
            false,
        ),
        s matches Stmt::Block { body, .. } ==> stmt_code(s, base) == if no_functions(body@) {
            let decls = lexical_decls(block_lexicals(body@, body@.len() as int));
            match stmts_code(body@, body@.len() as int, base + 1 + decls.len()) {
                Some(c) => Some(seq![Instruction::PushEnv] + decls + c + seq![Instruction::PopEnv]),
                None => None,
            }
        } else {
            None
        },
{
    reveal(stmt_code);
}

pub proof fn lemma_stmts_code_prefix(ss: Seq<Stmt>, k: int, n: int, base: int)
    requires
        0 <= k <= n <= ss.len(),
        stmts_code(ss, n, base) is Some,
    ensures
        stmts_code(ss, k, base) is Some,
        k < n ==> stmt_code(ss[k], base + stmts_code(ss, k, base).unwrap().len()) is Some,
    decreases n,
{
    reveal(stmt_code);
    if n > 0 {
        if k < n {
            lemma_stmts_code_prefix(ss, k, n - 1, base);
        } else {
            lemma_stmts_code_prefix(ss, k - 1, n - 1, base);
        }
        assert(stmt_code(ss[n - 1], base + stmts_code(ss, n - 1, base).unwrap().len()) is Some);
    }
}

pub proof fn lemma_declarators_code_prefix(ds: Seq<Declarator>, k: int, n: int, base: int, declare: bool)
    requires
        0 <= k <= n <= ds.len(),
        declarators_code(ds, n, base, declare) is Some,
    ensures
        declarators_code(ds, k, base, declare) is Some,
    decreases n - k,
{
    if k < n {
        lemma_declarators_code_prefix(ds, k, n - 1, base, declare);
    }
}

pub proof fn lemma_exprs_code_prefix(es: Seq<Expr>, k: int, n: int, base: int)
    requires
        0 <= k <= n <= es.len(),
        exprs_code(es, n, base) is Some,
    ensures
        exprs_code(es, k, base) is Some,
        k < n ==> expr_code(es[k], base + exprs_code(es, k, base).unwrap().len()) is Some,
    decreases n - k,
{
    if k < n {
        lemma_exprs_code_prefix(es, k, n - 1, base);
    }
}

pub proof fn lemma_sequence_code_prefix(es: Seq<Expr>, k: int, n: int, base: int)
    requires
        0 <= k <= n <= es.len(),
        sequence_code(es, n, base) is Some,
    ensures
        sequence_code(es, k, base) is Some,
        k == 0 < n ==> expr_code(es[0], base) is Some,
        0 < k < n ==> expr_code(es[k], base + sequence_code(es, k, base).unwrap().len() + 1) is Some,
    decreases n - k,
{
    if k < n {
        lemma_sequence_code_prefix(es, k, n - 1, base);
    }
}

} // verus!
