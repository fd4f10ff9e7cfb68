use vstd::prelude::*;

use crate::bytecode::{
    closures_below, code_targets_within, targets_within, BytecodeProgram, FunctionPrototype,
    Instruction,
};
use crate::diagnostic::{decimal, push_decimal, DiagnosticKind, JsliteError, JsliteResult};
use crate::bindings::{assign_op_to_binary, collect_block_bindings, compound_binary, pairs_view, pattern_names, with_flag};
use crate::compile_faults::{
    lemma_case_bodies_fault_settled, lemma_case_tests_fault_settled,
    lemma_declarators_fault_settled, lemma_exprs_fault_settled, lemma_hoisted_fault_settled,
    lemma_properties_fault_settled, lemma_stmts_fault_settled, block_fault, case_bodies_fault, case_tests_fault, declarators_fault, exprs_fault,
    expr_fault, first_of, function_fault, hoisted_fault, member_key_fault, opt_expr_fault,
    outcome_matches, operator_fault, properties_fault, stmt_fault, stmts_fault, CompileFault,
};
use crate::function_order::{
    appended, case_bodies_shapes, case_tests_shapes, declarators_shapes, expr_shapes, exprs_shapes,
    catch_shapes, for_init_shapes, function_shapes, hoisted_shapes, lemma_appended_refl, lemma_appended_three, lemma_appended_trans,
    literal_shape,
    member_key_shapes, opt_expr_shapes, opt_stmt_shapes, properties_shapes, prototype_shape, script_shape,
    stmt_shapes, stmts_shapes, FunctionShape,
};
use crate::compile_faults::{
    cases_switch_continue, declarators_switch_continue, expr_switch_continue, exprs_switch_continue,
    free_continue, function_switch_continue, lemma_cases_switch_continue_grows,
    lemma_cases_switch_continue_step, lemma_declarators_switch_continue_grows,
    lemma_declarators_switch_continue_step,
    lemma_exprs_switch_continue_grows,
    lemma_properties_switch_continue_grows, lemma_stmts_free_continue_grows,
    lemma_stmts_switch_continue_grows, member_key_switch_continue, opt_expr_switch_continue,
    properties_switch_continue, stmt_switch_continue, stmts_free_continue, stmts_switch_continue,
};
use crate::bindings::{block_lexicals, pattern_bindings};
use crate::ir::{
    CatchClause,
    CompiledProgram, AssignOp, AssignTarget, BinaryOp, BindingKind, Expr, ForInit, FunctionExpr, LogicalOp,
    MemberProperty, Pattern, PropertyName, Stmt, SwitchCase,
};
use crate::emitted::{
    emits, lemma_emits_refl, lemma_emits_nothing, lemma_emits_patch, lemma_emits_at, lemma_emits_push, lemma_emits_then, lemma_emits_then_as, lemma_named, declare_code, lemma_emits_same, lemma_emits_trans,
    catch_head, vec_of, lemma_vec_of, property_keys, properties_code, lemma_properties_code_prefix, try_catch_layout, try_catch_at, lemma_try_shape, lemma_stmts_code_step, lemma_simple_stmt_code, no_functions, lexical_decls, decls_of, first_lexicals, declarators_code, expr_code, member_key_code, named, key_name, instr_is, exprs_code, final_value, lemma_exprs_code_prefix, lemma_declarators_code_prefix, template_parts, for_init_code, popped_code, lemma_for_parts, for_head, for_start, for_finish, lemma_template_parts_prefix,
    lemma_sequence_code_prefix, lemma_stmts_code_prefix, script_code, sequence_code, stmt_code, stmts_code,
};
use crate::ir_clone::{
    clone_pattern, clone_pattern_opt, clone_patterns, clone_property_name, clone_string_opt,
};
use crate::span::SourceSpan;
use crate::strings::{chars_of, extend_chars, string_from_chars};

verus! {

// ---------------------------------------------------------------------------
// Compilation state.
// ---------------------------------------------------------------------------

/// A jump emitted for `break` / `continue`, waiting for its target: either a
/// plain `Jump` or a `PushPendingJump` that a `finally` block resumes.
#[derive(Clone, Copy)]
enum ControlTransferPatch {
    DirectJump(usize),
    PendingJump(usize),
}

/// A loop (or `switch`) being compiled.
struct LoopContext {
    break_jumps: Vec<ControlTransferPatch>,
    continue_jumps: Vec<ControlTransferPatch>,
    continue_target: Option<usize>,
    handler_depth: usize,
    scope_depth: usize,
}

/// An exception handler that is live in the code being compiled.
#[derive(Clone, Copy)]
struct ActiveHandlerContext {
    finally_region: Option<usize>,
    scope_depth: usize,
}

/// The sites that must learn where a `finally` block starts.
struct FinallyRegionContext {
    handler_sites: Vec<usize>,
    jump_sites: Vec<usize>,
}

/// A `finally` block being compiled: jumps that leave it early must go
/// through its exit.
struct ActiveFinallyContext {
    exit_patch_site: usize,
    jump_sites: Vec<usize>,
    scope_depth: usize,
}

/// The state of one function body being compiled.
struct CompileContext {
    code: Vec<Instruction>,
    loop_stack: Vec<LoopContext>,
    active_handlers: Vec<ActiveHandlerContext>,
    active_finally: Vec<ActiveFinallyContext>,
    finally_regions: Vec<FinallyRegionContext>,
    scope_depth: usize,
    internal_name_counter: usize,
    /// Every closure made in this code refers to a function below this index.
    closure_bound: Ghost<nat>,
}

/// The functions compiled so far.
struct Compiler {
    functions: Vec<FunctionPrototype>,
}

// ---------------------------------------------------------------------------
// Invariants.
// ---------------------------------------------------------------------------

pub open spec fn is_jump_site(code: Seq<Instruction>, i: int) -> bool {
    0 <= i < code.len() && code[i] is Jump
}

pub open spec fn is_pending_jump_site(code: Seq<Instruction>, i: int) -> bool {
    0 <= i < code.len() && code[i] is PushPendingJump
}

pub open spec fn is_handler_site(code: Seq<Instruction>, i: int) -> bool {
    0 <= i < code.len() && code[i] is PushHandler
}

pub open spec fn is_enter_finally_site(code: Seq<Instruction>, i: int) -> bool {
    0 <= i < code.len() && code[i] is EnterFinally
}

spec fn patch_site(p: ControlTransferPatch) -> int {
    match p {
        ControlTransferPatch::DirectJump(i) => i as int,
        ControlTransferPatch::PendingJump(i) => i as int,
    }
}

/// A recorded patch points at an instruction of the kind it will patch.
spec fn patch_ok(code: Seq<Instruction>, p: ControlTransferPatch) -> bool {
    match p {
        ControlTransferPatch::DirectJump(i) => is_jump_site(code, i as int),
        ControlTransferPatch::PendingJump(i) => is_pending_jump_site(code, i as int),
    }
}

spec fn patches_ok(code: Seq<Instruction>, ps: Seq<ControlTransferPatch>) -> bool {
    forall|j: int| 0 <= j < ps.len() ==> patch_ok(code, #[trigger] ps[j])
}

spec fn loop_ok(code: Seq<Instruction>, l: LoopContext) -> bool {
    patches_ok(code, l.break_jumps@) && patches_ok(code, l.continue_jumps@)
}

pub open spec fn jump_sites_ok(code: Seq<Instruction>, sites: Seq<usize>) -> bool {
    forall|j: int| 0 <= j < sites.len() ==> is_jump_site(code, #[trigger] sites[j] as int)
}

spec fn region_ok(code: Seq<Instruction>, r: FinallyRegionContext) -> bool {
    &&& forall|j: int|
        0 <= j < r.handler_sites@.len() ==> is_handler_site(code, #[trigger] r.handler_sites@[j] as int)
    &&& jump_sites_ok(code, r.jump_sites@)
}

spec fn active_finally_ok(code: Seq<Instruction>, a: ActiveFinallyContext) -> bool {
    &&& is_enter_finally_site(code, a.exit_patch_site as int)
    &&& jump_sites_ok(code, a.jump_sites@)
}

impl CompileContext {
    /// Every recorded site lies in the code and holds the instruction kind
    /// that will be patched there; every handler's `finally` region exists.
    spec fn wf(self) -> bool {
        &&& self.scope_depth + self.internal_name_counter <= self.code@.len()
        &&& code_closures_below(self.code@, self.closure_bound@ as int)
        &&& forall|k: int|
            0 <= k < self.loop_stack@.len() ==> loop_ok(self.code@, #[trigger] self.loop_stack@[k])
        &&& forall|k: int|
            0 <= k < self.active_handlers@.len() ==> ((#[trigger] self.active_handlers@[k]).finally_region
                matches Some(r) ==> r < self.finally_regions@.len())
        &&& forall|k: int|
            0 <= k < self.finally_regions@.len() ==> region_ok(
                self.code@,
                #[trigger] self.finally_regions@[k],
            )
        &&& forall|k: int|
            0 <= k < self.active_finally@.len() ==> active_finally_ok(
                self.code@,
                #[trigger] self.active_finally@[k],
            )
    }
}

/// `new` only appends to `old`'s lists, each with sites at or past `n`.
spec fn patches_extend(
    old: Seq<ControlTransferPatch>,
    new: Seq<ControlTransferPatch>,
    n: int,
) -> bool {
    &&& old.len() <= new.len()
    &&& new.subrange(0, old.len() as int) == old
    &&& forall|j: int| old.len() <= j < new.len() ==> patch_site(#[trigger] new[j]) >= n
}

spec fn sites_extend(old: Seq<usize>, new: Seq<usize>, n: int) -> bool {
    &&& old.len() <= new.len()
    &&& new.subrange(0, old.len() as int) == old
    &&& forall|j: int| old.len() <= j < new.len() ==> #[trigger] new[j] >= n
}

spec fn loop_extends(old: LoopContext, new: LoopContext, n: int) -> bool {
    &&& new.handler_depth == old.handler_depth
    &&& new.scope_depth == old.scope_depth
    &&& patches_extend(old.break_jumps@, new.break_jumps@, n)
    &&& patches_extend(old.continue_jumps@, new.continue_jumps@, n)
}

spec fn region_extends(old: FinallyRegionContext, new: FinallyRegionContext, n: int) -> bool {
    &&& sites_extend(old.handler_sites@, new.handler_sites@, n)
    &&& sites_extend(old.jump_sites@, new.jump_sites@, n)
}

spec fn finally_extends(old: ActiveFinallyContext, new: ActiveFinallyContext, n: int) -> bool {
    &&& new.exit_patch_site == old.exit_patch_site
    &&& new.scope_depth == old.scope_depth
    &&& sites_extend(old.jump_sites@, new.jump_sites@, n)
}

/// What compiling may do to the context: append code, patch only code it
/// appended, push further loops, regions and `finally` blocks, and append
/// sites at or past the old end of the code to the lists of the existing ones.
spec fn evolves(old: CompileContext, new: CompileContext) -> bool {
    let n = old.code@.len() as int;
    &&& n <= new.code@.len()
    &&& forall|i: int| 0 <= i < n ==> new.code@[i] == old.code@[i]
    &&& kinds_kept(old.code@, new.code@)
    &&& new.loop_stack@.len() >= old.loop_stack@.len()
    &&& forall|k: int|
        0 <= k < old.loop_stack@.len() ==> loop_extends(
            old.loop_stack@[k],
            #[trigger] new.loop_stack@[k],
            n,
        )
    &&& new.finally_regions@.len() >= old.finally_regions@.len()
    &&& forall|k: int|
        0 <= k < old.finally_regions@.len() ==> region_extends(
            old.finally_regions@[k],
            #[trigger] new.finally_regions@[k],
            n,
        )
    &&& new.active_finally@.len() >= old.active_finally@.len()
    &&& forall|k: int|
        0 <= k < old.active_finally@.len() ==> finally_extends(
            old.active_finally@[k],
            #[trigger] new.active_finally@[k],
            n,
        )
}

/// Compiling a statement leaves the context's stacks as deep as it found them.
spec fn balanced(old: CompileContext, new: CompileContext) -> bool {
    &&& new.loop_stack@.len() == old.loop_stack@.len()
    &&& new.finally_regions@.len() == old.finally_regions@.len()
    &&& new.active_finally@.len() == old.active_finally@.len()
    &&& new.active_handlers@ == old.active_handlers@
}

/// Position `i` is recorded on one of the context's lists of jumps that
/// still wait for their target. (A handler waiting for its `finally` target
/// stays with the `try` that emitted it.)
spec fn pending(ctx: CompileContext, i: int) -> bool {
    ||| exists|k: int, j: int|
        0 <= k < ctx.loop_stack@.len() && 0 <= j < ctx.loop_stack@[k].break_jumps@.len()
            && patch_site(#[trigger] ctx.loop_stack@[k].break_jumps@[j]) == i
    ||| exists|k: int, j: int|
        0 <= k < ctx.loop_stack@.len() && 0 <= j < ctx.loop_stack@[k].continue_jumps@.len()
            && patch_site(#[trigger] ctx.loop_stack@[k].continue_jumps@[j]) == i
    ||| exists|k: int, j: int|
        0 <= k < ctx.finally_regions@.len() && 0 <= j < ctx.finally_regions@[k].jump_sites@.len()
            && #[trigger] ctx.finally_regions@[k].jump_sites@[j] == i
    ||| exists|k: int|
        0 <= k < ctx.active_finally@.len() && #[trigger] ctx.active_finally@[k].exit_patch_site == i
    ||| exists|k: int, j: int|
        0 <= k < ctx.active_finally@.len() && 0 <= j < ctx.active_finally@[k].jump_sites@.len()
            && #[trigger] ctx.active_finally@[k].jump_sites@[j] == i
}

/// Each position of `x`'s code from `n` on transfers control inside the
/// code, waits on one of `x`'s lists for its target, or is in `local` (held
/// by the compiling function itself).
spec fn settled(n: int, x: CompileContext, local: Set<int>) -> bool {
    forall|i: int|
        n <= i < x.code@.len() ==> #[trigger] targets_within(x.code@[i], x.code@.len() as int)
            || pending(x, i) || local.contains(i)
}

/// Whatever was settled in `b` is still settled in `c`.
spec fn keeps(b: CompileContext, c: CompileContext) -> bool {
    forall|n: int, s: Set<int>| 0 <= n && #[trigger] settled(n, b, s) ==> settled(n, c, s)
}

/// `c` adds the unresolved site `p`, which its compiling function holds.
spec fn adds(b: CompileContext, c: CompileContext, p: int) -> bool {
    forall|n: int, s: Set<int>| 0 <= n && #[trigger] settled(n, b, s) ==> settled(n, c, s.insert(p))
}

/// `c` resolves the site `p` (patched, or recorded on a list).
spec fn resolves(b: CompileContext, c: CompileContext, p: int) -> bool {
    forall|n: int, s: Set<int>| 0 <= n && #[trigger] settled(n, b, s) ==> settled(n, c, s.remove(p))
}

proof fn lemma_settled_subset(n: int, x: CompileContext, s: Set<int>, t: Set<int>)
    requires
        settled(n, x, s),
        s.subset_of(t),
    ensures
        settled(n, x, t),
{
}

/// The code changed from `b` to `c` with the stacks kept: every position of
/// `c` is unchanged (and kept in `u` when it was in `s`), transfers inside
/// `c`, or is in `u`.
proof fn lemma_settled_update(n: int, b: CompileContext, c: CompileContext, s: Set<int>, u: Set<int>)
    requires
        0 <= n,
        settled(n, b, s),
        c.loop_stack@ == b.loop_stack@,
        c.active_finally@ == b.active_finally@,
        c.finally_regions@ == b.finally_regions@,
        b.code@.len() <= c.code@.len(),
        forall|i: int|
            n <= i < c.code@.len() ==> (i < b.code@.len() && #[trigger] c.code@[i] == b.code@[i] && (
            s.contains(i) ==> u.contains(i))) || targets_within(c.code@[i], c.code@.len() as int)
                || u.contains(i),
    ensures
        settled(n, c, u),
{
    assert forall|i: int| n <= i < c.code@.len() implies #[trigger] targets_within(
        c.code@[i],
        c.code@.len() as int,
    ) || pending(c, i) || u.contains(i) by {
        if i < b.code@.len() && c.code@[i] == b.code@[i] && (s.contains(i) ==> u.contains(i)) {
            if targets_within(b.code@[i], b.code@.len() as int) {
                lemma_targets_within_mono(b.code@[i], b.code@.len() as int, c.code@.len() as int);
            } else if pending(b, i) {
                assert(pending(c, i));
            }
        }
    }
}

broadcast proof fn lemma_keeps_trans(a: CompileContext, b: CompileContext, c: CompileContext)
    requires
        #[trigger] keeps(a, b),
        #[trigger] keeps(b, c),
    ensures
        keeps(a, c),
{
    assert forall|n: int, s: Set<int>| 0 <= n && #[trigger] settled(n, a, s) implies settled(n, c, s) by {
        assert(settled(n, b, s));
    }
}

proof fn lemma_keeps_refl(a: CompileContext)
    ensures
        keeps(a, a),
{
}

/// A list that starts with another.
spec fn patches_prefix(a: Seq<ControlTransferPatch>, b: Seq<ControlTransferPatch>) -> bool {
    a.len() <= b.len() && b.subrange(0, a.len() as int) == a
}

spec fn sites_prefix(a: Seq<usize>, b: Seq<usize>) -> bool {
    a.len() <= b.len() && b.subrange(0, a.len() as int) == a
}

/// The stacks of `c` hold every site the stacks of `b` hold.
spec fn stacks_cover(b: CompileContext, c: CompileContext) -> bool {
    &&& b.loop_stack@.len() <= c.loop_stack@.len()
    &&& forall|k: int|
        0 <= k < b.loop_stack@.len() ==> patches_prefix(
            b.loop_stack@[k].break_jumps@,
            (#[trigger] c.loop_stack@[k]).break_jumps@,
        ) && patches_prefix(b.loop_stack@[k].continue_jumps@, c.loop_stack@[k].continue_jumps@)
    &&& b.finally_regions@.len() <= c.finally_regions@.len()
    &&& forall|k: int|
        0 <= k < b.finally_regions@.len() ==> sites_prefix(
            b.finally_regions@[k].handler_sites@,
            (#[trigger] c.finally_regions@[k]).handler_sites@,
        ) && sites_prefix(b.finally_regions@[k].jump_sites@, c.finally_regions@[k].jump_sites@)
    &&& b.active_finally@.len() <= c.active_finally@.len()
    &&& forall|k: int|
        0 <= k < b.active_finally@.len() ==> (#[trigger] c.active_finally@[k]).exit_patch_site
            == b.active_finally@[k].exit_patch_site && sites_prefix(
            b.active_finally@[k].jump_sites@,
            c.active_finally@[k].jump_sites@,
        )
}

proof fn lemma_pending_cover(b: CompileContext, c: CompileContext, i: int)
    requires
        stacks_cover(b, c),
        pending(b, i),
    ensures
        pending(c, i),
{
    if exists|k: int, j: int|
        0 <= k < b.loop_stack@.len() && 0 <= j < b.loop_stack@[k].break_jumps@.len()
            && patch_site(#[trigger] b.loop_stack@[k].break_jumps@[j]) == i {
        let (k, j) = choose|k: int, j: int|
            0 <= k < b.loop_stack@.len() && 0 <= j < b.loop_stack@[k].break_jumps@.len()
                && patch_site(#[trigger] b.loop_stack@[k].break_jumps@[j]) == i;
        assert(c.loop_stack@[k].break_jumps@[j] == c.loop_stack@[k].break_jumps@.subrange(
            0,
            b.loop_stack@[k].break_jumps@.len() as int,
        )[j]);
    } else if exists|k: int, j: int|
        0 <= k < b.loop_stack@.len() && 0 <= j < b.loop_stack@[k].continue_jumps@.len()
            && patch_site(#[trigger] b.loop_stack@[k].continue_jumps@[j]) == i {
        let (k, j) = choose|k: int, j: int|
            0 <= k < b.loop_stack@.len() && 0 <= j < b.loop_stack@[k].continue_jumps@.len()
                && patch_site(#[trigger] b.loop_stack@[k].continue_jumps@[j]) == i;
        assert(c.loop_stack@[k].continue_jumps@[j] == c.loop_stack@[k].continue_jumps@.subrange(
            0,
            b.loop_stack@[k].continue_jumps@.len() as int,
        )[j]);
    } else if exists|k: int, j: int|
        0 <= k < b.finally_regions@.len() && 0 <= j < b.finally_regions@[k].jump_sites@.len()
            && #[trigger] b.finally_regions@[k].jump_sites@[j] == i {
        let (k, j) = choose|k: int, j: int|
            0 <= k < b.finally_regions@.len() && 0 <= j < b.finally_regions@[k].jump_sites@.len()
                && #[trigger] b.finally_regions@[k].jump_sites@[j] == i;
        assert(c.finally_regions@[k].jump_sites@[j] == c.finally_regions@[k].jump_sites@.subrange(
            0,
            b.finally_regions@[k].jump_sites@.len() as int,
        )[j]);
    } else if exists|k: int|
        0 <= k < b.active_finally@.len() && #[trigger] b.active_finally@[k].exit_patch_site == i {
        let k = choose|k: int|
            0 <= k < b.active_finally@.len() && #[trigger] b.active_finally@[k].exit_patch_site == i;
        assert(c.active_finally@[k].exit_patch_site == i);
    } else {
        let (k, j) = choose|k: int, j: int|
            0 <= k < b.active_finally@.len() && 0 <= j < b.active_finally@[k].jump_sites@.len()
                && #[trigger] b.active_finally@[k].jump_sites@[j] == i;
        assert(c.active_finally@[k].jump_sites@[j] == c.active_finally@[k].jump_sites@.subrange(
            0,
            b.active_finally@[k].jump_sites@.len() as int,
        )[j]);
    }
}

/// Stacks that cover `b`'s, with the same code and `p` now pending, resolve
/// `p`.
proof fn lemma_resolves_by_recording(b: CompileContext, c: CompileContext, p: int)
    requires
        stacks_cover(b, c),
        c.code@ == b.code@,
        pending(c, p),
    ensures
        resolves(b, c, p),
{
    assert forall|n: int, s: Set<int>| 0 <= n && #[trigger] settled(n, b, s) implies settled(
        n,
        c,
        s.remove(p),
    ) by {
        assert forall|i: int| n <= i < c.code@.len() implies #[trigger] targets_within(
            c.code@[i],
            c.code@.len() as int,
        ) || pending(c, i) || s.remove(p).contains(i) by {
            if i != p && pending(b, i) {
                lemma_pending_cover(b, c, i);
            }
        }
    }
}

/// Stacks that cover `b`'s, with the same code, keep what is settled.
proof fn lemma_keeps_by_cover(b: CompileContext, c: CompileContext)
    requires
        stacks_cover(b, c),
        c.code@ == b.code@,
    ensures
        keeps(b, c),
{
    assert forall|n: int, s: Set<int>| 0 <= n && #[trigger] settled(n, b, s) implies settled(n, c, s) by {
        assert forall|i: int| n <= i < c.code@.len() implies #[trigger] targets_within(
            c.code@[i],
            c.code@.len() as int,
        ) || pending(c, i) || s.contains(i) by {
            if pending(b, i) {
                lemma_pending_cover(b, c, i);
            }
        }
    }
}

proof fn lemma_stacks_cover_refl(b: CompileContext)
    ensures
        stacks_cover(b, b),
{
    assert forall|k: int| 0 <= k < b.loop_stack@.len() implies patches_prefix(
        b.loop_stack@[k].break_jumps@,
        (#[trigger] b.loop_stack@[k]).break_jumps@,
    ) && patches_prefix(b.loop_stack@[k].continue_jumps@, b.loop_stack@[k].continue_jumps@) by {
        assert(b.loop_stack@[k].break_jumps@.subrange(0, b.loop_stack@[k].break_jumps@.len() as int)
            =~= b.loop_stack@[k].break_jumps@);
        assert(b.loop_stack@[k].continue_jumps@.subrange(
            0,
            b.loop_stack@[k].continue_jumps@.len() as int,
        ) =~= b.loop_stack@[k].continue_jumps@);
    }
    assert forall|k: int| 0 <= k < b.finally_regions@.len() implies sites_prefix(
        b.finally_regions@[k].handler_sites@,
        (#[trigger] b.finally_regions@[k]).handler_sites@,
    ) && sites_prefix(b.finally_regions@[k].jump_sites@, b.finally_regions@[k].jump_sites@) by {
        assert(b.finally_regions@[k].handler_sites@.subrange(
            0,
            b.finally_regions@[k].handler_sites@.len() as int,
        ) =~= b.finally_regions@[k].handler_sites@);
        assert(b.finally_regions@[k].jump_sites@.subrange(
            0,
            b.finally_regions@[k].jump_sites@.len() as int,
        ) =~= b.finally_regions@[k].jump_sites@);
    }
    assert forall|k: int| 0 <= k < b.active_finally@.len() implies (
    #[trigger] b.active_finally@[k]).exit_patch_site == b.active_finally@[k].exit_patch_site
        && sites_prefix(b.active_finally@[k].jump_sites@, b.active_finally@[k].jump_sites@) by {
        assert(b.active_finally@[k].jump_sites@.subrange(
            0,
            b.active_finally@[k].jump_sites@.len() as int,
        ) =~= b.active_finally@[k].jump_sites@);
    }
}

proof fn lemma_keeps_adds(a: CompileContext, b: CompileContext, c: CompileContext, p: int)
    requires
        keeps(a, b),
        adds(b, c, p),
    ensures
        adds(a, c, p),
{
    assert forall|n: int, s: Set<int>| 0 <= n && #[trigger] settled(n, a, s) implies settled(
        n,
        c,
        s.insert(p),
    ) by {
        assert(settled(n, b, s));
    }
}

proof fn lemma_adds_keeps(a: CompileContext, b: CompileContext, c: CompileContext, p: int)
    requires
        adds(a, b, p),
        keeps(b, c),
    ensures
        adds(a, c, p),
{
    assert forall|n: int, s: Set<int>| 0 <= n && #[trigger] settled(n, a, s) implies settled(
        n,
        c,
        s.insert(p),
    ) by {
        assert(settled(n, b, s.insert(p)));
    }
}

/// A site added and then resolved leaves everything as settled as before.
proof fn lemma_adds_resolves(a: CompileContext, b: CompileContext, c: CompileContext, p: int)
    requires
        adds(a, b, p),
        resolves(b, c, p),
    ensures
        keeps(a, c),
{
    assert forall|n: int, s: Set<int>| 0 <= n && #[trigger] settled(n, a, s) implies settled(n, c, s) by {
        assert(settled(n, b, s.insert(p)));
        assert(settled(n, c, s.insert(p).remove(p)));
        lemma_settled_subset(n, c, s.insert(p).remove(p), s);
    }
}

proof fn lemma_cover_from_evolves(b: CompileContext, c: CompileContext)
    requires
        evolves(b, c),
    ensures
        stacks_cover(b, c),
{
    let n = b.code@.len() as int;
    assert forall|k: int| 0 <= k < b.loop_stack@.len() implies patches_prefix(
        b.loop_stack@[k].break_jumps@,
        (#[trigger] c.loop_stack@[k]).break_jumps@,
    ) && patches_prefix(b.loop_stack@[k].continue_jumps@, c.loop_stack@[k].continue_jumps@) by {
        assert(loop_extends(b.loop_stack@[k], c.loop_stack@[k], n));
    }
    assert forall|k: int| 0 <= k < b.finally_regions@.len() implies sites_prefix(
        b.finally_regions@[k].handler_sites@,
        (#[trigger] c.finally_regions@[k]).handler_sites@,
    ) && sites_prefix(b.finally_regions@[k].jump_sites@, c.finally_regions@[k].jump_sites@) by {
        assert(region_extends(b.finally_regions@[k], c.finally_regions@[k], n));
    }
    assert forall|k: int| 0 <= k < b.active_finally@.len() implies (
    #[trigger] c.active_finally@[k]).exit_patch_site == b.active_finally@[k].exit_patch_site
        && sites_prefix(b.active_finally@[k].jump_sites@, c.active_finally@[k].jump_sites@) by {
        assert(finally_extends(b.active_finally@[k], c.active_finally@[k], n));
    }
}

/// The same code and the same stacks keep what is settled.
proof fn lemma_keeps_same(b: CompileContext, c: CompileContext)
    requires
        c.code@ == b.code@,
        c.loop_stack@ == b.loop_stack@,
        c.active_finally@ == b.active_finally@,
        c.finally_regions@ == b.finally_regions@,
    ensures
        keeps(b, c),
{
    assert forall|n: int, s: Set<int>| 0 <= n && #[trigger] settled(n, b, s) implies settled(n, c, s) by {
        assert forall|i: int| n <= i < c.code@.len() implies #[trigger] targets_within(
            c.code@[i],
            c.code@.len() as int,
        ) || pending(c, i) || s.contains(i) by {
            if pending(b, i) {
                assert(pending(c, i));
            }
        }
    }
}

/// A pending site that is not on the innermost loop's lists stays pending
/// once that loop is popped.
#[verifier::spinoff_prover]
#[verifier::rlimit(40)]
proof fn lemma_pending_after_pop(a: CompileContext, c: CompileContext, i: int)
    requires
        pending(a, i),
        a.loop_stack@.len() > 0,
        c.loop_stack@ == a.loop_stack@.drop_last(),
        c.active_finally@ == a.active_finally@,
        c.finally_regions@ == a.finally_regions@,
        !(exists|k: int|
            0 <= k < a.loop_stack@.last().break_jumps@.len() && patch_site(
                #[trigger] a.loop_stack@.last().break_jumps@[k],
            ) == i),
        !(exists|k: int|
            0 <= k < a.loop_stack@.last().continue_jumps@.len() && patch_site(
                #[trigger] a.loop_stack@.last().continue_jumps@[k],
            ) == i),
    ensures
        pending(c, i),
{
    let top = a.loop_stack@.len() - 1;
    if exists|k: int, j: int|
        0 <= k < a.loop_stack@.len() && 0 <= j < a.loop_stack@[k].break_jumps@.len()
            && patch_site(#[trigger] a.loop_stack@[k].break_jumps@[j]) == i {
        let (k, j) = choose|k: int, j: int|
            0 <= k < a.loop_stack@.len() && 0 <= j < a.loop_stack@[k].break_jumps@.len()
                && patch_site(#[trigger] a.loop_stack@[k].break_jumps@[j]) == i;
        if k == top {
            assert(patch_site(a.loop_stack@.last().break_jumps@[j]) == i);
        }
        assert(c.loop_stack@[k] == a.loop_stack@[k]);
    } else if exists|k: int, j: int|
        0 <= k < a.loop_stack@.len() && 0 <= j < a.loop_stack@[k].continue_jumps@.len()
            && patch_site(#[trigger] a.loop_stack@[k].continue_jumps@[j]) == i {
        let (k, j) = choose|k: int, j: int|
            0 <= k < a.loop_stack@.len() && 0 <= j < a.loop_stack@[k].continue_jumps@.len()
                && patch_site(#[trigger] a.loop_stack@[k].continue_jumps@[j]) == i;
        if k == top {
            assert(patch_site(a.loop_stack@.last().continue_jumps@[j]) == i);
        }
        assert(c.loop_stack@[k] == a.loop_stack@[k]);
    }
}

/// The functions from index `n` on keep every transfer inside their code.
pub open spec fn functions_within_from(fs: Seq<FunctionPrototype>, n: int) -> bool {
    forall|k: int| n <= k < fs.len() ==> code_targets_within(#[trigger] fs[k].code@)
}

proof fn lemma_targets_within_mono(ins: Instruction, n: int, m: int)
    requires
        targets_within(ins, n),
        n <= m,
    ensures
        targets_within(ins, m),
{
}

/// Every prototype's code ends in `Return`, and a closure made in function
/// `k` refers to a function compiled before it.
pub open spec fn prototype_wf(p: FunctionPrototype, k: int) -> bool {
    &&& p.code@.len() > 0
    &&& p.code@.last() is Return
    &&& forall|i: int| 0 <= i < p.code@.len() ==> closures_below(#[trigger] p.code@[i], k)
}

pub open spec fn functions_wf(fs: Seq<FunctionPrototype>) -> bool {
    forall|k: int| 0 <= k < fs.len() ==> prototype_wf(#[trigger] fs[k], k)
}

/// The compiled functions only grow.
pub open spec fn functions_extend(old: Seq<FunctionPrototype>, new: Seq<FunctionPrototype>) -> bool {
    &&& old.len() <= new.len()
    &&& forall|k: int| 0 <= k < old.len() ==> new[k] == old[k]
}

/// The current code only makes closures of functions already compiled.
pub open spec fn code_closures_below(code: Seq<Instruction>, bound: int) -> bool {
    forall|i: int| 0 <= i < code.len() ==> closures_below(#[trigger] code[i], bound)
}

/// The joint invariant of the compiler and the context it works on.
spec fn compiling(c: Compiler, ctx: CompileContext) -> bool {
    &&& ctx.wf()
    &&& functions_wf(c.functions@)
    &&& ctx.closure_bound@ <= c.functions@.len()
}

// ---------------------------------------------------------------------------
// Emitting and patching.
// ---------------------------------------------------------------------------

impl CompileContext {
    fn new(closure_bound: Ghost<nat>) -> (ctx: CompileContext)
        ensures
            ctx.closure_bound == closure_bound,
            ctx.wf(),
            ctx.code@.len() == 0,
            ctx.loop_stack@.len() == 0,
            ctx.active_handlers@.len() == 0,
            ctx.active_finally@.len() == 0,
            ctx.finally_regions@.len() == 0,
            ctx.scope_depth == 0,
    {
        CompileContext {
            code: Vec::new(),
            loop_stack: Vec::new(),
            active_handlers: Vec::new(),
            active_finally: Vec::new(),
            finally_regions: Vec::new(),
            scope_depth: 0,
            internal_name_counter: 0,
            closure_bound,
        }
    }
}

/// Everything but the code is as it was.
spec fn same_but_code(a: CompileContext, b: CompileContext) -> bool {
    &&& b.loop_stack@ == a.loop_stack@
    &&& b.active_handlers@ == a.active_handlers@
    &&& b.active_finally@ == a.active_finally@
    &&& b.finally_regions@ == a.finally_regions@
    &&& b.scope_depth == a.scope_depth
    &&& b.internal_name_counter == a.internal_name_counter
    &&& b.closure_bound == a.closure_bound
}

/// `new` extends `old`, each old position keeping its kind of site.
pub open spec fn kinds_kept(old: Seq<Instruction>, new: Seq<Instruction>) -> bool {
    &&& old.len() <= new.len()
    &&& forall|i: int| 0 <= i < old.len() ==> same_kind(old[i], #[trigger] new[i])
}

/// Two instructions agree on the kinds of site the compiler patches.
pub open spec fn same_kind(a: Instruction, b: Instruction) -> bool {
    &&& (a is Jump <==> b is Jump)
    &&& (a is PushPendingJump <==> b is PushPendingJump)
    &&& (a is PushHandler <==> b is PushHandler)
    &&& (a is EnterFinally <==> b is EnterFinally)
}

/// `ins` with its jump target replaced by `t`.
pub open spec fn retarget_jump(ins: Instruction, t: usize) -> Instruction {
    match ins {
        Instruction::Jump(_) => Instruction::Jump(t),
        Instruction::JumpIfFalse(_) => Instruction::JumpIfFalse(t),
        Instruction::JumpIfTrue(_) => Instruction::JumpIfTrue(t),
        Instruction::JumpIfNullish(_) => Instruction::JumpIfNullish(t),
        _ => ins,
    }
}

pub open spec fn retarget_pending(ins: Instruction, t: usize) -> Instruction {
    match ins {
        Instruction::PushPendingJump { target_handler_depth, target_scope_depth, .. } =>
            Instruction::PushPendingJump { target: t, target_handler_depth, target_scope_depth },
        _ => ins,
    }
}

pub open spec fn retarget_catch(ins: Instruction, t: usize) -> Instruction {
    match ins {
        Instruction::PushHandler { finally, .. } => Instruction::PushHandler {
            catch: Some(t),
            finally,
        },
        _ => ins,
    }
}

pub open spec fn retarget_finally(ins: Instruction, t: usize) -> Instruction {
    match ins {
        Instruction::PushHandler { catch, .. } => Instruction::PushHandler {
            catch,
            finally: Some(t),
        },
        _ => ins,
    }
}

pub open spec fn retarget_exit(ins: Instruction, t: usize) -> Instruction {
    match ins {
        Instruction::EnterFinally { .. } => Instruction::EnterFinally { exit: t },
        _ => ins,
    }
}

proof fn lemma_wf_code(a: CompileContext, b: CompileContext)
    requires
        a.wf(),
        same_but_code(a, b),
        a.code@.len() <= b.code@.len(),
        forall|i: int| 0 <= i < a.code@.len() ==> same_kind(a.code@[i], #[trigger] b.code@[i]),
        code_closures_below(b.code@, b.closure_bound@ as int),
    ensures
        b.wf(),
{
    assert forall|k: int| 0 <= k < b.loop_stack@.len() implies loop_ok(
        b.code@,
        #[trigger] b.loop_stack@[k],
    ) by {
        let l = b.loop_stack@[k];
        assert(loop_ok(a.code@, a.loop_stack@[k]));
        assert forall|j: int| 0 <= j < l.break_jumps@.len() implies patch_ok(
            b.code@,
            #[trigger] l.break_jumps@[j],
        ) by {
            assert(patch_ok(a.code@, l.break_jumps@[j]));
            let i = patch_site(l.break_jumps@[j]);
            assert(same_kind(a.code@[i], b.code@[i]));
        }
        assert forall|j: int| 0 <= j < l.continue_jumps@.len() implies patch_ok(
            b.code@,
            #[trigger] l.continue_jumps@[j],
        ) by {
            assert(patch_ok(a.code@, l.continue_jumps@[j]));
            let i = patch_site(l.continue_jumps@[j]);
            assert(same_kind(a.code@[i], b.code@[i]));
        }
    }
    assert forall|k: int| 0 <= k < b.finally_regions@.len() implies region_ok(
        b.code@,
        #[trigger] b.finally_regions@[k],
    ) by {
        let r = b.finally_regions@[k];
        assert(region_ok(a.code@, a.finally_regions@[k]));
        assert forall|j: int| 0 <= j < r.handler_sites@.len() implies is_handler_site(
            b.code@,
            #[trigger] r.handler_sites@[j] as int,
        ) by {
            assert(is_handler_site(a.code@, r.handler_sites@[j] as int));
            let i = r.handler_sites@[j] as int;
            assert(same_kind(a.code@[i], b.code@[i]));
        }
        assert forall|j: int| 0 <= j < r.jump_sites@.len() implies is_jump_site(
            b.code@,
            #[trigger] r.jump_sites@[j] as int,
        ) by {
            assert(is_jump_site(a.code@, r.jump_sites@[j] as int));
            let i = r.jump_sites@[j] as int;
            assert(same_kind(a.code@[i], b.code@[i]));
        }
    }
    assert forall|k: int| 0 <= k < b.active_finally@.len() implies active_finally_ok(
        b.code@,
        #[trigger] b.active_finally@[k],
    ) by {
        let f = b.active_finally@[k];
        assert(active_finally_ok(a.code@, a.active_finally@[k]));
        let e = f.exit_patch_site as int;
        assert(same_kind(a.code@[e], b.code@[e]));
        assert forall|j: int| 0 <= j < f.jump_sites@.len() implies is_jump_site(
            b.code@,
            #[trigger] f.jump_sites@[j] as int,
        ) by {
            assert(is_jump_site(a.code@, f.jump_sites@[j] as int));
            let i = f.jump_sites@[j] as int;
            assert(same_kind(a.code@[i], b.code@[i]));
        }
    }
}

proof fn lemma_evolves_refl(a: CompileContext)
    ensures
        evolves(a, a),
{
    assert forall|k: int| 0 <= k < a.loop_stack@.len() implies loop_extends(
        a.loop_stack@[k],
        #[trigger] a.loop_stack@[k],
        a.code@.len() as int,
    ) by {
        assert(a.loop_stack@[k].break_jumps@.subrange(0, a.loop_stack@[k].break_jumps@.len() as int)
            =~= a.loop_stack@[k].break_jumps@);
        assert(a.loop_stack@[k].continue_jumps@.subrange(
            0,
            a.loop_stack@[k].continue_jumps@.len() as int,
        ) =~= a.loop_stack@[k].continue_jumps@);
    }
    assert forall|k: int| 0 <= k < a.finally_regions@.len() implies region_extends(
        a.finally_regions@[k],
        #[trigger] a.finally_regions@[k],
        a.code@.len() as int,
    ) by {
        let r = a.finally_regions@[k];
        assert(r.handler_sites@.subrange(0, r.handler_sites@.len() as int) =~= r.handler_sites@);
        assert(r.jump_sites@.subrange(0, r.jump_sites@.len() as int) =~= r.jump_sites@);
    }
    assert forall|k: int| 0 <= k < a.active_finally@.len() implies finally_extends(
        a.active_finally@[k],
        #[trigger] a.active_finally@[k],
        a.code@.len() as int,
    ) by {
        let f = a.active_finally@[k];
        assert(f.jump_sites@.subrange(0, f.jump_sites@.len() as int) =~= f.jump_sites@);
    }
}

proof fn lemma_patches_extend_trans(
    a: Seq<ControlTransferPatch>,
    b: Seq<ControlTransferPatch>,
    c: Seq<ControlTransferPatch>,
    n: int,
    m: int,
)
    requires
        patches_extend(a, b, n),
        patches_extend(b, c, m),
        n <= m,
    ensures
        patches_extend(a, c, n),
{
    assert(c.subrange(0, a.len() as int) =~= c.subrange(0, b.len() as int).subrange(
        0,
        a.len() as int,
    ));
    assert forall|j: int| a.len() <= j < c.len() implies patch_site(#[trigger] c[j]) >= n by {
        if j < b.len() {
            assert(c[j] == c.subrange(0, b.len() as int)[j]);
        }
    }
}

proof fn lemma_sites_extend_trans(a: Seq<usize>, b: Seq<usize>, c: Seq<usize>, n: int, m: int)
    requires
        sites_extend(a, b, n),
        sites_extend(b, c, m),
        n <= m,
    ensures
        sites_extend(a, c, n),
{
    assert(c.subrange(0, a.len() as int) =~= c.subrange(0, b.len() as int).subrange(
        0,
        a.len() as int,
    ));
    assert forall|j: int| a.len() <= j < c.len() implies #[trigger] c[j] >= n by {
        if j < b.len() {
            assert(c[j] == c.subrange(0, b.len() as int)[j]);
        }
    }
}

proof fn lemma_evolves_trans(a: CompileContext, b: CompileContext, c: CompileContext)
    requires
        evolves(a, b),
        evolves(b, c),
    ensures
        evolves(a, c),
{
    let n = a.code@.len() as int;
    let m = b.code@.len() as int;
    assert forall|i: int| 0 <= i < a.code@.len() implies same_kind(
        a.code@[i],
        #[trigger] c.code@[i],
    ) by {
        assert(same_kind(a.code@[i], b.code@[i]));
        assert(same_kind(b.code@[i], c.code@[i]));
    }
    assert forall|k: int| 0 <= k < a.loop_stack@.len() implies loop_extends(
        a.loop_stack@[k],
        #[trigger] c.loop_stack@[k],
        n,
    ) by {
        assert(loop_extends(a.loop_stack@[k], b.loop_stack@[k], n));
        assert(loop_extends(b.loop_stack@[k], c.loop_stack@[k], m));
        lemma_patches_extend_trans(
            a.loop_stack@[k].break_jumps@,
            b.loop_stack@[k].break_jumps@,
            c.loop_stack@[k].break_jumps@,
            n,
            m,
        );
        lemma_patches_extend_trans(
            a.loop_stack@[k].continue_jumps@,
            b.loop_stack@[k].continue_jumps@,
            c.loop_stack@[k].continue_jumps@,
            n,
            m,
        );
    }
    assert forall|k: int| 0 <= k < a.finally_regions@.len() implies region_extends(
        a.finally_regions@[k],
        #[trigger] c.finally_regions@[k],
        n,
    ) by {
        assert(region_extends(a.finally_regions@[k], b.finally_regions@[k], n));
        assert(region_extends(b.finally_regions@[k], c.finally_regions@[k], m));
        lemma_sites_extend_trans(
            a.finally_regions@[k].handler_sites@,
            b.finally_regions@[k].handler_sites@,
            c.finally_regions@[k].handler_sites@,
            n,
            m,
        );
        lemma_sites_extend_trans(
            a.finally_regions@[k].jump_sites@,
            b.finally_regions@[k].jump_sites@,
            c.finally_regions@[k].jump_sites@,
            n,
            m,
        );
    }
    assert forall|k: int| 0 <= k < a.active_finally@.len() implies finally_extends(
        a.active_finally@[k],
        #[trigger] c.active_finally@[k],
        n,
    ) by {
        assert(finally_extends(a.active_finally@[k], b.active_finally@[k], n));
        assert(finally_extends(b.active_finally@[k], c.active_finally@[k], m));
        lemma_sites_extend_trans(
            a.active_finally@[k].jump_sites@,
            b.active_finally@[k].jump_sites@,
            c.active_finally@[k].jump_sites@,
            n,
            m,
        );
    }
}

/// A change to the code alone, keeping `a`'s prefix, keeps evolution from `a`.
proof fn lemma_evolves_code(a: CompileContext, b: CompileContext, c: CompileContext)
    requires
        evolves(a, b),
        same_but_code(b, c),
        kinds_kept(b.code@, c.code@),
        forall|i: int| 0 <= i < a.code@.len() ==> c.code@[i] == b.code@[i],
    ensures
        evolves(a, c),
{
    assert forall|i: int| 0 <= i < a.code@.len() implies same_kind(
        a.code@[i],
        #[trigger] c.code@[i],
    ) by {
        assert(same_kind(a.code@[i], b.code@[i]));
        assert(same_kind(b.code@[i], c.code@[i]));
    }
}

impl CompileContext {
    /// Appends one instruction that is no patch site; returns its index.
    fn emit(&mut self, ins: Instruction) -> (index: usize)
        requires
            old(self).wf(),
            closures_below(ins, old(self).closure_bound@ as int),
        ensures
            final(self).wf(),
            final(self).code@ == old(self).code@.push(ins),
            same_but_code(*old(self), *final(self)),
            evolves(*old(self), *final(self)),
            index == old(self).code@.len(),
            adds(*old(self), *final(self), index as int),
            targets_within(ins, old(self).code@.len() + 1int) ==> keeps(*old(self), *final(self)),
    {
        let index = self.code.len();
        let ghost a = *self;
        self.code.push(ins);
        proof {
            assert forall|n: int, s: Set<int>| 0 <= n && #[trigger] settled(n, a, s) implies settled(
                n,
                *self,
                s.insert(index as int),
            ) by {
                lemma_settled_update(n, a, *self, s, s.insert(index as int));
            }
            if targets_within(ins, a.code@.len() + 1int) {
                assert forall|n: int, s: Set<int>| 0 <= n && #[trigger] settled(n, a, s) implies settled(
                    n,
                    *self,
                    s,
                ) by {
                    lemma_settled_update(n, a, *self, s, s);
                }
            }
            assert forall|i: int| 0 <= i < a.code@.len() implies same_kind(
                a.code@[i],
                #[trigger] self.code@[i],
            ) by {
                assert(self.code@[i] == a.code@[i]);
            }
            assert forall|i: int| 0 <= i < self.code@.len() implies closures_below(
                #[trigger] self.code@[i],
                self.closure_bound@ as int,
            ) by {
                if i < a.code@.len() {
                    assert(self.code@[i] == a.code@[i]);
                }
            }
            lemma_wf_code(a, *self);
            lemma_evolves_refl(a);
            lemma_evolves_code(a, a, *self);
        }
        index
    }

    /// Points the jump at `index` to `target`.
    fn patch_jump(&mut self, index: usize, target: usize)
        requires
            old(self).wf(),
            index < old(self).code@.len(),
        ensures
            final(self).wf(),
            final(self).code@ == old(self).code@.update(
                index as int,
                retarget_jump(old(self).code@[index as int], target),
            ),
            same_but_code(*old(self), *final(self)),
            kinds_kept(old(self).code@, final(self).code@),
            targets_within(
                retarget_jump(old(self).code@[index as int], target),
                old(self).code@.len() as int,
            ) ==> resolves(*old(self), *final(self), index as int),
            target <= old(self).code@.len() ==> keeps(*old(self), *final(self)),
    {
        let ghost a = *self;
        let patched = match &self.code[index] {
            Instruction::Jump(_) => Some(Instruction::Jump(target)),
            Instruction::JumpIfFalse(_) => Some(Instruction::JumpIfFalse(target)),
            Instruction::JumpIfTrue(_) => Some(Instruction::JumpIfTrue(target)),
            Instruction::JumpIfNullish(_) => Some(Instruction::JumpIfNullish(target)),
            _ => None,
        };
        if let Some(ins) = patched {
            self.code.set(index, ins);
        }
        proof {
            assert(self.code@ =~= a.code@.update(
                index as int,
                retarget_jump(a.code@[index as int], target),
            ));
            if target <= a.code@.len() {
                assert forall|n: int, s: Set<int>| 0 <= n && #[trigger] settled(n, a, s) implies settled(
                    n,
                    *self,
                    s,
                ) by {
                    if targets_within(a.code@[index as int], a.code@.len() as int) {
                        assert(targets_within(
                            retarget_jump(a.code@[index as int], target),
                            self.code@.len() as int,
                        ));
                    }
                    lemma_settled_update(n, a, *self, s, s);
                }
            }
            if targets_within(retarget_jump(a.code@[index as int], target), a.code@.len() as int) {
                assert forall|n: int, s: Set<int>| 0 <= n && #[trigger] settled(n, a, s) implies settled(
                    n,
                    *self,
                    s.remove(index as int),
                ) by {
                    lemma_settled_update(n, a, *self, s, s.remove(index as int));
                }
            }
            assert forall|i: int| 0 <= i < self.code@.len() implies closures_below(
                #[trigger] self.code@[i],
                self.closure_bound@ as int,
            ) by {
                if i != index {
                    assert(self.code@[i] == a.code@[i]);
                }
            }
            lemma_wf_code(a, *self);
        }
    }

    /// Points the pending jump at `index` to `target`.
    fn patch_pending_jump(&mut self, index: usize, target: usize)
        requires
            old(self).wf(),
            index < old(self).code@.len(),
        ensures
            final(self).wf(),
            final(self).code@ == old(self).code@.update(
                index as int,
                retarget_pending(old(self).code@[index as int], target),
            ),
            same_but_code(*old(self), *final(self)),
            kinds_kept(old(self).code@, final(self).code@),
            targets_within(
                retarget_pending(old(self).code@[index as int], target),
                old(self).code@.len() as int,
            ) ==> resolves(*old(self), *final(self), index as int),
            target <= old(self).code@.len() ==> keeps(*old(self), *final(self)),
    {
        let ghost a = *self;
        let patched = match &self.code[index] {
            Instruction::PushPendingJump { target_handler_depth, target_scope_depth, .. } => Some(
                Instruction::PushPendingJump {
                    target,
                    target_handler_depth: *target_handler_depth,
                    target_scope_depth: *target_scope_depth,
                },
            ),
            _ => None,
        };
        if let Some(ins) = patched {
            self.code.set(index, ins);
        }
        proof {
            assert(self.code@ =~= a.code@.update(
                index as int,
                retarget_pending(a.code@[index as int], target),
            ));
            if target <= a.code@.len() {
                assert forall|n: int, s: Set<int>| 0 <= n && #[trigger] settled(n, a, s) implies settled(
                    n,
                    *self,
                    s,
                ) by {
                    if targets_within(a.code@[index as int], a.code@.len() as int) {
                        assert(targets_within(
                            retarget_pending(a.code@[index as int], target),
                            self.code@.len() as int,
                        ));
                    }
                    lemma_settled_update(n, a, *self, s, s);
                }
            }
            if targets_within(retarget_pending(a.code@[index as int], target), a.code@.len() as int) {
                assert forall|n: int, s: Set<int>| 0 <= n && #[trigger] settled(n, a, s) implies settled(
                    n,
                    *self,
                    s.remove(index as int),
                ) by {
                    lemma_settled_update(n, a, *self, s, s.remove(index as int));
                }
            }
            assert forall|i: int| 0 <= i < self.code@.len() implies closures_below(
                #[trigger] self.code@[i],
                self.closure_bound@ as int,
            ) by {
                if i != index {
                    assert(self.code@[i] == a.code@[i]);
                }
            }
            lemma_wf_code(a, *self);
        }
    }

    /// Points the `catch` of the handler at `index` to `target`.
    fn patch_handler_catch(&mut self, index: usize, target: usize)
        requires
            old(self).wf(),
            index < old(self).code@.len(),
        ensures
            final(self).wf(),
            final(self).code@ == old(self).code@.update(
                index as int,
                retarget_catch(old(self).code@[index as int], target),
            ),
            same_but_code(*old(self), *final(self)),
            kinds_kept(old(self).code@, final(self).code@),
            targets_within(
                retarget_catch(old(self).code@[index as int], target),
                old(self).code@.len() as int,
            ) ==> resolves(*old(self), *final(self), index as int),
            target <= old(self).code@.len() ==> keeps(*old(self), *final(self)),
    {
        let ghost a = *self;
        let patched = match &self.code[index] {
            Instruction::PushHandler { finally, .. } => Some(
                Instruction::PushHandler { catch: Some(target), finally: *finally },
            ),
            _ => None,
        };
        if let Some(ins) = patched {
            self.code.set(index, ins);
        }
        proof {
            assert(self.code@ =~= a.code@.update(
                index as int,
                retarget_catch(a.code@[index as int], target),
            ));
            if target <= a.code@.len() {
                assert forall|n: int, s: Set<int>| 0 <= n && #[trigger] settled(n, a, s) implies settled(
                    n,
                    *self,
                    s,
                ) by {
                    if targets_within(a.code@[index as int], a.code@.len() as int) {
                        assert(targets_within(
                            retarget_catch(a.code@[index as int], target),
                            self.code@.len() as int,
                        ));
                    }
                    lemma_settled_update(n, a, *self, s, s);
                }
            }
            if targets_within(retarget_catch(a.code@[index as int], target), a.code@.len() as int) {
                assert forall|n: int, s: Set<int>| 0 <= n && #[trigger] settled(n, a, s) implies settled(
                    n,
                    *self,
                    s.remove(index as int),
                ) by {
                    lemma_settled_update(n, a, *self, s, s.remove(index as int));
                }
            }
            assert forall|i: int| 0 <= i < self.code@.len() implies closures_below(
                #[trigger] self.code@[i],
                self.closure_bound@ as int,
            ) by {
                if i != index {
                    assert(self.code@[i] == a.code@[i]);
                }
            }
            lemma_wf_code(a, *self);
        }
    }

    /// Points the `finally` of the handler at `index` to `target`.
    fn patch_handler_finally(&mut self, index: usize, target: usize)
        requires
            old(self).wf(),
            index < old(self).code@.len(),
        ensures
            final(self).wf(),
            final(self).code@ == old(self).code@.update(
                index as int,
                retarget_finally(old(self).code@[index as int], target),
            ),
            same_but_code(*old(self), *final(self)),
            kinds_kept(old(self).code@, final(self).code@),
            targets_within(
                retarget_finally(old(self).code@[index as int], target),
                old(self).code@.len() as int,
            ) ==> resolves(*old(self), *final(self), index as int),
            target <= old(self).code@.len() ==> keeps(*old(self), *final(self)),
    {
        let ghost a = *self;
        let patched = match &self.code[index] {
            Instruction::PushHandler { catch, .. } => Some(
                Instruction::PushHandler { catch: *catch, finally: Some(target) },
            ),
            _ => None,
        };
        if let Some(ins) = patched {
            self.code.set(index, ins);
        }
        proof {
            assert(self.code@ =~= a.code@.update(
                index as int,
                retarget_finally(a.code@[index as int], target),
            ));
            if target <= a.code@.len() {
                assert forall|n: int, s: Set<int>| 0 <= n && #[trigger] settled(n, a, s) implies settled(
                    n,
                    *self,
                    s,
                ) by {
                    if targets_within(a.code@[index as int], a.code@.len() as int) {
                        assert(targets_within(
                            retarget_finally(a.code@[index as int], target),
                            self.code@.len() as int,
                        ));
                    }
                    lemma_settled_update(n, a, *self, s, s);
                }
            }
            if targets_within(retarget_finally(a.code@[index as int], target), a.code@.len() as int) {
                assert forall|n: int, s: Set<int>| 0 <= n && #[trigger] settled(n, a, s) implies settled(
                    n,
                    *self,
                    s.remove(index as int),
                ) by {
                    lemma_settled_update(n, a, *self, s, s.remove(index as int));
                }
            }
            assert forall|i: int| 0 <= i < self.code@.len() implies closures_below(
                #[trigger] self.code@[i],
                self.closure_bound@ as int,
            ) by {
                if i != index {
                    assert(self.code@[i] == a.code@[i]);
                }
            }
            lemma_wf_code(a, *self);
        }
    }

    /// Points the exit of the `EnterFinally` at `index` to `target`.
    fn patch_finally_exit_site(&mut self, index: usize, target: usize)
        requires
            old(self).wf(),
            index < old(self).code@.len(),
        ensures
            final(self).wf(),
            final(self).code@ == old(self).code@.update(
                index as int,
                retarget_exit(old(self).code@[index as int], target),
            ),
            same_but_code(*old(self), *final(self)),
            kinds_kept(old(self).code@, final(self).code@),
            targets_within(
                retarget_exit(old(self).code@[index as int], target),
                old(self).code@.len() as int,
            ) ==> resolves(*old(self), *final(self), index as int),
            target <= old(self).code@.len() ==> keeps(*old(self), *final(self)),
    {
        let ghost a = *self;
        let patched = match &self.code[index] {
            Instruction::EnterFinally { .. } => Some(Instruction::EnterFinally { exit: target }),
            _ => None,
        };
        if let Some(ins) = patched {
            self.code.set(index, ins);
        }
        proof {
            assert(self.code@ =~= a.code@.update(
                index as int,
                retarget_exit(a.code@[index as int], target),
            ));
            if target <= a.code@.len() {
                assert forall|n: int, s: Set<int>| 0 <= n && #[trigger] settled(n, a, s) implies settled(
                    n,
                    *self,
                    s,
                ) by {
                    if targets_within(a.code@[index as int], a.code@.len() as int) {
                        assert(targets_within(
                            retarget_exit(a.code@[index as int], target),
                            self.code@.len() as int,
                        ));
                    }
                    lemma_settled_update(n, a, *self, s, s);
                }
            }
            if targets_within(retarget_exit(a.code@[index as int], target), a.code@.len() as int) {
                assert forall|n: int, s: Set<int>| 0 <= n && #[trigger] settled(n, a, s) implies settled(
                    n,
                    *self,
                    s.remove(index as int),
                ) by {
                    lemma_settled_update(n, a, *self, s, s.remove(index as int));
                }
            }
            assert forall|i: int| 0 <= i < self.code@.len() implies closures_below(
                #[trigger] self.code@[i],
                self.closure_bound@ as int,
            ) by {
                if i != index {
                    assert(self.code@[i] == a.code@[i]);
                }
            }
            lemma_wf_code(a, *self);
        }
    }
}

impl CompileContext {
    /// Emits a `PopEnv` for each scope entered since depth `target`.
    fn emit_scope_cleanup(&mut self, target: usize)
        requires
            old(self).wf(),
        ensures
            keeps(*old(self), *final(self)),
            stmt_step(*old(self), *final(self)),
            final(self).wf(),
            same_but_code(*old(self), *final(self)),
            evolves(*old(self), *final(self)),
            final(self).code@.len() >= old(self).code@.len(),
            forall|i: int|
                old(self).code@.len() <= i < final(self).code@.len() ==> #[trigger] final(self).code@[i] == Instruction::PopEnv,
    {
        let ghost a = *self;
        proof {
            lemma_evolves_refl(a);
            lemma_keeps_refl(a);
        }
        let mut depth = target;
        while depth < self.scope_depth
            invariant
                self.wf(),
                same_but_code(a, *self),
                evolves(a, *self),
                keeps(a, *self),
                self.code@.len() >= a.code@.len(),
                forall|i: int|
                    a.code@.len() <= i < self.code@.len() ==> #[trigger] self.code@[i]
                        == Instruction::PopEnv,
            decreases self.scope_depth - depth,
        {
            let ghost b = *self;
            self.emit(Instruction::PopEnv);
            proof {
                lemma_evolves_trans(a, b, *self);
                lemma_keeps_trans(a, b, *self);
            }
            depth = depth + 1;
        }
    }

    /// Emits a `PopHandler` for each handler pushed since depth `target`.
    fn emit_handler_cleanup(&mut self, target: usize)
        requires
            old(self).wf(),
        ensures
            keeps(*old(self), *final(self)),
            stmt_step(*old(self), *final(self)),
            final(self).wf(),
            same_but_code(*old(self), *final(self)),
            evolves(*old(self), *final(self)),
            final(self).code@.len() >= old(self).code@.len(),
            forall|i: int|
                old(self).code@.len() <= i < final(self).code@.len() ==> #[trigger] final(self).code@[i] == Instruction::PopHandler,
    {
        let ghost a = *self;
        proof {
            lemma_evolves_refl(a);
            lemma_keeps_refl(a);
        }
        let mut depth = target;
        while depth < self.active_handlers.len()
            invariant
                self.wf(),
                same_but_code(a, *self),
                evolves(a, *self),
                keeps(a, *self),
                self.code@.len() >= a.code@.len(),
                forall|i: int|
                    a.code@.len() <= i < self.code@.len() ==> #[trigger] self.code@[i]
                        == Instruction::PopHandler,
            decreases self.active_handlers.len() - depth,
        {
            let ghost b = *self;
            self.emit(Instruction::PopHandler);
            proof {
                lemma_evolves_trans(a, b, *self);
                lemma_keeps_trans(a, b, *self);
            }
            depth = depth + 1;
        }
    }

    /// The innermost live handler at depth `target` or deeper that has a
    /// `finally` block, with that block's region.
    fn nearest_finally_region(&self, target: usize) -> (r: Option<(usize, usize)>)
        requires
            self.wf(),
        ensures
            match r {
                Some((depth, region)) => {
                    &&& target <= depth < self.active_handlers@.len()
                    &&& self.active_handlers@[depth as int].finally_region == Some(region)
                    &&& region < self.finally_regions@.len()
                    &&& forall|d: int|
                        depth < d < self.active_handlers@.len()
                            ==> #[trigger] self.active_handlers@[d].finally_region is None
                },
                None => forall|d: int|
                    target <= d < self.active_handlers@.len()
                        ==> #[trigger] self.active_handlers@[d].finally_region is None,
            },
    {
        let mut depth = self.active_handlers.len();
        if target >= depth {
            return None;
        }
        while depth > target
            invariant
                self.wf(),
                target <= depth <= self.active_handlers@.len(),
                forall|d: int|
                    depth <= d < self.active_handlers@.len()
                        ==> #[trigger] self.active_handlers@[d].finally_region is None,
            decreases depth,
        {
            depth = depth - 1;
            if let Some(region) = self.active_handlers[depth].finally_region {
                return Some((depth, region));
            }
        }
        None
    }

    /// Emits a jump to the start of `finally` region `region`, to be patched
    /// when that block is placed.
    fn emit_jump_to_finally(&mut self, region: usize)
        requires
            old(self).wf(),
            region < old(self).finally_regions@.len(),
        ensures
            keeps(*old(self), *final(self)),
            stmt_step(*old(self), *final(self)),
            final(self).wf(),
            evolves(*old(self), *final(self)),
            final(self).code@ == old(self).code@.push(Instruction::Jump(usize::MAX)),
            final(self).loop_stack@ == old(self).loop_stack@,
            final(self).active_finally@ == old(self).active_finally@,
            final(self).finally_regions@.len() == old(self).finally_regions@.len(),
            final(self).scope_depth == old(self).scope_depth,
            final(self).internal_name_counter == old(self).internal_name_counter,
            final(self).active_handlers@ == old(self).active_handlers@,
            final(self).closure_bound == old(self).closure_bound,
            handlers_kept(*old(self), *final(self)),
    {
        let ghost a = *self;
        let site = self.emit(Instruction::Jump(usize::MAX));
        let ghost b = *self;
        let mut entry = FinallyRegionContext { handler_sites: Vec::new(), jump_sites: Vec::new() };
        self.finally_regions.set_and_swap(region, &mut entry);
        entry.jump_sites.push(site);
        self.finally_regions.set_and_swap(region, &mut entry);
        proof {
            let r = region as int;
            assert(self.finally_regions@ == b.finally_regions@.update(r, self.finally_regions@[r]));
            assert(self.finally_regions@[r].handler_sites@ == b.finally_regions@[r].handler_sites@);
            assert(self.finally_regions@[r].jump_sites@ == b.finally_regions@[r].jump_sites@.push(
                site,
            ));
            assert forall|k: int| 0 <= k < self.finally_regions@.len() implies region_ok(
                self.code@,
                #[trigger] self.finally_regions@[k],
            ) by {
                assert(region_ok(b.code@, b.finally_regions@[k]));
                if k == r {
                    let js = self.finally_regions@[k].jump_sites@;
                    assert forall|j: int| 0 <= j < js.len() implies is_jump_site(
                        self.code@,
                        #[trigger] js[j] as int,
                    ) by {
                        if j < js.len() - 1 {
                            assert(js[j] == b.finally_regions@[k].jump_sites@[j]);
                        }
                    }
                }
            }
            assert forall|k: int| 0 <= k < a.finally_regions@.len() implies region_extends(
                a.finally_regions@[k],
                #[trigger] self.finally_regions@[k],
                a.code@.len() as int,
            ) by {
                let old_r = a.finally_regions@[k];
                let new_r = self.finally_regions@[k];
                if k == r {
                    assert(new_r.jump_sites@.subrange(0, old_r.jump_sites@.len() as int)
                        =~= old_r.jump_sites@);
                    assert(new_r.handler_sites@.subrange(0, old_r.handler_sites@.len() as int)
                        =~= old_r.handler_sites@);
                } else {
                    assert(new_r.jump_sites@.subrange(0, old_r.jump_sites@.len() as int)
                        =~= old_r.jump_sites@);
                    assert(new_r.handler_sites@.subrange(0, old_r.handler_sites@.len() as int)
                        =~= old_r.handler_sites@);
                }
            }
            lemma_evolves_refl(a);
            lemma_cover_from_evolves(a, *self);
            let last = self.finally_regions@[r].jump_sites@.len() - 1;
            assert(self.finally_regions@[r].jump_sites@[last] == site);
            assert(pending(*self, site as int));
            lemma_resolves_by_recording(b, *self, site as int);
            lemma_adds_resolves(a, b, *self, site as int);
        }
    }

    /// Emits a jump to the exit of the innermost `finally` block being
    /// compiled, to be patched when that block ends.
    fn emit_jump_to_active_finally_exit(&mut self)
        requires
            old(self).wf(),
            old(self).active_finally@.len() > 0,
        ensures
            keeps(*old(self), *final(self)),
            stmt_step(*old(self), *final(self)),
            final(self).wf(),
            evolves(*old(self), *final(self)),
            final(self).code@ == old(self).code@.push(Instruction::Jump(usize::MAX)),
            final(self).loop_stack@ == old(self).loop_stack@,
            final(self).finally_regions@ == old(self).finally_regions@,
            final(self).active_finally@.len() == old(self).active_finally@.len(),
            final(self).scope_depth == old(self).scope_depth,
            final(self).internal_name_counter == old(self).internal_name_counter,
            final(self).active_handlers@ == old(self).active_handlers@,
            final(self).closure_bound == old(self).closure_bound,
    {
        let ghost a = *self;
        let site = self.emit(Instruction::Jump(usize::MAX));
        let ghost b = *self;
        let top = self.active_finally.len() - 1;
        let mut entry = ActiveFinallyContext { exit_patch_site: 0, jump_sites: Vec::new(), scope_depth: 0 };
        self.active_finally.set_and_swap(top, &mut entry);
        entry.jump_sites.push(site);
        self.active_finally.set_and_swap(top, &mut entry);
        proof {
            let t = top as int;
            assert(self.active_finally@ == b.active_finally@.update(t, self.active_finally@[t]));
            assert(self.active_finally@[t].jump_sites@ == b.active_finally@[t].jump_sites@.push(site));
            assert forall|k: int| 0 <= k < self.active_finally@.len() implies active_finally_ok(
                self.code@,
                #[trigger] self.active_finally@[k],
            ) by {
                assert(active_finally_ok(b.code@, b.active_finally@[k]));
                if k == t {
                    let js = self.active_finally@[k].jump_sites@;
                    assert forall|j: int| 0 <= j < js.len() implies is_jump_site(
                        self.code@,
                        #[trigger] js[j] as int,
                    ) by {
                        if j < js.len() - 1 {
                            assert(js[j] == b.active_finally@[k].jump_sites@[j]);
                        }
                    }
                }
            }
            assert forall|k: int| 0 <= k < a.active_finally@.len() implies finally_extends(
                a.active_finally@[k],
                #[trigger] self.active_finally@[k],
                a.code@.len() as int,
            ) by {
                let old_f = a.active_finally@[k];
                let new_f = self.active_finally@[k];
                assert(new_f.jump_sites@.subrange(0, old_f.jump_sites@.len() as int)
                    =~= old_f.jump_sites@);
            }
            lemma_evolves_refl(a);
            lemma_cover_from_evolves(a, *self);
            let last = self.active_finally@[t].jump_sites@.len() - 1;
            assert(self.active_finally@[t].jump_sites@[last] == site);
            assert(pending(*self, site as int));
            lemma_resolves_by_recording(b, *self, site as int);
            lemma_adds_resolves(a, b, *self, site as int);
        }
    }
}

impl CompileContext {
    /// Emits a `return` of the value on the stack: through the innermost
    /// `finally` block that must run first, if any.
    fn emit_return(&mut self)
        requires
            old(self).wf(),
        ensures
            keeps(*old(self), *final(self)),
            final(self).scope_depth == old(self).scope_depth,
            stmt_step(*old(self), *final(self)),
            final(self).wf(),
            evolves(*old(self), *final(self)),
            final(self).loop_stack@ == old(self).loop_stack@,
            final(self).internal_name_counter == old(self).internal_name_counter,
            final(self).closure_bound == old(self).closure_bound,
            handlers_kept(*old(self), *final(self)),
    {
        let ghost a = *self;
        if self.active_finally.len() > 0 {
            let depth = self.active_finally[self.active_finally.len() - 1].scope_depth;
            self.emit_scope_cleanup(depth);
            let ghost b = *self;
            self.emit(Instruction::PushPendingReturn);
            let ghost c = *self;
            self.emit_jump_to_active_finally_exit();
            proof {
                lemma_evolves_trans(a, b, c);
                lemma_evolves_trans(a, c, *self);
                lemma_keeps_trans(a, b, c);
                lemma_keeps_trans(a, c, *self);
            }
            return;
        }
        match self.nearest_finally_region(0) {
            Some((handler_depth, region)) => {
                let depth = self.active_handlers[handler_depth].scope_depth;
                self.emit_scope_cleanup(depth);
                let ghost b = *self;
                self.emit_handler_cleanup(handler_depth);
                let ghost c = *self;
                self.emit(Instruction::PushPendingReturn);
                let ghost d = *self;
                self.emit_jump_to_finally(region);
                proof {
                    lemma_evolves_trans(a, b, c);
                    lemma_evolves_trans(a, c, d);
                    lemma_evolves_trans(a, d, *self);
                    lemma_keeps_trans(a, b, c);
                    lemma_keeps_trans(a, c, d);
                    lemma_keeps_trans(a, d, *self);
                }
            },
            None => {
                self.emit(Instruction::Return);
            },
        }
    }

    /// Emits a transfer of control out to a loop whose body starts at handler
    /// depth `target_handler_depth` and scope depth `target_scope_depth`:
    /// through the `finally` blocks in between, if any. The returned patch
    /// receives the destination once it is known.
    fn emit_jump_transfer(
        &mut self,
        target_handler_depth: usize,
        target_scope_depth: usize,
    ) -> (p: ControlTransferPatch)
        requires
            old(self).wf(),
        ensures
            adds(*old(self), *final(self), patch_site(p)),
            final(self).scope_depth == old(self).scope_depth,
            stmt_step(*old(self), *final(self)),
            final(self).wf(),
            evolves(*old(self), *final(self)),
            patch_ok(final(self).code@, p),
            patch_site(p) >= old(self).code@.len(),
            final(self).loop_stack@ == old(self).loop_stack@,
            final(self).internal_name_counter == old(self).internal_name_counter,
            final(self).closure_bound == old(self).closure_bound,
            handlers_kept(*old(self), *final(self)),
    {
        let ghost a = *self;
        if self.active_finally.len() > 0 {
            let depth = self.active_finally[self.active_finally.len() - 1].scope_depth;
            self.emit_scope_cleanup(depth);
            let ghost b = *self;
            let patch = self.emit(
                Instruction::PushPendingJump {
                    target: usize::MAX,
                    target_handler_depth,
                    target_scope_depth,
                },
            );
            let ghost c = *self;
            self.emit_jump_to_active_finally_exit();
            proof {
                lemma_evolves_trans(a, b, c);
                lemma_evolves_trans(a, c, *self);
                assert(self.code@[patch as int] == c.code@[patch as int]);
                lemma_keeps_adds(a, b, c, patch as int);
                lemma_adds_keeps(a, c, *self, patch as int);
            }
            return ControlTransferPatch::PendingJump(patch);
        }
        match self.nearest_finally_region(target_handler_depth) {
            Some((handler_depth, region)) => {
                let depth = self.active_handlers[handler_depth].scope_depth;
                self.emit_scope_cleanup(depth);
                let ghost b = *self;
                self.emit_handler_cleanup(handler_depth);
                let ghost c = *self;
                let patch = self.emit(
                    Instruction::PushPendingJump {
                        target: usize::MAX,
                        target_handler_depth,
                        target_scope_depth,
                    },
                );
                let ghost d = *self;
                self.emit_jump_to_finally(region);
                proof {
                    lemma_evolves_trans(a, b, c);
                    lemma_evolves_trans(a, c, d);
                    lemma_evolves_trans(a, d, *self);
                    assert(self.code@[patch as int] == d.code@[patch as int]);
                    lemma_keeps_trans(a, b, c);
                    lemma_keeps_adds(a, c, d, patch as int);
                    lemma_adds_keeps(a, d, *self, patch as int);
                }
                ControlTransferPatch::PendingJump(patch)
            },
            None => {
                self.emit_scope_cleanup(target_scope_depth);
                let ghost b = *self;
                self.emit_handler_cleanup(target_handler_depth);
                let ghost c = *self;
                let jump = self.emit(Instruction::Jump(usize::MAX));
                proof {
                    lemma_evolves_trans(a, b, c);
                    lemma_evolves_trans(a, c, *self);
                    lemma_keeps_trans(a, b, c);
                    lemma_keeps_adds(a, c, *self, jump as int);
                }
                ControlTransferPatch::DirectJump(jump)
            },
        }
    }
}

/// The name of an internal binding: a NUL character (which no guest
/// identifier contains), `jslite_`, the prefix, `_` and the counter.
pub open spec fn internal_name_spec(prefix: Seq<char>, counter: nat) -> Seq<char> {
    seq!['\0'] + "jslite_"@ + prefix + "_"@ + decimal(counter)
}

fn internal_name(prefix: &str, counter: usize) -> (name: String)
    ensures
        name@ == internal_name_spec(prefix@, counter as nat),
{
    let mut out: Vec<char> = Vec::new();
    out.push('\0');
    extend_chars(&mut out, &chars_of("jslite_"));
    extend_chars(&mut out, &chars_of(prefix));
    extend_chars(&mut out, &chars_of("_"));
    push_decimal(&mut out, counter as u64);
    proof {
        reveal_strlit("jslite_");
        reveal_strlit("_");
        assert(out@ =~= internal_name_spec(prefix@, counter as nat));
    }
    string_from_chars(&out)
}

/// `c` is `b` with one more element on one of its stacks.
proof fn lemma_evolves_grow(a: CompileContext, b: CompileContext, c: CompileContext)
    requires
        evolves(a, b),
        c.code@ == b.code@,
        b.loop_stack@.len() <= c.loop_stack@.len(),
        forall|k: int| 0 <= k < b.loop_stack@.len() ==> c.loop_stack@[k] == b.loop_stack@[k],
        b.finally_regions@.len() <= c.finally_regions@.len(),
        forall|k: int|
            0 <= k < b.finally_regions@.len() ==> c.finally_regions@[k] == b.finally_regions@[k],
        b.active_finally@.len() <= c.active_finally@.len(),
        forall|k: int|
            0 <= k < b.active_finally@.len() ==> c.active_finally@[k] == b.active_finally@[k],
    ensures
        evolves(a, c),
{
    assert forall|k: int| 0 <= k < a.loop_stack@.len() implies loop_extends(
        a.loop_stack@[k],
        #[trigger] c.loop_stack@[k],
        a.code@.len() as int,
    ) by {
        assert(c.loop_stack@[k] == b.loop_stack@[k]);
    }
    assert forall|k: int| 0 <= k < a.finally_regions@.len() implies region_extends(
        a.finally_regions@[k],
        #[trigger] c.finally_regions@[k],
        a.code@.len() as int,
    ) by {
        assert(c.finally_regions@[k] == b.finally_regions@[k]);
    }
    assert forall|k: int| 0 <= k < a.active_finally@.len() implies finally_extends(
        a.active_finally@[k],
        #[trigger] c.active_finally@[k],
        a.code@.len() as int,
    ) by {
        assert(c.active_finally@[k] == b.active_finally@[k]);
    }
}

impl CompileContext {
    /// Enters a block scope: `PushEnv`, one level deeper.
    fn enter_scope(&mut self)
        requires
            old(self).wf(),
        ensures
            keeps(*old(self), *final(self)),
            final(self).wf(),
            evolves(*old(self), *final(self)),
            stmt_step(*old(self), *final(self)),
            final(self).code@ == old(self).code@.push(Instruction::PushEnv),
            final(self).scope_depth == old(self).scope_depth + 1,
            final(self).loop_stack@ == old(self).loop_stack@,
            final(self).active_handlers@ == old(self).active_handlers@,
            final(self).active_finally@ == old(self).active_finally@,
            final(self).finally_regions@ == old(self).finally_regions@,
            final(self).internal_name_counter == old(self).internal_name_counter,
            final(self).closure_bound == old(self).closure_bound,
    {
        let ghost a = *self;
        self.emit(Instruction::PushEnv);
        let ghost b = *self;
        let len = self.code.len();
        assert(self.scope_depth < len);
        self.scope_depth = self.scope_depth + 1;
        proof {
            lemma_keeps_same(b, *self);
            lemma_keeps_trans(a, b, *self);
        }
    }

    /// Leaves a block scope: one level shallower, `PopEnv`.
    fn leave_scope(&mut self)
        requires
            old(self).wf(),
            old(self).scope_depth > 0,
        ensures
            keeps(*old(self), *final(self)),
            final(self).wf(),
            evolves(*old(self), *final(self)),
            stmt_step(*old(self), *final(self)),
            final(self).code@ == old(self).code@.push(Instruction::PopEnv),
            final(self).scope_depth == old(self).scope_depth - 1,
            final(self).loop_stack@ == old(self).loop_stack@,
            final(self).active_handlers@ == old(self).active_handlers@,
            final(self).active_finally@ == old(self).active_finally@,
            final(self).finally_regions@ == old(self).finally_regions@,
            final(self).internal_name_counter == old(self).internal_name_counter,
            final(self).closure_bound == old(self).closure_bound,
    {
        let ghost a = *self;
        self.scope_depth = self.scope_depth - 1;
        let ghost b = *self;
        self.emit(Instruction::PopEnv);
        proof {
            lemma_keeps_same(a, b);
            lemma_keeps_trans(a, b, *self);
        }
    }

    /// Declares a fresh internal binding named after `prefix` and the
    /// counter; returns its name.
    fn declare_internal(&mut self, prefix: &str) -> (name: String)
        requires
            old(self).wf(),
        ensures
            keeps(*old(self), *final(self)),
            final(self).wf(),
            evolves(*old(self), *final(self)),
            name@ == internal_name_spec(prefix@, old(self).internal_name_counter as nat),
            final(self).code@ == old(self).code@.push(
                Instruction::DeclareName { name, mutable: false },
            ),
            final(self).internal_name_counter == old(self).internal_name_counter + 1,
            final(self).scope_depth == old(self).scope_depth,
            final(self).loop_stack@ == old(self).loop_stack@,
            final(self).active_handlers@ == old(self).active_handlers@,
            final(self).active_finally@ == old(self).active_finally@,
            final(self).finally_regions@ == old(self).finally_regions@,
            final(self).closure_bound == old(self).closure_bound,
    {
        let ghost a = *self;
        let name = internal_name(prefix, self.internal_name_counter);
        self.emit(Instruction::DeclareName { name: name.clone(), mutable: false });
        let ghost b = *self;
        let len = self.code.len();
        assert(self.internal_name_counter < len);
        self.internal_name_counter = self.internal_name_counter + 1;
        proof {
            lemma_keeps_same(b, *self);
            lemma_keeps_trans(a, b, *self);
        }
        name
    }

    /// Starts a loop (or `switch`) at the current handler depth, whose body
    /// starts at scope depth `scope_depth`.
    fn push_loop(&mut self, scope_depth: usize)
        requires
            old(self).wf(),
        ensures
            keeps(*old(self), *final(self)),
            final(self).wf(),
            evolves(*old(self), *final(self)),
            final(self).code@ == old(self).code@,
            final(self).loop_stack@.len() == old(self).loop_stack@.len() + 1,
            forall|k: int|
                0 <= k < old(self).loop_stack@.len() ==> #[trigger] final(self).loop_stack@[k]
                    == old(self).loop_stack@[k],
            final(self).loop_stack@.last().break_jumps@.len() == 0,
            final(self).loop_stack@.last().continue_jumps@.len() == 0,
            final(self).loop_stack@.last().continue_target is None,
            final(self).loop_stack@.last().handler_depth == old(self).active_handlers@.len(),
            final(self).loop_stack@.last().scope_depth == scope_depth,
            loop_pushed(*old(self), *final(self)),
            final(self).scope_depth == old(self).scope_depth,
            final(self).active_handlers@ == old(self).active_handlers@,
            final(self).active_finally@ == old(self).active_finally@,
            final(self).finally_regions@ == old(self).finally_regions@,
            final(self).internal_name_counter == old(self).internal_name_counter,
            final(self).closure_bound == old(self).closure_bound,
    {
        let ghost a = *self;
        self.loop_stack.push(
            LoopContext {
                break_jumps: Vec::new(),
                continue_jumps: Vec::new(),
                continue_target: None,
                handler_depth: self.active_handlers.len(),
                scope_depth,
            },
        );
        proof {
            lemma_evolves_refl(a);
            lemma_evolves_grow(a, a, *self);
            let l = self.loop_stack@.last();
            assert(loop_ok(self.code@, l));
            lemma_cover_from_evolves(a, *self);
            lemma_keeps_by_cover(a, *self);
        }
    }

    /// Ends the innermost loop and returns its context.
    fn pop_loop(&mut self) -> (l: LoopContext)
        requires
            old(self).wf(),
            old(self).loop_stack@.len() > 0,
        ensures
            final(self).wf(),
            l == old(self).loop_stack@.last(),
            loop_ok(final(self).code@, l),
            final(self).code@ == old(self).code@,
            final(self).loop_stack@ == old(self).loop_stack@.drop_last(),
            final(self).scope_depth == old(self).scope_depth,
            final(self).active_handlers@ == old(self).active_handlers@,
            final(self).active_finally@ == old(self).active_finally@,
            final(self).finally_regions@ == old(self).finally_regions@,
            final(self).internal_name_counter == old(self).internal_name_counter,
            final(self).closure_bound == old(self).closure_bound,
    {
        let ghost a = *self;
        let l = self.loop_stack.pop().unwrap();
        proof {
            assert(loop_ok(a.code@, a.loop_stack@[a.loop_stack@.len() - 1]));
            assert forall|k: int| 0 <= k < self.loop_stack@.len() implies loop_ok(
                self.code@,
                #[trigger] self.loop_stack@[k],
            ) by {
                assert(self.loop_stack@[k] == a.loop_stack@[k]);
            }
        }
        l
    }

    /// Replaces the innermost loop's context with `l`.
    fn put_loop(&mut self, l: LoopContext)
        requires
            old(self).wf(),
            loop_ok(old(self).code@, l),
        ensures
            final(self).wf(),
            final(self).code@ == old(self).code@,
            final(self).loop_stack@ == old(self).loop_stack@.push(l),
            final(self).scope_depth == old(self).scope_depth,
            final(self).active_handlers@ == old(self).active_handlers@,
            final(self).active_finally@ == old(self).active_finally@,
            final(self).finally_regions@ == old(self).finally_regions@,
            final(self).internal_name_counter == old(self).internal_name_counter,
            final(self).closure_bound == old(self).closure_bound,
    {
        let ghost a = *self;
        self.loop_stack.push(l);
        proof {
            assert forall|k: int| 0 <= k < self.loop_stack@.len() implies loop_ok(
                self.code@,
                #[trigger] self.loop_stack@[k],
            ) by {
                if k < a.loop_stack@.len() {
                    assert(self.loop_stack@[k] == a.loop_stack@[k]);
                }
            }
        }
    }

    /// Records a `break` transfer on the innermost loop.
    fn add_break(&mut self, p: ControlTransferPatch)
        requires
            old(self).wf(),
            old(self).loop_stack@.len() > 0,
            patch_ok(old(self).code@, p),
        ensures
            resolves(*old(self), *final(self), patch_site(p)),
            final(self).wf(),
            final(self).code@ == old(self).code@,
            final(self).loop_stack@.len() == old(self).loop_stack@.len(),
            forall|k: int|
                0 <= k < old(self).loop_stack@.len() - 1 ==> #[trigger] final(self).loop_stack@[k]
                    == old(self).loop_stack@[k],
            final(self).loop_stack@.last().break_jumps@ == old(self).loop_stack@.last().break_jumps@.push(p),
            final(self).loop_stack@.last().continue_jumps@ == old(self).loop_stack@.last().continue_jumps@,
            final(self).loop_stack@.last().continue_target == old(self).loop_stack@.last().continue_target,
            final(self).loop_stack@.last().handler_depth == old(self).loop_stack@.last().handler_depth,
            final(self).loop_stack@.last().scope_depth == old(self).loop_stack@.last().scope_depth,
            final(self).scope_depth == old(self).scope_depth,
            final(self).active_handlers@ == old(self).active_handlers@,
            final(self).active_finally@ == old(self).active_finally@,
            final(self).finally_regions@ == old(self).finally_regions@,
            final(self).internal_name_counter == old(self).internal_name_counter,
            final(self).closure_bound == old(self).closure_bound,
    {
        let ghost a = *self;
        let mut l = self.pop_loop();
        l.break_jumps.push(p);
        proof {
            let bj = l.break_jumps@;
            assert forall|j: int| 0 <= j < bj.len() implies patch_ok(self.code@, #[trigger] bj[j]) by {
                if j < bj.len() - 1 {
                    assert(patches_ok(self.code@, old(self).loop_stack@.last().break_jumps@));
                    assert(bj[j] == old(self).loop_stack@.last().break_jumps@[j]);
                }
            }
        }
        self.put_loop(l);
        proof {
            let t = a.loop_stack@.len() - 1;
            assert forall|k: int| 0 <= k < a.loop_stack@.len() implies patches_prefix(
                a.loop_stack@[k].break_jumps@,
                (#[trigger] self.loop_stack@[k]).break_jumps@,
            ) && patches_prefix(a.loop_stack@[k].continue_jumps@, self.loop_stack@[k].continue_jumps@) by {
                assert(self.loop_stack@[k].break_jumps@.subrange(
                    0,
                    a.loop_stack@[k].break_jumps@.len() as int,
                ) =~= a.loop_stack@[k].break_jumps@);
                assert(self.loop_stack@[k].continue_jumps@.subrange(
                    0,
                    a.loop_stack@[k].continue_jumps@.len() as int,
                ) =~= a.loop_stack@[k].continue_jumps@);
            }
            lemma_stacks_cover_refl(a);
            assert(stacks_cover(a, *self));
            let last = self.loop_stack@[t].break_jumps@.len() - 1;
            assert(self.loop_stack@[t].break_jumps@[last] == p);
            assert(pending(*self, patch_site(p)));
            lemma_resolves_by_recording(a, *self, patch_site(p));
        }
    }

    /// Records a `continue` transfer on the innermost loop.
    fn add_continue(&mut self, p: ControlTransferPatch)
        requires
            old(self).wf(),
            old(self).loop_stack@.len() > 0,
            patch_ok(old(self).code@, p),
        ensures
            resolves(*old(self), *final(self), patch_site(p)),
            final(self).wf(),
            final(self).code@ == old(self).code@,
            final(self).loop_stack@.len() == old(self).loop_stack@.len(),
            forall|k: int|
                0 <= k < old(self).loop_stack@.len() - 1 ==> #[trigger] final(self).loop_stack@[k]
                    == old(self).loop_stack@[k],
            final(self).loop_stack@.last().continue_jumps@ == old(self).loop_stack@.last().continue_jumps@.push(p),
            final(self).loop_stack@.last().break_jumps@ == old(self).loop_stack@.last().break_jumps@,
            final(self).loop_stack@.last().continue_target == old(self).loop_stack@.last().continue_target,
            final(self).loop_stack@.last().handler_depth == old(self).loop_stack@.last().handler_depth,
            final(self).loop_stack@.last().scope_depth == old(self).loop_stack@.last().scope_depth,
            final(self).scope_depth == old(self).scope_depth,
            final(self).active_handlers@ == old(self).active_handlers@,
            final(self).active_finally@ == old(self).active_finally@,
            final(self).finally_regions@ == old(self).finally_regions@,
            final(self).internal_name_counter == old(self).internal_name_counter,
            final(self).closure_bound == old(self).closure_bound,
    {
        let ghost a = *self;
        let mut l = self.pop_loop();
        l.continue_jumps.push(p);
        proof {
            let cj = l.continue_jumps@;
            assert forall|j: int| 0 <= j < cj.len() implies patch_ok(self.code@, #[trigger] cj[j]) by {
                if j < cj.len() - 1 {
                    assert(patches_ok(self.code@, old(self).loop_stack@.last().continue_jumps@));
                    assert(cj[j] == old(self).loop_stack@.last().continue_jumps@[j]);
                }
            }
        }
        self.put_loop(l);
        proof {
            let t = a.loop_stack@.len() - 1;
            assert forall|k: int| 0 <= k < a.loop_stack@.len() implies patches_prefix(
                a.loop_stack@[k].break_jumps@,
                (#[trigger] self.loop_stack@[k]).break_jumps@,
            ) && patches_prefix(a.loop_stack@[k].continue_jumps@, self.loop_stack@[k].continue_jumps@) by {
                assert(self.loop_stack@[k].break_jumps@.subrange(
                    0,
                    a.loop_stack@[k].break_jumps@.len() as int,
                ) =~= a.loop_stack@[k].break_jumps@);
                assert(self.loop_stack@[k].continue_jumps@.subrange(
                    0,
                    a.loop_stack@[k].continue_jumps@.len() as int,
                ) =~= a.loop_stack@[k].continue_jumps@);
            }
            lemma_stacks_cover_refl(a);
            assert(stacks_cover(a, *self));
            let last = self.loop_stack@[t].continue_jumps@.len() - 1;
            assert(self.loop_stack@[t].continue_jumps@[last] == p);
            assert(pending(*self, patch_site(p)));
            lemma_resolves_by_recording(a, *self, patch_site(p));
        }
    }

    /// Applies `target` to every recorded transfer.
    fn patch_transfers(&mut self, patches: &Vec<ControlTransferPatch>, target: usize)
        requires
            old(self).wf(),
            patches_ok(old(self).code@, patches@),
        ensures
            final(self).wf(),
            same_but_code(*old(self), *final(self)),
            final(self).code@.len() == old(self).code@.len(),
            kinds_kept(old(self).code@, final(self).code@),
            forall|i: int|
                0 <= i < old(self).code@.len() && (forall|j: int|
                    0 <= j < patches@.len() ==> patch_site(#[trigger] patches@[j]) != i)
                    ==> #[trigger] final(self).code@[i] == old(self).code@[i],
            forall|j: int|
                0 <= j < patches@.len() ==> targets_within(
                    final(self).code@[patch_site(#[trigger] patches@[j])],
                    target as int,
                ),
            target <= old(self).code@.len() ==> keeps(*old(self), *final(self)),
    {
        let ghost a = *self;
        proof {
            lemma_keeps_refl(a);
        }
        let mut j: usize = 0;
        while j < patches.len()
            invariant
                self.wf(),
                same_but_code(a, *self),
                self.code@.len() == a.code@.len(),
                kinds_kept(a.code@, self.code@),
                target <= a.code@.len() ==> keeps(a, *self),
                forall|k: int|
                    0 <= k < j ==> targets_within(
                        self.code@[patch_site(#[trigger] patches@[k])],
                        target as int,
                    ),
                patches_ok(a.code@, patches@),
                j <= patches@.len(),
                forall|k: int| 0 <= k < patches@.len() ==> patch_ok(self.code@, #[trigger] patches@[k]),
                forall|i: int|
                    0 <= i < a.code@.len() && (forall|k: int|
                        0 <= k < j ==> patch_site(#[trigger] patches@[k]) != i)
                        ==> #[trigger] self.code@[i] == a.code@[i],
            decreases patches.len() - j,
        {
            let ghost b = *self;
            match patches[j] {
                ControlTransferPatch::DirectJump(index) => self.patch_jump(index, target),
                ControlTransferPatch::PendingJump(index) => self.patch_pending_jump(index, target),
            }
            proof {
                assert forall|i: int| 0 <= i < a.code@.len() implies same_kind(
                    a.code@[i],
                    #[trigger] self.code@[i],
                ) by {
                    assert(same_kind(a.code@[i], b.code@[i]));
                    assert(same_kind(b.code@[i], self.code@[i]));
                }
                assert forall|k: int| 0 <= k < patches@.len() implies patch_ok(
                    self.code@,
                    #[trigger] patches@[k],
                ) by {
                    assert(patch_ok(b.code@, patches@[k]));
                    let i = patch_site(patches@[k]);
                    if i != patch_site(patches@[j as int]) {
                        assert(self.code@[i] == b.code@[i]);
                    }
                }
                assert forall|i: int|
                    0 <= i < a.code@.len() && (forall|k: int|
                        0 <= k < j + 1 ==> patch_site(#[trigger] patches@[k]) != i) implies #[trigger] self.code@[i]
                    == a.code@[i] by {
                    assert(patch_site(patches@[j as int]) != i);
                    assert(self.code@[i] == b.code@[i]);
                }
                assert forall|k: int| 0 <= k < j + 1 implies targets_within(
                    self.code@[patch_site(#[trigger] patches@[k])],
                    target as int,
                ) by {
                    let i = patch_site(patches@[k]);
                    if i != patch_site(patches@[j as int]) {
                        assert(self.code@[i] == b.code@[i]);
                    } else {
                        assert(patch_ok(b.code@, patches@[j as int]));
                    }
                }
                if target <= a.code@.len() {
                    lemma_keeps_trans(a, b, *self);
                }
            }
            j = j + 1;
        }
    }
}

// ---------------------------------------------------------------------------
// Steps of compilation.
// ---------------------------------------------------------------------------

/// Compiling an expression: the context evolves, its stacks stay as they
/// are, and it stays well formed.
spec fn ctx_step(x0: CompileContext, x1: CompileContext) -> bool {
    &&& x1.wf()
    &&& evolves(x0, x1)
    &&& x1.loop_stack@ == x0.loop_stack@
    &&& x1.active_handlers@ == x0.active_handlers@
    &&& x1.active_finally@ == x0.active_finally@
    &&& x1.finally_regions@ == x0.finally_regions@
    &&& x1.scope_depth == x0.scope_depth
    &&& x0.closure_bound@ <= x1.closure_bound@
}

/// Compiling a statement: the context evolves and is as deep as before.
spec fn stmt_step(x0: CompileContext, x1: CompileContext) -> bool {
    &&& x1.wf()
    &&& evolves(x0, x1)
    &&& balanced(x0, x1)
    &&& x0.closure_bound@ <= x1.closure_bound@
}

broadcast proof fn lemma_stmt_step_trans(a: CompileContext, b: CompileContext, c: CompileContext)
    requires
        #[trigger] stmt_step(a, b),
        #[trigger] stmt_step(b, c),
    ensures
        stmt_step(a, c),
{
    lemma_evolves_trans(a, b, c);
}

broadcast proof fn lemma_ctx_step_is_stmt_step(a: CompileContext, b: CompileContext)
    requires
        #[trigger] ctx_step(a, b),
    ensures
        stmt_step(a, b),
{
}

broadcast proof fn lemma_ctx_step_trans(a: CompileContext, b: CompileContext, c: CompileContext)
    requires
        #[trigger] ctx_step(a, b),
        #[trigger] ctx_step(b, c),
    ensures
        ctx_step(a, c),
{
    lemma_evolves_trans(a, b, c);
}

broadcast proof fn lemma_functions_extend_trans(
    a: Seq<FunctionPrototype>,
    b: Seq<FunctionPrototype>,
    c: Seq<FunctionPrototype>,
)
    requires
        #[trigger] functions_extend(a, b),
        #[trigger] functions_extend(b, c),
    ensures
        functions_extend(a, c),
{
}

/// Patching sites that `x0` did not have keeps the step from `x0`.
proof fn lemma_ctx_step_patch(x0: CompileContext, b: CompileContext, c: CompileContext)
    requires
        ctx_step(x0, b),
        c.wf(),
        same_but_code(b, c),
        b.code@.len() <= c.code@.len(),
        forall|i: int| 0 <= i < b.code@.len() ==> same_kind(b.code@[i], #[trigger] c.code@[i]),
        forall|i: int| 0 <= i < x0.code@.len() ==> #[trigger] c.code@[i] == b.code@[i],
    ensures
        ctx_step(x0, c),
{
    lemma_evolves_code(x0, b, c);
}

proof fn lemma_stmt_step_patch(x0: CompileContext, b: CompileContext, c: CompileContext)
    requires
        stmt_step(x0, b),
        c.wf(),
        same_but_code(b, c),
        b.code@.len() <= c.code@.len(),
        forall|i: int| 0 <= i < b.code@.len() ==> same_kind(b.code@[i], #[trigger] c.code@[i]),
        forall|i: int| 0 <= i < x0.code@.len() ==> #[trigger] c.code@[i] == b.code@[i],
    ensures
        stmt_step(x0, c),
{
    lemma_evolves_code(x0, b, c);
}

/// The functions that `c1` added to `c0`'s keep every transfer inside
/// their code.
spec fn new_functions_ok(c0: Compiler, c1: Compiler) -> bool {
    functions_within_from(c1.functions@, c0.functions@.len() as int)
}

broadcast proof fn lemma_new_functions_ok_trans(a: Compiler, b: Compiler, c: Compiler)
    requires
        #[trigger] new_functions_ok(a, b),
        #[trigger] new_functions_ok(b, c),
        functions_extend(a.functions@, b.functions@),
        functions_extend(b.functions@, c.functions@),
    ensures
        new_functions_ok(a, c),
{
    assert forall|k: int| a.functions@.len() <= k < c.functions@.len() implies code_targets_within(
        #[trigger] c.functions@[k].code@,
    ) by {
        if k < b.functions@.len() {
            assert(c.functions@[k] == b.functions@[k]);
        }
    }
}

/// Compiling a statement changes no loop below the innermost one.
spec fn lower_loops_kept(x0: CompileContext, x1: CompileContext) -> bool {
    forall|k: int|
        0 <= k < x0.loop_stack@.len() - 1 ==> #[trigger] x1.loop_stack@[k] == x0.loop_stack@[k]
}

/// The handler sites of every `finally` region are as they were.
spec fn handlers_kept(x0: CompileContext, x1: CompileContext) -> bool {
    forall|k: int|
        0 <= k < x0.finally_regions@.len() ==> #[trigger] x1.finally_regions@[k].handler_sites@
            == x0.finally_regions@[k].handler_sites@
}

/// The innermost loop's `continue` target is as it was.
spec fn top_target_kept(x0: CompileContext, x1: CompileContext) -> bool {
    x0.loop_stack@.len() > 0 ==> x1.loop_stack@[x0.loop_stack@.len() - 1].continue_target
        == x0.loop_stack@[x0.loop_stack@.len() - 1].continue_target
}

/// The innermost loop's `continue` list is as it was.
spec fn top_continue_kept(x0: CompileContext, x1: CompileContext) -> bool {
    x0.loop_stack@.len() > 0 ==> x1.loop_stack@[x0.loop_stack@.len() - 1].continue_jumps@
        == x0.loop_stack@[x0.loop_stack@.len() - 1].continue_jumps@
}

/// What compiling the statement `s` keeps: the outer loops, the innermost
/// loop's `continue` list unless `s` holds a free `continue`, and, unless
/// `s` holds a `continue` bound to a `switch`, every settled position and
/// the transfers of every function it compiles.
#[verifier::opaque]
spec fn stmt_keeps(s: Stmt, c0: Compiler, c1: Compiler, x0: CompileContext, x1: CompileContext) -> bool {
    &&& lower_loops_kept(x0, x1)
    &&& top_target_kept(x0, x1)
    &&& handlers_kept(x0, x1)
    &&& !free_continue(s) ==> top_continue_kept(x0, x1)
    &&& !stmt_switch_continue(s) ==> keeps(x0, x1) && new_functions_ok(c0, c1)
}

proof fn lemma_stmt_keeps_intro(s: Stmt, c0: Compiler, c1: Compiler, x0: CompileContext, x1: CompileContext)
    requires
        lower_loops_kept(x0, x1),
        top_target_kept(x0, x1),
        handlers_kept(x0, x1),
        !free_continue(s) ==> top_continue_kept(x0, x1),
        !stmt_switch_continue(s) ==> keeps(x0, x1) && new_functions_ok(c0, c1),
    ensures
        stmt_keeps(s, c0, c1, x0, x1),
{
    reveal(stmt_keeps);
}

proof fn lemma_stmt_keeps_elim(s: Stmt, c0: Compiler, c1: Compiler, x0: CompileContext, x1: CompileContext)
    requires
        stmt_keeps(s, c0, c1, x0, x1),
    ensures
        lower_loops_kept(x0, x1),
        top_target_kept(x0, x1),
        handlers_kept(x0, x1),
        !free_continue(s) ==> top_continue_kept(x0, x1),
        !stmt_switch_continue(s) ==> keeps(x0, x1) && new_functions_ok(c0, c1),
{
    reveal(stmt_keeps);
}

/// Two jumps, each added and later patched, in interleaved order.
proof fn lemma_two_jumps(
    a: CompileContext,
    b: CompileContext,
    c: CompileContext,
    d: CompileContext,
    e: CompileContext,
    f: CompileContext,
    g: CompileContext,
    p: int,
    q: int,
)
    requires
        adds(a, b, p),
        keeps(b, c),
        adds(c, d, q),
        resolves(d, e, p),
        keeps(e, f),
        resolves(f, g, q),
    ensures
        keeps(a, g),
{
    assert forall|n: int, s: Set<int>| 0 <= n && #[trigger] settled(n, a, s) implies settled(n, g, s) by {
        assert(settled(n, b, s.insert(p)));
        assert(settled(n, c, s.insert(p)));
        assert(settled(n, d, s.insert(p).insert(q)));
        assert(settled(n, e, s.insert(p).insert(q).remove(p)));
        assert(settled(n, f, s.insert(p).insert(q).remove(p)));
        assert(settled(n, g, s.insert(p).insert(q).remove(p).remove(q)));
        lemma_settled_subset(n, g, s.insert(p).insert(q).remove(p).remove(q), s);
    }
}

/// With no loop, `finally` region or `finally` block left open, settled
/// code keeps every transfer inside itself.
proof fn lemma_settled_closed(x: CompileContext)
    requires
        settled(0, x, Set::empty()),
        x.loop_stack@.len() == 0,
        x.finally_regions@.len() == 0,
        x.active_finally@.len() == 0,
    ensures
        code_targets_within(x.code@),
{
    assert forall|i: int| 0 <= i < x.code@.len() implies #[trigger] targets_within(
        x.code@[i],
        x.code@.len() as int,
    ) by {
        assert(!pending(x, i));
    }
}

broadcast group group_compile_steps {
    lemma_ctx_step_trans,
    lemma_stmt_step_trans,
    lemma_ctx_step_is_stmt_step,
    lemma_functions_extend_trans,
    lemma_keeps_trans,
    lemma_new_functions_ok_trans,
}

proof fn lemma_ctx_step_emit(a: CompileContext, b: CompileContext)
    requires
        b.wf(),
        evolves(a, b),
        same_but_code(a, b),
    ensures
        ctx_step(a, b),
{
}

/// The compiler's functions only grow and stay well formed, and the
/// context's closures refer to them.
spec fn compiler_step(c0: Compiler, c1: Compiler, x1: CompileContext) -> bool {
    &&& functions_extend(c0.functions@, c1.functions@)
    &&& functions_wf(c1.functions@)
    &&& x1.closure_bound@ <= c1.functions@.len()
}

proof fn lemma_functions_extend_refl(a: Seq<FunctionPrototype>)
    ensures
        functions_extend(a, a),
{
}

impl CompileContext {
    /// Raises the bound on the functions this code may make closures of.
    fn raise_closure_bound(&mut self, bound: Ghost<nat>)
        requires
            old(self).wf(),
            old(self).closure_bound@ <= bound@,
        ensures
            keeps(*old(self), *final(self)),
            final(self).wf(),
            ctx_step(*old(self), *final(self)),
            final(self).code@ == old(self).code@,
            final(self).internal_name_counter == old(self).internal_name_counter,
            final(self).closure_bound == bound,
    {
        let ghost a = *self;
        self.closure_bound = bound;
        proof {
            assert forall|i: int| 0 <= i < self.code@.len() implies closures_below(
                #[trigger] self.code@[i],
                self.closure_bound@ as int,
            ) by {
                assert(closures_below(a.code@[i], a.closure_bound@ as int));
            }
            lemma_evolves_refl(a);
            lemma_keeps_same(a, *self);
        }
    }
}

/// The name a static member key reads or writes.
fn property_name_to_key(name: &PropertyName) -> (key: String)
    ensures
        key == key_name(*name),
        key@ == match *name {
            PropertyName::Identifier(n) => n@,
            PropertyName::String(n) => n@,
            PropertyName::Number { key, .. } => key@,
        },
{
    match name {
        PropertyName::Identifier(n) => n.clone(),
        PropertyName::String(n) => n.clone(),
        PropertyName::Number { key, .. } => key.clone(),
    }
}

/// Whether `names` holds `name`.
fn contains_name(names: &Vec<String>, name: &String) -> (r: bool)
    ensures
        r <==> exists|i: int| 0 <= i < names@.len() && (#[trigger] names@[i])@ == name@,
{
    let mut i: usize = 0;
    while i < names.len()
        invariant
            i <= names@.len(),
            forall|k: int| 0 <= k < i ==> (#[trigger] names@[k])@ != name@,
        decreases names.len() - i,
    {
        if names[i].eq(name) {
            return true;
        }
        i = i + 1;
    }
    false
}

impl Compiler {
    /// Compiles a function body into a new prototype; returns its index.
    #[verifier::loop_isolation(false)]
    #[verifier::spinoff_prover]
    #[verifier::rlimit(40)]
    fn compile_function(&mut self, function: &FunctionExpr) -> (r: JsliteResult<usize>)
        requires
            functions_wf(old(self).functions@),
        ensures
            outcome_matches(r, function_fault(*function)),
            r is Ok ==> functions_wf(final(self).functions@) && functions_extend(
                old(self).functions@,
                final(self).functions@,
            ),
            r matches Ok(id) ==> old(self).functions@.len() <= id && id + 1 == final(self).functions@.len(),
            r is Ok && !function_switch_continue(*function) ==> new_functions_ok(
                *old(self),
                *final(self),
            ),
            r is Ok ==> appended(old(self).functions@, final(self).functions@, function_shapes(*function)),
        decreases *function, 0int,
    {
        broadcast use group_compile_steps;

        let mut context = CompileContext::new(Ghost(self.functions@.len()));
        let ghost c0 = *self;
        let ghost x0 = context;
        let r = self.emit_block_prologue(&mut context, &function.body);
        if r.is_err() {
            return Err(r.unwrap_err());
        }
        let ghost c1 = *self;
        let r = self.compile_statements(&mut context, &function.body);
        if r.is_err() {
            return Err(r.unwrap_err());
        }
        context.emit(Instruction::PushUndefined);
        context.emit(Instruction::Return);
        let id = self.functions.len();
        let ghost before = self.functions@;
        proof {
            if !function_switch_continue(*function) {
                assert(settled(0, x0, Set::empty()));
                assert(settled(0, context, Set::empty()));
                lemma_settled_closed(context);
            }
        }
        self.functions.push(
            FunctionPrototype {
                name: clone_string_opt(&function.name),
                params: clone_patterns(&function.params),
                rest: clone_pattern_opt(&function.rest),
                code: context.code,
                is_async: function.is_async,
                is_arrow: function.is_arrow,
                span: function.span,
            },
        );
        proof {
            assert forall|k: int| 0 <= k < self.functions@.len() implies prototype_wf(
                #[trigger] self.functions@[k],
                k,
            ) by {
                if k < before.len() {
                    assert(self.functions@[k] == before[k]);
                }
            }
            let shape = seq![literal_shape(*function)];
            assert(prototype_shape(self.functions@[before.len() as int]) == literal_shape(*function));
            assert(appended(before, self.functions@, shape)) by {
                assert forall|k: int| 0 <= k < shape.len() implies prototype_shape(
                    #[trigger] self.functions@[before.len() + k],
                ) == shape[k] by {
                }
            }
            lemma_appended_three(
                c0.functions@,
                c1.functions@,
                before,
                self.functions@,
                hoisted_shapes(function.body@, function.body@.len() as int),
                stmts_shapes(function.body@, function.body@.len() as int),
                shape,
            );
            if !function_switch_continue(*function) {
                assert forall|k: int| c0.functions@.len() <= k < self.functions@.len() implies code_targets_within(
                    #[trigger] self.functions@[k].code@,
                ) by {
                    if k < before.len() {
                        assert(self.functions@[k] == before[k]);
                    }
                }
            }
        }
        Ok(id)
    }

    /// Declares a block's `let`/`const` names and its named functions (each
    /// name once), then binds each named function to a fresh closure.
    #[verifier::loop_isolation(false)]
    fn emit_block_prologue(&mut self, context: &mut CompileContext, statements: &Vec<Stmt>) -> (r:
        JsliteResult<()>)
        requires
            compiling(*old(self), *old(context)),
        ensures
            outcome_matches(r, hoisted_fault(statements@, statements@.len() as int)),
            r is Ok ==> ctx_step(*old(context), *final(context)) && compiler_step(
                *old(self),
                *final(self),
                *final(context),
            ) && keeps(*old(context), *final(context)),
            r is Ok && !stmts_switch_continue(statements@, statements@.len() as int)
                ==> new_functions_ok(*old(self), *final(self)),
            r is Ok ==> appended(old(self).functions@, final(self).functions@, hoisted_shapes(statements@, statements@.len() as int)),
            r is Ok && no_functions(statements@) ==> same_but_code(*old(context), *final(context)) && emits(
                old(context).code@,
                final(context).code@,
                lexical_decls(block_lexicals(statements@, statements@.len() as int)),
            ),
        decreases *statements, 0int,
    {
        broadcast use group_compile_steps;

        let ghost c0 = *self;
        let ghost x0 = *context;
        proof {
            lemma_evolves_refl(x0);
            lemma_functions_extend_refl(c0.functions@);
            lemma_keeps_refl(x0);
            lemma_appended_refl(c0.functions@);
        }
        let bindings = collect_block_bindings(statements.as_slice());
        let ghost lex = block_lexicals(statements@, statements@.len() as int);
        assert(pairs_view(bindings.lexicals@).len() == bindings.lexicals@.len());
        let mut declared: Vec<String> = Vec::new();
        let mut i: usize = 0;
        proof {
            lemma_emits_refl(x0.code@);
            assert(decls_of(first_lexicals(lex, 0)) =~= Seq::<Instruction>::empty());
        }
        while i < bindings.lexicals.len()
            invariant
                ctx_step(x0, *context),
                compiler_step(c0, *self, *context),
                keeps(x0, *context),
                *self == c0,
                i <= bindings.lexicals@.len(),
                lex == block_lexicals(statements@, statements@.len() as int),
                pairs_view(bindings.lexicals@) == lex,
                same_but_code(x0, *context),
                declared@.len() == first_lexicals(lex, i as int).len(),
                forall|j: int| 0 <= j < declared@.len() ==> (#[trigger] declared@[j])@ == first_lexicals(lex, i as int)[j].0,
                emits(x0.code@, context.code@, decls_of(first_lexicals(lex, i as int))),
            decreases bindings.lexicals.len() - i,
        {
            let (name, mutable) = &bindings.lexicals[i];
            let ghost f = first_lexicals(lex, i as int);
            let ghost x1 = *context;
            proof {
                assert(pairs_view(bindings.lexicals@)[i as int] == (name@, *mutable));
                assert(lex[i as int] == (name@, *mutable));
            }
            if !contains_name(&declared, name) {
                proof {
                    assert(!exists|j: int| 0 <= j < f.len() && #[trigger] f[j].0 == lex[i as int].0) by {
                        if exists|j: int| 0 <= j < f.len() && #[trigger] f[j].0 == lex[i as int].0 {
                            let j = choose|j: int| 0 <= j < f.len() && #[trigger] f[j].0 == lex[i as int].0;
                            assert(declared@[j]@ == name@);
                        }
                    }
                    assert(first_lexicals(lex, i + 1) == f.push(lex[i as int]));
                }
                declared.push(name.clone());
                context.emit(Instruction::DeclareName { name: name.clone(), mutable: *mutable });
                proof {
                    lemma_ctx_step_emit(x1, *context);
                    lemma_named(*name);
                    lemma_emits_then_as(
                        x0.code@,
                        x1.code@,
                        context.code@,
                        decls_of(f),
                        context.code@[x1.code@.len() as int],
                        Instruction::DeclareName { name: named(name@), mutable: *mutable },
                    );
                    assert(decls_of(f).push(Instruction::DeclareName { name: named(name@), mutable: *mutable })
                        =~= decls_of(first_lexicals(lex, i + 1)));
                }
            } else {
                proof {
                    let j = choose|j: int| 0 <= j < declared@.len() && (#[trigger] declared@[j])@ == name@;
                    assert(f[j].0 == lex[i as int].0);
                    assert(first_lexicals(lex, i + 1) == f);
                }
            }
            i = i + 1;
        }
        proof {
            assert(lex.len() == bindings.lexicals@.len());
        }
        let ghost xl = *context;
        let mut i: usize = 0;
        while i < statements.len()
            invariant
                ctx_step(x0, *context),
                compiler_step(c0, *self, *context),
                keeps(x0, *context),
                i <= statements@.len(),
                hoisted_fault(statements@, i as int) is None,
                !stmts_switch_continue(statements@, i as int) ==> new_functions_ok(c0, *self),
                appended(c0.functions@, self.functions@, hoisted_shapes(statements@, i as int)),
                no_functions(statements@) ==> *context == xl,
            decreases statements.len() - i,
        {
            let ghost ci = *self;
            proof {
                if no_functions(statements@) {
                    assert(!(statements@[i as int] is FunctionDecl));
                }
            }
            proof {
                assert(stmts_switch_continue(statements@, i + 1) == (stmts_switch_continue(
                    statements@,
                    i as int,
                ) || stmt_switch_continue(statements@[i as int])));
            }
            if let Stmt::FunctionDecl { function, .. } = &statements[i] {
                if let Some(name) = &function.name {
                    if !contains_name(&declared, name) {
                        declared.push(name.clone());
                        let ghost x1 = *context;
                        context.emit(Instruction::DeclareName { name: name.clone(), mutable: false });
                        proof {
                            lemma_ctx_step_emit(x1, *context);
                        }
                    }
                    proof {
                        assert(decreases_to!(*statements => *function));
                    }
                    let r = self.compile_function(function);
                    match r {
                        Err(e) => {
                            proof {
                                lemma_hoisted_fault_settled(
                                    statements@,
                                    i + 1,
                                    statements@.len() as int,
                                );
                            }
                            return Err(e);
                        },
                        Ok(id) => {
                            context.raise_closure_bound(Ghost(self.functions@.len()));
                            let ghost x2 = *context;
                            context.emit(Instruction::MakeClosure { function_id: id });
                            let ghost x3 = *context;
                            context.emit(
                                Instruction::InitializePattern(
                                    Pattern::Identifier { span: function.span, name: name.clone() },
                                ),
                            );
                            proof {
                                lemma_ctx_step_emit(x2, x3);
                                lemma_ctx_step_emit(x3, *context);
                            }
                        },
                    }
                }
            }
            proof {
                let extra = match statements@[i as int] {
                    Stmt::FunctionDecl { function, .. } => if function.name is Some {
                        function_shapes(function)
                    } else {
                        Seq::<FunctionShape>::empty()
                    },
                    _ => Seq::<FunctionShape>::empty(),
                };
                assert(hoisted_shapes(statements@, i + 1) == hoisted_shapes(statements@, i as int)
                    + extra);
                if extra.len() == 0 {
                    assert(hoisted_shapes(statements@, i as int) + extra =~= hoisted_shapes(
                        statements@,
                        i as int,
                    ));
                } else {
                    lemma_appended_trans(
                        c0.functions@,
                        ci.functions@,
                        self.functions@,
                        hoisted_shapes(statements@, i as int),
                        extra,
                    );
                }
            }
            i = i + 1;
        }
        Ok(())
    }

    /// Compiles statements one after the other.
    #[verifier::loop_isolation(false)]
    fn compile_statements(&mut self, context: &mut CompileContext, statements: &Vec<Stmt>) -> (r:
        JsliteResult<()>)
        requires
            compiling(*old(self), *old(context)),
        ensures
            outcome_matches(
                r,
                stmts_fault(
                    statements@,
                    statements@.len() as int,
                    old(context).loop_stack@.len() > 0,
                ),
            ),
            r is Ok ==> stmt_step(*old(context), *final(context)) && compiler_step(
                *old(self),
                *final(self),
                *final(context),
            ) && final(context).scope_depth == old(context).scope_depth,
            r is Ok ==> lower_loops_kept(*old(context), *final(context)) && top_target_kept(
                *old(context),
                *final(context),
            ) && handlers_kept(*old(context), *final(context)),
            r is Ok && !stmts_free_continue(statements@, statements@.len() as int)
                ==> top_continue_kept(*old(context), *final(context)),
            r is Ok && !stmts_switch_continue(statements@, statements@.len() as int) ==> keeps(
                *old(context),
                *final(context),
            ) && new_functions_ok(*old(self), *final(self)),
            r is Ok ==> appended(old(self).functions@, final(self).functions@, stmts_shapes(statements@, statements@.len() as int)),
            r is Ok ==> (stmts_code(statements@, statements@.len() as int, old(context).code@.len() as int) matches Some(
                c,
            ) ==> same_but_code(*old(context), *final(context)) && emits(old(context).code@, final(context).code@, c)),
        decreases *statements, 0int,
    {
        broadcast use group_compile_steps;

        let ghost c0 = *self;
        let ghost x0 = *context;
        let ghost base = x0.code@.len() as int;
        proof {
            lemma_evolves_refl(x0);
            lemma_functions_extend_refl(c0.functions@);
            lemma_keeps_refl(x0);
            lemma_appended_refl(c0.functions@);
            if stmts_code(statements@, statements@.len() as int, base) is Some {
                lemma_stmts_code_prefix(statements@, 0, statements@.len() as int, base);
                assert(x0.code@ =~= x0.code@ + stmts_code(statements@, 0, base).unwrap());
                lemma_emits_same(x0.code@, x0.code@, stmts_code(statements@, 0, base).unwrap());
            }
        }
        let mut i: usize = 0;
        while i < statements.len()
            invariant
                stmt_step(x0, *context),
                compiler_step(c0, *self, *context),
                context.scope_depth == x0.scope_depth,
                i <= statements@.len(),
                stmts_fault(statements@, i as int, x0.loop_stack@.len() > 0) is None,
                lower_loops_kept(x0, *context),
                top_target_kept(x0, *context),
                handlers_kept(x0, *context),
                !stmts_free_continue(statements@, i as int) ==> top_continue_kept(x0, *context),
                !stmts_switch_continue(statements@, i as int) ==> keeps(x0, *context)
                    && new_functions_ok(c0, *self),
                appended(c0.functions@, self.functions@, stmts_shapes(statements@, i as int)),
                stmts_code(statements@, statements@.len() as int, base) is Some ==> same_but_code(x0, *context)
                    && emits(x0.code@, context.code@, stmts_code(statements@, i as int, base).unwrap()),
            decreases statements.len() - i,
        {
            let ghost xi = *context;
            let ghost ci = *self;
            proof {
                assert(stmts_switch_continue(statements@, i + 1) == (stmts_switch_continue(
                    statements@,
                    i as int,
                ) || stmt_switch_continue(statements@[i as int])));
                assert(stmts_free_continue(statements@, i + 1) == (stmts_free_continue(
                    statements@,
                    i as int,
                ) || free_continue(statements@[i as int])));
                if stmts_code(statements@, statements@.len() as int, base) is Some {
                    lemma_stmts_code_prefix(statements@, i as int, statements@.len() as int, base);
                    lemma_stmts_code_prefix(statements@, i + 1, statements@.len() as int, base);
                }
            }
            let r = self.compile_stmt(context, &statements[i]);
            if r.is_err() {
                proof {
                    lemma_stmts_fault_settled(
                        statements@,
                        i + 1,
                        statements@.len() as int,
                        x0.loop_stack@.len() > 0,
                    );
                }
                return r;
            }
            proof {
                lemma_stmt_step_trans(x0, xi, *context);
                lemma_stmt_keeps_elim(statements@[i as int], ci, *self, xi, *context);
                lemma_appended_trans(
                    c0.functions@,
                    ci.functions@,
                    self.functions@,
                    stmts_shapes(statements@, i as int),
                    stmt_shapes(statements@[i as int]),
                );
                if stmts_code(statements@, statements@.len() as int, base) is Some {
                    let a = stmts_code(statements@, i as int, base).unwrap();
                    lemma_stmts_code_step(statements@, i as int, base);
                    lemma_emits_trans(
                        x0.code@,
                        xi.code@,
                        context.code@,
                        a,
                        stmt_code(statements@[i as int], base + a.len()).unwrap(),
                    );
                }
            }
            i = i + 1;
        }
        Ok(())
    }
}

impl Compiler {
    /// Compiles an expression that leaves its value on the stack.
    fn compile_expr(&mut self, context: &mut CompileContext, expression: &Expr) -> (r:
        JsliteResult<()>)
        requires
            compiling(*old(self), *old(context)),
        ensures
            outcome_matches(r, expr_fault(*expression)),
            r is Ok ==> ctx_step(*old(context), *final(context)) && compiler_step(
                *old(self),
                *final(self),
                *final(context),
            ) && keeps(*old(context), *final(context)),
            r is Ok && !expr_switch_continue(*expression) ==> new_functions_ok(*old(self), *final(self)),
            r is Ok ==> appended(old(self).functions@, final(self).functions@, expr_shapes(*expression)),
            r is Ok ==> (expr_code(*expression, old(context).code@.len() as int) matches Some(c) ==> same_but_code(
                *old(context),
                *final(context),
            ) && emits(old(context).code@, final(context).code@, c)),
            r is Ok && expression is Function ==> final(context).code@ == old(context).code@.push(
                Instruction::MakeClosure { function_id: (final(self).functions@.len() - 1) as usize },
            ),
        decreases *expression, 1int,
    {
        broadcast use group_compile_steps;

        let ghost c0 = *self;
        let ghost x0 = *context;
        proof {
            lemma_evolves_refl(x0);
            lemma_functions_extend_refl(c0.functions@);
            lemma_keeps_refl(x0);
            lemma_appended_refl(c0.functions@);
        }
        match expression {
            Expr::Undefined { .. } => {
                context.emit(Instruction::PushUndefined);
                assert(context.code@ =~= x0.code@ + seq![Instruction::PushUndefined]);
                proof {
                    lemma_emits_same(x0.code@, context.code@, seq![Instruction::PushUndefined]);
                }
            },
            Expr::Null { .. } => {
                context.emit(Instruction::PushNull);
                assert(context.code@ =~= x0.code@ + seq![Instruction::PushNull]);
                proof {
                    lemma_emits_same(x0.code@, context.code@, seq![Instruction::PushNull]);
                }
            },
            Expr::Bool { value, .. } => {
                context.emit(Instruction::PushBool(*value));
                assert(context.code@ =~= x0.code@ + seq![Instruction::PushBool(*value)]);
                proof {
                    lemma_emits_same(x0.code@, context.code@, seq![Instruction::PushBool(*value)]);
                }
            },
            Expr::Number { value_bits, .. } => {
                context.emit(Instruction::PushNumber(*value_bits));
                assert(context.code@ =~= x0.code@ + seq![Instruction::PushNumber(*value_bits)]);
                proof {
                    lemma_emits_same(x0.code@, context.code@, seq![Instruction::PushNumber(*value_bits)]);
                }
            },
            Expr::String { value, .. } => {
                context.emit(Instruction::PushString(value.clone()));
                assert(context.code@ =~= x0.code@ + seq![Instruction::PushString(*value)]);
                proof {
                    lemma_emits_same(x0.code@, context.code@, seq![Instruction::PushString(*value)]);
                }
            },
            Expr::RegExp { pattern, flags, .. } => {
                context.emit(
                    Instruction::PushRegExp { pattern: pattern.clone(), flags: flags.clone() },
                );
                proof {
                    lemma_emits_push(
                        x0.code@,
                        context.code@,
                        Instruction::PushRegExp { pattern: *pattern, flags: *flags },
                    );
                }
            },
            Expr::Identifier { name, .. } => {
                context.emit(Instruction::LoadName(name.clone()));
                assert(context.code@ =~= x0.code@ + seq![Instruction::LoadName(*name)]);
                proof {
                    lemma_emits_same(x0.code@, context.code@, seq![Instruction::LoadName(*name)]);
                }
            },
            Expr::This { .. } => {
                let this_name = "this".to_owned();
                proof {
                    assert(exists|s: String| #![trigger s@] s@ == "this"@) by {
                        assert(this_name@ == "this"@);
                    }
                }
                context.emit(Instruction::LoadName(this_name));
                proof {
                    let expected = Instruction::LoadName(named("this"@));
                    lemma_emits_refl(x0.code@);
                    lemma_emits_then_as(
                        x0.code@,
                        x0.code@,
                        context.code@,
                        seq![],
                        context.code@[x0.code@.len() as int],
                        expected,
                    );
                    assert(Seq::<Instruction>::empty().push(expected) =~= seq![expected]);
                }
            },
            Expr::Array { elements, .. } => {
                let r = self.compile_exprs(context, elements, elements.len());
                if r.is_err() {
                    return r;
                }
                let ghost x1 = *context;
                context.emit(Instruction::MakeArray { count: elements.len() });
                proof {
                    lemma_ctx_step_emit(x1, *context);
                    if exprs_code(elements@, elements@.len() as int, x0.code@.len() as int) is Some {
                        lemma_emits_then(
                            x0.code@,
                            x1.code@,
                            context.code@,
                            exprs_code(elements@, elements@.len() as int, x0.code@.len() as int).unwrap(),
                            Instruction::MakeArray { count: elements@.len() as usize },
                        );
                    }
                }
            },
            Expr::Sequence { expressions, .. } => {
                if expressions.len() == 0 {
                    context.emit(Instruction::PushUndefined);
                    assert(exprs_shapes(expressions@, 0) =~= Seq::<FunctionShape>::empty());
                    assert(context.code@ =~= x0.code@ + seq![Instruction::PushUndefined]);
                    proof {
                        lemma_emits_same(x0.code@, context.code@, seq![Instruction::PushUndefined]);
                    }
                } else {
                    let r = self.compile_sequence(context, expressions);
                    if r.is_err() {
                        return r;
                    }
                }
            },
            Expr::Object { .. } => {
                return self.compile_object(context, expression);
            },
            Expr::Function(function) => {
                let r = self.compile_function(function);
                match r {
                    Err(e) => {
                        return Err(e);
                    },
                    Ok(id) => {
                        context.raise_closure_bound(Ghost(self.functions@.len()));
                        let ghost x1 = *context;
                        context.emit(Instruction::MakeClosure { function_id: id });
                        proof {
                            lemma_ctx_step_emit(x1, *context);
                        }
                    },
                }
            },
            Expr::Unary { operator, argument, .. } => {
                let r = self.compile_expr(context, argument);
                if r.is_err() {
                    return r;
                }
                let ghost x1 = *context;
                context.emit(Instruction::Unary(*operator));
                proof {
                    lemma_ctx_step_emit(x1, *context);
                    if expr_code(**argument, x0.code@.len() as int) is Some {
                        lemma_emits_then(
                            x0.code@,
                            x1.code@,
                            context.code@,
                            expr_code(**argument, x0.code@.len() as int).unwrap(),
                            Instruction::Unary(*operator),
                        );
                    }
                }
            },
            Expr::Binary { operator, left, right, .. } => {
                let r = self.compile_expr(context, left);
                if r.is_err() {
                    return r;
                }
                let ghost xl = *context;
                let ghost c1 = *self;
                let r = self.compile_expr(context, right);
                if r.is_err() {
                    return r;
                }
                proof {
                    lemma_appended_trans(
                        c0.functions@,
                        c1.functions@,
                        self.functions@,
                        expr_shapes(**left),
                        expr_shapes(**right),
                    );
                }
                let ghost x1 = *context;
                context.emit(Instruction::Binary(*operator));
                proof {
                    lemma_ctx_step_emit(x1, *context);
                    if expr_code(*expression, x0.code@.len() as int) is Some {
                        let a = expr_code(**left, x0.code@.len() as int).unwrap();
                        let b = expr_code(**right, (x0.code@.len() + a.len()) as int).unwrap();
                        lemma_emits_trans(x0.code@, xl.code@, x1.code@, a, b);
                        lemma_emits_then(x0.code@, x1.code@, context.code@, a + b, Instruction::Binary(*operator));
                    }
                }
            },
            Expr::Logical { .. } => {
                return self.compile_logical(context, expression);
            },
            Expr::Conditional { .. } => {
                return self.compile_conditional(context, expression);
            },
            Expr::Assignment { .. } => {
                return self.compile_assignment(context, expression);
            },
            Expr::Member { object, property, optional, .. } => {
                let r = self.compile_expr(context, object);
                if r.is_err() {
                    return r;
                }
                let ghost xo = *context;
                let ghost c1 = *self;
                let r = self.compile_member_get(context, property, *optional);
                if r.is_err() {
                    return r;
                }
                proof {
                    let base = x0.code@.len() as int;
                    if expr_code(*expression, base) is Some {
                        let o = expr_code(**object, base).unwrap();
                        lemma_emits_trans(
                            x0.code@,
                            xo.code@,
                            context.code@,
                            o,
                            member_key_code(*property, base + o.len(), *optional).unwrap(),
                        );
                    }
                    lemma_appended_trans(
                        c0.functions@,
                        c1.functions@,
                        self.functions@,
                        expr_shapes(**object),
                        member_key_shapes(*property),
                    );
                }
            },
            Expr::Call { .. } => {
                return self.compile_call(context, expression);
            },
            Expr::New { callee, arguments, .. } => {
                let r = self.compile_expr(context, callee);
                if r.is_err() {
                    return r;
                }
                let ghost xc = *context;
                let ghost c1 = *self;
                let r = self.compile_exprs(context, arguments, arguments.len());
                if r.is_err() {
                    return r;
                }
                proof {
                    lemma_appended_trans(
                        c0.functions@,
                        c1.functions@,
                        self.functions@,
                        expr_shapes(**callee),
                        exprs_shapes(arguments@, arguments@.len() as int),
                    );
                }
                let ghost x1 = *context;
                context.emit(Instruction::Construct { argc: arguments.len() });
                proof {
                    lemma_ctx_step_emit(x1, *context);
                    let base = x0.code@.len() as int;
                    if expr_code(*expression, base) is Some {
                        let c = expr_code(**callee, base).unwrap();
                        let a = exprs_code(arguments@, arguments@.len() as int, base + c.len()).unwrap();
                        lemma_emits_trans(x0.code@, xc.code@, x1.code@, c, a);
                        lemma_emits_then(
                            x0.code@,
                            x1.code@,
                            context.code@,
                            c + a,
                            Instruction::Construct { argc: arguments@.len() as usize },
                        );
                    }
                }
            },
            Expr::Template { .. } => {
                return self.compile_template(context, expression);
            },
            Expr::Await { value, .. } => {
                let r = self.compile_expr(context, value);
                if r.is_err() {
                    return r;
                }
                let ghost x1 = *context;
                context.emit(Instruction::Await);
                proof {
                    lemma_ctx_step_emit(x1, *context);
                    if expr_code(**value, x0.code@.len() as int) is Some {
                        lemma_emits_then(
                            x0.code@,
                            x1.code@,
                            context.code@,
                            expr_code(**value, x0.code@.len() as int).unwrap(),
                            Instruction::Await,
                        );
                    }
                }
            },
        }
        Ok(())
    }

    /// Compiles an object literal: each value in order, then the object
    /// made of them under their keys.
    #[verifier::loop_isolation(false)]
    fn compile_object(&mut self, context: &mut CompileContext, expression: &Expr) -> (r:
        JsliteResult<()>)
        requires
            compiling(*old(self), *old(context)),
            expression is Object,
        ensures
            outcome_matches(r, expr_fault(*expression)),
            r is Ok ==> ctx_step(*old(context), *final(context)) && compiler_step(
                *old(self),
                *final(self),
                *final(context),
            ) && keeps(*old(context), *final(context)),
            r is Ok && !expr_switch_continue(*expression) ==> new_functions_ok(*old(self), *final(self)),
            r is Ok ==> appended(old(self).functions@, final(self).functions@, expr_shapes(*expression)),
            r is Ok ==> (expr_code(*expression, old(context).code@.len() as int) matches Some(c) ==> same_but_code(
                *old(context),
                *final(context),
            ) && emits(old(context).code@, final(context).code@, c)),
        decreases *expression, 0int,
    {
        broadcast use group_compile_steps;

        let ghost c0 = *self;
        let ghost x0 = *context;
        proof {
            lemma_evolves_refl(x0);
            lemma_functions_extend_refl(c0.functions@);
            lemma_keeps_refl(x0);
            lemma_appended_refl(c0.functions@);
        }
        let Expr::Object { properties, .. } = expression else {
            return Ok(());
        };
        let mut keys: Vec<PropertyName> = Vec::new();
        let mut i: usize = 0;
        let ghost base = x0.code@.len() as int;
        proof {
            lemma_emits_refl(x0.code@);
        }
        while i < properties.len()
            invariant
                keys@ =~= property_keys(properties@.take(i as int)),
                properties_code(properties@, properties@.len() as int, base) is Some ==> same_but_code(x0, *context)
                    && emits(x0.code@, context.code@, properties_code(properties@, i as int, base).unwrap()),
                base == x0.code@.len(),
                ctx_step(x0, *context),
                compiler_step(c0, *self, *context),
                keeps(x0, *context),
                i <= properties@.len(),
                properties_fault(properties@, i as int) is None,
                !properties_switch_continue(properties@, i as int) ==> new_functions_ok(c0, *self),
                appended(c0.functions@, self.functions@, properties_shapes(properties@, i as int)),
            decreases properties.len() - i,
        {
            proof {
                assert(decreases_to!(*expression => properties@[i as int].value));
            }
            let ghost c1 = *self;
            let ghost xb = *context;
            let r = self.compile_expr(context, &properties[i].value);
            if r.is_err() {
                proof {
                    lemma_properties_fault_settled(properties@, i + 1, properties@.len() as int);
                }
                return r;
            }
            keys.push(clone_property_name(&properties[i].key));
            proof {
                assert(property_keys(properties@.take(i + 1)) =~= property_keys(properties@.take(i as int)).push(
                    properties@[i as int].key,
                ));
                if properties_code(properties@, properties@.len() as int, base) is Some {
                    lemma_properties_code_prefix(properties@, i as int, properties@.len() as int, base);
                    lemma_properties_code_prefix(properties@, i + 1, properties@.len() as int, base);
                    let a = properties_code(properties@, i as int, base).unwrap();
                    lemma_emits_trans(
                        x0.code@,
                        xb.code@,
                        context.code@,
                        a,
                        expr_code(properties@[i as int].value, base + a.len()).unwrap(),
                    );
                }
                lemma_appended_trans(
                    c0.functions@,
                    c1.functions@,
                    self.functions@,
                    properties_shapes(properties@, i as int),
                    expr_shapes(properties@[i as int].value),
                );
                assert(properties_switch_continue(properties@, i + 1) == (
                properties_switch_continue(properties@, i as int) || expr_switch_continue(
                    properties@[i as int].value,
                )));
            }
            i = i + 1;
        }
        let ghost x1 = *context;
        let ghost kv = keys@;
        proof {
            lemma_vec_of(keys);
            assert(properties@.take(properties@.len() as int) =~= properties@);
        }
        context.emit(Instruction::MakeObject { keys });
        proof {
            lemma_ctx_step_emit(x1, *context);
            if properties_code(properties@, properties@.len() as int, base) is Some {
                lemma_emits_then_as(
                    x0.code@,
                    x1.code@,
                    context.code@,
                    properties_code(properties@, properties@.len() as int, base).unwrap(),
                    context.code@[x1.code@.len() as int],
                    Instruction::MakeObject { keys: vec_of(property_keys(properties@)) },
                );
            }
        }
        Ok(())
    }

    /// Compiles `&&`, `||` or `??`: the right operand runs only when the
    /// left one's value does not decide.
    #[verifier::spinoff_prover]
    #[verifier::rlimit(100)]
    fn compile_logical(&mut self, context: &mut CompileContext, expression: &Expr) -> (r:
        JsliteResult<()>)
        requires
            compiling(*old(self), *old(context)),
            expression is Logical,
        ensures
            outcome_matches(r, expr_fault(*expression)),
            r is Ok ==> ctx_step(*old(context), *final(context)) && compiler_step(
                *old(self),
                *final(self),
                *final(context),
            ) && keeps(*old(context), *final(context)),
            r is Ok && !expr_switch_continue(*expression) ==> new_functions_ok(*old(self), *final(self)),
            r is Ok ==> appended(old(self).functions@, final(self).functions@, expr_shapes(*expression)),
            r is Ok ==> (expr_code(*expression, old(context).code@.len() as int) matches Some(c) ==> same_but_code(
                *old(context),
                *final(context),
            ) && emits(old(context).code@, final(context).code@, c)),
        decreases *expression, 0int,
    {
        broadcast use group_compile_steps;

        let ghost c0 = *self;
        let ghost x0 = *context;
        proof {
            lemma_evolves_refl(x0);
            lemma_functions_extend_refl(c0.functions@);
            lemma_keeps_refl(x0);
            lemma_appended_refl(c0.functions@);
        }
        let Expr::Logical { operator, left, right, .. } = expression else {
            return Ok(());
        };
        let r = self.compile_expr(context, left);
        if r.is_err() {
            return r;
        }
        let ghost c1 = *self;
        let ghost x1 = *context;
        match operator {
            LogicalOp::And | LogicalOp::Or => {
                let jump = match operator {
                    LogicalOp::And => context.emit(Instruction::JumpIfFalse(usize::MAX)),
                    _ => context.emit(Instruction::JumpIfTrue(usize::MAX)),
                };
                let ghost y1 = *context;
                context.emit(Instruction::Pop);
                let ghost x2 = *context;
                proof {
                    lemma_ctx_step_emit(x1, x2);
                }
                let r = self.compile_expr(context, right);
                if r.is_err() {
                    return r;
                }
                let ghost x3 = *context;
                let end_ip = context.code.len();
                context.patch_jump(jump, end_ip);
                proof {
                    lemma_ctx_step_patch(x0, x3, *context);
                    let j = jump as int;
                    assert(x3.code@[j] == y1.code@[j]);
                    assert forall|n: int, s: Set<int>| 0 <= n && #[trigger] settled(n, x1, s) implies settled(
                        n,
                        *context,
                        s,
                    ) by {
                        assert(settled(n, y1, s.insert(j)));
                        assert(settled(n, x2, s.insert(j)));
                        assert(settled(n, x3, s.insert(j)));
                        assert(settled(n, *context, s.insert(j).remove(j)));
                        lemma_settled_subset(n, *context, s.insert(j).remove(j), s);
                    }
                    let base = x0.code@.len() as int;
                    if expr_code(*expression, base) is Some {
                        let a = expr_code(**left, base).unwrap();
                        let b = expr_code(**right, base + a.len() + 2).unwrap();
                        let jmp = y1.code@[j];
                        lemma_emits_then(x0.code@, x1.code@, y1.code@, a, jmp);
                        lemma_emits_then(x0.code@, y1.code@, x2.code@, a.push(jmp), Instruction::Pop);
                        lemma_emits_trans(x0.code@, x2.code@, x3.code@, a.push(jmp).push(Instruction::Pop), b);
                        assert(end_ip as int == base + a.len() + 2 + b.len());
                        lemma_emits_patch(
                            x0.code@,
                            x3.code@,
                            a.push(jmp).push(Instruction::Pop) + b,
                            a.len() as int,
                            context.code@[j],
                        );
                        assert(context.code@ =~= x3.code@.update(j, context.code@[j]));
                        assert((a.push(jmp).push(Instruction::Pop) + b).update(a.len() as int, context.code@[j])
                            =~= expr_code(*expression, base).unwrap());
                    }
                }
            },
            LogicalOp::NullishCoalesce => {
                let jump = context.emit(Instruction::JumpIfNullish(usize::MAX));
                let ghost y1 = *context;
                let end = context.emit(Instruction::Jump(usize::MAX));
                let ghost y2 = *context;
                let rhs = context.code.len();
                context.patch_jump(jump, rhs);
                let ghost y3 = *context;
                context.emit(Instruction::Pop);
                let ghost x2 = *context;
                proof {
                    lemma_ctx_step_emit(y2, y2);
                    lemma_ctx_step_patch(x1, y2, y3);
                    lemma_ctx_step_emit(y3, x2);
                }
                let r = self.compile_expr(context, right);
                if r.is_err() {
                    return r;
                }
                let ghost x3 = *context;
                let end_ip = context.code.len();
                context.patch_jump(end, end_ip);
                proof {
                    lemma_ctx_step_patch(x0, x3, *context);
                    let j = jump as int;
                    let e = end as int;
                    assert(y2.code@[j] == y1.code@[j]);
                    assert(x3.code@[e] == y2.code@[e]);
                    assert forall|n: int, s: Set<int>| 0 <= n && #[trigger] settled(n, x1, s) implies settled(
                        n,
                        *context,
                        s,
                    ) by {
                        assert(settled(n, y1, s.insert(j)));
                        assert(settled(n, y2, s.insert(j).insert(e)));
                        assert(settled(n, y3, s.insert(j).insert(e).remove(j)));
                        assert(settled(n, x2, s.insert(j).insert(e).remove(j)));
                        assert(settled(n, x3, s.insert(j).insert(e).remove(j)));
                        assert(settled(n, *context, s.insert(j).insert(e).remove(j).remove(e)));
                        lemma_settled_subset(n, *context, s.insert(j).insert(e).remove(j).remove(e), s);
                    }
                    let base = x0.code@.len() as int;
                    if expr_code(*expression, base) is Some {
                        let a = expr_code(**left, base).unwrap();
                        let b = expr_code(**right, base + a.len() + 3).unwrap();
                        let jn = y1.code@[j];
                        let je = y2.code@[e];
                        lemma_emits_then(x0.code@, x1.code@, y1.code@, a, jn);
                        lemma_emits_then(x0.code@, y1.code@, y2.code@, a.push(jn), je);
                        lemma_emits_patch(x0.code@, y2.code@, a.push(jn).push(je), a.len() as int, y3.code@[j]);
                        assert(y3.code@ =~= y2.code@.update(j, y3.code@[j]));
                        let c1 = a.push(jn).push(je).update(a.len() as int, y3.code@[j]);
                        lemma_emits_then(x0.code@, y3.code@, x2.code@, c1, Instruction::Pop);
                        lemma_emits_trans(x0.code@, x2.code@, x3.code@, c1.push(Instruction::Pop), b);
                        assert(rhs as int == base + a.len() + 2);
                        assert(end_ip as int == base + a.len() + 3 + b.len());
                        lemma_emits_patch(
                            x0.code@,
                            x3.code@,
                            c1.push(Instruction::Pop) + b,
                            (a.len() + 1) as int,
                            context.code@[e],
                        );
                        assert(context.code@ =~= x3.code@.update(e, context.code@[e]));
                        assert((c1.push(Instruction::Pop) + b).update((a.len() + 1) as int, context.code@[e])
                            =~= expr_code(*expression, base).unwrap());
                    }
                }
            },
        }
        proof {
            lemma_keeps_trans(x0, x1, *context);
            lemma_appended_trans(
                c0.functions@,
                c1.functions@,
                self.functions@,
                expr_shapes(**left),
                expr_shapes(**right),
            );
        }
        Ok(())
    }

    /// Compiles `test ? consequent : alternate`.
    fn compile_conditional(&mut self, context: &mut CompileContext, expression: &Expr) -> (r:
        JsliteResult<()>)
        requires
            compiling(*old(self), *old(context)),
            expression is Conditional,
        ensures
            outcome_matches(r, expr_fault(*expression)),
            r is Ok ==> ctx_step(*old(context), *final(context)) && compiler_step(
                *old(self),
                *final(self),
                *final(context),
            ) && keeps(*old(context), *final(context)),
            r is Ok && !expr_switch_continue(*expression) ==> new_functions_ok(*old(self), *final(self)),
            r is Ok ==> appended(old(self).functions@, final(self).functions@, expr_shapes(*expression)),
            r is Ok ==> (expr_code(*expression, old(context).code@.len() as int) matches Some(c) ==> same_but_code(
                *old(context),
                *final(context),
            ) && emits(old(context).code@, final(context).code@, c)),
        decreases *expression, 0int,
    {
        broadcast use group_compile_steps;

        let ghost c0 = *self;
        let ghost x0 = *context;
        proof {
            lemma_evolves_refl(x0);
            lemma_functions_extend_refl(c0.functions@);
            lemma_keeps_refl(x0);
            lemma_appended_refl(c0.functions@);
        }
        let Expr::Conditional { test, consequent, alternate, .. } = expression else {
            return Ok(());
        };
        let r = self.compile_expr(context, test);
        if r.is_err() {
            return r;
        }
        let ghost c1 = *self;
        let ghost x1 = *context;
        let else_jump = context.emit(Instruction::JumpIfFalse(usize::MAX));
        let ghost y1 = *context;
        context.emit(Instruction::Pop);
        let ghost x2 = *context;
        proof {
            lemma_ctx_step_emit(x1, x2);
        }
        let r = self.compile_expr(context, consequent);
        if r.is_err() {
            return r;
        }
        let ghost c2 = *self;
        let ghost x3 = *context;
        let end_jump = context.emit(Instruction::Jump(usize::MAX));
        let ghost y2 = *context;
        let else_ip = context.code.len();
        context.patch_jump(else_jump, else_ip);
        let ghost y3 = *context;
        context.emit(Instruction::Pop);
        let ghost x4 = *context;
        proof {
            lemma_ctx_step_emit(x3, y2);
            lemma_ctx_step_patch(x0, y2, y3);
            lemma_ctx_step_emit(y3, x4);
        }
        let r = self.compile_expr(context, alternate);
        if r.is_err() {
            return r;
        }
        let ghost x5 = *context;
        let end_ip = context.code.len();
        context.patch_jump(end_jump, end_ip);
        proof {
            lemma_ctx_step_patch(x0, x5, *context);
            let p = else_jump as int;
            let q = end_jump as int;
            assert(y2.code@[p] == y1.code@[p]);
            assert(x5.code@[q] == y2.code@[q]);
            assert forall|n: int, s: Set<int>| 0 <= n && #[trigger] settled(n, x1, s) implies settled(
                n,
                *context,
                s,
            ) by {
                assert(settled(n, y1, s.insert(p)));
                assert(settled(n, x2, s.insert(p)));
                assert(settled(n, x3, s.insert(p)));
                assert(settled(n, y2, s.insert(p).insert(q)));
                assert(settled(n, y3, s.insert(p).insert(q).remove(p)));
                assert(settled(n, x4, s.insert(p).insert(q).remove(p)));
                assert(settled(n, x5, s.insert(p).insert(q).remove(p)));
                assert(settled(n, *context, s.insert(p).insert(q).remove(p).remove(q)));
                lemma_settled_subset(n, *context, s.insert(p).insert(q).remove(p).remove(q), s);
            }
            lemma_keeps_trans(x0, x1, *context);
            lemma_appended_three(
                c0.functions@,
                c1.functions@,
                c2.functions@,
                self.functions@,
                expr_shapes(**test),
                expr_shapes(**consequent),
                expr_shapes(**alternate),
            );
            let base = x0.code@.len() as int;
            if expr_code(*expression, base) is Some {
                let t = expr_code(**test, base).unwrap();
                let c = expr_code(**consequent, base + t.len() + 2).unwrap();
                let else_start = base + t.len() + 2 + c.len() + 1;
                let a = expr_code(**alternate, else_start + 1).unwrap();
                let jf = y1.code@[p];
                let jj = y2.code@[q];
                lemma_emits_then(x0.code@, x1.code@, y1.code@, t, jf);
                lemma_emits_then(x0.code@, y1.code@, x2.code@, t.push(jf), Instruction::Pop);
                lemma_emits_trans(x0.code@, x2.code@, x3.code@, t.push(jf).push(Instruction::Pop), c);
                let c1 = t.push(jf).push(Instruction::Pop) + c;
                lemma_emits_then(x0.code@, x3.code@, y2.code@, c1, jj);
                lemma_emits_patch(x0.code@, y2.code@, c1.push(jj), t.len() as int, y3.code@[p]);
                assert(y3.code@ =~= y2.code@.update(p, y3.code@[p]));
                let c2 = c1.push(jj).update(t.len() as int, y3.code@[p]);
                lemma_emits_then(x0.code@, y3.code@, x4.code@, c2, Instruction::Pop);
                lemma_emits_trans(x0.code@, x4.code@, x5.code@, c2.push(Instruction::Pop), a);
                assert(else_ip as int == else_start);
                assert(end_ip as int == else_start + 1 + a.len());
                lemma_emits_patch(x0.code@, x5.code@, c2.push(Instruction::Pop) + a, c1.len() as int, context.code@[q]);
                assert(context.code@ =~= x5.code@.update(q, context.code@[q]));
                assert((c2.push(Instruction::Pop) + a).update(c1.len() as int, context.code@[q])
                    =~= expr_code(*expression, base).unwrap());
            }
        }
        Ok(())
    }

    /// Compiles a call: a method call passes its object as `this`.
    fn compile_call(&mut self, context: &mut CompileContext, expression: &Expr) -> (r:
        JsliteResult<()>)
        requires
            compiling(*old(self), *old(context)),
            expression is Call,
        ensures
            outcome_matches(r, expr_fault(*expression)),
            r is Ok ==> ctx_step(*old(context), *final(context)) && compiler_step(
                *old(self),
                *final(self),
                *final(context),
            ) && keeps(*old(context), *final(context)),
            r is Ok && !expr_switch_continue(*expression) ==> new_functions_ok(*old(self), *final(self)),
            r is Ok ==> appended(old(self).functions@, final(self).functions@, expr_shapes(*expression)),
            r is Ok ==> (expr_code(*expression, old(context).code@.len() as int) matches Some(c) ==> same_but_code(
                *old(context),
                *final(context),
            ) && emits(old(context).code@, final(context).code@, c)),
        decreases *expression, 0int,
    {
        broadcast use group_compile_steps;

        let ghost c0 = *self;
        let ghost x0 = *context;
        proof {
            lemma_evolves_refl(x0);
            lemma_functions_extend_refl(c0.functions@);
            lemma_keeps_refl(x0);
            lemma_appended_refl(c0.functions@);
        }
        let Expr::Call { callee, arguments, optional, .. } = expression else {
            return Ok(());
        };
        let with_this = match &**callee {
            Expr::Member { object, property, optional: member_optional, .. } => {
                proof {
                    assert(expr_switch_continue(**callee) == (expr_switch_continue(**object)
                        || member_key_switch_continue(*property)));
                }
                let r = self.compile_expr(context, object);
                if r.is_err() {
                    return r;
                }
                let ghost x1 = *context;
                context.emit(Instruction::Dup);
                proof {
                    lemma_ctx_step_emit(x1, *context);
                }
                let ghost xd = *context;
                let ghost c1 = *self;
                let r = self.compile_member_get(context, property, *member_optional);
                if r.is_err() {
                    return r;
                }
                proof {
                    let base = x0.code@.len() as int;
                    if expr_code(*expression, base) is Some {
                        let o = expr_code(**object, base).unwrap();
                        lemma_emits_then(x0.code@, x1.code@, xd.code@, o, Instruction::Dup);
                        lemma_emits_trans(
                            x0.code@,
                            xd.code@,
                            context.code@,
                            o.push(Instruction::Dup),
                            member_key_code(*property, base + o.len() + 1, *member_optional).unwrap(),
                        );
                    }
                    assert(expr_shapes(**callee) == expr_shapes(**object) + member_key_shapes(*property));
                    lemma_appended_trans(
                        c0.functions@,
                        c1.functions@,
                        self.functions@,
                        expr_shapes(**object),
                        member_key_shapes(*property),
                    );
                }
                true
            },
            _ => {
                let r = self.compile_expr(context, callee);
                if r.is_err() {
                    return r;
                }
                false
            },
        };
        let ghost c2 = *self;
        let ghost xh = *context;
        let r = self.compile_exprs(context, arguments, arguments.len());
        if r.is_err() {
            return r;
        }
        proof {
            lemma_appended_trans(
                c0.functions@,
                c2.functions@,
                self.functions@,
                expr_shapes(**callee),
                exprs_shapes(arguments@, arguments@.len() as int),
            );
        }
        let ghost x1 = *context;
        context.emit(Instruction::Call { argc: arguments.len(), with_this, optional: *optional });
        proof {
            lemma_ctx_step_emit(x1, *context);
            let base = x0.code@.len() as int;
            if expr_code(*expression, base) is Some {
                let h = (xh.code@.len() - base) as int;
                let head = if with_this {
                    match &**callee {
                        Expr::Member { object, property, optional: mo, .. } => {
                            let o = expr_code(**object, base).unwrap();
                            o.push(Instruction::Dup) + member_key_code(*property, base + o.len() + 1, *mo).unwrap()
                        },
                        _ => Seq::empty(),
                    }
                } else {
                    expr_code(**callee, base).unwrap()
                };
                assert(emits(x0.code@, xh.code@, head));
                let a = exprs_code(arguments@, arguments@.len() as int, base + head.len()).unwrap();
                lemma_emits_trans(x0.code@, xh.code@, x1.code@, head, a);
                lemma_emits_then(
                    x0.code@,
                    x1.code@,
                    context.code@,
                    head + a,
                    Instruction::Call { argc: arguments@.len() as usize, with_this, optional: *optional },
                );
            }
        }
        Ok(())
    }

    /// Compiles a template literal: its parts joined by `+`, the empty
    /// string when it has none.
    #[verifier::loop_isolation(false)]
    fn compile_template(&mut self, context: &mut CompileContext, expression: &Expr) -> (r:
        JsliteResult<()>)
        requires
            compiling(*old(self), *old(context)),
            expression is Template,
        ensures
            outcome_matches(r, expr_fault(*expression)),
            r is Ok ==> ctx_step(*old(context), *final(context)) && compiler_step(
                *old(self),
                *final(self),
                *final(context),
            ) && keeps(*old(context), *final(context)),
            r is Ok && !expr_switch_continue(*expression) ==> new_functions_ok(*old(self), *final(self)),
            r is Ok ==> appended(old(self).functions@, final(self).functions@, expr_shapes(*expression)),
            r is Ok ==> (expr_code(*expression, old(context).code@.len() as int) matches Some(c) ==> same_but_code(
                *old(context),
                *final(context),
            ) && emits(old(context).code@, final(context).code@, c)),
        decreases *expression, 0int,
    {
        broadcast use group_compile_steps;

        let ghost c0 = *self;
        let ghost x0 = *context;
        proof {
            lemma_evolves_refl(x0);
            lemma_functions_extend_refl(c0.functions@);
            lemma_keeps_refl(x0);
            lemma_appended_refl(c0.functions@);
        }
        let Expr::Template { quasis, expressions, .. } = expression else {
            return Ok(());
        };
        let ghost base = x0.code@.len() as int;
        let ghost coded = template_parts(quasis@, expressions@, quasis@.len() as int, base) is Some;
        let ghost mut acc: Seq<Instruction> = seq![];
        proof {
            lemma_emits_refl(x0.code@);
        }
        let mut produced = false;
        let mut index: usize = 0;
        while index < quasis.len()
            invariant
                coded ==> template_parts(quasis@, expressions@, index as int, base) == Some((acc, produced))
                    && same_but_code(x0, *context) && emits(x0.code@, context.code@, acc),
                ctx_step(x0, *context),
                compiler_step(c0, *self, *context),
                keeps(x0, *context),
                index <= quasis@.len(),
                exprs_fault(
                    expressions@,
                    if index < expressions@.len() {
                        index as int
                    } else {
                        expressions@.len() as int
                    },
                ) is None,
                !exprs_switch_continue(
                    expressions@,
                    if index < expressions@.len() {
                        index as int
                    } else {
                        expressions@.len() as int
                    },
                ) ==> new_functions_ok(c0, *self),
                appended(
                    c0.functions@,
                    self.functions@,
                    exprs_shapes(
                        expressions@,
                        if index < expressions@.len() {
                            index as int
                        } else {
                            expressions@.len() as int
                        },
                    ),
                ),
            decreases quasis.len() - index,
        {
            let ghost acc0 = acc;
            let ghost p0 = produced;
            proof {
                if coded {
                    lemma_template_parts_prefix(quasis@, expressions@, index + 1, quasis@.len() as int, base);
                }
            }
            if !quasis[index].as_str().is_empty() {
                let ghost x1 = *context;
                context.emit(Instruction::PushString(quasis[index].clone()));
                proof {
                    lemma_ctx_step_emit(x1, *context);
                    if coded {
                        lemma_emits_then(x0.code@, x1.code@, context.code@, acc, Instruction::PushString(quasis@[index as int]));
                    }
                    acc = acc.push(Instruction::PushString(quasis@[index as int]));
                }
                if produced {
                    let ghost x2 = *context;
                    context.emit(Instruction::Binary(BinaryOp::Add));
                    proof {
                        lemma_ctx_step_emit(x2, *context);
                        if coded {
                            lemma_emits_then(x0.code@, x2.code@, context.code@, acc, Instruction::Binary(BinaryOp::Add));
                        }
                        acc = acc.push(Instruction::Binary(BinaryOp::Add));
                    }
                }
                produced = true;
            }
            let ghost acc1 = acc;
            let ghost p1 = produced;
            proof {
                if coded {
                    assert(acc1 == if quasis@[index as int]@.len() == 0 {
                        acc0
                    } else if p0 {
                        acc0.push(Instruction::PushString(quasis@[index as int])).push(Instruction::Binary(BinaryOp::Add))
                    } else {
                        acc0.push(Instruction::PushString(quasis@[index as int]))
                    });
                    assert(p1 == (p0 || quasis@[index as int]@.len() > 0));
                }
            }
            if index < expressions.len() {
                proof {
                    assert(decreases_to!(*expression => expressions@[index as int]));
                }
                let ghost c1 = *self;
                let ghost xm = *context;
                let r = self.compile_expr(context, &expressions[index]);
                if r.is_err() {
                    proof {
                        lemma_exprs_fault_settled(
                            expressions@,
                            index + 1,
                            if quasis@.len() < expressions@.len() {
                                quasis@.len() as int
                            } else {
                                expressions@.len() as int
                            },
                        );
                    }
                    return r;
                }
                let ghost xe = *context;
                proof {
                    if coded {
                        let c = expr_code(expressions@[index as int], base + acc1.len()).unwrap();
                        lemma_emits_trans(x0.code@, xm.code@, xe.code@, acc1, c);
                        acc = acc1 + c;
                    }
                }
                if produced {
                    let ghost x2 = *context;
                    context.emit(Instruction::Binary(BinaryOp::Add));
                    proof {
                        lemma_ctx_step_emit(x2, *context);
                        if coded {
                            lemma_emits_then(x0.code@, x2.code@, context.code@, acc, Instruction::Binary(BinaryOp::Add));
                        }
                        acc = acc.push(Instruction::Binary(BinaryOp::Add));
                    }
                }
                produced = true;
                proof {
                    lemma_appended_trans(
                        c0.functions@,
                        c1.functions@,
                        self.functions@,
                        exprs_shapes(expressions@, index as int),
                        expr_shapes(expressions@[index as int]),
                    );
                    assert(exprs_switch_continue(expressions@, index + 1) == (exprs_switch_continue(
                        expressions@,
                        index as int,
                    ) || expr_switch_continue(expressions@[index as int])));
                }
            }
            index = index + 1;
        }
        let ghost xa = *context;
        if !produced {
            let ghost x1 = *context;
            let empty = String::new();
            proof {
                lemma_named(empty);
                assert(empty@ =~= Seq::<char>::empty());
            }
            context.emit(Instruction::PushString(empty));
            proof {
                lemma_ctx_step_emit(x1, *context);
                if coded {
                    lemma_emits_then_as(
                        x0.code@,
                        x1.code@,
                        context.code@,
                        acc,
                        context.code@[x1.code@.len() as int],
                        Instruction::PushString(named(Seq::empty())),
                    );
                }
            }
        }
        proof {
            if !expr_switch_continue(*expression) {
                let m = if quasis@.len() < expressions@.len() {
                    quasis@.len() as int
                } else {
                    expressions@.len() as int
                };
                if exprs_switch_continue(expressions@, m) {
                    lemma_exprs_switch_continue_grows(expressions@, m, expressions@.len() as int);
                }
            }
        }
        Ok(())
    }
    /// Compiles `expressions[..count]` in order.
    #[verifier::loop_isolation(false)]
    fn compile_exprs(&mut self, context: &mut CompileContext, expressions: &Vec<Expr>, count: usize) -> (r:
        JsliteResult<()>)
        requires
            compiling(*old(self), *old(context)),
            count <= expressions@.len(),
        ensures
            outcome_matches(r, exprs_fault(expressions@, count as int)),
            r is Ok ==> ctx_step(*old(context), *final(context)) && compiler_step(
                *old(self),
                *final(self),
                *final(context),
            ) && keeps(*old(context), *final(context)),
            r is Ok && !exprs_switch_continue(expressions@, count as int) ==> new_functions_ok(
                *old(self),
                *final(self),
            ),
            r is Ok ==> appended(old(self).functions@, final(self).functions@, exprs_shapes(expressions@, count as int)),
            r is Ok ==> (exprs_code(expressions@, count as int, old(context).code@.len() as int) matches Some(c) ==> same_but_code(
                *old(context),
                *final(context),
            ) && emits(old(context).code@, final(context).code@, c)),
        decreases *expressions, 0int,
    {
        broadcast use group_compile_steps;

        let ghost c0 = *self;
        let ghost x0 = *context;
        proof {
            lemma_evolves_refl(x0);
            lemma_functions_extend_refl(c0.functions@);
            lemma_keeps_refl(x0);
            lemma_appended_refl(c0.functions@);
        }
        let mut i: usize = 0;
        proof {
            lemma_emits_refl(x0.code@);
        }
        while i < count
            invariant
                ctx_step(x0, *context),
                compiler_step(c0, *self, *context),
                keeps(x0, *context),
                i <= count <= expressions@.len(),
                exprs_fault(expressions@, i as int) is None,
                !exprs_switch_continue(expressions@, i as int) ==> new_functions_ok(c0, *self),
                appended(c0.functions@, self.functions@, exprs_shapes(expressions@, i as int)),
                exprs_code(expressions@, count as int, x0.code@.len() as int) is Some ==> same_but_code(x0, *context)
                    && emits(x0.code@, context.code@, exprs_code(expressions@, i as int, x0.code@.len() as int).unwrap()),
            decreases count - i,
        {
            let ghost c1 = *self;
            let ghost xb = *context;
            let r = self.compile_expr(context, &expressions[i]);
            if r.is_err() {
                proof {
                    lemma_exprs_fault_settled(expressions@, i + 1, count as int);
                }
                return r;
            }
            proof {
                let base = x0.code@.len() as int;
                if exprs_code(expressions@, count as int, base) is Some {
                    lemma_exprs_code_prefix(expressions@, i as int, count as int, base);
                    lemma_exprs_code_prefix(expressions@, i + 1, count as int, base);
                    let a = exprs_code(expressions@, i as int, base).unwrap();
                    assert(exprs_code(expressions@, i + 1, base).unwrap() == a + expr_code(
                        expressions@[i as int],
                        base + a.len(),
                    ).unwrap());
                    lemma_emits_trans(
                        x0.code@,
                        xb.code@,
                        context.code@,
                        a,
                        expr_code(expressions@[i as int], base + a.len()).unwrap(),
                    );
                }
                lemma_appended_trans(
                    c0.functions@,
                    c1.functions@,
                    self.functions@,
                    exprs_shapes(expressions@, i as int),
                    expr_shapes(expressions@[i as int]),
                );
                assert(exprs_switch_continue(expressions@, i + 1) == (exprs_switch_continue(
                    expressions@,
                    i as int,
                ) || expr_switch_continue(expressions@[i as int])));
            }
            i = i + 1;
        }
        Ok(())
    }

    /// Compiles the expressions of a sequence in order, dropping the value
    /// of each but the last.
    #[verifier::loop_isolation(false)]
    fn compile_sequence(&mut self, context: &mut CompileContext, expressions: &Vec<Expr>) -> (r:
        JsliteResult<()>)
        requires
            compiling(*old(self), *old(context)),
        ensures
            outcome_matches(r, exprs_fault(expressions@, expressions@.len() as int)),
            r is Ok ==> ctx_step(*old(context), *final(context)) && compiler_step(
                *old(self),
                *final(self),
                *final(context),
            ) && keeps(*old(context), *final(context)),
            r is Ok && !exprs_switch_continue(expressions@, expressions@.len() as int) ==> new_functions_ok(
                *old(self),
                *final(self),
            ),
            r is Ok ==> appended(
                old(self).functions@,
                final(self).functions@,
                exprs_shapes(expressions@, expressions@.len() as int),
            ),
            r is Ok ==> (sequence_code(expressions@, expressions@.len() as int, old(context).code@.len() as int) matches Some(c) ==> same_but_code(
                *old(context),
                *final(context),
            ) && emits(old(context).code@, final(context).code@, c)),
        decreases *expressions, 0int,
    {
        broadcast use group_compile_steps;

        let ghost c0 = *self;
        let ghost x0 = *context;
        proof {
            lemma_evolves_refl(x0);
            lemma_functions_extend_refl(c0.functions@);
            lemma_keeps_refl(x0);
            lemma_appended_refl(c0.functions@);
        }
        let count = expressions.len();
        let mut i: usize = 0;
        proof {
            lemma_emits_refl(x0.code@);
        }
        while i < count
            invariant
                ctx_step(x0, *context),
                compiler_step(c0, *self, *context),
                keeps(x0, *context),
                i <= count == expressions@.len(),
                exprs_fault(expressions@, i as int) is None,
                !exprs_switch_continue(expressions@, i as int) ==> new_functions_ok(c0, *self),
                appended(c0.functions@, self.functions@, exprs_shapes(expressions@, i as int)),
                sequence_code(expressions@, count as int, x0.code@.len() as int) is Some ==> same_but_code(x0, *context)
                    && emits(x0.code@, context.code@, sequence_code(expressions@, i as int, x0.code@.len() as int).unwrap()),
            decreases count - i,
        {
            let ghost c1 = *self;
            let ghost xpre = *context;
            if i > 0 {
                let ghost x1 = *context;
                context.emit(Instruction::Pop);
                proof {
                    lemma_ctx_step_emit(x1, *context);
                }
            }
            let ghost xb = *context;
            let r = self.compile_expr(context, &expressions[i]);
            if r.is_err() {
                proof {
                    lemma_exprs_fault_settled(expressions@, i + 1, count as int);
                }
                return r;
            }
            proof {
                let base = x0.code@.len() as int;
                if sequence_code(expressions@, count as int, base) is Some {
                    lemma_sequence_code_prefix(expressions@, i as int, count as int, base);
                    lemma_sequence_code_prefix(expressions@, i + 1, count as int, base);
                    if i == 0 {
                        assert(sequence_code(expressions@, 1, base) == expr_code(expressions@[0], base));
                        lemma_emits_nothing(x0.code@, xpre.code@);
                    } else {
                        let a = sequence_code(expressions@, i as int, base).unwrap();
                        let e = expr_code(expressions@[i as int], base + a.len() + 1).unwrap();
                        assert(sequence_code(expressions@, i + 1, base).unwrap() == a.push(Instruction::Pop) + e);
                        lemma_emits_push(xpre.code@, xb.code@, Instruction::Pop);
                        lemma_emits_trans(x0.code@, xpre.code@, xb.code@, a, seq![Instruction::Pop]);
                        lemma_emits_trans(x0.code@, xb.code@, context.code@, a + seq![Instruction::Pop], e);
                        assert(a + seq![Instruction::Pop] + e =~= a.push(Instruction::Pop) + e);
                    }
                }
                lemma_appended_trans(
                    c0.functions@,
                    c1.functions@,
                    self.functions@,
                    exprs_shapes(expressions@, i as int),
                    expr_shapes(expressions@[i as int]),
                );
                assert(exprs_switch_continue(expressions@, i + 1) == (exprs_switch_continue(
                    expressions@,
                    i as int,
                ) || expr_switch_continue(expressions@[i as int])));
            }
            i = i + 1;
        }
        Ok(())
    }

    /// Reads a member of the object on the stack.
    fn compile_member_get(&mut self, context: &mut CompileContext, property: &MemberProperty, optional: bool) -> (r:
        JsliteResult<()>)
        requires
            compiling(*old(self), *old(context)),
        ensures
            outcome_matches(r, member_key_fault(*property)),
            r is Ok ==> ctx_step(*old(context), *final(context)) && compiler_step(
                *old(self),
                *final(self),
                *final(context),
            ) && keeps(*old(context), *final(context)),
            r is Ok && !member_key_switch_continue(*property) ==> new_functions_ok(
                *old(self),
                *final(self),
            ),
            r is Ok ==> appended(old(self).functions@, final(self).functions@, member_key_shapes(*property)),
            r is Ok ==> (member_key_code(*property, old(context).code@.len() as int, optional) matches Some(c)
                ==> same_but_code(*old(context), *final(context)) && emits(old(context).code@, final(context).code@, c)),
        decreases *property, 0int,
    {
        broadcast use group_compile_steps;

        let ghost c0 = *self;
        let ghost x0 = *context;
        proof {
            lemma_functions_extend_refl(c0.functions@);
            lemma_keeps_refl(x0);
            lemma_appended_refl(c0.functions@);
        }
        match property {
            MemberProperty::Static(name) => {
                context.emit(Instruction::GetPropStatic { name: property_name_to_key(name), optional });
                proof {
                    lemma_ctx_step_emit(x0, *context);
                    lemma_emits_push(
                        x0.code@,
                        context.code@,
                        Instruction::GetPropStatic { name: key_name(*name), optional },
                    );
                }
            },
            MemberProperty::Computed(key) => {
                let r = self.compile_expr(context, key);
                if r.is_err() {
                    return r;
                }
                let ghost x1 = *context;
                context.emit(Instruction::GetPropComputed { optional });
                proof {
                    lemma_ctx_step_emit(x1, *context);
                    if expr_code(**key, x0.code@.len() as int) is Some {
                        lemma_emits_then(
                            x0.code@,
                            x1.code@,
                            context.code@,
                            expr_code(**key, x0.code@.len() as int).unwrap(),
                            Instruction::GetPropComputed { optional },
                        );
                    }
                }
            },
        }
        Ok(())
    }
}

/// An empty span, for the bindings the compiler introduces itself.
fn no_span() -> (span: SourceSpan)
    ensures
        span.start == 0 && span.end == 0,
{
    SourceSpan::new(0, 0)
}

impl CompileContext {
    /// With the current value on the stack: keeps it and jumps past the
    /// assignment unless it is `null` or `undefined`, in which case it drops
    /// it and the target operands. Returns the jump to patch to the end.
    fn emit_nullish_check(&mut self) -> (end_jump: usize)
        requires
            old(self).wf(),
        ensures
            adds(*old(self), *final(self), end_jump as int),
            ctx_step(*old(self), *final(self)),
            same_but_code(*old(self), *final(self)),
            old(self).code@.len() <= end_jump < final(self).code@.len(),
            final(self).code@[end_jump as int] is Jump,
    {
        let ghost x0 = *self;
        self.emit(Instruction::Dup);
        let ghost y1 = *self;
        let rhs_jump = self.emit(Instruction::JumpIfNullish(usize::MAX));
        let ghost y2 = *self;
        self.emit(Instruction::Pop);
        let ghost y3 = *self;
        let end_jump = self.emit(Instruction::Jump(usize::MAX));
        let ghost x1 = *self;
        let rhs_ip = self.code.len();
        self.patch_jump(rhs_jump, rhs_ip);
        let ghost x2 = *self;
        self.emit(Instruction::Pop);
        let ghost y4 = *self;
        self.emit(Instruction::Pop);
        proof {
            lemma_evolves_code(x0, x1, x2);
            lemma_evolves_trans(x0, x2, *self);
            assert(self.code@[end_jump as int] == x1.code@[end_jump as int]);
            let r = rhs_jump as int;
            let e = end_jump as int;
            assert forall|n: int, s: Set<int>| 0 <= n && #[trigger] settled(n, x0, s) implies settled(
                n,
                *self,
                s.insert(e),
            ) by {
                assert(settled(n, y1, s));
                assert(settled(n, y2, s.insert(r)));
                assert(settled(n, y3, s.insert(r)));
                assert(settled(n, x1, s.insert(r).insert(e)));
                assert(settled(n, x2, s.insert(r).insert(e).remove(r)));
                assert(settled(n, y4, s.insert(r).insert(e).remove(r)));
                assert(settled(n, *self, s.insert(r).insert(e).remove(r)));
                lemma_settled_subset(n, *self, s.insert(r).insert(e).remove(r), s.insert(e));
            }
        }
        end_jump
    }
}

impl Compiler {
    /// Applies the binary operator of a compound assignment, or reports the
    /// logical assignments, which have none.
    fn emit_compound_operator(&mut self, context: &mut CompileContext, operator: AssignOp) -> (r:
        JsliteResult<()>)
        requires
            compiling(*old(self), *old(context)),
            operator != AssignOp::Assign,
            operator != AssignOp::NullishAssign,
        ensures
            outcome_matches(r, operator_fault(operator)),
            r is Ok ==> ctx_step(*old(context), *final(context)) && *final(self) == *old(self)
                && final(context).closure_bound == old(context).closure_bound && keeps(
                *old(context),
                *final(context),
            ),
            r is Ok ==> (compound_binary(operator) matches Some(op) && same_but_code(
                *old(context),
                *final(context),
            ) && final(context).code@ == old(context).code@.push(Instruction::Binary(op))),
    {
        match assign_op_to_binary(operator) {
            Ok(op) => {
                let ghost x0 = *context;
                context.emit(Instruction::Binary(op));
                proof {
                    lemma_ctx_step_emit(x0, *context);
                }
                Ok(())
            },
            Err(e) => Err(e),
        }
    }

    /// Compiles an assignment expression, leaving the assigned value.
    #[verifier::spinoff_prover]
    #[verifier::rlimit(100)]
    fn compile_assignment(&mut self, context: &mut CompileContext, expression: &Expr) -> (r:
        JsliteResult<()>)
        requires
            compiling(*old(self), *old(context)),
            expression is Assignment,
        ensures
            outcome_matches(r, expr_fault(*expression)),
            r is Ok ==> ctx_step(*old(context), *final(context)) && compiler_step(
                *old(self),
                *final(self),
                *final(context),
            ) && keeps(*old(context), *final(context)),
            r is Ok && !expr_switch_continue(*expression) ==> new_functions_ok(*old(self), *final(self)),
            r is Ok ==> appended(old(self).functions@, final(self).functions@, expr_shapes(*expression)),
            r is Ok ==> (expr_code(*expression, old(context).code@.len() as int) matches Some(c) ==> same_but_code(
                *old(context),
                *final(context),
            ) && emits(old(context).code@, final(context).code@, c)),
        decreases *expression, 0int,
    {
        broadcast use group_compile_steps;

        let ghost c0 = *self;
        let ghost x0 = *context;
        proof {
            lemma_evolves_refl(x0);
            lemma_functions_extend_refl(c0.functions@);
            lemma_keeps_refl(x0);
        }
        let Expr::Assignment { target, operator, value, .. } = expression else {
            return Ok(());
        };
        let operator = *operator;
        let is_assign = match operator {
            AssignOp::Assign => true,
            _ => false,
        };
        let is_nullish = match operator {
            AssignOp::NullishAssign => true,
            _ => false,
        };
        match target {
            AssignTarget::Identifier { name, .. } => {
                if is_assign {
                    let r = self.compile_expr(context, value);
                    if r.is_err() {
                        return r;
                    }
                    let ghost x1 = *context;
                    context.emit(Instruction::StoreName(name.clone()));
                    proof {
                        lemma_ctx_step_emit(x1, *context);
                        let base = x0.code@.len() as int;
                        if expr_code(*expression, base) is Some {
                            lemma_emits_then(
                                x0.code@,
                                x1.code@,
                                context.code@,
                                expr_code(**value, base).unwrap(),
                                Instruction::StoreName(*name),
                            );
                        }
                    }
                } else if is_nullish {
                    context.emit(Instruction::LoadName(name.clone()));
                    let ghost x1 = *context;
                    proof {
                        lemma_ctx_step_emit(x0, x1);
                    }
                    let end_jump = context.emit_nullish_check();
                    let ghost x2 = *context;
                    let r = self.compile_expr(context, value);
                    if r.is_err() {
                        return r;
                    }
                    context.emit(Instruction::StoreName(name.clone()));
                    let ghost x3 = *context;
                    let end_ip = context.code.len();
                    context.patch_jump(end_jump, end_ip);
                    proof {
                        lemma_ctx_step_patch(x0, x3, *context);
                        lemma_adds_keeps(x1, x2, x3, end_jump as int);
                        lemma_adds_resolves(x1, x3, *context, end_jump as int);
                    }
                } else {
                    context.emit(Instruction::LoadName(name.clone()));
                    proof {
                        lemma_ctx_step_emit(x0, *context);
                    }
                    let ghost xl = *context;
                    let r = self.compile_expr(context, value);
                    if r.is_err() {
                        return r;
                    }
                    let ghost xv = *context;
                    let r = self.emit_compound_operator(context, operator);
                    if r.is_err() {
                        return r;
                    }
                    let ghost x1 = *context;
                    context.emit(Instruction::StoreName(name.clone()));
                    proof {
                        lemma_ctx_step_emit(x1, *context);
                        let base = x0.code@.len() as int;
                        if expr_code(*expression, base) is Some {
                            let c = expr_code(**value, base + 1).unwrap();
                            let op = compound_binary(operator).unwrap();
                            lemma_emits_push(x0.code@, xl.code@, Instruction::LoadName(*name));
                            lemma_emits_trans(x0.code@, xl.code@, xv.code@, seq![Instruction::LoadName(*name)], c);
                            lemma_emits_then(
                                x0.code@,
                                xv.code@,
                                x1.code@,
                                seq![Instruction::LoadName(*name)] + c,
                                Instruction::Binary(op),
                            );
                            lemma_emits_then(
                                x0.code@,
                                x1.code@,
                                context.code@,
                                (seq![Instruction::LoadName(*name)] + c).push(Instruction::Binary(op)),
                                Instruction::StoreName(*name),
                            );
                            assert((seq![Instruction::LoadName(*name)] + c).push(Instruction::Binary(op)).push(
                                Instruction::StoreName(*name),
                            ) =~= seq![Instruction::LoadName(*name)] + c + seq![
                                Instruction::Binary(op),
                                Instruction::StoreName(*name),
                            ]);
                        }
                    }
                }
            },
            AssignTarget::Member { object, property, optional, .. } => match property {
                MemberProperty::Static(key) => {
                    proof {
                        assert(member_key_fault(*property) is None);
                        assert(!member_key_switch_continue(*property));
                    }
                    let name = property_name_to_key(key);
                    if is_assign {
                        let r = self.compile_expr(context, object);
                        if r.is_err() {
                            return r;
                        }
                        let ghost xo = *context;
                        let ghost ca = *self;
                        let r = self.compile_expr(context, value);
                        if r.is_err() {
                            return r;
                        }
                        proof {
                            lemma_appended_refl(ca.functions@);
                            assert(member_key_shapes(*property) == Seq::<FunctionShape>::empty());
                            lemma_appended_three(c0.functions@, ca.functions@, ca.functions@, self.functions@, expr_shapes(**object), member_key_shapes(*property), expr_shapes(**value));
                        }
                        let ghost x1 = *context;
                        context.emit(Instruction::SetPropStatic { name });
                        proof {
                            lemma_ctx_step_emit(x1, *context);
                            let base = x0.code@.len() as int;
                            if expr_code(*expression, base) is Some {
                                let o = expr_code(**object, base).unwrap();
                                let v = expr_code(**value, base + o.len()).unwrap();
                                lemma_emits_trans(x0.code@, xo.code@, x1.code@, o, v);
                                lemma_emits_then(
                                    x0.code@,
                                    x1.code@,
                                    context.code@,
                                    o + v,
                                    Instruction::SetPropStatic { name: key_name(*key) },
                                );
                            }
                        }
                    } else if is_nullish {
                        let object_binding = context.declare_internal("assign_obj");
                        let r = self.compile_expr(context, object);
                        if r.is_err() {
                            return r;
                        }
                        let ghost ca = *self;
                        let ghost x1 = *context;
                        context.emit(
                            Instruction::InitializePattern(
                                Pattern::Identifier { span: no_span(), name: object_binding.clone() },
                            ),
                        );
                        context.emit(Instruction::LoadName(object_binding.clone()));
                        context.emit(Instruction::GetPropStatic { name: name.clone(), optional: *optional });
                        proof {
                            lemma_ctx_step_emit(x1, *context);
                        }
                        let ghost y1 = *context;
                        let end_jump = context.emit_nullish_check();
                        let ghost x2 = *context;
                        context.emit(Instruction::LoadName(object_binding));
                        proof {
                            lemma_ctx_step_emit(x2, *context);
                        }
                        let r = self.compile_expr(context, value);
                        if r.is_err() {
                            return r;
                        }
                        proof {
                            lemma_appended_refl(ca.functions@);
                            assert(member_key_shapes(*property) == Seq::<FunctionShape>::empty());
                            lemma_appended_three(c0.functions@, ca.functions@, ca.functions@, self.functions@, expr_shapes(**object), member_key_shapes(*property), expr_shapes(**value));
                        }
                        context.emit(Instruction::SetPropStatic { name });
                        let ghost x3 = *context;
                        let end_ip = context.code.len();
                        context.patch_jump(end_jump, end_ip);
                        proof {
                            lemma_ctx_step_patch(x0, x3, *context);
                            lemma_adds_keeps(y1, x2, x3, end_jump as int);
                            lemma_adds_resolves(y1, x3, *context, end_jump as int);
                        }
                    } else {
                        let r = self.compile_expr(context, object);
                        if r.is_err() {
                            return r;
                        }
                        let ghost ca = *self;
                        let ghost x1 = *context;
                        context.emit(Instruction::Dup);
                        let ghost xd = *context;
                        context.emit(Instruction::GetPropStatic { name: name.clone(), optional: *optional });
                        proof {
                            lemma_ctx_step_emit(x1, *context);
                        }
                        let ghost xg = *context;
                        let r = self.compile_expr(context, value);
                        if r.is_err() {
                            return r;
                        }
                        let ghost xv = *context;
                        proof {
                            lemma_appended_refl(ca.functions@);
                            assert(member_key_shapes(*property) == Seq::<FunctionShape>::empty());
                            lemma_appended_three(c0.functions@, ca.functions@, ca.functions@, self.functions@, expr_shapes(**object), member_key_shapes(*property), expr_shapes(**value));
                        }
                        let r = self.emit_compound_operator(context, operator);
                        if r.is_err() {
                            return r;
                        }
                        let ghost x2 = *context;
                        context.emit(Instruction::SetPropStatic { name });
                        proof {
                            lemma_ctx_step_emit(x2, *context);
                            let base = x0.code@.len() as int;
                            if expr_code(*expression, base) is Some {
                                let o = expr_code(**object, base).unwrap();
                                let v = expr_code(**value, base + o.len() + 2).unwrap();
                                let op = compound_binary(operator).unwrap();
                                let g = Instruction::GetPropStatic { name: key_name(*key), optional: *optional };
                                lemma_emits_then(x0.code@, x1.code@, xd.code@, o, Instruction::Dup);
                                lemma_emits_then(x0.code@, xd.code@, xg.code@, o.push(Instruction::Dup), g);
                                lemma_emits_trans(x0.code@, xg.code@, xv.code@, o.push(Instruction::Dup).push(g), v);
                                lemma_emits_then(
                                    x0.code@,
                                    xv.code@,
                                    x2.code@,
                                    o.push(Instruction::Dup).push(g) + v,
                                    Instruction::Binary(op),
                                );
                                lemma_emits_then(
                                    x0.code@,
                                    x2.code@,
                                    context.code@,
                                    (o.push(Instruction::Dup).push(g) + v).push(Instruction::Binary(op)),
                                    Instruction::SetPropStatic { name: key_name(*key) },
                                );
                                assert((o.push(Instruction::Dup).push(g) + v).push(Instruction::Binary(op)).push(
                                    Instruction::SetPropStatic { name: key_name(*key) },
                                ) =~= o + seq![Instruction::Dup, g] + v + seq![
                                    Instruction::Binary(op),
                                    Instruction::SetPropStatic { name: key_name(*key) },
                                ]);
                            }
                        }
                    }
                },
                MemberProperty::Computed(key) => {
                    proof {
                        assert(member_key_fault(*property) == expr_fault(**key));
                        assert(member_key_switch_continue(*property) == expr_switch_continue(**key));
                    }
                    if is_assign {
                        let r = self.compile_expr(context, object);
                        if r.is_err() {
                            return r;
                        }
                        let ghost xo = *context;
                        let ghost ca = *self;
                        let r = self.compile_expr(context, key);
                        if r.is_err() {
                            return r;
                        }
                        let ghost xk = *context;
                        let ghost cb = *self;
                        let r = self.compile_expr(context, value);
                        if r.is_err() {
                            return r;
                        }
                        proof {
                            assert(member_key_shapes(*property) == expr_shapes(**key));
                            lemma_appended_three(c0.functions@, ca.functions@, cb.functions@, self.functions@, expr_shapes(**object), member_key_shapes(*property), expr_shapes(**value));
                        }
                        let ghost x1 = *context;
                        context.emit(Instruction::SetPropComputed);
                        proof {
                            lemma_ctx_step_emit(x1, *context);
                            let base = x0.code@.len() as int;
                            if expr_code(*expression, base) is Some {
                                let o = expr_code(**object, base).unwrap();
                                let kc = expr_code(**key, base + o.len()).unwrap();
                                let v = expr_code(**value, base + o.len() + kc.len()).unwrap();
                                lemma_emits_trans(x0.code@, xo.code@, xk.code@, o, kc);
                                lemma_emits_trans(x0.code@, xk.code@, x1.code@, o + kc, v);
                                lemma_emits_then(x0.code@, x1.code@, context.code@, o + kc + v, Instruction::SetPropComputed);
                            }
                        }
                    } else if is_nullish {
                        let object_binding = context.declare_internal("assign_obj");
                        let key_binding = context.declare_internal("assign_key");
                        let r = self.compile_expr(context, object);
                        if r.is_err() {
                            return r;
                        }
                        let ghost ca = *self;
                        let ghost x1 = *context;
                        context.emit(
                            Instruction::InitializePattern(
                                Pattern::Identifier { span: no_span(), name: object_binding.clone() },
                            ),
                        );
                        proof {
                            lemma_ctx_step_emit(x1, *context);
                        }
                        let r = self.compile_expr(context, key);
                        if r.is_err() {
                            return r;
                        }
                        let ghost cb = *self;
                        let ghost x2 = *context;
                        context.emit(
                            Instruction::InitializePattern(
                                Pattern::Identifier { span: no_span(), name: key_binding.clone() },
                            ),
                        );
                        context.emit(Instruction::LoadName(object_binding.clone()));
                        context.emit(Instruction::LoadName(key_binding.clone()));
                        context.emit(Instruction::GetPropComputed { optional: *optional });
                        proof {
                            lemma_ctx_step_emit(x2, *context);
                        }
                        let ghost y1 = *context;
                        let end_jump = context.emit_nullish_check();
                        let ghost x3 = *context;
                        context.emit(Instruction::LoadName(object_binding));
                        context.emit(Instruction::LoadName(key_binding));
                        proof {
                            lemma_ctx_step_emit(x3, *context);
                        }
                        let r = self.compile_expr(context, value);
                        if r.is_err() {
                            return r;
                        }
                        proof {
                            assert(member_key_shapes(*property) == expr_shapes(**key));
                            lemma_appended_three(c0.functions@, ca.functions@, cb.functions@, self.functions@, expr_shapes(**object), member_key_shapes(*property), expr_shapes(**value));
                        }
                        context.emit(Instruction::SetPropComputed);
                        let ghost x4 = *context;
                        let end_ip = context.code.len();
                        context.patch_jump(end_jump, end_ip);
                        proof {
                            lemma_ctx_step_patch(x0, x4, *context);
                            lemma_adds_keeps(y1, x3, x4, end_jump as int);
                            lemma_adds_resolves(y1, x4, *context, end_jump as int);
                        }
                    } else {
                        let r = self.compile_expr(context, object);
                        if r.is_err() {
                            return r;
                        }
                        let ghost ca = *self;
                        let r = self.compile_expr(context, key);
                        if r.is_err() {
                            return r;
                        }
                        let ghost cb = *self;
                        let ghost x1 = *context;
                        context.emit(Instruction::Dup2);
                        context.emit(Instruction::GetPropComputed { optional: *optional });
                        proof {
                            lemma_ctx_step_emit(x1, *context);
                        }
                        let r = self.compile_expr(context, value);
                        if r.is_err() {
                            return r;
                        }
                        proof {
                            assert(member_key_shapes(*property) == expr_shapes(**key));
                            lemma_appended_three(c0.functions@, ca.functions@, cb.functions@, self.functions@, expr_shapes(**object), member_key_shapes(*property), expr_shapes(**value));
                        }
                        let r = self.emit_compound_operator(context, operator);
                        if r.is_err() {
                            return r;
                        }
                        let ghost x2 = *context;
                        context.emit(Instruction::SetPropComputed);
                        proof {
                            lemma_ctx_step_emit(x2, *context);
                        }
                    }
                },
            },
        }
        Ok(())
    }
}

/// `b` is `a` with a fresh loop (no recorded sites) on top.
spec fn loop_pushed(a: CompileContext, b: CompileContext) -> bool {
    &&& b.wf()
    &&& evolves(a, b)
    &&& b.code@ == a.code@
    &&& b.loop_stack@.len() == a.loop_stack@.len() + 1
    &&& forall|k: int| 0 <= k < a.loop_stack@.len() ==> #[trigger] b.loop_stack@[k] == a.loop_stack@[k]
    &&& b.loop_stack@.last().break_jumps@.len() == 0
    &&& b.loop_stack@.last().continue_jumps@.len() == 0
    &&& b.active_handlers@ == a.active_handlers@
    &&& b.active_finally@ == a.active_finally@
    &&& b.finally_regions@ == a.finally_regions@
    &&& b.scope_depth == a.scope_depth
    &&& b.closure_bound == a.closure_bound
}

/// `d` is `c` with its innermost loop closed: code patched only at or past `n`.
spec fn loop_closed(c: CompileContext, d: CompileContext, n: int) -> bool {
    &&& d.wf()
    &&& d.code@.len() == c.code@.len()
    &&& kinds_kept(c.code@, d.code@)
    &&& forall|i: int| 0 <= i < n ==> #[trigger] d.code@[i] == c.code@[i]
    &&& d.loop_stack@ == c.loop_stack@.drop_last()
    &&& d.active_handlers@ == c.active_handlers@
    &&& d.active_finally@ == c.active_finally@
    &&& d.finally_regions@ == c.finally_regions@
    &&& d.scope_depth == c.scope_depth
    &&& d.closure_bound == c.closure_bound
}

/// A loop pushed, compiled and closed is a statement step.
proof fn lemma_loop_frame(
    x0: CompileContext,
    xa: CompileContext,
    xp: CompileContext,
    xc: CompileContext,
    xd: CompileContext,
)
    requires
        stmt_step(x0, xa),
        loop_pushed(xa, xp),
        stmt_step(xp, xc),
        loop_closed(xc, xd, xp.code@.len() as int),
    ensures
        stmt_step(x0, xd),
{
    lemma_evolves_trans(x0, xa, xp);
    lemma_evolves_trans(x0, xp, xc);
    assert forall|k: int| 0 <= k < x0.loop_stack@.len() implies xd.loop_stack@[k]
        == xc.loop_stack@[k] by {
    }
    lemma_evolves_from(x0, xc, xd);
}

/// A loop pushed on a context with `x0`'s loops, compiled without touching
/// the loops below it, and closed again: the loops are as in `x0`.
proof fn lemma_loop_keeps(
    s: Stmt,
    c0: Compiler,
    c1: Compiler,
    x0: CompileContext,
    xa: CompileContext,
    xp: CompileContext,
    xc: CompileContext,
    xd: CompileContext,
    xf: CompileContext,
)
    requires
        xa.loop_stack@ == x0.loop_stack@,
        loop_pushed(xa, xp),
        xc.loop_stack@.len() == xp.loop_stack@.len(),
        lower_loops_kept(xp, xc),
        xd.loop_stack@ == xc.loop_stack@.drop_last(),
        xf.loop_stack@ == xd.loop_stack@,
        handlers_kept(x0, xf),
        !stmt_switch_continue(s) ==> keeps(x0, xf) && new_functions_ok(c0, c1),
    ensures
        stmt_keeps(s, c0, c1, x0, xf),
{
    assert forall|k: int| 0 <= k < x0.loop_stack@.len() implies #[trigger] xf.loop_stack@[k]
        == x0.loop_stack@[k] by {
        assert(xc.loop_stack@[k] == xp.loop_stack@[k]);
        assert(xp.loop_stack@[k] == xa.loop_stack@[k]);
    }
    assert(xf.loop_stack@ =~= x0.loop_stack@);
    lemma_stmt_keeps_intro(s, c0, c1, x0, xf);
}

/// The positions a list of sites names.
spec fn sites_set(v: Seq<usize>) -> Set<int> {
    Set::new(|i: int| exists|j: int| 0 <= j < v.len() && v[j] as int == i)
}

/// `c` adds the unresolved sites `t`, which its compiling function holds.
spec fn adds_all(b: CompileContext, c: CompileContext, t: Set<int>) -> bool {
    forall|n: int, s: Set<int>| 0 <= n && #[trigger] settled(n, b, s) ==> settled(n, c, s.union(t))
}

/// A jump added and patched around a second jump that stays unresolved.
proof fn lemma_adds_around(
    a: CompileContext,
    b: CompileContext,
    c: CompileContext,
    d: CompileContext,
    e: CompileContext,
    f: CompileContext,
    m: int,
    q: int,
)
    requires
        adds(a, b, m),
        keeps(b, c),
        adds(c, d, q),
        resolves(d, e, m),
        keeps(e, f),
    ensures
        adds(a, f, q),
{
    assert forall|n: int, s: Set<int>| 0 <= n && #[trigger] settled(n, a, s) implies settled(
        n,
        f,
        s.insert(q),
    ) by {
        assert(settled(n, b, s.insert(m)));
        assert(settled(n, c, s.insert(m)));
        assert(settled(n, d, s.insert(m).insert(q)));
        assert(settled(n, e, s.insert(m).insert(q).remove(m)));
        assert(settled(n, f, s.insert(m).insert(q).remove(m)));
        lemma_settled_subset(n, f, s.insert(m).insert(q).remove(m), s.insert(q));
    }
}

/// One more unresolved site joins those already added.
proof fn lemma_adds_all_push(
    x0: CompileContext,
    x1: CompileContext,
    x2: CompileContext,
    v: Seq<usize>,
    q: usize,
)
    requires
        adds_all(x0, x1, sites_set(v)),
        adds(x1, x2, q as int),
    ensures
        adds_all(x0, x2, sites_set(v.push(q))),
{
    assert forall|n: int, s: Set<int>| 0 <= n && #[trigger] settled(n, x0, s) implies settled(
        n,
        x2,
        s.union(sites_set(v.push(q))),
    ) by {
        assert(settled(n, x1, s.union(sites_set(v))));
        assert(settled(n, x2, s.union(sites_set(v)).insert(q as int)));
        assert forall|i: int| s.union(sites_set(v)).insert(q as int).contains(i) implies s.union(
            sites_set(v.push(q)),
        ).contains(i) by {
            if sites_set(v).contains(i) {
                let j = choose|j: int| 0 <= j < v.len() && v[j] as int == i;
                assert(v.push(q)[j] == v[j]);
            }
            if i == q as int {
                assert(v.push(q)[v.len() as int] == q);
            }
        }
        lemma_settled_subset(
            n,
            x2,
            s.union(sites_set(v)).insert(q as int),
            s.union(sites_set(v.push(q))),
        );
    }
}

/// Patching the next of the sites still waiting leaves the rest waiting.
proof fn lemma_adds_all_patch(
    x0: CompileContext,
    x1: CompileContext,
    x2: CompileContext,
    v: Seq<usize>,
    j: int,
)
    requires
        0 <= j < v.len(),
        adds_all(x0, x1, sites_set(v.subrange(j, v.len() as int))),
        resolves(x1, x2, v[j] as int),
    ensures
        adds_all(x0, x2, sites_set(v.subrange(j + 1, v.len() as int))),
{
    let t = sites_set(v.subrange(j, v.len() as int));
    let u = sites_set(v.subrange(j + 1, v.len() as int));
    assert forall|n: int, s: Set<int>| 0 <= n && #[trigger] settled(n, x0, s) implies settled(
        n,
        x2,
        s.union(u),
    ) by {
        assert(settled(n, x1, s.union(t)));
        assert(settled(n, x2, s.union(t).remove(v[j] as int)));
        assert forall|i: int| s.union(t).remove(v[j] as int).contains(i) implies s.union(u).contains(
            i,
        ) by {
            if t.contains(i) && !s.contains(i) {
                let k = choose|k: int|
                    0 <= k < v.subrange(j, v.len() as int).len() && v.subrange(j, v.len() as int)[k] as int
                        == i;
                assert(v.subrange(j, v.len() as int)[k] == v[j + k]);
                assert(k != 0);
                assert(v.subrange(j + 1, v.len() as int)[k - 1] == v[j + k]);
            }
        }
        lemma_settled_subset(n, x2, s.union(t).remove(v[j] as int), s.union(u));
    }
}

/// A step that keeps the settled positions keeps what `x0` added.
proof fn lemma_adds_all_keeps(x0: CompileContext, x1: CompileContext, x2: CompileContext, t: Set<int>)
    requires
        adds_all(x0, x1, t),
        keeps(x1, x2),
    ensures
        adds_all(x0, x2, t),
{
    assert forall|n: int, s: Set<int>| 0 <= n && #[trigger] settled(n, x0, s) implies settled(
        n,
        x2,
        s.union(t),
    ) by {
        assert(settled(n, x1, s.union(t)));
    }
}

/// A step that adds one unresolved site.
proof fn lemma_adds_all_adds(
    x0: CompileContext,
    x1: CompileContext,
    x2: CompileContext,
    t: Set<int>,
    p: int,
)
    requires
        adds_all(x0, x1, t),
        adds(x1, x2, p),
    ensures
        adds_all(x0, x2, t.insert(p)),
{
    assert forall|n: int, s: Set<int>| 0 <= n && #[trigger] settled(n, x0, s) implies settled(
        n,
        x2,
        s.union(t.insert(p)),
    ) by {
        assert(settled(n, x1, s.union(t)));
        assert(settled(n, x2, s.union(t).insert(p)));
        assert(s.union(t).insert(p) =~= s.union(t.insert(p)));
    }
}

/// A step that resolves one site.
proof fn lemma_adds_all_resolves(
    x0: CompileContext,
    x1: CompileContext,
    x2: CompileContext,
    t: Set<int>,
    p: int,
)
    requires
        adds_all(x0, x1, t),
        resolves(x1, x2, p),
    ensures
        adds_all(x0, x2, t.remove(p)),
{
    assert forall|n: int, s: Set<int>| 0 <= n && #[trigger] settled(n, x0, s) implies settled(
        n,
        x2,
        s.union(t.remove(p)),
    ) by {
        assert(settled(n, x1, s.union(t)));
        assert(settled(n, x2, s.union(t).remove(p)));
        lemma_settled_subset(n, x2, s.union(t).remove(p), s.union(t.remove(p)));
    }
}

/// A step that turns settled positions into settled-or-`u` positions.
proof fn lemma_adds_all_widen(
    x0: CompileContext,
    x1: CompileContext,
    x2: CompileContext,
    t: Set<int>,
    u: Set<int>,
    v: Set<int>,
)
    requires
        adds_all(x0, x1, t),
        forall|n: int, s: Set<int>| 0 <= n && #[trigger] settled(n, x1, s) ==> settled(n, x2, s.union(u).difference(v)),
    ensures
        adds_all(x0, x2, t.union(u).difference(v)),
{
    assert forall|n: int, s: Set<int>| 0 <= n && #[trigger] settled(n, x0, s) implies settled(
        n,
        x2,
        s.union(t.union(u).difference(v)),
    ) by {
        assert(settled(n, x1, s.union(t)));
        assert(settled(n, x2, s.union(t).union(u).difference(v)));
        lemma_settled_subset(n, x2, s.union(t).union(u).difference(v), s.union(t.union(u).difference(v)));
    }
}

/// Popping the innermost `finally` region: its jump sites stop waiting on it.
proof fn lemma_region_popped(n: int, b: CompileContext, c: CompileContext, t: Set<int>)
    requires
        settled(n, b, t),
        b.finally_regions@.len() > 0,
        c.code@ == b.code@,
        c.finally_regions@ == b.finally_regions@.drop_last(),
        c.loop_stack@ == b.loop_stack@,
        c.active_finally@ == b.active_finally@,
    ensures
        settled(n, c, t.union(sites_set(b.finally_regions@.last().jump_sites@))),
{
    let top = b.finally_regions@.len() - 1;
    let u = sites_set(b.finally_regions@.last().jump_sites@);
    assert forall|i: int| n <= i < c.code@.len() implies #[trigger] targets_within(
        c.code@[i],
        c.code@.len() as int,
    ) || pending(c, i) || t.union(u).contains(i) by {
        if pending(b, i) && !targets_within(c.code@[i], c.code@.len() as int) && !t.contains(i) {
            if exists|k: int, j: int|
                0 <= k < b.finally_regions@.len() && 0 <= j < b.finally_regions@[k].jump_sites@.len()
                    && #[trigger] b.finally_regions@[k].jump_sites@[j] == i {
                let (k, j) = choose|k: int, j: int|
                    0 <= k < b.finally_regions@.len() && 0 <= j
                        < b.finally_regions@[k].jump_sites@.len()
                        && #[trigger] b.finally_regions@[k].jump_sites@[j] == i;
                if k == top {
                    assert(b.finally_regions@.last().jump_sites@[j] as int == i);
                    assert(u.contains(i));
                } else {
                    assert(c.finally_regions@[k] == b.finally_regions@[k]);
                    assert(c.finally_regions@[k].jump_sites@[j] == i);
                }
            }
        }
    }
}

/// Popping the innermost `finally` block: its exit and jump sites stop
/// waiting on it.
proof fn lemma_finally_popped(n: int, b: CompileContext, c: CompileContext, t: Set<int>)
    requires
        settled(n, b, t),
        b.active_finally@.len() > 0,
        c.code@ == b.code@,
        c.active_finally@ == b.active_finally@.drop_last(),
        c.loop_stack@ == b.loop_stack@,
        c.finally_regions@ == b.finally_regions@,
    ensures
        settled(
            n,
            c,
            t.insert(b.active_finally@.last().exit_patch_site as int).union(
                sites_set(b.active_finally@.last().jump_sites@),
            ),
        ),
{
    let top = b.active_finally@.len() - 1;
    let f = b.active_finally@.last();
    let u = t.insert(f.exit_patch_site as int).union(sites_set(f.jump_sites@));
    assert forall|i: int| n <= i < c.code@.len() implies #[trigger] targets_within(
        c.code@[i],
        c.code@.len() as int,
    ) || pending(c, i) || u.contains(i) by {
        if pending(b, i) && !targets_within(c.code@[i], c.code@.len() as int) && !t.contains(i) {
            if exists|k: int|
                0 <= k < b.active_finally@.len() && #[trigger] b.active_finally@[k].exit_patch_site == i {
                let k = choose|k: int|
                    0 <= k < b.active_finally@.len() && #[trigger] b.active_finally@[k].exit_patch_site
                        == i;
                if k != top {
                    assert(c.active_finally@[k] == b.active_finally@[k]);
                }
            } else if exists|k: int, j: int|
                0 <= k < b.active_finally@.len() && 0 <= j < b.active_finally@[k].jump_sites@.len()
                    && #[trigger] b.active_finally@[k].jump_sites@[j] == i {
                let (k, j) = choose|k: int, j: int|
                    0 <= k < b.active_finally@.len() && 0 <= j < b.active_finally@[k].jump_sites@.len()
                        && #[trigger] b.active_finally@[k].jump_sites@[j] == i;
                if k == top {
                    assert(f.jump_sites@[j] as int == i);
                    assert(sites_set(f.jump_sites@).contains(i));
                } else {
                    assert(c.active_finally@[k] == b.active_finally@[k]);
                    assert(c.active_finally@[k].jump_sites@[j] == i);
                }
            }
        }
    }
}

/// Sites patched so that each transfers inside the code stop needing a
/// place on a list or in the local set.
proof fn lemma_sites_patched(n: int, b: CompileContext, c: CompileContext, t: Set<int>, sites: Seq<usize>)
    requires
        0 <= n,
        settled(n, b, t),
        same_but_code(b, c),
        c.code@.len() == b.code@.len(),
        forall|i: int|
            0 <= i < b.code@.len() && !sites_set(sites).contains(i) ==> #[trigger] c.code@[i]
                == b.code@[i],
        forall|j: int|
            0 <= j < sites.len() ==> targets_within(
                #[trigger] c.code@[sites[j] as int],
                c.code@.len() as int,
            ),
    ensures
        settled(n, c, t.difference(sites_set(sites))),
{
    assert forall|i: int| n <= i < c.code@.len() implies #[trigger] targets_within(
        c.code@[i],
        c.code@.len() as int,
    ) || pending(c, i) || t.difference(sites_set(sites)).contains(i) by {
        if sites_set(sites).contains(i) {
            let j = choose|j: int| 0 <= j < sites.len() && sites[j] as int == i;
            assert(targets_within(c.code@[sites[j] as int], c.code@.len() as int));
        } else {
            assert(c.code@[i] == b.code@[i]);
            if pending(b, i) {
                assert(pending(c, i));
            }
        }
    }
}

/// Fewer unresolved sites than stated is still within the statement.
proof fn lemma_adds_all_subset(x0: CompileContext, x1: CompileContext, t: Set<int>, u: Set<int>)
    requires
        adds_all(x0, x1, t),
        t.subset_of(u),
    ensures
        adds_all(x0, x1, u),
{
    assert forall|n: int, s: Set<int>| 0 <= n && #[trigger] settled(n, x0, s) implies settled(
        n,
        x1,
        s.union(u),
    ) by {
        lemma_settled_subset(n, x1, s.union(t), s.union(u));
    }
}

/// Nothing added yet.
proof fn lemma_adds_all_refl(x0: CompileContext)
    ensures
        adds_all(x0, x0, Set::empty()),
{
    assert forall|n: int, s: Set<int>| 0 <= n && #[trigger] settled(n, x0, s) implies settled(
        n,
        x0,
        s.union(Set::empty()),
    ) by {
        assert(s.union(Set::empty()) =~= s);
    }
}

/// Nothing left unresolved: everything settled stays settled.
proof fn lemma_adds_all_empty(x0: CompileContext, x1: CompileContext)
    requires
        adds_all(x0, x1, Set::empty()),
    ensures
        keeps(x0, x1),
{
    assert forall|n: int, s: Set<int>| 0 <= n && #[trigger] settled(n, x0, s) implies settled(n, x1, s) by {
        assert(s.union(Set::empty()) =~= s);
    }
}

/// Popping the innermost region and pointing its handler and jump sites at
/// `t`, each then transferring inside the code.
proof fn lemma_region_closed(
    x0: CompileContext,
    b: CompileContext,
    c: CompileContext,
    d: CompileContext,
    e: CompileContext,
    lt: Set<int>,
)
    requires
        adds_all(x0, b, lt),
        b.finally_regions@.len() > 0,
        c.code@ == b.code@,
        c.finally_regions@ == b.finally_regions@.drop_last(),
        c.loop_stack@ == b.loop_stack@,
        c.active_finally@ == b.active_finally@,
        same_but_code(c, d),
        d.code@.len() == c.code@.len(),
        forall|i: int|
            0 <= i < c.code@.len() && !sites_set(b.finally_regions@.last().handler_sites@).contains(i)
                ==> #[trigger] d.code@[i] == c.code@[i],
        forall|j: int|
            0 <= j < b.finally_regions@.last().handler_sites@.len() ==> targets_within(
                #[trigger] d.code@[b.finally_regions@.last().handler_sites@[j] as int],
                d.code@.len() as int,
            ),
        same_but_code(d, e),
        e.code@.len() == d.code@.len(),
        forall|i: int|
            0 <= i < d.code@.len() && !sites_set(b.finally_regions@.last().jump_sites@).contains(i)
                ==> #[trigger] e.code@[i] == d.code@[i],
        forall|j: int|
            0 <= j < b.finally_regions@.last().jump_sites@.len() ==> targets_within(
                #[trigger] e.code@[b.finally_regions@.last().jump_sites@[j] as int],
                e.code@.len() as int,
            ),
    ensures
        adds_all(
            x0,
            e,
            lt.union(sites_set(b.finally_regions@.last().jump_sites@)).difference(
                sites_set(b.finally_regions@.last().handler_sites@),
            ).difference(sites_set(b.finally_regions@.last().jump_sites@)),
        ),
{
    let hs = b.finally_regions@.last().handler_sites@;
    let js = b.finally_regions@.last().jump_sites@;
    assert forall|n: int, s: Set<int>| 0 <= n && #[trigger] settled(n, b, s) implies settled(
        n,
        c,
        s.union(sites_set(js)).difference(Set::empty()),
    ) by {
        lemma_region_popped(n, b, c, s);
        assert(s.union(sites_set(js)).difference(Set::empty()) =~= s.union(sites_set(js)));
    }
    lemma_adds_all_widen(x0, b, c, lt, sites_set(js), Set::empty());
    assert forall|n: int, s: Set<int>| 0 <= n && #[trigger] settled(n, c, s) implies settled(
        n,
        d,
        s.union(Set::empty()).difference(sites_set(hs)),
    ) by {
        lemma_sites_patched(n, c, d, s, hs);
        assert(s.union(Set::empty()) =~= s);
    }
    lemma_adds_all_widen(
        x0,
        c,
        d,
        lt.union(sites_set(js)).difference(Set::empty()),
        Set::empty(),
        sites_set(hs),
    );
    assert forall|n: int, s: Set<int>| 0 <= n && #[trigger] settled(n, d, s) implies settled(
        n,
        e,
        s.union(Set::empty()).difference(sites_set(js)),
    ) by {
        lemma_sites_patched(n, d, e, s, js);
        assert(s.union(Set::empty()) =~= s);
    }
    lemma_adds_all_widen(
        x0,
        d,
        e,
        lt.union(sites_set(js)).difference(Set::empty()).union(Set::empty()).difference(sites_set(hs)),
        Set::empty(),
        sites_set(js),
    );
    assert(lt.union(sites_set(js)).difference(Set::empty()).union(Set::empty()).difference(
        sites_set(hs),
    ).union(Set::empty()).difference(sites_set(js)) =~= lt.union(sites_set(js)).difference(
        sites_set(hs),
    ).difference(sites_set(js)));
}

/// Popping the innermost `finally` block and pointing its exit and jump
/// sites at where it resumes, each then transferring inside the code.
proof fn lemma_finally_closed(
    x0: CompileContext,
    b: CompileContext,
    c: CompileContext,
    d: CompileContext,
    e: CompileContext,
    lt: Set<int>,
)
    requires
        adds_all(x0, b, lt),
        b.active_finally@.len() > 0,
        c.code@ == b.code@,
        c.active_finally@ == b.active_finally@.drop_last(),
        c.loop_stack@ == b.loop_stack@,
        c.finally_regions@ == b.finally_regions@,
        resolves(c, d, b.active_finally@.last().exit_patch_site as int),
        same_but_code(d, e),
        e.code@.len() == d.code@.len(),
        forall|i: int|
            0 <= i < d.code@.len() && !sites_set(b.active_finally@.last().jump_sites@).contains(i)
                ==> #[trigger] e.code@[i] == d.code@[i],
        forall|j: int|
            0 <= j < b.active_finally@.last().jump_sites@.len() ==> targets_within(
                #[trigger] e.code@[b.active_finally@.last().jump_sites@[j] as int],
                e.code@.len() as int,
            ),
    ensures
        adds_all(x0, e, lt),
{
    let f = b.active_finally@.last();
    let ex = f.exit_patch_site as int;
    let js = sites_set(f.jump_sites@);
    assert forall|n: int, s: Set<int>| 0 <= n && #[trigger] settled(n, b, s) implies settled(
        n,
        c,
        s.union(Set::empty().insert(ex).union(js)).difference(Set::empty()),
    ) by {
        lemma_finally_popped(n, b, c, s);
        assert(s.union(Set::empty().insert(ex).union(js)).difference(Set::empty()) =~= s.insert(
            ex,
        ).union(js));
    }
    lemma_adds_all_widen(x0, b, c, lt, Set::empty().insert(ex).union(js), Set::empty());
    let t1 = lt.union(Set::empty().insert(ex).union(js)).difference(Set::empty());
    lemma_adds_all_resolves(x0, c, d, t1, ex);
    assert forall|n: int, s: Set<int>| 0 <= n && #[trigger] settled(n, d, s) implies settled(
        n,
        e,
        s.union(Set::empty()).difference(js),
    ) by {
        lemma_sites_patched(n, d, e, s, f.jump_sites@);
        assert(s.union(Set::empty()) =~= s);
    }
    lemma_adds_all_widen(x0, d, e, t1.remove(ex), Set::empty(), js);
    lemma_adds_all_subset(x0, e, t1.remove(ex).union(Set::empty()).difference(js), lt);
}

/// The `finally` region of a `try` closed: its handler sites (each with a
/// catch target inside the code) and its jump sites pointed at `t`; what
/// remains unresolved is among the pending jumps `afp`.
proof fn lemma_try_region_closed(
    x0: CompileContext,
    b: CompileContext,
    c: CompileContext,
    d: CompileContext,
    e: CompileContext,
    lt: Set<int>,
    entry: FinallyRegionContext,
    t: usize,
    afp: Seq<usize>,
)
    requires
        adds_all(x0, b, lt),
        b.finally_regions@.len() > 0,
        entry == b.finally_regions@.last(),
        c.code@ == b.code@,
        c.finally_regions@ == b.finally_regions@.drop_last(),
        c.loop_stack@ == b.loop_stack@,
        c.active_finally@ == b.active_finally@,
        region_ok(c.code@, entry),
        t <= c.code@.len(),
        same_but_code(c, d),
        d.code@.len() == c.code@.len(),
        kinds_kept(c.code@, d.code@),
        forall|i: int|
            0 <= i < c.code@.len() && (forall|j: int|
                0 <= j < entry.handler_sites@.len() ==> #[trigger] entry.handler_sites@[j] != i)
                ==> #[trigger] d.code@[i] == c.code@[i],
        forall|j: int|
            0 <= j < entry.handler_sites@.len() ==> d.code@[#[trigger] entry.handler_sites@[j] as int]
                == retarget_finally(c.code@[entry.handler_sites@[j] as int], t),
        forall|j: int|
            0 <= j < entry.handler_sites@.len() ==> match #[trigger] c.code@[entry.handler_sites@[j] as int] {
                Instruction::PushHandler { catch, .. } => catch matches Some(v) ==> v <= c.code@.len(),
                _ => false,
            },
        same_but_code(d, e),
        e.code@.len() == d.code@.len(),
        forall|i: int|
            0 <= i < d.code@.len() && (forall|j: int|
                0 <= j < entry.jump_sites@.len() ==> #[trigger] entry.jump_sites@[j] != i)
                ==> #[trigger] e.code@[i] == d.code@[i],
        forall|j: int|
            0 <= j < entry.jump_sites@.len() ==> e.code@[#[trigger] entry.jump_sites@[j] as int]
                == retarget_jump(d.code@[entry.jump_sites@[j] as int], t),
        lt.subset_of(sites_set(entry.handler_sites@).union(sites_set(afp))),
    ensures
        adds_all(x0, e, sites_set(afp)),
{
    let hs = entry.handler_sites@;
    let js = entry.jump_sites@;
    assert forall|i: int|
        0 <= i < c.code@.len() && !sites_set(hs).contains(i) implies #[trigger] d.code@[i]
            == c.code@[i] by {
        assert forall|j: int| 0 <= j < hs.len() implies #[trigger] hs[j] != i by {
            if hs[j] as int == i {
                assert(sites_set(hs).contains(i));
            }
        }
    }
    assert forall|j: int| 0 <= j < hs.len() implies targets_within(
        #[trigger] d.code@[hs[j] as int],
        d.code@.len() as int,
    ) by {
        assert(d.code@[hs[j] as int] == retarget_finally(c.code@[hs[j] as int], t));
    }
    assert forall|i: int|
        0 <= i < d.code@.len() && !sites_set(js).contains(i) implies #[trigger] e.code@[i]
            == d.code@[i] by {
        assert forall|j: int| 0 <= j < js.len() implies #[trigger] js[j] != i by {
            if js[j] as int == i {
                assert(sites_set(js).contains(i));
            }
        }
    }
    assert forall|j: int| 0 <= j < js.len() implies targets_within(
        #[trigger] e.code@[js[j] as int],
        e.code@.len() as int,
    ) by {
        assert(is_jump_site(c.code@, js[j] as int));
        assert(same_kind(c.code@[js[j] as int], d.code@[js[j] as int]));
        assert(e.code@[js[j] as int] == retarget_jump(d.code@[js[j] as int], t));
    }
    lemma_region_closed(x0, b, c, d, e, lt);
    lemma_adds_all_subset(
        x0,
        e,
        lt.union(sites_set(js)).difference(sites_set(hs)).difference(sites_set(js)),
        sites_set(afp),
    );
}

/// Every site recorded on the innermost loop lies at or past `n`.
spec fn top_sites_from(ctx: CompileContext, n: int) -> bool {
    let l = ctx.loop_stack@.last();
    &&& forall|j: int| 0 <= j < l.break_jumps@.len() ==> patch_site(#[trigger] l.break_jumps@[j]) >= n
    &&& forall|j: int|
        0 <= j < l.continue_jumps@.len() ==> patch_site(#[trigger] l.continue_jumps@[j]) >= n
}

/// `c` keeps `a`'s part of `b`: its code below `a`'s end, the kinds of all
/// of `b`'s code, and the entries of each stack that `a` had.
proof fn lemma_evolves_from(a: CompileContext, b: CompileContext, c: CompileContext)
    requires
        evolves(a, b),
        kinds_kept(b.code@, c.code@),
        forall|i: int| 0 <= i < a.code@.len() ==> c.code@[i] == b.code@[i],
        a.loop_stack@.len() <= c.loop_stack@.len(),
        a.loop_stack@.len() <= b.loop_stack@.len(),
        forall|k: int| 0 <= k < a.loop_stack@.len() ==> c.loop_stack@[k] == b.loop_stack@[k],
        a.finally_regions@.len() <= c.finally_regions@.len(),
        a.finally_regions@.len() <= b.finally_regions@.len(),
        forall|k: int|
            0 <= k < a.finally_regions@.len() ==> c.finally_regions@[k] == b.finally_regions@[k],
        a.active_finally@.len() <= c.active_finally@.len(),
        a.active_finally@.len() <= b.active_finally@.len(),
        forall|k: int|
            0 <= k < a.active_finally@.len() ==> c.active_finally@[k] == b.active_finally@[k],
    ensures
        evolves(a, c),
{
    assert forall|i: int| 0 <= i < a.code@.len() implies same_kind(
        a.code@[i],
        #[trigger] c.code@[i],
    ) by {
        assert(same_kind(a.code@[i], b.code@[i]));
        assert(same_kind(b.code@[i], c.code@[i]));
    }
    assert forall|k: int| 0 <= k < a.loop_stack@.len() implies loop_extends(
        a.loop_stack@[k],
        #[trigger] c.loop_stack@[k],
        a.code@.len() as int,
    ) by {
        assert(c.loop_stack@[k] == b.loop_stack@[k]);
    }
    assert forall|k: int| 0 <= k < a.finally_regions@.len() implies region_extends(
        a.finally_regions@[k],
        #[trigger] c.finally_regions@[k],
        a.code@.len() as int,
    ) by {
        assert(c.finally_regions@[k] == b.finally_regions@[k]);
    }
    assert forall|k: int| 0 <= k < a.active_finally@.len() implies finally_extends(
        a.active_finally@[k],
        #[trigger] c.active_finally@[k],
        a.code@.len() as int,
    ) by {
        assert(c.active_finally@[k] == b.active_finally@[k]);
    }
}

/// A loop pushed on `a` and extended up to `b`: its sites lie past `a`'s code.
proof fn lemma_top_sites_from(a: CompileContext, b: CompileContext)
    requires
        evolves(a, b),
        a.loop_stack@.len() > 0,
        a.loop_stack@.last().break_jumps@.len() == 0,
        a.loop_stack@.last().continue_jumps@.len() == 0,
        b.loop_stack@.len() == a.loop_stack@.len(),
    ensures
        top_sites_from(b, a.code@.len() as int),
{
    let k = a.loop_stack@.len() - 1;
    assert(loop_extends(a.loop_stack@[k], b.loop_stack@[k], a.code@.len() as int));
}

impl CompileContext {
    /// Records where `continue` resumes the innermost loop.
    fn set_continue_target(&mut self, target: usize)
        requires
            old(self).wf(),
            old(self).loop_stack@.len() > 0,
        ensures
            keeps(*old(self), *final(self)),
            stmt_step(*old(self), *final(self)),
            final(self).wf(),
            final(self).code@ == old(self).code@,
            final(self).loop_stack@.len() == old(self).loop_stack@.len(),
            forall|k: int|
                0 <= k < old(self).loop_stack@.len() - 1 ==> #[trigger] final(self).loop_stack@[k]
                    == old(self).loop_stack@[k],
            final(self).loop_stack@.last().break_jumps@ == old(self).loop_stack@.last().break_jumps@,
            final(self).loop_stack@.last().continue_jumps@ == old(self).loop_stack@.last().continue_jumps@,
            final(self).loop_stack@.last().continue_target == Some(target),
            final(self).scope_depth == old(self).scope_depth,
            final(self).active_handlers@ == old(self).active_handlers@,
            final(self).active_finally@ == old(self).active_finally@,
            final(self).finally_regions@ == old(self).finally_regions@,
            final(self).internal_name_counter == old(self).internal_name_counter,
            final(self).closure_bound == old(self).closure_bound,
    {
        let ghost a = *self;
        let mut l = self.pop_loop();
        l.continue_target = Some(target);
        self.put_loop(l);
        proof {
            lemma_evolves_refl(a);
            assert forall|k: int| 0 <= k < a.loop_stack@.len() implies loop_extends(
                a.loop_stack@[k],
                #[trigger] self.loop_stack@[k],
                a.code@.len() as int,
            ) by {
                assert(loop_extends(a.loop_stack@[k], a.loop_stack@[k], a.code@.len() as int));
            }
            lemma_cover_from_evolves(a, *self);
            lemma_keeps_by_cover(a, *self);
        }
    }

    /// Ends the innermost loop: its `continue` transfers go to
    /// `continue_target` (when given) and its `break` transfers to
    /// `break_target`.
    fn close_loop(&mut self, continue_target: Option<usize>, break_target: usize, n: Ghost<int>)
        requires
            old(self).wf(),
            old(self).loop_stack@.len() > 0,
            top_sites_from(*old(self), n@),
            n@ <= old(self).code@.len(),
        ensures
            (break_target <= old(self).code@.len() && (continue_target matches Some(t) ==> t
                <= old(self).code@.len()) && (continue_target is None
                ==> old(self).loop_stack@.last().continue_jumps@.len() == 0)) ==> keeps(
                *old(self),
                *final(self),
            ),
            final(self).wf(),
            loop_closed(*old(self), *final(self), n@),
            final(self).code@.len() == old(self).code@.len(),
            kinds_kept(old(self).code@, final(self).code@),
            forall|i: int| 0 <= i < n@ ==> #[trigger] final(self).code@[i] == old(self).code@[i],
            final(self).loop_stack@ == old(self).loop_stack@.drop_last(),
            final(self).scope_depth == old(self).scope_depth,
            final(self).active_handlers@ == old(self).active_handlers@,
            final(self).active_finally@ == old(self).active_finally@,
            final(self).finally_regions@ == old(self).finally_regions@,
            final(self).internal_name_counter == old(self).internal_name_counter,
            final(self).closure_bound == old(self).closure_bound,
            old(self).loop_stack@.last().break_jumps@.len() == 0
                && old(self).loop_stack@.last().continue_jumps@.len() == 0 ==> final(self).code@
                == old(self).code@,
    {
        let ghost a = *self;
        let l = self.pop_loop();
        let ghost b = *self;
        if let Some(target) = continue_target {
            self.patch_transfers(&l.continue_jumps, target);
        }
        let ghost c = *self;
        proof {
            assert(kinds_kept(b.code@, c.code@));
            assert forall|j: int| 0 <= j < l.break_jumps@.len() implies patch_ok(
                c.code@,
                #[trigger] l.break_jumps@[j],
            ) by {
                assert(patch_ok(b.code@, l.break_jumps@[j]));
                let i = patch_site(l.break_jumps@[j]);
                assert(same_kind(b.code@[i], c.code@[i]));
            }
            assert forall|i: int| 0 <= i < n@ && i < b.code@.len() implies #[trigger] c.code@[i]
                == b.code@[i] by {
                if continue_target is Some {
                    assert forall|j: int| 0 <= j < l.continue_jumps@.len() implies patch_site(
                        #[trigger] l.continue_jumps@[j],
                    ) != i by {
                        assert(patch_site(a.loop_stack@.last().continue_jumps@[j]) >= n@);
                    }
                }
            }
        }
        self.patch_transfers(&l.break_jumps, break_target);
        proof {
            assert forall|i: int| 0 <= i < n@ implies #[trigger] self.code@[i] == a.code@[i] by {
                if i < b.code@.len() {
                    assert forall|j: int| 0 <= j < l.break_jumps@.len() implies patch_site(
                        #[trigger] l.break_jumps@[j],
                    ) != i by {
                        assert(patch_site(a.loop_stack@.last().break_jumps@[j]) >= n@);
                    }
                    assert(c.code@[i] == b.code@[i]);
                }
            }
            assert forall|i: int| 0 <= i < a.code@.len() implies same_kind(
                a.code@[i],
                #[trigger] self.code@[i],
            ) by {
                assert(same_kind(b.code@[i], c.code@[i]));
                assert(same_kind(c.code@[i], self.code@[i]));
            }
            if break_target <= a.code@.len() && (continue_target matches Some(t) ==> t
                <= a.code@.len()) && (continue_target is None
                ==> a.loop_stack@.last().continue_jumps@.len() == 0) {
                let len = a.code@.len() as int;
                let top = a.loop_stack@.len() - 1;
                // Every site of the closed loop now jumps inside the code.
                assert forall|j: int| 0 <= j < l.break_jumps@.len() implies #[trigger] targets_within(
                    self.code@[patch_site(l.break_jumps@[j])],
                    len,
                ) by {
                    lemma_targets_within_mono(
                        self.code@[patch_site(l.break_jumps@[j])],
                        break_target as int,
                        len,
                    );
                }
                assert forall|j: int| 0 <= j < l.continue_jumps@.len() implies #[trigger] targets_within(
                    self.code@[patch_site(l.continue_jumps@[j])],
                    len,
                ) by {
                    let t = continue_target->0;
                    let i = patch_site(l.continue_jumps@[j]);
                    if exists|k: int| 0 <= k < l.break_jumps@.len() && patch_site(
                        #[trigger] l.break_jumps@[k],
                    ) == i {
                        let k = choose|k: int| 0 <= k < l.break_jumps@.len() && patch_site(
                            #[trigger] l.break_jumps@[k],
                        ) == i;
                        assert(targets_within(self.code@[patch_site(l.break_jumps@[k])], len));
                    } else {
                        assert(self.code@[i] == c.code@[i]);
                        lemma_targets_within_mono(c.code@[i], t as int, len);
                    }
                }
                assert forall|nn: int, ss: Set<int>| 0 <= nn && #[trigger] settled(nn, a, ss) implies settled(
                    nn,
                    *self,
                    ss,
                ) by {
                    assert forall|i: int| nn <= i < self.code@.len() implies #[trigger] targets_within(
                        self.code@[i],
                        self.code@.len() as int,
                    ) || pending(*self, i) || ss.contains(i) by {
                        let in_break = exists|k: int| 0 <= k < l.break_jumps@.len() && patch_site(
                            #[trigger] l.break_jumps@[k],
                        ) == i;
                        let in_continue = exists|k: int| 0 <= k < l.continue_jumps@.len() && patch_site(
                            #[trigger] l.continue_jumps@[k],
                        ) == i;
                        if in_break {
                            let k = choose|k: int| 0 <= k < l.break_jumps@.len() && patch_site(
                                #[trigger] l.break_jumps@[k],
                            ) == i;
                            assert(targets_within(self.code@[patch_site(l.break_jumps@[k])], len));
                        } else if in_continue {
                            let k = choose|k: int| 0 <= k < l.continue_jumps@.len() && patch_site(
                                #[trigger] l.continue_jumps@[k],
                            ) == i;
                            assert(targets_within(self.code@[patch_site(l.continue_jumps@[k])], len));
                        } else {
                            assert(c.code@[i] == b.code@[i]);
                            assert(self.code@[i] == c.code@[i]);
                            assert(b.code@ == a.code@);
                            if targets_within(a.code@[i], len) {
                            } else if pending(a, i) {
                                lemma_pending_after_pop(a, *self, i);
                            }
                        }
                    }
                }
            }
        }
        proof {
            if l.break_jumps@.len() == 0 && l.continue_jumps@.len() == 0 {
                assert forall|i: int| 0 <= i < a.code@.len() implies #[trigger] self.code@[i] == a.code@[i] by {
                    assert(c.code@[i] == b.code@[i]);
                    assert(self.code@[i] == c.code@[i]);
                }
                assert(self.code@ =~= a.code@);
            }
        }
    }
}

impl Compiler {
    /// Compiles a `let`/`const` declaration: each declarator's initializer
    /// (or `undefined`), bound to its pattern.
    #[verifier::rlimit(40)]
    fn compile_declarators(
        &mut self,
        context: &mut CompileContext,
        declarators: &Vec<crate::ir::Declarator>,
        declare: bool,
    ) -> (r: JsliteResult<()>)
        requires
            compiling(*old(self), *old(context)),
        ensures
            outcome_matches(r, declarators_fault(declarators@, declarators@.len() as int)),
            r is Ok ==> ctx_step(*old(context), *final(context)) && compiler_step(
                *old(self),
                *final(self),
                *final(context),
            ) && keeps(*old(context), *final(context)),
            r is Ok && !declarators_switch_continue(declarators@, declarators@.len() as int)
                ==> new_functions_ok(*old(self), *final(self)),
            r is Ok ==> appended(old(self).functions@, final(self).functions@, declarators_shapes(declarators@, declarators@.len() as int)),
            r is Ok ==> (declarators_code(
                declarators@,
                declarators@.len() as int,
                old(context).code@.len() as int,
                declare,
            ) matches Some(c) ==> same_but_code(*old(context), *final(context)) && emits(
                old(context).code@,
                final(context).code@,
                c,
            )),
        decreases *declarators, 0int,
    {
        broadcast use group_compile_steps;

        let ghost c0 = *self;
        let ghost x0 = *context;
        proof {
            lemma_evolves_refl(x0);
            lemma_functions_extend_refl(c0.functions@);
            lemma_keeps_refl(x0);
            lemma_appended_refl(c0.functions@);
            lemma_emits_refl(x0.code@);
        }
        let mut i: usize = 0;
        while i < declarators.len()
            invariant
                ctx_step(x0, *context),
                compiler_step(c0, *self, *context),
                keeps(x0, *context),
                i <= declarators@.len(),
                declarators_fault(declarators@, i as int) is None,
                x0.loop_stack@ == old(context).loop_stack@,
                !declarators_switch_continue(declarators@, i as int) ==> new_functions_ok(c0, *self),
                appended(c0.functions@, self.functions@, declarators_shapes(declarators@, i as int)),
                declarators_code(declarators@, declarators@.len() as int, x0.code@.len() as int, declare) is Some
                    ==> same_but_code(x0, *context) && emits(
                    x0.code@,
                    context.code@,
                    declarators_code(declarators@, i as int, x0.code@.len() as int, declare).unwrap(),
                ),
            decreases declarators.len() - i,
        {
            let ghost ci = *self;
            let ghost xi = *context;
            let ghost base = x0.code@.len() as int;
            let ghost coded = declarators_code(declarators@, declarators@.len() as int, base, declare) is Some;
            proof {
                if coded {
                    lemma_declarators_code_prefix(declarators@, i + 1, declarators@.len() as int, base, declare);
                }
            }
            proof {
                lemma_declarators_switch_continue_step(declarators@, i as int);
            }
            let declarator = &declarators[i];
            if declare {
                context.declare_pattern_names(&declarator.pattern, None);
            }
            let ghost xd = *context;
            let ghost d = if declare {
                declare_code(pattern_names(declarators@[i as int].pattern), true)
            } else {
                Seq::<Instruction>::empty()
            };
            proof {
                if coded {
                    let a = declarators_code(declarators@, i as int, base, declare).unwrap();
                    if declare {
                        lemma_emits_trans(x0.code@, xi.code@, xd.code@, a, d);
                    } else {
                        assert(a + d =~= a);
                    }
                }
            }
            proof {
                assert(decreases_to!(*declarators => declarators@[i as int].initializer));
            }
            match &declarator.initializer {
                Some(initializer) => {
                    let r = self.compile_expr(context, initializer);
                    if r.is_err() {
                        proof {
                            lemma_declarators_fault_settled(
                                declarators@,
                                i + 1,
                                declarators@.len() as int,
                            );
                        }
                        return r;
                    }
                },
                None => {
                    let ghost x1 = *context;
                    context.emit(Instruction::PushUndefined);
                    proof {
                        lemma_ctx_step_emit(x1, *context);
                    }
                },
            }
            let ghost x1 = *context;
            let pattern = clone_pattern(&declarator.pattern);
            context.emit(Instruction::InitializePattern(pattern));
            proof {
                lemma_ctx_step_emit(x1, *context);
                if coded {
                    let a = declarators_code(declarators@, i as int, base, declare).unwrap() + d;
                    let init = match declarators@[i as int].initializer {
                        Some(x) => expr_code(x, base + a.len()).unwrap(),
                        None => seq![Instruction::PushUndefined],
                    };
                    if declarators@[i as int].initializer is None {
                        lemma_emits_then(x0.code@, xd.code@, x1.code@, a, Instruction::PushUndefined);
                        assert(a.push(Instruction::PushUndefined) =~= a + init);
                    } else {
                        lemma_emits_trans(x0.code@, xd.code@, x1.code@, a, init);
                    }
                    let e = Instruction::InitializePattern(declarators@[i as int].pattern);
                    lemma_emits_then_as(x0.code@, x1.code@, context.code@, a + init, Instruction::InitializePattern(pattern), e);
                    assert(declarators_code(declarators@, i + 1, base, declare).unwrap() == a + init + seq![e]);
                    assert((a + init).push(e) =~= a + init + seq![e]);
                }
                assert(opt_expr_fault(declarators@[i as int].initializer) is None);
                assert(declarators_fault(declarators@, i + 1) == first_of(
                    declarators_fault(declarators@, i as int),
                    opt_expr_fault(declarators@[i as int].initializer),
                ));
            }
            proof {
                assert(declarators_shapes(declarators@, i + 1) == declarators_shapes(
                    declarators@,
                    i as int,
                ) + opt_expr_shapes(declarators@[i as int].initializer));
                assert(opt_expr_shapes(declarators@[i as int].initializer) == match declarators@[i as int].initializer {
                    Some(x) => expr_shapes(x),
                    None => Seq::<FunctionShape>::empty(),
                });
                if declarators@[i as int].initializer is Some {
                    lemma_appended_trans(
                        c0.functions@,
                        ci.functions@,
                        self.functions@,
                        declarators_shapes(declarators@, i as int),
                        opt_expr_shapes(declarators@[i as int].initializer),
                    );
                } else {
                    assert(declarators_shapes(declarators@, i + 1) =~= declarators_shapes(
                        declarators@,
                        i as int,
                    ));
                }
            }
            i = i + 1;
        }
        Ok(())
    }

    /// Compiles one statement.
    fn compile_stmt(&mut self, context: &mut CompileContext, statement: &Stmt) -> (r:
        JsliteResult<()>)
        requires
            compiling(*old(self), *old(context)),
        ensures
            outcome_matches(r, stmt_fault(*statement, old(context).loop_stack@.len() > 0)),
            r is Ok ==> stmt_step(*old(context), *final(context)) && compiler_step(
                *old(self),
                *final(self),
                *final(context),
            ) && final(context).scope_depth == old(context).scope_depth,
            r is Ok ==> stmt_keeps(*statement, *old(self), *final(self), *old(context), *final(context)),
            r is Ok ==> appended(old(self).functions@, final(self).functions@, stmt_shapes(*statement)),
            r is Ok ==> (stmt_code(*statement, old(context).code@.len() as int) matches Some(c) ==> same_but_code(
                *old(context),
                *final(context),
            ) && emits(old(context).code@, final(context).code@, c)),
        decreases *statement, 1int,
    {
        broadcast use group_compile_steps;

        let ghost c0 = *self;
        let ghost x0 = *context;
        proof {
            lemma_evolves_refl(x0);
            lemma_functions_extend_refl(c0.functions@);
            lemma_appended_refl(c0.functions@);
            lemma_simple_stmt_code(*statement, x0.code@.len() as int);
        }
        match statement {
            Stmt::VariableDecl { declarators, .. } => {
                proof {
                    assert(stmt_fault(*statement, x0.loop_stack@.len() > 0) == declarators_fault(
                        declarators@,
                        declarators@.len() as int,
                    ));
                    assert(stmt_switch_continue(*statement) == declarators_switch_continue(
                        declarators@,
                        declarators@.len() as int,
                    ));
                    assert(stmt_shapes(*statement) == declarators_shapes(
                        declarators@,
                        declarators@.len() as int,
                    ));
                }
                let r = self.compile_declarators(context, declarators, false);
                proof {
                    if r is Ok {
                        lemma_stmt_keeps_intro(*statement, c0, *self, x0, *context);
                    }
                }
                r
            },
            Stmt::FunctionDecl { .. } => {
                proof {
                    lemma_keeps_refl(x0);
                    lemma_stmt_keeps_intro(*statement, c0, *self, x0, *context);
                    assert(context.code@ =~= x0.code@ + Seq::<Instruction>::empty());
                    lemma_emits_same(x0.code@, context.code@, Seq::<Instruction>::empty());
                }
                Ok(())
            },
            Stmt::Empty { .. } => {
                proof {
                    lemma_keeps_refl(x0);
                    lemma_stmt_keeps_intro(*statement, c0, *self, x0, *context);
                    assert(context.code@ =~= x0.code@ + Seq::<Instruction>::empty());
                    lemma_emits_same(x0.code@, context.code@, Seq::<Instruction>::empty());
                    lemma_simple_stmt_code(*statement, x0.code@.len() as int);
                }
                Ok(())
            },
            Stmt::Expression { expression, .. } => {
                proof {
                    assert(stmt_switch_continue(*statement) == expr_switch_continue(*expression));
                    assert(stmt_shapes(*statement) == expr_shapes(*expression));
                }
                let r = self.compile_expr(context, expression);
                if r.is_err() {
                    return r;
                }
                let ghost x1 = *context;
                context.emit(Instruction::Pop);
                proof {
                    lemma_ctx_step_emit(x1, *context);
                    lemma_keeps_trans(x0, x1, *context);
                    lemma_stmt_keeps_intro(*statement, c0, *self, x0, *context);
                    lemma_simple_stmt_code(*statement, x0.code@.len() as int);
                    if expr_code(*expression, x0.code@.len() as int) is Some {
                        lemma_emits_then(
                            x0.code@,
                            x1.code@,
                            context.code@,
                            expr_code(*expression, x0.code@.len() as int).unwrap(),
                            Instruction::Pop,
                        );
                    }
                }
                Ok(())
            },
            Stmt::Block { .. } => self.compile_block(context, statement),
            Stmt::If { .. } => self.compile_if(context, statement),
            Stmt::While { .. } => self.compile_while(context, statement),
            Stmt::DoWhile { .. } => self.compile_do_while(context, statement),
            Stmt::For { .. } => self.compile_for(context, statement),
            Stmt::ForOf { .. } => self.compile_for_of(context, statement),
            Stmt::Break { .. } => self.compile_break(context, statement),
            Stmt::Continue { .. } => self.compile_continue(context, statement),
            Stmt::Return { .. } => self.compile_return(context, statement),
            Stmt::Throw { .. } => self.compile_throw(context, statement),
            Stmt::Switch { .. } => self.compile_switch(context, statement),
            Stmt::Try { .. } => self.compile_try(context, statement),
        }
    }
}

impl CompileContext {
    /// Declares every name `pattern` binds: mutable as `pattern_bindings`
    /// reports, or as `mutable` says when given.
    fn declare_pattern_names(&mut self, pattern: &Pattern, mutable: Option<bool>)
        requires
            old(self).wf(),
        ensures
            ctx_step(*old(self), *final(self)),
            same_but_code(*old(self), *final(self)),
            keeps(*old(self), *final(self)),
            emits(
                old(self).code@,
                final(self).code@,
                declare_code(
                    pattern_names(*pattern),
                    match mutable {
                        Some(m) => m,
                        None => true,
                    },
                ),
            ),
    {
        let ghost x0 = *self;
        let ghost flag_spec = match mutable {
            Some(m) => m,
            None => true,
        };
        let ghost expected = declare_code(pattern_names(*pattern), flag_spec);
        proof {
            lemma_evolves_refl(x0);
            lemma_keeps_refl(x0);
            assert(x0.code@ =~= x0.code@ + expected.take(0));
            lemma_emits_same(x0.code@, x0.code@, expected.take(0));
        }
        let names = pattern_bindings(pattern);
        assert(names@.len() == pattern_names(*pattern).len()) by {
            assert(pairs_view(names@).len() == names@.len());
        }
        let mut j: usize = 0;
        while j < names.len()
            invariant
                ctx_step(x0, *self),
                same_but_code(x0, *self),
                keeps(x0, *self),
                j <= names@.len() == expected.len(),
                expected == declare_code(pattern_names(*pattern), flag_spec),
                flag_spec == match mutable {
                    Some(m) => m,
                    None => true,
                },
                pairs_view(names@) == with_flag(pattern_names(*pattern), true),
                emits(x0.code@, self.code@, expected.take(j as int)),
            decreases names.len() - j,
        {
            let ghost x1 = *self;
            let flag = match mutable {
                Some(m) => m,
                None => names[j].1,
            };
            self.emit(Instruction::DeclareName { name: names[j].0.clone(), mutable: flag });
            proof {
                lemma_ctx_step_emit(x1, *self);
                lemma_ctx_step_trans(x0, x1, *self);
                lemma_keeps_trans(x0, x1, *self);
                let ns = pattern_names(*pattern);
                assert(expected.len() == ns.len());
                assert(with_flag(ns, true).len() == ns.len());
                assert(pairs_view(names@)[j as int] == (names@[j as int].0@, names@[j as int].1));
                assert(with_flag(ns, true)[j as int] == (ns[j as int], true));
                assert(names@[j as int].0@ == ns[j as int]);
                assert(flag == flag_spec);
                assert(expected[j as int] == Instruction::DeclareName { name: named(ns[j as int]), mutable: flag_spec });
                lemma_named(names@[j as int].0);
                lemma_emits_then_as(
                    x0.code@,
                    x1.code@,
                    self.code@,
                    expected.take(j as int),
                    Instruction::DeclareName { name: names@[j as int].0, mutable: flag },
                    expected[j as int],
                );
                assert(expected.take(j as int).push(expected[j as int]) =~= expected.take(j + 1));
            }
            j = j + 1;
        }
        proof {
            assert(expected.take(names@.len() as int) =~= expected);
        }
    }
}

impl Compiler {
    /// Compiles the case tests of a `switch` whose discriminant is on the
    /// stack: a test that matches jumps to its case's body. Returns the jumps
    /// to patch, one per case with a test, and the index of the `default`
    /// case, if any.
    #[verifier::rlimit(40)]
    fn compile_case_tests(&mut self, context: &mut CompileContext, cases: &Vec<SwitchCase>) -> (r:
        JsliteResult<(Vec<usize>, Option<usize>)>)
        requires
            compiling(*old(self), *old(context)),
        ensures
            outcome_matches(r, case_tests_fault(cases@, cases@.len() as int)),
            r matches Ok((jumps, default_index)) ==> {
                &&& stmt_step(*old(context), *final(context))
                &&& compiler_step(*old(self), *final(self), *final(context))
                &&& final(context).scope_depth == old(context).scope_depth
                &&& jumps@.len() <= cases@.len()
                &&& forall|j: int|
                    0 <= j < jumps@.len() ==> old(context).code@.len() <= #[trigger] jumps@[j]
                        < final(context).code@.len()
                &&& default_index matches Some(d) ==> d < cases@.len()
                &&& final(context).loop_stack@ == old(context).loop_stack@
                &&& final(context).finally_regions@ == old(context).finally_regions@
                &&& forall|j: int|
                    0 <= j < jumps@.len() ==> (#[trigger] final(context).code@[jumps@[j] as int]) is Jump
                &&& !cases_switch_continue(cases@, cases@.len() as int) ==> adds_all(
                    *old(context),
                    *final(context),
                    sites_set(jumps@),
                ) && new_functions_ok(*old(self), *final(self))
            },
            r is Ok ==> appended(old(self).functions@, final(self).functions@, case_tests_shapes(cases@, cases@.len() as int)),
        decreases *cases, 0int,
    {
        broadcast use group_compile_steps;

        let ghost c0 = *self;
        let ghost x0 = *context;
        proof {
            lemma_evolves_refl(x0);
            lemma_functions_extend_refl(c0.functions@);
            lemma_appended_refl(c0.functions@);
            assert(adds_all(x0, x0, sites_set(Seq::<usize>::empty()))) by {
                assert forall|n: int, s: Set<int>| 0 <= n && #[trigger] settled(n, x0, s) implies settled(
                    n,
                    x0,
                    s.union(sites_set(Seq::<usize>::empty())),
                ) by {
                    assert(s.union(sites_set(Seq::<usize>::empty())) =~= s);
                }
            }
        }
        let mut case_jumps: Vec<usize> = Vec::new();
        let mut default_case_index: Option<usize> = None;
        let mut i: usize = 0;
        while i < cases.len()
            invariant
                compiling(c0, x0),
                stmt_step(x0, *context),
                compiler_step(c0, *self, *context),
                context.scope_depth == x0.scope_depth,
                i <= cases@.len(),
                case_tests_fault(cases@, i as int) is None,
                forall|j: int|
                    0 <= j < case_jumps@.len() ==> x0.code@.len() <= #[trigger] case_jumps@[j]
                        < context.code@.len(),
                case_jumps@.len() <= i,
                default_case_index matches Some(d) ==> d < cases@.len(),
                context.loop_stack@ == x0.loop_stack@,
                context.finally_regions@ == x0.finally_regions@,
                appended(c0.functions@, self.functions@, case_tests_shapes(cases@, i as int)),
                forall|j: int|
                    0 <= j < case_jumps@.len() ==> (#[trigger] context.code@[case_jumps@[j] as int]) is Jump,
                !cases_switch_continue(cases@, i as int) ==> adds_all(
                    x0,
                    *context,
                    sites_set(case_jumps@),
                ) && new_functions_ok(c0, *self),
            decreases cases.len() - i,
        {
            proof {
                assert(decreases_to!(*cases => cases@[i as int].test));
                lemma_cases_switch_continue_step(cases@, i as int);
            }
            let ghost xh = *context;
            let ghost jh = case_jumps@;
            let ghost ch = *self;
            match &cases[i].test {
                Some(test) => {
                    let ghost x1 = *context;
                    context.emit(Instruction::Dup);
                    let ghost y0 = *context;
                    proof {
                        lemma_ctx_step_emit(x1, *context);
                    }
                    let r = self.compile_expr(context, test);
                    if r.is_err() {
                        proof {
                            lemma_case_tests_fault_settled(cases@, i + 1, cases@.len() as int);
                        }
                        return Err(r.unwrap_err());
                    }
                    let ghost x2 = *context;
                    context.emit(Instruction::Binary(BinaryOp::StrictEq));
                    let ghost y1 = *context;
                    let miss_jump = context.emit(Instruction::JumpIfFalse(usize::MAX));
                    let ghost y2 = *context;
                    context.emit(Instruction::Pop);
                    let ghost y3 = *context;
                    context.emit(Instruction::Pop);
                    let ghost y4 = *context;
                    let case_jump = context.emit(Instruction::Jump(usize::MAX));
                    case_jumps.push(case_jump);
                    let miss_ip = context.code.len();
                    let ghost x3 = *context;
                    proof {
                        lemma_ctx_step_emit(x2, x3);
                    }
                    context.patch_jump(miss_jump, miss_ip);
                    let ghost x4 = *context;
                    proof {
                        lemma_stmt_step_patch(x0, x3, x4);
                    }
                    context.emit(Instruction::Pop);
                    proof {
                        lemma_ctx_step_emit(x4, *context);
                        assert(x3.code@[miss_jump as int] == y2.code@[miss_jump as int]);
                        assert forall|j: int| 0 <= j < case_jumps@.len() implies (
                        #[trigger] context.code@[case_jumps@[j] as int]) is Jump by {
                            if j < jh.len() {
                                assert(case_jumps@[j] == jh[j]);
                                assert(xh.code@[jh[j] as int] is Jump);
                                assert(y0.code@[jh[j] as int] == xh.code@[jh[j] as int]);
                                assert(x2.code@[jh[j] as int] == y0.code@[jh[j] as int]);
                                assert(x3.code@[jh[j] as int] == x2.code@[jh[j] as int]);
                            } else {
                                assert(case_jumps@[j] == case_jump);
                                assert(x3.code@[case_jump as int] is Jump);
                            }
                        }
                        if !cases_switch_continue(cases@, i + 1) {
                            lemma_keeps_trans(x1, y0, x2);
                            lemma_keeps_trans(x1, x2, y1);
                            lemma_keeps_trans(y2, y3, y4);
                            lemma_adds_around(y1, y2, y4, x3, x4, *context, miss_jump as int, case_jump as int);
                            lemma_keeps_adds(x1, y1, *context, case_jump as int);
                            lemma_adds_all_push(x0, xh, *context, jh, case_jump);
                        }
                    }
                },
                None => {
                    default_case_index = Some(i);
                    proof {
                        lemma_functions_extend_refl(self.functions@);
                    }
                },
            }
            proof {
                assert(case_tests_shapes(cases@, i + 1) == case_tests_shapes(cases@, i as int)
                    + opt_expr_shapes(cases@[i as int].test));
                assert(opt_expr_shapes(cases@[i as int].test) == match cases@[i as int].test {
                    Some(x) => expr_shapes(x),
                    None => Seq::<FunctionShape>::empty(),
                });
                if cases@[i as int].test is Some {
                    lemma_appended_trans(
                        c0.functions@,
                        ch.functions@,
                        self.functions@,
                        case_tests_shapes(cases@, i as int),
                        opt_expr_shapes(cases@[i as int].test),
                    );
                } else {
                    assert(case_tests_shapes(cases@, i + 1) =~= case_tests_shapes(cases@, i as int));
                }
                assert(case_tests_fault(cases@, i + 1) == first_of(
                    case_tests_fault(cases@, i as int),
                    opt_expr_fault(cases@[i as int].test),
                ));
            }
            i = i + 1;
        }
        Ok((case_jumps, default_case_index))
    }

    /// Compiles the case bodies of a `switch` one after the other; returns
    /// where each starts.
    fn compile_case_bodies(&mut self, context: &mut CompileContext, cases: &Vec<SwitchCase>) -> (r:
        JsliteResult<Vec<usize>>)
        requires
            compiling(*old(self), *old(context)),
            old(context).loop_stack@.len() > 0,
        ensures
            outcome_matches(r, case_bodies_fault(cases@, cases@.len() as int)),
            r matches Ok(offsets) ==> {
                &&& stmt_step(*old(context), *final(context))
                &&& compiler_step(*old(self), *final(self), *final(context))
                &&& final(context).scope_depth == old(context).scope_depth
                &&& offsets@.len() == cases@.len()
                &&& forall|j: int|
                    0 <= j < offsets@.len() ==> #[trigger] offsets@[j] <= final(context).code@.len()
                &&& lower_loops_kept(*old(context), *final(context))
                &&& top_target_kept(*old(context), *final(context))
                &&& handlers_kept(*old(context), *final(context))
                &&& !cases_switch_continue(cases@, cases@.len() as int) ==> keeps(
                    *old(context),
                    *final(context),
                ) && new_functions_ok(*old(self), *final(self)) && top_continue_kept(
                    *old(context),
                    *final(context),
                )
            },
            r is Ok ==> appended(old(self).functions@, final(self).functions@, case_bodies_shapes(cases@, cases@.len() as int)),
        decreases *cases, 0int,
    {
        broadcast use group_compile_steps;

        let ghost c0 = *self;
        let ghost x0 = *context;
        proof {
            lemma_evolves_refl(x0);
            lemma_functions_extend_refl(c0.functions@);
            lemma_keeps_refl(x0);
            lemma_appended_refl(c0.functions@);
        }
        let mut case_offsets: Vec<usize> = Vec::new();
        let mut i: usize = 0;
        while i < cases.len()
            invariant
                stmt_step(x0, *context),
                compiler_step(c0, *self, *context),
                context.scope_depth == x0.scope_depth,
                x0.loop_stack@.len() > 0,
                i <= cases@.len(),
                case_bodies_fault(cases@, i as int) is None,
                case_offsets@.len() == i,
                forall|j: int| 0 <= j < i ==> #[trigger] case_offsets@[j] <= context.code@.len(),
                lower_loops_kept(x0, *context),
                top_target_kept(x0, *context),
                handlers_kept(x0, *context),
                appended(c0.functions@, self.functions@, case_bodies_shapes(cases@, i as int)),
                !cases_switch_continue(cases@, i as int) ==> keeps(x0, *context) && new_functions_ok(
                    c0,
                    *self,
                ) && top_continue_kept(x0, *context),
            decreases cases.len() - i,
        {
            proof {
                lemma_cases_switch_continue_step(cases@, i as int);
            }
            let ghost ci = *self;
            case_offsets.push(context.code.len());
            proof {
                assert(decreases_to!(*cases => cases@[i as int].consequent));
            }
            let ghost xi = *context;
            let r = self.compile_statements(context, &cases[i].consequent);
            if r.is_err() {
                proof {
                    lemma_case_bodies_fault_settled(cases@, i + 1, cases@.len() as int);
                }
                return Err(r.unwrap_err());
            }
            proof {
                lemma_stmt_step_trans(x0, xi, *context);
                if !cases_switch_continue(cases@, i + 1) {
                    lemma_keeps_trans(x0, xi, *context);
                }
                lemma_appended_trans(
                    c0.functions@,
                    ci.functions@,
                    self.functions@,
                    case_bodies_shapes(cases@, i as int),
                    stmts_shapes(cases@[i as int].consequent@, cases@[i as int].consequent@.len() as int),
                );
            }
            i = i + 1;
        }
        Ok(case_offsets)
    }

    /// Compiles a `switch`: the discriminant, a test per case that jumps to
    /// its body, then the bodies in order, inside a breakable context.
    fn compile_switch(&mut self, context: &mut CompileContext, statement: &Stmt) -> (r:
        JsliteResult<()>)
        requires
            compiling(*old(self), *old(context)),
            statement is Switch,
        ensures
            outcome_matches(r, stmt_fault(*statement, old(context).loop_stack@.len() > 0)),
            r is Ok ==> stmt_step(*old(context), *final(context)) && compiler_step(
                *old(self),
                *final(self),
                *final(context),
            ) && final(context).scope_depth == old(context).scope_depth,
            r is Ok ==> stmt_keeps(*statement, *old(self), *final(self), *old(context), *final(context)),
            r is Ok ==> appended(old(self).functions@, final(self).functions@, stmt_shapes(*statement)),
        decreases *statement, 0int,
    {
        broadcast use group_compile_steps;

        let ghost c0 = *self;
        let ghost x0 = *context;
        proof {
            lemma_evolves_refl(x0);
            lemma_functions_extend_refl(c0.functions@);
        }
        let Stmt::Switch { discriminant, cases, .. } = statement else {
            return Ok(());
        };
        proof {
            assert(stmt_switch_continue(*statement) == (expr_switch_continue(*discriminant)
                || cases_switch_continue(cases@, cases@.len() as int)));
            assert(free_continue(*statement) == false);
            assert(stmt_shapes(*statement) == expr_shapes(*discriminant) + case_tests_shapes(
                cases@,
                cases@.len() as int,
            ) + case_bodies_shapes(cases@, cases@.len() as int));
        }
        let r = self.compile_expr(context, discriminant);
        if r.is_err() {
            return r;
        }
        let ghost xa = *context;
        let depth = context.scope_depth;
        context.push_loop(depth);
        let ghost xp = *context;
        let ghost cp = *self;
        let (case_jumps, default_case_index) = match self.compile_case_tests(context, cases) {
            Ok(found) => found,
            Err(e) => {
                return Err(e);
            },
        };
        let ghost x5 = *context;
        let ghost c5 = *self;
        context.emit(Instruction::Pop);
        let ghost y5 = *context;
        let jump_past_cases = context.emit(Instruction::Jump(usize::MAX));
        let ghost yq = *context;
        proof {
            lemma_ctx_step_emit(x5, *context);
        }
        let case_offsets = match self.compile_case_bodies(context, cases) {
            Ok(offsets) => offsets,
            Err(e) => {
                return Err(e);
            },
        };
        let end_ip = context.code.len();
        let default_target = match default_case_index {
            Some(index) => case_offsets[index],
            None => end_ip,
        };
        let ghost x6 = *context;
        context.patch_jump(jump_past_cases, default_target);
        let ghost xq = *context;
        proof {
            lemma_stmt_step_patch(xp, x6, *context);
            let q = jump_past_cases as int;
            assert(x6.code@[q] == yq.code@[q]);
            assert forall|k: int| 0 <= k < case_jumps@.len() implies (
            #[trigger] xq.code@[case_jumps@[k] as int]) is Jump by {
                let c = case_jumps@[k] as int;
                assert(y5.code@[c] == x5.code@[c]);
                assert(yq.code@[c] == y5.code@[c]);
                assert(x6.code@[c] == yq.code@[c]);
            }
            if !stmt_switch_continue(*statement) {
                let t = sites_set(case_jumps@);
                assert forall|n: int, s: Set<int>| 0 <= n && #[trigger] settled(n, xp, s) implies settled(
                    n,
                    xq,
                    s.union(t),
                ) by {
                    assert(settled(n, x5, s.union(t)));
                    assert(settled(n, y5, s.union(t)));
                    assert(settled(n, yq, s.union(t).insert(q)));
                    assert(settled(n, x6, s.union(t).insert(q)));
                    assert(settled(n, xq, s.union(t).insert(q).remove(q)));
                    lemma_settled_subset(n, xq, s.union(t).insert(q).remove(q), s.union(t));
                }
                assert(case_jumps@.subrange(0, case_jumps@.len() as int) =~= case_jumps@);
            }
        }
        let mut j: usize = 0;
        while j < case_jumps.len() && j < case_offsets.len()
            invariant
                stmt_step(xp, *context),
                compiler_step(c0, *self, *context),
                context.scope_depth == xp.scope_depth,
                context.loop_stack@ == xq.loop_stack@,
                context.finally_regions@ == xq.finally_regions@,
                context.code@.len() == xq.code@.len(),
                forall|k: int|
                    0 <= k < case_jumps@.len() ==> xp.code@.len() <= #[trigger] case_jumps@[k]
                        < context.code@.len(),
                forall|k: int|
                    j <= k < case_jumps@.len() ==> (#[trigger] context.code@[case_jumps@[k] as int]) is Jump,
                forall|k: int| 0 <= k < case_offsets@.len() ==> #[trigger] case_offsets@[k] <= xq.code@.len(),
                j <= case_jumps@.len(),
                !stmt_switch_continue(*statement) ==> adds_all(
                    xp,
                    *context,
                    sites_set(case_jumps@.subrange(j as int, case_jumps@.len() as int)),
                ),
            decreases case_jumps.len() - j,
        {
            let ghost x7 = *context;
            context.patch_jump(case_jumps[j], case_offsets[j]);
            proof {
                lemma_stmt_step_patch(xp, x7, *context);
                if !stmt_switch_continue(*statement) {
                    lemma_adds_all_patch(xp, x7, *context, case_jumps@, j as int);
                }
                assert forall|k: int| j + 1 <= k < case_jumps@.len() implies (
                #[trigger] context.code@[case_jumps@[k] as int]) is Jump by {
                    assert(x7.code@[case_jumps@[k] as int] is Jump);
                }
            }
            j = j + 1;
        }
        let ghost xc = *context;
        proof {
            lemma_top_sites_from(xp, xc);
            if !stmt_switch_continue(*statement) {
                assert(j == case_jumps@.len());
                assert forall|n: int, s: Set<int>| 0 <= n && #[trigger] settled(n, xp, s) implies settled(
                    n,
                    xc,
                    s,
                ) by {
                    let u = sites_set(case_jumps@.subrange(j as int, case_jumps@.len() as int));
                    assert(s.union(u) =~= s);
                }
            }
        }
        context.close_loop(None, end_ip, Ghost(xp.code@.len() as int));
        proof {
            lemma_loop_frame(x0, xa, xp, xc, *context);
            if !stmt_switch_continue(*statement) {
                lemma_keeps_trans(x0, xa, xp);
                lemma_keeps_trans(x0, xp, xc);
                lemma_keeps_trans(x0, xc, *context);
            }
            assert(lower_loops_kept(xp, xc));
            lemma_loop_keeps(*statement, c0, *self, x0, xa, xp, xc, *context, *context);
            lemma_appended_three(
                c0.functions@,
                cp.functions@,
                c5.functions@,
                self.functions@,
                expr_shapes(*discriminant),
                case_tests_shapes(cases@, cases@.len() as int),
                case_bodies_shapes(cases@, cases@.len() as int),
            );
        }
        Ok(())
    }
}

impl Compiler {
    /// Compiles a block: its own scope, its hoisted functions, then its
    /// statements.
    fn compile_block(&mut self, context: &mut CompileContext, statement: &Stmt) -> (r:
        JsliteResult<()>)
        requires
            compiling(*old(self), *old(context)),
            statement is Block,
        ensures
            outcome_matches(r, stmt_fault(*statement, old(context).loop_stack@.len() > 0)),
            r is Ok ==> stmt_step(*old(context), *final(context)) && compiler_step(
                *old(self),
                *final(self),
                *final(context),
            ) && final(context).scope_depth == old(context).scope_depth,
            r is Ok ==> stmt_keeps(*statement, *old(self), *final(self), *old(context), *final(context)),
            r is Ok ==> appended(old(self).functions@, final(self).functions@, stmt_shapes(*statement)),
            r is Ok ==> (stmt_code(*statement, old(context).code@.len() as int) matches Some(c) ==> same_but_code(
                *old(context),
                *final(context),
            ) && emits(old(context).code@, final(context).code@, c)),
        decreases *statement, 0int,
    {
        broadcast use group_compile_steps;

        let ghost c0 = *self;
        let ghost x0 = *context;
        proof {
            lemma_evolves_refl(x0);
            lemma_functions_extend_refl(c0.functions@);
        }
        let Stmt::Block { body, .. } = statement else {
            return Ok(());
        };
        proof {
            let b = x0.loop_stack@.len() > 0;
            assert(block_fault(body@, b) == first_of(
                hoisted_fault(body@, body@.len() as int),
                stmts_fault(body@, body@.len() as int, b),
            ));
        }
        context.enter_scope();
        let ghost x1 = *context;
        let ghost c1 = *self;
        let r = self.emit_block_prologue(context, body);
        if r.is_err() {
            return r;
        }
        let ghost x2 = *context;
        let ghost c2 = *self;
        let r = self.compile_statements(context, body);
        if r.is_err() {
            return r;
        }
        let ghost x3 = *context;
        context.leave_scope();
        proof {
            assert(stmt_switch_continue(*statement) == stmts_switch_continue(body@, body@.len() as int));
            assert(free_continue(*statement) == stmts_free_continue(body@, body@.len() as int));
            if !stmt_switch_continue(*statement) {
                lemma_keeps_trans(x0, x1, x2);
                lemma_keeps_trans(x0, x2, x3);
                lemma_keeps_trans(x0, x3, *context);
            }
            lemma_stmt_keeps_intro(*statement, c0, *self, x0, *context);
            lemma_appended_trans(
                c1.functions@,
                c2.functions@,
                self.functions@,
                hoisted_shapes(body@, body@.len() as int),
                stmts_shapes(body@, body@.len() as int),
            );
            let base = x0.code@.len() as int;
            if stmt_code(*statement, base) is Some {
                reveal(stmt_code);
                assert(no_functions(body@));
                let decls = lexical_decls(block_lexicals(body@, body@.len() as int));
                let c = stmts_code(body@, body@.len() as int, base + 1 + decls.len()).unwrap();
                let head = seq![Instruction::PushEnv] + decls;
                lemma_emits_push(x0.code@, x1.code@, Instruction::PushEnv);
                lemma_emits_trans(x0.code@, x1.code@, x2.code@, seq![Instruction::PushEnv], decls);
                lemma_emits_trans(x0.code@, x2.code@, x3.code@, head, c);
                lemma_emits_then(x0.code@, x3.code@, context.code@, head + c, Instruction::PopEnv);
                assert((head + c).push(Instruction::PopEnv) =~= seq![Instruction::PushEnv] + decls + c
                    + seq![Instruction::PopEnv]);
            }
        }
        Ok(())
    }

    /// Compiles an `if`.
    #[verifier::spinoff_prover]
    #[verifier::rlimit(100)]
    fn compile_if(&mut self, context: &mut CompileContext, statement: &Stmt) -> (r:
        JsliteResult<()>)
        requires
            compiling(*old(self), *old(context)),
            statement is If,
        ensures
            outcome_matches(r, stmt_fault(*statement, old(context).loop_stack@.len() > 0)),
            r is Ok ==> stmt_step(*old(context), *final(context)) && compiler_step(
                *old(self),
                *final(self),
                *final(context),
            ) && final(context).scope_depth == old(context).scope_depth,
            r is Ok ==> stmt_keeps(*statement, *old(self), *final(self), *old(context), *final(context)),
            r is Ok ==> appended(old(self).functions@, final(self).functions@, stmt_shapes(*statement)),
            r is Ok ==> (stmt_code(*statement, old(context).code@.len() as int) matches Some(c) ==> same_but_code(
                *old(context),
                *final(context),
            ) && emits(old(context).code@, final(context).code@, c)),
        decreases *statement, 0int,
    {
        broadcast use group_compile_steps;

        let ghost c0 = *self;
        let ghost x0 = *context;
        proof {
            lemma_evolves_refl(x0);
            lemma_functions_extend_refl(c0.functions@);
        }
        let Stmt::If { test, consequent, alternate, .. } = statement else {
            return Ok(());
        };
        let r = self.compile_expr(context, test);
        if r.is_err() {
            return r;
        }
        let ghost x1 = *context;
        let ghost c1 = *self;
        let jump_to_else = context.emit(Instruction::JumpIfFalse(usize::MAX));
        let ghost y1 = *context;
        context.emit(Instruction::Pop);
        let ghost x2 = *context;
        proof {
            lemma_ctx_step_emit(x1, x2);
        }
        let r = self.compile_stmt(context, consequent);
        if r.is_err() {
            return r;
        }
        let ghost x3 = *context;
        let ghost c3 = *self;
        let jump_to_end = context.emit(Instruction::Jump(usize::MAX));
        let ghost y2 = *context;
        let else_ip = context.code.len();
        context.patch_jump(jump_to_else, else_ip);
        let ghost y3 = *context;
        context.emit(Instruction::Pop);
        let ghost x4 = *context;
        proof {
            lemma_stmt_step_patch(x0, x3, x4);
            lemma_stmt_keeps_elim(**consequent, c1, c3, x2, x3);
            assert(y2.code@[jump_to_else as int] == y1.code@[jump_to_else as int]);
        }
        let ghost c4 = *self;
        match alternate {
            Some(a) => {
                let r = self.compile_stmt(context, a);
                if r.is_err() {
                    return r;
                }
                proof {
                    lemma_stmt_keeps_elim(**a, c4, *self, x4, *context);
                }
            },
            None => {
                proof {
                    lemma_keeps_refl(x4);
                    lemma_appended_refl(c4.functions@);
                }
            },
        }
        let ghost x5 = *context;
        let end_ip = context.code.len();
        context.patch_jump(jump_to_end, end_ip);
        proof {
            lemma_stmt_step_patch(x0, x5, *context);
            assert(x5.code@[jump_to_end as int] == y2.code@[jump_to_end as int]);
            assert(stmt_switch_continue(*statement) == (expr_switch_continue(*test)
                || stmt_switch_continue(**consequent) || match *alternate {
                Some(a) => stmt_switch_continue(*a),
                None => false,
            }));
            assert(free_continue(*statement) == (free_continue(**consequent) || match *alternate {
                Some(a) => free_continue(*a),
                None => false,
            }));
            if !stmt_switch_continue(*statement) {
                lemma_keeps_trans(y1, x2, x3);
                lemma_keeps_trans(y3, x4, x5);
                lemma_two_jumps(
                    x1,
                    y1,
                    x3,
                    y2,
                    y3,
                    x5,
                    *context,
                    jump_to_else as int,
                    jump_to_end as int,
                );
                lemma_keeps_trans(x0, x1, *context);
            }
            lemma_stmt_keeps_intro(*statement, c0, *self, x0, *context);
            let alt = match alternate {
                Some(a) => stmt_shapes(**a),
                None => Seq::<FunctionShape>::empty(),
            };
            assert(stmt_shapes(*statement) == expr_shapes(*test) + stmt_shapes(**consequent) + alt);
            lemma_appended_three(
                c0.functions@,
                c1.functions@,
                c4.functions@,
                self.functions@,
                expr_shapes(*test),
                stmt_shapes(**consequent),
                alt,
            );
            if stmt_code(*statement, x0.code@.len() as int) is Some {
                reveal(stmt_code);
                let base = x0.code@.len() as int;
                let t = expr_code(*test, base).unwrap();
                let c = stmt_code(**consequent, base + t.len() + 2).unwrap();
                let else_start = base + t.len() + 2 + c.len() + 1;
                let a = match alternate {
                    Some(x) => stmt_code(**x, else_start + 1).unwrap(),
                    None => Seq::<Instruction>::empty(),
                };
                let p = jump_to_else as int;
                let q = jump_to_end as int;
                let jf = y1.code@[p];
                let jj = y2.code@[q];
                lemma_emits_then(x0.code@, x1.code@, y1.code@, t, jf);
                lemma_emits_then(x0.code@, y1.code@, x2.code@, t.push(jf), Instruction::Pop);
                lemma_emits_trans(x0.code@, x2.code@, x3.code@, t.push(jf).push(Instruction::Pop), c);
                let c1 = t.push(jf).push(Instruction::Pop) + c;
                lemma_emits_then(x0.code@, x3.code@, y2.code@, c1, jj);
                lemma_emits_patch(x0.code@, y2.code@, c1.push(jj), t.len() as int, y3.code@[p]);
                assert(y3.code@ =~= y2.code@.update(p, y3.code@[p]));
                let c2 = c1.push(jj).update(t.len() as int, y3.code@[p]);
                lemma_emits_then(x0.code@, y3.code@, x4.code@, c2, Instruction::Pop);
                assert(else_ip as int == else_start);
                assert(x4.code@.len() == else_start + 1);
                if alternate is None {
                    assert(x5.code@ =~= x4.code@ + a);
                    lemma_emits_same(x4.code@, x5.code@, a);
                }
                lemma_emits_trans(x0.code@, x4.code@, x5.code@, c2.push(Instruction::Pop), a);
                assert(end_ip as int == else_start + 1 + a.len());
                lemma_emits_patch(x0.code@, x5.code@, c2.push(Instruction::Pop) + a, c1.len() as int, context.code@[q]);
                assert(context.code@ =~= x5.code@.update(q, context.code@[q]));
                assert((c2.push(Instruction::Pop) + a).update(c1.len() as int, context.code@[q]) =~= t + seq![
                    Instruction::JumpIfFalse(else_start as usize),
                    Instruction::Pop,
                ] + c + seq![Instruction::Jump((else_start + 1 + a.len()) as usize), Instruction::Pop] + a);
            }
        }
        Ok(())
    }

    /// Compiles a `while` loop.
    fn compile_while(&mut self, context: &mut CompileContext, statement: &Stmt) -> (r:
        JsliteResult<()>)
        requires
            compiling(*old(self), *old(context)),
            statement is While,
        ensures
            outcome_matches(r, stmt_fault(*statement, old(context).loop_stack@.len() > 0)),
            r is Ok ==> stmt_step(*old(context), *final(context)) && compiler_step(
                *old(self),
                *final(self),
                *final(context),
            ) && final(context).scope_depth == old(context).scope_depth,
            r is Ok ==> stmt_keeps(*statement, *old(self), *final(self), *old(context), *final(context)),
            r is Ok ==> appended(old(self).functions@, final(self).functions@, stmt_shapes(*statement)),
            r is Ok ==> (stmt_code(*statement, old(context).code@.len() as int) matches Some(c) ==> same_but_code(
                *old(context),
                *final(context),
            ) && emits(old(context).code@, final(context).code@, c)),
        decreases *statement, 0int,
    {
        broadcast use group_compile_steps;

        let ghost c0 = *self;
        let ghost x0 = *context;
        proof {
            lemma_evolves_refl(x0);
            lemma_functions_extend_refl(c0.functions@);
        }
        let Stmt::While { test, body, .. } = statement else {
            return Ok(());
        };
        proof {
            assert(stmt_switch_continue(*statement) == (expr_switch_continue(*test)
                || stmt_switch_continue(**body)));
            assert(stmt_shapes(*statement) == expr_shapes(*test) + stmt_shapes(**body));
        }
        let loop_start = context.code.len();
        let r = self.compile_expr(context, test);
        if r.is_err() {
            return r;
        }
        let ghost x1 = *context;
        let exit_jump = context.emit(Instruction::JumpIfFalse(usize::MAX));
        let ghost y1 = *context;
        context.emit(Instruction::Pop);
        proof {
            lemma_ctx_step_emit(x1, *context);
        }
        let ghost xa = *context;
        let depth = context.scope_depth;
        context.push_loop(depth);
        let ghost xp = *context;
        let ghost cp = *self;
        let r = self.compile_stmt(context, body);
        if r.is_err() {
            return r;
        }
        proof {
            lemma_stmt_keeps_elim(**body, cp, *self, xp, *context);
            assert(context.loop_stack@.last().continue_target is None);
        }
        let continue_target = match context.loop_stack[context.loop_stack.len() - 1].continue_target {
            Some(target) => target,
            None => loop_start,
        };
        let ghost x3 = *context;
        context.emit(Instruction::Jump(loop_start));
        let ghost y3 = *context;
        let false_path_ip = context.code.len();
        context.emit(Instruction::Pop);
        let loop_end = context.code.len();
        let ghost xc = *context;
        proof {
            lemma_ctx_step_emit(x3, xc);
            lemma_top_sites_from(xp, xc);
        }
        context.close_loop(Some(continue_target), loop_end, Ghost(xp.code@.len() as int));
        let ghost xd = *context;
        proof {
            lemma_loop_frame(x0, xa, xp, xc, xd);
        }
        context.patch_jump(exit_jump, false_path_ip);
        proof {
            lemma_stmt_step_patch(x0, xd, *context);
            let p = exit_jump as int;
            assert(xa.code@[p] == y1.code@[p]);
            assert(xp.code@[p] == xa.code@[p]);
            assert(x3.code@[p] == xp.code@[p]);
            assert(xc.code@[p] == x3.code@[p]);
            assert(xd.code@[p] == xc.code@[p]);
            if !stmt_switch_continue(*statement) {
                lemma_keeps_trans(y1, xa, xp);
                lemma_keeps_trans(y1, xp, x3);
                lemma_keeps_trans(x3, y3, xc);
                lemma_keeps_trans(y1, x3, xc);
                lemma_keeps_trans(y1, xc, xd);
                lemma_adds_keeps(x1, y1, xd, p);
                lemma_adds_resolves(x1, xd, *context, p);
                lemma_keeps_trans(x0, x1, *context);
            }
            assert(lower_loops_kept(xp, xc));
            lemma_loop_keeps(*statement, c0, *self, x0, xa, xp, xc, xd, *context);
            lemma_appended_trans(
                c0.functions@,
                cp.functions@,
                self.functions@,
                expr_shapes(*test),
                stmt_shapes(**body),
            );
            if stmt_code(*statement, x0.code@.len() as int) is Some {
                reveal(stmt_code);
                let base = x0.code@.len() as int;
                let t = expr_code(*test, base).unwrap();
                let b = stmt_code(**body, base + t.len() + 2).unwrap();
                let exit = base + t.len() + 2 + b.len() + 1;
                let p = exit_jump as int;
                let jf = y1.code@[p];
                lemma_emits_then(x0.code@, x1.code@, y1.code@, t, jf);
                lemma_emits_then(x0.code@, y1.code@, xa.code@, t.push(jf), Instruction::Pop);
                assert(xp.code@ == xa.code@);
                assert(xp.code@.len() == base + t.len() + 2);
                lemma_emits_trans(x0.code@, xp.code@, x3.code@, t.push(jf).push(Instruction::Pop), b);
                let c1 = t.push(jf).push(Instruction::Pop) + b;
                lemma_emits_then(x0.code@, x3.code@, y3.code@, c1, Instruction::Jump(loop_start));
                lemma_emits_then(
                    x0.code@,
                    y3.code@,
                    xc.code@,
                    c1.push(Instruction::Jump(loop_start)),
                    Instruction::Pop,
                );
                assert(false_path_ip as int == exit);
                assert(xc.loop_stack@ == xp.loop_stack@);
                assert(xd.code@ == xc.code@);
                assert(xp.loop_stack@.drop_last() =~= xa.loop_stack@);
                let c2 = c1.push(Instruction::Jump(loop_start)).push(Instruction::Pop);
                lemma_emits_patch(x0.code@, xd.code@, c2, t.len() as int, context.code@[p]);
                assert(context.code@ =~= xd.code@.update(p, context.code@[p]));
                assert(c2.update(t.len() as int, context.code@[p]) =~= t + seq![
                    Instruction::JumpIfFalse(exit as usize),
                    Instruction::Pop,
                ] + b + seq![Instruction::Jump(base as usize), Instruction::Pop]);
            }
        }
        Ok(())
    }

    /// Compiles a `do`/`while` loop.
    fn compile_do_while(&mut self, context: &mut CompileContext, statement: &Stmt) -> (r:
        JsliteResult<()>)
        requires
            compiling(*old(self), *old(context)),
            statement is DoWhile,
        ensures
            outcome_matches(r, stmt_fault(*statement, old(context).loop_stack@.len() > 0)),
            r is Ok ==> stmt_step(*old(context), *final(context)) && compiler_step(
                *old(self),
                *final(self),
                *final(context),
            ) && final(context).scope_depth == old(context).scope_depth,
            r is Ok ==> stmt_keeps(*statement, *old(self), *final(self), *old(context), *final(context)),
            r is Ok ==> appended(old(self).functions@, final(self).functions@, stmt_shapes(*statement)),
            r is Ok ==> (stmt_code(*statement, old(context).code@.len() as int) matches Some(c) ==> same_but_code(
                *old(context),
                *final(context),
            ) && emits(old(context).code@, final(context).code@, c)),
        decreases *statement, 0int,
    {
        broadcast use group_compile_steps;

        let ghost c0 = *self;
        let ghost x0 = *context;
        proof {
            lemma_evolves_refl(x0);
            lemma_functions_extend_refl(c0.functions@);
        }
        let Stmt::DoWhile { body, test, .. } = statement else {
            return Ok(());
        };
        proof {
            assert(stmt_switch_continue(*statement) == (stmt_switch_continue(**body)
                || expr_switch_continue(*test)));
        }
        let loop_start = context.code.len();
        let depth = context.scope_depth;
        context.push_loop(depth);
        let ghost xp = *context;
        let ghost cp = *self;
        let r = self.compile_stmt(context, body);
        if r.is_err() {
            return r;
        }
        let ghost xb = *context;
        proof {
            lemma_stmt_keeps_elim(**body, cp, *self, xp, xb);
        }
        let continue_target = context.code.len();
        context.set_continue_target(continue_target);
        let ghost xs = *context;
        let ghost cs = *self;
        let r = self.compile_expr(context, test);
        if r.is_err() {
            return r;
        }
        let ghost x1 = *context;
        let exit_jump = context.emit(Instruction::JumpIfFalse(usize::MAX));
        let ghost y1 = *context;
        context.emit(Instruction::Pop);
        let ghost y2 = *context;
        context.emit(Instruction::Jump(loop_start));
        let ghost y3 = *context;
        let false_path_ip = context.code.len();
        context.emit(Instruction::Pop);
        let loop_end = context.code.len();
        let ghost x2 = *context;
        proof {
            lemma_ctx_step_emit(x1, x2);
        }
        context.patch_jump(exit_jump, false_path_ip);
        let ghost xc = *context;
        proof {
            lemma_stmt_step_patch(xp, x2, xc);
            lemma_top_sites_from(xp, xc);
            assert(x2.code@[exit_jump as int] == y1.code@[exit_jump as int]);
        }
        context.close_loop(Some(continue_target), loop_end, Ghost(xp.code@.len() as int));
        proof {
            lemma_loop_frame(x0, x0, xp, xc, *context);
            if !stmt_switch_continue(*statement) {
                lemma_keeps_trans(y1, y2, y3);
                lemma_keeps_trans(y1, y3, x2);
                lemma_adds_keeps(x1, y1, x2, exit_jump as int);
                lemma_adds_resolves(x1, x2, xc, exit_jump as int);
                lemma_keeps_trans(x0, xp, xb);
                lemma_keeps_trans(x0, xb, xs);
                lemma_keeps_trans(x0, xs, x1);
                lemma_keeps_trans(x0, x1, xc);
                lemma_keeps_trans(x0, xc, *context);
            }
            assert(lower_loops_kept(xp, xc));
            lemma_loop_keeps(*statement, c0, *self, x0, x0, xp, xc, *context, *context);
            lemma_appended_trans(
                cp.functions@,
                cs.functions@,
                self.functions@,
                stmt_shapes(**body),
                expr_shapes(*test),
            );
            let base = x0.code@.len() as int;
            if stmt_code(*statement, base) is Some {
                reveal(stmt_code);
                let b = stmt_code(**body, base).unwrap();
                let t = expr_code(*test, base + b.len()).unwrap();
                assert(xp.code@ == x0.code@);
                assert(emits(x0.code@, xb.code@, b));
                assert(xb.loop_stack@ == xp.loop_stack@);
                assert(xs.code@ == xb.code@);
                lemma_emits_trans(x0.code@, xs.code@, x1.code@, b, t);
                assert(x1.loop_stack@ == xs.loop_stack@);
                assert(xc.loop_stack@ == xs.loop_stack@);
                assert(xc.loop_stack@.last().break_jumps@.len() == 0);
                assert(xc.loop_stack@.last().continue_jumps@.len() == 0);
                assert(context.code@ == xc.code@);
                assert(false_path_ip as int == base + b.len() + t.len() + 3);
                assert(context.loop_stack@ =~= x0.loop_stack@);
                let p = exit_jump as int;
                let jf = y1.code@[p];
                lemma_emits_then(x0.code@, x1.code@, y1.code@, b + t, jf);
                lemma_emits_then(x0.code@, y1.code@, y2.code@, (b + t).push(jf), Instruction::Pop);
                lemma_emits_then(
                    x0.code@,
                    y2.code@,
                    y3.code@,
                    (b + t).push(jf).push(Instruction::Pop),
                    Instruction::Jump(loop_start),
                );
                let c3 = (b + t).push(jf).push(Instruction::Pop).push(Instruction::Jump(loop_start));
                lemma_emits_then(x0.code@, y3.code@, x2.code@, c3, Instruction::Pop);
                lemma_emits_patch(x0.code@, x2.code@, c3.push(Instruction::Pop), (b + t).len() as int, xc.code@[p]);
                assert(xc.code@ =~= x2.code@.update(p, xc.code@[p]));
                assert(c3.push(Instruction::Pop).update((b + t).len() as int, xc.code@[p]) =~= b + t + seq![
                    Instruction::JumpIfFalse((base + b.len() + t.len() + 3) as usize),
                    Instruction::Pop,
                    Instruction::Jump(base as usize),
                    Instruction::Pop,
                ]);
            }
        }
        Ok(())
    }

    /// Compiles a `for` loop, in a scope of its own for its declarations.
    fn compile_for(&mut self, context: &mut CompileContext, statement: &Stmt) -> (r:
        JsliteResult<()>)
        requires
            compiling(*old(self), *old(context)),
            statement is For,
        ensures
            outcome_matches(r, stmt_fault(*statement, old(context).loop_stack@.len() > 0)),
            r is Ok ==> stmt_step(*old(context), *final(context)) && compiler_step(
                *old(self),
                *final(self),
                *final(context),
            ) && final(context).scope_depth == old(context).scope_depth,
            r is Ok ==> stmt_keeps(*statement, *old(self), *final(self), *old(context), *final(context)),
            r is Ok ==> appended(old(self).functions@, final(self).functions@, stmt_shapes(*statement)),
            r is Ok ==> (stmt_code(*statement, old(context).code@.len() as int) matches Some(c) ==> same_but_code(
                *old(context),
                *final(context),
            ) && emits(old(context).code@, final(context).code@, c)),
        decreases *statement, 0int,
    {
        broadcast use group_compile_steps;

        let ghost c0 = *self;
        let ghost x0 = *context;
        proof {
            lemma_evolves_refl(x0);
            lemma_functions_extend_refl(c0.functions@);
        }
        let Stmt::For { init, test, update, body, .. } = statement else {
            return Ok(());
        };
        proof {
            assert(opt_expr_fault(*test) == match *test {
                Some(t) => expr_fault(t),
                None => None,
            });
            assert(opt_expr_fault(*update) == match *update {
                Some(u) => expr_fault(u),
                None => None,
            });
        }
        proof {
            assert(stmt_switch_continue(*statement) == ((match *init {
                Some(ForInit::VariableDecl { declarators, .. }) => declarators_switch_continue(
                    declarators@,
                    declarators@.len() as int,
                ),
                Some(ForInit::Expression(e)) => expr_switch_continue(e),
                None => false,
            }) || opt_expr_switch_continue(*test) || stmt_switch_continue(**body)
                || opt_expr_switch_continue(*update)));
            assert(stmt_shapes(*statement) == for_init_shapes(*init) + opt_expr_shapes(*test)
                + stmt_shapes(**body) + opt_expr_shapes(*update));
            assert(opt_expr_shapes(*test) == match *test {
                Some(t) => expr_shapes(t),
                None => Seq::<FunctionShape>::empty(),
            });
            assert(opt_expr_shapes(*update) == match *update {
                Some(u) => expr_shapes(u),
                None => Seq::<FunctionShape>::empty(),
            });
            assert(opt_expr_switch_continue(*test) == match *test {
                Some(t) => expr_switch_continue(t),
                None => false,
            });
            assert(opt_expr_switch_continue(*update) == match *update {
                Some(u) => expr_switch_continue(u),
                None => false,
            });
        }
        context.enter_scope();
        let ghost xe = *context;
        let ghost mut xm = *context;
        match init {
            Some(ForInit::VariableDecl { declarators, .. }) => {
                let r = self.compile_declarators(context, declarators, true);
                if r.is_err() {
                    return r;
                }
            },
            Some(ForInit::Expression(expression)) => {
                let r = self.compile_expr(context, expression);
                if r.is_err() {
                    return r;
                }
                let ghost x1 = *context;
                context.emit(Instruction::Pop);
                proof {
                    lemma_ctx_step_emit(x1, *context);
                    lemma_keeps_trans(xe, x1, *context);
                    xm = x1;
                }
            },
            None => {
                proof {
                    lemma_keeps_refl(xe);
                    lemma_appended_refl(c0.functions@);
                }
            },
        }
        let ghost xi = *context;
        let ghost ci = *self;
        let loop_start = context.code.len();
        let ghost mut xt = *context;
        let ghost mut yt = *context;
        let exit_jump = match test {
            Some(test) => {
                let r = self.compile_expr(context, test);
                if r.is_err() {
                    return r;
                }
                let ghost x1 = *context;
                let jump = context.emit(Instruction::JumpIfFalse(usize::MAX));
                let ghost y1 = *context;
                context.emit(Instruction::Pop);
                proof {
                    lemma_ctx_step_emit(x1, *context);
                    xt = x1;
                    yt = y1;
                }
                Some(jump)
            },
            None => {
                proof {
                    lemma_keeps_refl(xi);
                    lemma_appended_refl(ci.functions@);
                }
                None
            },
        };
        let ghost xa = *context;
        let depth = context.scope_depth;
        context.push_loop(depth);
        let ghost xp = *context;
        let ghost cp = *self;
        let r = self.compile_stmt(context, body);
        if r.is_err() {
            return r;
        }
        let ghost xb = *context;
        let ghost cb = *self;
        proof {
            lemma_stmt_keeps_elim(**body, cp, *self, xp, xb);
        }
        let update_start = context.code.len();
        context.set_continue_target(update_start);
        let ghost xs = *context;
        let ghost mut xu = *context;
        match update {
            Some(update) => {
                let r = self.compile_expr(context, update);
                if r.is_err() {
                    return r;
                }
                let ghost x1 = *context;
                context.emit(Instruction::Pop);
                proof {
                    lemma_ctx_step_emit(x1, *context);
                    lemma_keeps_trans(xs, x1, *context);
                    xu = x1;
                }
            },
            None => {
                proof {
                    lemma_keeps_refl(xs);
                    lemma_appended_refl(cb.functions@);
                }
            },
        }
        let ghost x1 = *context;
        context.emit(Instruction::Jump(loop_start));
        let ghost y2 = *context;
        let false_path_ip = context.code.len();
        if exit_jump.is_some() {
            context.emit(Instruction::Pop);
        }
        let loop_end = context.code.len();
        let ghost xc = *context;
        proof {
            lemma_ctx_step_emit(x1, xc);
            lemma_top_sites_from(xp, xc);
            lemma_keeps_trans(x1, y2, xc);
        }
        context.close_loop(Some(update_start), loop_end, Ghost(xp.code@.len() as int));
        let ghost xd = *context;
        proof {
            lemma_loop_frame(x0, xa, xp, xc, *context);
        }
        match exit_jump {
            Some(jump) => {
                let ghost xd = *context;
                context.patch_jump(jump, false_path_ip);
                proof {
                    lemma_stmt_step_patch(x0, xd, *context);
                    let p = jump as int;
                    assert(xa.code@[p] == yt.code@[p]);
                    assert(xp.code@[p] == xa.code@[p]);
                    assert(xb.code@[p] == xp.code@[p]);
                    assert(x1.code@[p] == xb.code@[p]);
                    assert(xc.code@[p] == x1.code@[p]);
                    assert(xd.code@[p] == xc.code@[p]);
                    if !stmt_switch_continue(*statement) {
                        lemma_keeps_trans(yt, xa, xp);
                        lemma_keeps_trans(yt, xp, xb);
                        lemma_keeps_trans(yt, xb, xs);
                        lemma_keeps_trans(yt, xs, x1);
                        lemma_keeps_trans(yt, x1, xc);
                        lemma_keeps_trans(yt, xc, xd);
                        lemma_adds_keeps(xt, yt, xd, p);
                        lemma_adds_resolves(xt, xd, *context, p);
                        lemma_keeps_trans(xi, xt, *context);
                    }
                }
            },
            None => {
                proof {
                    if !stmt_switch_continue(*statement) {
                        lemma_keeps_trans(xi, xa, xp);
                        lemma_keeps_trans(xi, xp, xb);
                        lemma_keeps_trans(xi, xb, xs);
                        lemma_keeps_trans(xi, xs, x1);
                        lemma_keeps_trans(xi, x1, xc);
                        lemma_keeps_trans(xi, xc, xd);
                    }
                }
            },
        }
        let ghost xq = *context;
        context.leave_scope();
        proof {
            lemma_for_emits(
                x0,
                xe,
                xm,
                xi,
                xt,
                yt,
                xa,
                xp,
                xb,
                xs,
                xu,
                x1,
                y2,
                xc,
                xd,
                xq,
                *context,
                *statement,
                loop_start,
                false_path_ip,
                exit_jump,
            );
        }
        proof {
            if !stmt_switch_continue(*statement) {
                lemma_keeps_trans(x0, xe, xi);
                lemma_keeps_trans(x0, xi, xq);
                lemma_keeps_trans(x0, xq, *context);
            }
            assert(lower_loops_kept(xp, xc));
            lemma_loop_keeps(*statement, c0, *self, x0, xa, xp, xc, xd, *context);
            let init_shapes = for_init_shapes(*init);
            lemma_appended_three(
                c0.functions@,
                ci.functions@,
                cp.functions@,
                cb.functions@,
                init_shapes,
                opt_expr_shapes(*test),
                stmt_shapes(**body),
            );
            lemma_appended_trans(
                c0.functions@,
                cb.functions@,
                self.functions@,
                init_shapes + opt_expr_shapes(*test) + stmt_shapes(**body),
                opt_expr_shapes(*update),
            );
        }
        Ok(())
    }

    /// Compiles a `for`/`of` loop over a fresh iterator, each iteration
    /// binding the pattern in a scope of its own.
    fn compile_for_of(&mut self, context: &mut CompileContext, statement: &Stmt) -> (r:
        JsliteResult<()>)
        requires
            compiling(*old(self), *old(context)),
            statement is ForOf,
        ensures
            outcome_matches(r, stmt_fault(*statement, old(context).loop_stack@.len() > 0)),
            r is Ok ==> stmt_step(*old(context), *final(context)) && compiler_step(
                *old(self),
                *final(self),
                *final(context),
            ) && final(context).scope_depth == old(context).scope_depth,
            r is Ok ==> stmt_keeps(*statement, *old(self), *final(self), *old(context), *final(context)),
            r is Ok ==> appended(old(self).functions@, final(self).functions@, stmt_shapes(*statement)),
        decreases *statement, 0int,
    {
        broadcast use group_compile_steps;

        let ghost c0 = *self;
        let ghost x0 = *context;
        proof {
            lemma_evolves_refl(x0);
            lemma_functions_extend_refl(c0.functions@);
        }
        let Stmt::ForOf { span, kind, pattern, iterable, body } = statement else {
            return Ok(());
        };
        proof {
            assert(stmt_switch_continue(*statement) == (expr_switch_continue(*iterable)
                || stmt_switch_continue(**body)));
            assert(stmt_shapes(*statement) == expr_shapes(*iterable) + stmt_shapes(**body));
        }
        context.enter_scope();
        let ghost xe = *context;
        let loop_scope_depth = context.scope_depth;
        let iterator_binding = context.declare_internal("iter");
        let ghost xi = *context;
        let r = self.compile_expr(context, iterable);
        if r.is_err() {
            return r;
        }
        let ghost x1 = *context;
        context.emit(Instruction::CreateIterator);
        let ghost y1 = *context;
        context.emit(
            Instruction::InitializePattern(
                Pattern::Identifier { span: *span, name: iterator_binding.clone() },
            ),
        );
        let ghost y2 = *context;
        let loop_start = context.code.len();
        context.emit(Instruction::LoadName(iterator_binding.clone()));
        let ghost y3 = *context;
        context.emit(Instruction::IteratorNext);
        let ghost y4 = *context;
        let exit_jump = context.emit(Instruction::JumpIfTrue(usize::MAX));
        let ghost y5 = *context;
        context.emit(Instruction::Pop);
        let ghost y6 = *context;
        proof {
            lemma_ctx_step_emit(x1, *context);
        }
        context.enter_scope();
        let ghost y7 = *context;
        let mutable = match kind {
            BindingKind::Let => true,
            BindingKind::Const => false,
        };
        context.declare_pattern_names(pattern, Some(mutable));
        let ghost x2 = *context;
        context.emit(Instruction::InitializePattern(clone_pattern(pattern)));
        proof {
            lemma_ctx_step_emit(x2, *context);
        }
        let ghost xa = *context;
        context.push_loop(loop_scope_depth);
        let ghost xp = *context;
        let ghost cp = *self;
        let r = self.compile_stmt(context, body);
        if r.is_err() {
            return r;
        }
        let ghost xb = *context;
        proof {
            lemma_stmt_keeps_elim(**body, cp, *self, xp, xb);
        }
        context.leave_scope();
        let continue_target = context.code.len();
        let ghost x3 = *context;
        context.emit(Instruction::Jump(loop_start));
        let ghost z1 = *context;
        let done_path_ip = context.code.len();
        context.emit(Instruction::Pop);
        let ghost z2 = *context;
        context.emit(Instruction::Pop);
        let loop_end = context.code.len();
        let ghost xc = *context;
        proof {
            lemma_ctx_step_emit(x3, xc);
            lemma_top_sites_from(xp, xc);
        }
        context.close_loop(Some(continue_target), loop_end, Ghost(xp.code@.len() as int));
        let ghost xd = *context;
        proof {
            lemma_loop_frame(x0, xa, xp, xc, xd);
        }
        context.patch_jump(exit_jump, done_path_ip);
        let ghost xq = *context;
        proof {
            lemma_stmt_step_patch(x0, xd, *context);
        }
        context.leave_scope();
        proof {
            let p = exit_jump as int;
            assert(y6.code@[p] == y5.code@[p]);
            assert(y7.code@[p] == y6.code@[p]);
            assert(x2.code@[p] == y7.code@[p]);
            assert(xa.code@[p] == x2.code@[p]);
            assert(xp.code@[p] == xa.code@[p]);
            assert(xb.code@[p] == xp.code@[p]);
            assert(x3.code@[p] == xb.code@[p]);
            assert(xc.code@[p] == x3.code@[p]);
            assert(xd.code@[p] == xc.code@[p]);
            if !stmt_switch_continue(*statement) {
                lemma_keeps_trans(x0, xe, xi);
                lemma_keeps_trans(x0, xi, x1);
                lemma_keeps_trans(x0, x1, y1);
                lemma_keeps_trans(x0, y1, y2);
                lemma_keeps_trans(x0, y2, y3);
                lemma_keeps_trans(x0, y3, y4);
                lemma_keeps_trans(y5, y6, y7);
                lemma_keeps_trans(y5, y7, x2);
                lemma_keeps_trans(y5, x2, xa);
                lemma_keeps_trans(y5, xa, xp);
                lemma_keeps_trans(y5, xp, xb);
                lemma_keeps_trans(y5, xb, x3);
                lemma_keeps_trans(y5, x3, z1);
                lemma_keeps_trans(y5, z1, z2);
                lemma_keeps_trans(y5, z2, xc);
                lemma_keeps_trans(y5, xc, xd);
                lemma_adds_keeps(y4, y5, xd, p);
                lemma_adds_resolves(y4, xd, xq, p);
                lemma_keeps_trans(x0, y4, xq);
                lemma_keeps_trans(x0, xq, *context);
            }
            assert(lower_loops_kept(xp, xc));
            lemma_loop_keeps(*statement, c0, *self, x0, xa, xp, xc, xd, *context);
            lemma_appended_trans(
                c0.functions@,
                cp.functions@,
                self.functions@,
                expr_shapes(*iterable),
                stmt_shapes(**body),
            );
        }
        Ok(())
    }

    /// Compiles a `break`: a transfer out of the innermost loop or `switch`.
    fn compile_break(&mut self, context: &mut CompileContext, statement: &Stmt) -> (r:
        JsliteResult<()>)
        requires
            compiling(*old(self), *old(context)),
            statement is Break,
        ensures
            outcome_matches(r, stmt_fault(*statement, old(context).loop_stack@.len() > 0)),
            r is Ok ==> stmt_step(*old(context), *final(context)) && compiler_step(
                *old(self),
                *final(self),
                *final(context),
            ) && final(context).scope_depth == old(context).scope_depth,
            r is Ok ==> stmt_keeps(*statement, *old(self), *final(self), *old(context), *final(context)),
            r is Ok ==> appended(old(self).functions@, final(self).functions@, stmt_shapes(*statement)),
        decreases *statement, 0int,
    {
        let ghost c0 = *self;
        let ghost x0 = *context;
        proof {
            lemma_functions_extend_refl(c0.functions@);
        }
        let Stmt::Break { span } = statement else {
            return Ok(());
        };
        if context.loop_stack.len() == 0 {
            return Err(
                JsliteError::runtime_at(
                    "`break` used outside of a loop".to_owned(),
                    *span,
                ),
            );
        }
        let top = context.loop_stack.len() - 1;
        let handler_depth = context.loop_stack[top].handler_depth;
        let scope_depth = context.loop_stack[top].scope_depth;
        let patch = context.emit_jump_transfer(handler_depth, scope_depth);
        let ghost x1 = *context;
        context.add_break(patch);
        proof {
            lemma_add_transfer_step(x0, x1, *context, patch);
            lemma_adds_resolves(x0, x1, *context, patch_site(patch));
            lemma_stmt_keeps_intro(*statement, c0, *self, x0, *context);
            lemma_appended_refl(c0.functions@);
        }
        Ok(())
    }

    /// Compiles a `continue`: a transfer to the innermost loop's next
    /// iteration.
    fn compile_continue(&mut self, context: &mut CompileContext, statement: &Stmt) -> (r:
        JsliteResult<()>)
        requires
            compiling(*old(self), *old(context)),
            statement is Continue,
        ensures
            outcome_matches(r, stmt_fault(*statement, old(context).loop_stack@.len() > 0)),
            r is Ok ==> stmt_step(*old(context), *final(context)) && compiler_step(
                *old(self),
                *final(self),
                *final(context),
            ) && final(context).scope_depth == old(context).scope_depth,
            r is Ok ==> stmt_keeps(*statement, *old(self), *final(self), *old(context), *final(context)),
            r is Ok ==> appended(old(self).functions@, final(self).functions@, stmt_shapes(*statement)),
        decreases *statement, 0int,
    {
        let ghost c0 = *self;
        let ghost x0 = *context;
        proof {
            lemma_functions_extend_refl(c0.functions@);
        }
        let Stmt::Continue { span } = statement else {
            return Ok(());
        };
        if context.loop_stack.len() == 0 {
            return Err(
                JsliteError::runtime_at(
                    "`continue` used outside of a loop".to_owned(),
                    *span,
                ),
            );
        }
        let top = context.loop_stack.len() - 1;
        let handler_depth = context.loop_stack[top].handler_depth;
        let scope_depth = context.loop_stack[top].scope_depth;
        let patch = context.emit_jump_transfer(handler_depth, scope_depth);
        let ghost x1 = *context;
        context.add_continue(patch);
        proof {
            lemma_add_transfer_step(x0, x1, *context, patch);
            lemma_adds_resolves(x0, x1, *context, patch_site(patch));
            lemma_stmt_keeps_intro(*statement, c0, *self, x0, *context);
            lemma_appended_refl(c0.functions@);
        }
        Ok(())
    }

    /// Compiles a `return`.
    fn compile_return(&mut self, context: &mut CompileContext, statement: &Stmt) -> (r:
        JsliteResult<()>)
        requires
            compiling(*old(self), *old(context)),
            statement is Return,
        ensures
            outcome_matches(r, stmt_fault(*statement, old(context).loop_stack@.len() > 0)),
            r is Ok ==> stmt_step(*old(context), *final(context)) && compiler_step(
                *old(self),
                *final(self),
                *final(context),
            ) && final(context).scope_depth == old(context).scope_depth,
            r is Ok ==> stmt_keeps(*statement, *old(self), *final(self), *old(context), *final(context)),
            r is Ok ==> appended(old(self).functions@, final(self).functions@, stmt_shapes(*statement)),
        decreases *statement, 0int,
    {
        broadcast use group_compile_steps;

        let ghost c0 = *self;
        let ghost x0 = *context;
        proof {
            lemma_evolves_refl(x0);
            lemma_functions_extend_refl(c0.functions@);
        }
        let Stmt::Return { value, .. } = statement else {
            return Ok(());
        };
        proof {
            assert(opt_expr_fault(*value) == match *value {
                Some(v) => expr_fault(v),
                None => None,
            });
            assert(stmt_switch_continue(*statement) == opt_expr_switch_continue(*value));
            assert(stmt_shapes(*statement) == opt_expr_shapes(*value));
        }
        match value {
            Some(value) => {
                let r = self.compile_expr(context, value);
                if r.is_err() {
                    return r;
                }
            },
            None => {
                context.emit(Instruction::PushUndefined);
                proof {
                    lemma_ctx_step_emit(x0, *context);
                    lemma_appended_refl(c0.functions@);
                }
            },
        }
        let ghost x1 = *context;
        context.emit_return();
        proof {
            lemma_keeps_trans(x0, x1, *context);
            lemma_stmt_keeps_intro(*statement, c0, *self, x0, *context);
        }
        Ok(())
    }

    /// Compiles a `throw`: through the innermost `finally` being compiled,
    /// if any; outside any `finally`, the value then `Throw` at its span.
    fn compile_throw(&mut self, context: &mut CompileContext, statement: &Stmt) -> (r:
        JsliteResult<()>)
        requires
            compiling(*old(self), *old(context)),
            statement is Throw,
        ensures
            outcome_matches(r, stmt_fault(*statement, old(context).loop_stack@.len() > 0)),
            r is Ok ==> stmt_step(*old(context), *final(context)) && compiler_step(
                *old(self),
                *final(self),
                *final(context),
            ) && final(context).scope_depth == old(context).scope_depth,
            r is Ok ==> stmt_keeps(*statement, *old(self), *final(self), *old(context), *final(context)),
            r is Ok ==> appended(old(self).functions@, final(self).functions@, stmt_shapes(*statement)),
            r is Ok && old(context).active_finally@.len() == 0 ==> (*statement matches Stmt::Throw { span, value }
                ==> (expr_code(value, old(context).code@.len() as int) matches Some(c) ==> same_but_code(
                *old(context),
                *final(context),
            ) && emits(old(context).code@, final(context).code@, c.push(Instruction::Throw { span })))),
        decreases *statement, 0int,
    {
        broadcast use group_compile_steps;

        let ghost c0 = *self;
        let ghost x0 = *context;
        proof {
            lemma_evolves_refl(x0);
            lemma_functions_extend_refl(c0.functions@);
        }
        let Stmt::Throw { span, value } = statement else {
            return Ok(());
        };
        proof {
            assert(stmt_switch_continue(*statement) == expr_switch_continue(*value));
            assert(stmt_shapes(*statement) == expr_shapes(*value));
        }
        let r = self.compile_expr(context, value);
        if r.is_err() {
            return r;
        }
        let ghost xe = *context;
        if context.active_finally.len() > 0 {
            let depth = context.active_finally[context.active_finally.len() - 1].scope_depth;
            context.emit_scope_cleanup(depth);
            let ghost x1 = *context;
            context.emit(Instruction::PushPendingThrow);
            let ghost x2 = *context;
            proof {
                lemma_ctx_step_emit(x1, *context);
            }
            context.emit_jump_to_active_finally_exit();
            proof {
                lemma_keeps_trans(xe, x1, x2);
                lemma_keeps_trans(xe, x2, *context);
            }
        } else {
            let ghost x1 = *context;
            context.emit(Instruction::Throw { span: *span });
            proof {
                lemma_ctx_step_emit(x1, *context);
                if expr_code(*value, x0.code@.len() as int) is Some {
                    lemma_emits_then(
                        x0.code@,
                        x1.code@,
                        context.code@,
                        expr_code(*value, x0.code@.len() as int).unwrap(),
                        Instruction::Throw { span: *span },
                    );
                }
            }
        }
        proof {
            lemma_keeps_trans(x0, xe, *context);
            lemma_stmt_keeps_intro(*statement, c0, *self, x0, *context);
        }
        Ok(())
    }
}

/// Recording on the innermost loop a transfer emitted since `x0` keeps the
/// statement step from `x0`.
proof fn lemma_add_transfer_step(
    x0: CompileContext,
    b: CompileContext,
    c: CompileContext,
    p: ControlTransferPatch,
)
    requires
        stmt_step(x0, b),
        c.wf(),
        c.code@ == b.code@,
        c.loop_stack@.len() == b.loop_stack@.len(),
        b.loop_stack@.len() > 0,
        forall|k: int| 0 <= k < b.loop_stack@.len() - 1 ==> #[trigger] c.loop_stack@[k] == b.loop_stack@[k],
        (c.loop_stack@.last().break_jumps@ == b.loop_stack@.last().break_jumps@.push(p)
            && c.loop_stack@.last().continue_jumps@ == b.loop_stack@.last().continue_jumps@) || (
        c.loop_stack@.last().continue_jumps@ == b.loop_stack@.last().continue_jumps@.push(p)
            && c.loop_stack@.last().break_jumps@ == b.loop_stack@.last().break_jumps@),
        c.loop_stack@.last().handler_depth == b.loop_stack@.last().handler_depth,
        c.loop_stack@.last().scope_depth == b.loop_stack@.last().scope_depth,
        patch_site(p) >= x0.code@.len(),
        c.active_handlers@ == b.active_handlers@,
        c.active_finally@ == b.active_finally@,
        c.finally_regions@ == b.finally_regions@,
        c.closure_bound == b.closure_bound,
    ensures
        stmt_step(x0, c),
{
    let n = x0.code@.len() as int;
    let t = b.loop_stack@.len() - 1;
    assert forall|k: int| 0 <= k < x0.loop_stack@.len() implies loop_extends(
        x0.loop_stack@[k],
        #[trigger] c.loop_stack@[k],
        n,
    ) by {
        assert(loop_extends(x0.loop_stack@[k], b.loop_stack@[k], n));
        if k == t {
            let ob = x0.loop_stack@[k].break_jumps@;
            let bb = b.loop_stack@[k].break_jumps@;
            let cb = c.loop_stack@[k].break_jumps@;
            let oc = x0.loop_stack@[k].continue_jumps@;
            let bc = b.loop_stack@[k].continue_jumps@;
            let cc = c.loop_stack@[k].continue_jumps@;
            assert(cb.subrange(0, bb.len() as int) =~= bb || cb =~= bb);
            assert(cc.subrange(0, bc.len() as int) =~= bc || cc =~= bc);
            assert(cb.subrange(0, ob.len() as int) =~= bb.subrange(0, ob.len() as int));
            assert(cc.subrange(0, oc.len() as int) =~= bc.subrange(0, oc.len() as int));
            assert forall|j: int| ob.len() <= j < cb.len() implies patch_site(#[trigger] cb[j]) >= n by {
                if j < bb.len() {
                    assert(cb[j] == bb[j]);
                }
            }
            assert forall|j: int| oc.len() <= j < cc.len() implies patch_site(#[trigger] cc[j]) >= n by {
                if j < bc.len() {
                    assert(cc[j] == bc[j]);
                }
            }
        }
    }
}

// ---------------------------------------------------------------------------
// Exception handlers and `finally` blocks.
// ---------------------------------------------------------------------------

impl CompileContext {
    /// Makes a handler live, with the `finally` region it belongs to.
    fn push_handler(&mut self, finally_region: Option<usize>)
        requires
            old(self).wf(),
            finally_region matches Some(r) ==> r < old(self).finally_regions@.len(),
        ensures
            keeps(*old(self), *final(self)),
            final(self).wf(),
            final(self).code@ == old(self).code@,
            final(self).active_handlers@ == old(self).active_handlers@.push(
                ActiveHandlerContext { finally_region, scope_depth: old(self).scope_depth },
            ),
            final(self).loop_stack@ == old(self).loop_stack@,
            final(self).active_finally@ == old(self).active_finally@,
            final(self).finally_regions@ == old(self).finally_regions@,
            final(self).scope_depth == old(self).scope_depth,
            final(self).internal_name_counter == old(self).internal_name_counter,
            final(self).closure_bound == old(self).closure_bound,
    {
        let ghost a = *self;
        self.active_handlers.push(
            ActiveHandlerContext { finally_region, scope_depth: self.scope_depth },
        );
        proof {
            lemma_keeps_same(a, *self);
            assert forall|k: int| 0 <= k < self.active_handlers@.len() implies ((
            #[trigger] self.active_handlers@[k]).finally_region matches Some(r) ==> r
                < self.finally_regions@.len()) by {
                if k < a.active_handlers@.len() {
                    assert(self.active_handlers@[k] == a.active_handlers@[k]);
                }
            }
        }
    }

    /// Ends the innermost live handler.
    fn pop_handler(&mut self)
        requires
            old(self).wf(),
            old(self).active_handlers@.len() > 0,
        ensures
            keeps(*old(self), *final(self)),
            final(self).wf(),
            final(self).code@ == old(self).code@,
            final(self).active_handlers@ == old(self).active_handlers@.drop_last(),
            final(self).loop_stack@ == old(self).loop_stack@,
            final(self).active_finally@ == old(self).active_finally@,
            final(self).finally_regions@ == old(self).finally_regions@,
            final(self).scope_depth == old(self).scope_depth,
            final(self).internal_name_counter == old(self).internal_name_counter,
            final(self).closure_bound == old(self).closure_bound,
    {
        let ghost a = *self;
        self.active_handlers.pop();
        proof {
            lemma_keeps_same(a, *self);
            assert forall|k: int| 0 <= k < self.active_handlers@.len() implies ((
            #[trigger] self.active_handlers@[k]).finally_region matches Some(r) ==> r
                < self.finally_regions@.len()) by {
                assert(self.active_handlers@[k] == a.active_handlers@[k]);
            }
        }
    }

    /// Opens a `finally` region with no sites yet; returns its index.
    fn push_region(&mut self) -> (region: usize)
        requires
            old(self).wf(),
        ensures
            keeps(*old(self), *final(self)),
            final(self).wf(),
            region == old(self).finally_regions@.len(),
            final(self).code@ == old(self).code@,
            final(self).finally_regions@.len() == old(self).finally_regions@.len() + 1,
            forall|k: int|
                0 <= k < old(self).finally_regions@.len() ==> #[trigger] final(self).finally_regions@[k]
                    == old(self).finally_regions@[k],
            final(self).finally_regions@.last().handler_sites@.len() == 0,
            final(self).finally_regions@.last().jump_sites@.len() == 0,
            final(self).loop_stack@ == old(self).loop_stack@,
            final(self).active_handlers@ == old(self).active_handlers@,
            final(self).active_finally@ == old(self).active_finally@,
            final(self).scope_depth == old(self).scope_depth,
            final(self).internal_name_counter == old(self).internal_name_counter,
            final(self).closure_bound == old(self).closure_bound,
    {
        let ghost a = *self;
        let region = self.finally_regions.len();
        self.finally_regions.push(
            FinallyRegionContext { handler_sites: Vec::new(), jump_sites: Vec::new() },
        );
        proof {
            lemma_stacks_cover_refl(a);
            assert(stacks_cover(a, *self)) by {
                assert forall|k: int| 0 <= k < a.finally_regions@.len() implies sites_prefix(
                    a.finally_regions@[k].handler_sites@,
                    (#[trigger] self.finally_regions@[k]).handler_sites@,
                ) && sites_prefix(a.finally_regions@[k].jump_sites@, self.finally_regions@[k].jump_sites@) by {
                    assert(self.finally_regions@[k] == a.finally_regions@[k]);
                    assert(sites_prefix(
                        a.finally_regions@[k].handler_sites@,
                        (a.finally_regions@[k]).handler_sites@,
                    ));
                }
            }
            lemma_keeps_by_cover(a, *self);
            assert forall|k: int| 0 <= k < self.finally_regions@.len() implies region_ok(
                self.code@,
                #[trigger] self.finally_regions@[k],
            ) by {
                if k < a.finally_regions@.len() {
                    assert(self.finally_regions@[k] == a.finally_regions@[k]);
                }
            }
            assert forall|k: int| 0 <= k < self.active_handlers@.len() implies ((
            #[trigger] self.active_handlers@[k]).finally_region matches Some(r) ==> r
                < self.finally_regions@.len()) by {
                assert(self.active_handlers@[k] == a.active_handlers@[k]);
            }
        }
        region
    }

    /// Records a handler whose `finally` target is region `region`'s start.
    fn add_region_handler_site(&mut self, region: usize, site: usize)
        requires
            old(self).wf(),
            region < old(self).finally_regions@.len(),
            is_handler_site(old(self).code@, site as int),
        ensures
            keeps(*old(self), *final(self)),
            final(self).wf(),
            final(self).code@ == old(self).code@,
            final(self).finally_regions@.len() == old(self).finally_regions@.len(),
            forall|k: int|
                0 <= k < old(self).finally_regions@.len() && k != region ==> #[trigger] final(self).finally_regions@[k] == old(self).finally_regions@[k],
            final(self).finally_regions@[region as int].handler_sites@ == old(self).finally_regions@[region as int].handler_sites@.push(site),
            final(self).finally_regions@[region as int].jump_sites@ == old(self).finally_regions@[region as int].jump_sites@,
            final(self).loop_stack@ == old(self).loop_stack@,
            final(self).active_handlers@ == old(self).active_handlers@,
            final(self).active_finally@ == old(self).active_finally@,
            final(self).scope_depth == old(self).scope_depth,
            final(self).internal_name_counter == old(self).internal_name_counter,
            final(self).closure_bound == old(self).closure_bound,
    {
        let ghost b = *self;
        let mut entry = FinallyRegionContext { handler_sites: Vec::new(), jump_sites: Vec::new() };
        self.finally_regions.set_and_swap(region, &mut entry);
        entry.handler_sites.push(site);
        self.finally_regions.set_and_swap(region, &mut entry);
        proof {
            let r = region as int;
            assert(self.finally_regions@ == b.finally_regions@.update(r, self.finally_regions@[r]));
            assert forall|k: int| 0 <= k < self.finally_regions@.len() implies region_ok(
                self.code@,
                #[trigger] self.finally_regions@[k],
            ) by {
                assert(region_ok(b.code@, b.finally_regions@[k]));
                if k == r {
                    let hs = self.finally_regions@[k].handler_sites@;
                    assert forall|j: int| 0 <= j < hs.len() implies is_handler_site(
                        self.code@,
                        #[trigger] hs[j] as int,
                    ) by {
                        if j < hs.len() - 1 {
                            assert(hs[j] == b.finally_regions@[k].handler_sites@[j]);
                        }
                    }
                }
            }
            lemma_stacks_cover_refl(b);
            assert(stacks_cover(b, *self)) by {
                assert forall|k: int| 0 <= k < b.finally_regions@.len() implies sites_prefix(
                    b.finally_regions@[k].handler_sites@,
                    (#[trigger] self.finally_regions@[k]).handler_sites@,
                ) && sites_prefix(b.finally_regions@[k].jump_sites@, self.finally_regions@[k].jump_sites@) by {
                    assert(self.finally_regions@[k].handler_sites@.subrange(
                        0,
                        b.finally_regions@[k].handler_sites@.len() as int,
                    ) =~= b.finally_regions@[k].handler_sites@);
                    assert(self.finally_regions@[k].jump_sites@.subrange(
                        0,
                        b.finally_regions@[k].jump_sites@.len() as int,
                    ) =~= b.finally_regions@[k].jump_sites@);
                }
            }
            lemma_keeps_by_cover(b, *self);
        }
    }

    /// Closes the innermost `finally` region, which no live handler uses.
    fn pop_region(&mut self) -> (region: FinallyRegionContext)
        requires
            old(self).wf(),
            old(self).finally_regions@.len() > 0,
            forall|k: int|
                0 <= k < old(self).active_handlers@.len() ==> ((
                #[trigger] old(self).active_handlers@[k]).finally_region matches Some(r) ==> r + 1
                    < old(self).finally_regions@.len()),
        ensures
            final(self).wf(),
            region == old(self).finally_regions@.last(),
            region_ok(final(self).code@, region),
            final(self).code@ == old(self).code@,
            final(self).finally_regions@ == old(self).finally_regions@.drop_last(),
            final(self).loop_stack@ == old(self).loop_stack@,
            final(self).active_handlers@ == old(self).active_handlers@,
            final(self).active_finally@ == old(self).active_finally@,
            final(self).scope_depth == old(self).scope_depth,
            final(self).internal_name_counter == old(self).internal_name_counter,
            final(self).closure_bound == old(self).closure_bound,
    {
        let ghost a = *self;
        let region = self.finally_regions.pop().unwrap();
        proof {
            assert(region_ok(a.code@, a.finally_regions@[a.finally_regions@.len() - 1]));
            assert forall|k: int| 0 <= k < self.finally_regions@.len() implies region_ok(
                self.code@,
                #[trigger] self.finally_regions@[k],
            ) by {
                assert(self.finally_regions@[k] == a.finally_regions@[k]);
            }
            assert forall|k: int| 0 <= k < self.active_handlers@.len() implies ((
            #[trigger] self.active_handlers@[k]).finally_region matches Some(r) ==> r
                < self.finally_regions@.len()) by {
                assert(self.active_handlers@[k] == a.active_handlers@[k]);
            }
        }
        region
    }

    /// Starts compiling a `finally` block whose `EnterFinally` is at `site`.
    fn push_active_finally(&mut self, site: usize)
        requires
            old(self).wf(),
            is_enter_finally_site(old(self).code@, site as int),
        ensures
            resolves(*old(self), *final(self), site as int),
            final(self).wf(),
            final(self).code@ == old(self).code@,
            final(self).active_finally@.len() == old(self).active_finally@.len() + 1,
            forall|k: int|
                0 <= k < old(self).active_finally@.len() ==> #[trigger] final(self).active_finally@[k]
                    == old(self).active_finally@[k],
            final(self).active_finally@.last().exit_patch_site == site,
            final(self).active_finally@.last().jump_sites@.len() == 0,
            final(self).loop_stack@ == old(self).loop_stack@,
            final(self).active_handlers@ == old(self).active_handlers@,
            final(self).finally_regions@ == old(self).finally_regions@,
            final(self).scope_depth == old(self).scope_depth,
            final(self).internal_name_counter == old(self).internal_name_counter,
            final(self).closure_bound == old(self).closure_bound,
    {
        let ghost a = *self;
        self.active_finally.push(
            ActiveFinallyContext {
                exit_patch_site: site,
                jump_sites: Vec::new(),
                scope_depth: self.scope_depth,
            },
        );
        proof {
            lemma_stacks_cover_refl(a);
            assert(stacks_cover(a, *self)) by {
                assert forall|k: int| 0 <= k < a.active_finally@.len() implies (
                #[trigger] self.active_finally@[k]).exit_patch_site == a.active_finally@[k].exit_patch_site
                    && sites_prefix(a.active_finally@[k].jump_sites@, self.active_finally@[k].jump_sites@) by {
                    assert(self.active_finally@[k] == a.active_finally@[k]);
                    assert(sites_prefix(a.active_finally@[k].jump_sites@, (a.active_finally@[k]).jump_sites@));
                }
            }
            let t = a.active_finally@.len() as int;
            assert(self.active_finally@[t].exit_patch_site == site);
            assert(pending(*self, site as int));
            lemma_resolves_by_recording(a, *self, site as int);
            assert forall|k: int| 0 <= k < self.active_finally@.len() implies active_finally_ok(
                self.code@,
                #[trigger] self.active_finally@[k],
            ) by {
                if k < a.active_finally@.len() {
                    assert(self.active_finally@[k] == a.active_finally@[k]);
                }
            }
        }
    }

    /// Ends the innermost `finally` block being compiled.
    fn pop_active_finally(&mut self) -> (f: ActiveFinallyContext)
        requires
            old(self).wf(),
            old(self).active_finally@.len() > 0,
        ensures
            final(self).wf(),
            f == old(self).active_finally@.last(),
            active_finally_ok(final(self).code@, f),
            final(self).code@ == old(self).code@,
            final(self).active_finally@ == old(self).active_finally@.drop_last(),
            final(self).loop_stack@ == old(self).loop_stack@,
            final(self).active_handlers@ == old(self).active_handlers@,
            final(self).finally_regions@ == old(self).finally_regions@,
            final(self).scope_depth == old(self).scope_depth,
            final(self).internal_name_counter == old(self).internal_name_counter,
            final(self).closure_bound == old(self).closure_bound,
    {
        let ghost a = *self;
        let f = self.active_finally.pop().unwrap();
        proof {
            assert(active_finally_ok(a.code@, a.active_finally@[a.active_finally@.len() - 1]));
            assert forall|k: int| 0 <= k < self.active_finally@.len() implies active_finally_ok(
                self.code@,
                #[trigger] self.active_finally@[k],
            ) by {
                assert(self.active_finally@[k] == a.active_finally@[k]);
            }
        }
        f
    }

    /// Points each jump in `sites` to `target`.
    fn patch_jump_sites(&mut self, sites: &Vec<usize>, target: usize)
        requires
            old(self).wf(),
            forall|j: int| 0 <= j < sites@.len() ==> #[trigger] sites@[j] < old(self).code@.len(),
        ensures
            final(self).wf(),
            same_but_code(*old(self), *final(self)),
            final(self).code@.len() == old(self).code@.len(),
            kinds_kept(old(self).code@, final(self).code@),
            forall|i: int|
                0 <= i < old(self).code@.len() && (forall|j: int|
                    0 <= j < sites@.len() ==> #[trigger] sites@[j] != i)
                    ==> #[trigger] final(self).code@[i] == old(self).code@[i],
            forall|j: int|
                0 <= j < sites@.len() ==> final(self).code@[#[trigger] sites@[j] as int] == retarget_jump(
                    old(self).code@[sites@[j] as int],
                    target,
                ),
            target <= old(self).code@.len() ==> keeps(*old(self), *final(self)),
    {
        let ghost a = *self;
        proof {
            lemma_keeps_refl(a);
        }
        let mut j: usize = 0;
        while j < sites.len()
            invariant
                self.wf(),
                same_but_code(a, *self),
                self.code@.len() == a.code@.len(),
                kinds_kept(a.code@, self.code@),
                target <= a.code@.len() ==> keeps(a, *self),
                forall|k: int| 0 <= k < sites@.len() ==> #[trigger] sites@[k] < a.code@.len(),
                j <= sites@.len(),
                forall|i: int|
                    0 <= i < a.code@.len() && (forall|k: int|
                        0 <= k < j ==> #[trigger] sites@[k] != i)
                        ==> #[trigger] self.code@[i] == a.code@[i],
                forall|k: int|
                    0 <= k < j ==> self.code@[#[trigger] sites@[k] as int] == retarget_jump(
                        a.code@[sites@[k] as int],
                        target,
                    ),
            decreases sites.len() - j,
        {
            let ghost b = *self;
            self.patch_jump(sites[j], target);
            proof {
                assert forall|i: int| 0 <= i < a.code@.len() implies same_kind(
                    a.code@[i],
                    #[trigger] self.code@[i],
                ) by {
                    assert(same_kind(a.code@[i], b.code@[i]));
                    assert(same_kind(b.code@[i], self.code@[i]));
                }
                assert forall|i: int|
                    0 <= i < a.code@.len() && (forall|k: int|
                        0 <= k < j + 1 ==> #[trigger] sites@[k] != i) implies #[trigger] self.code@[i]
                    == a.code@[i] by {
                    assert(sites@[j as int] != i);
                    assert(self.code@[i] == b.code@[i]);
                }
                let cur = sites@[j as int] as int;
                if forall|k: int| 0 <= k < j ==> #[trigger] sites@[k] != cur {
                    assert(b.code@[cur] == a.code@[cur]);
                } else {
                    let k0 = choose|k: int| 0 <= k < j && #[trigger] sites@[k] == cur;
                    assert(b.code@[cur] == retarget_jump(a.code@[cur], target));
                }
                assert forall|k: int| 0 <= k < j + 1 implies self.code@[#[trigger] sites@[k] as int]
                    == retarget_jump(a.code@[sites@[k] as int], target) by {
                    if sites@[k] != sites@[j as int] {
                        assert(self.code@[sites@[k] as int] == b.code@[sites@[k] as int]);
                    }
                }
                if target <= a.code@.len() {
                    lemma_keeps_trans(a, b, *self);
                }
            }
            j = j + 1;
        }
    }

    /// Points the `finally` of each handler in `sites` to `target`.
    fn patch_handler_sites(&mut self, sites: &Vec<usize>, target: usize)
        requires
            old(self).wf(),
            forall|j: int| 0 <= j < sites@.len() ==> #[trigger] sites@[j] < old(self).code@.len(),
        ensures
            final(self).wf(),
            same_but_code(*old(self), *final(self)),
            final(self).code@.len() == old(self).code@.len(),
            kinds_kept(old(self).code@, final(self).code@),
            forall|i: int|
                0 <= i < old(self).code@.len() && (forall|j: int|
                    0 <= j < sites@.len() ==> #[trigger] sites@[j] != i)
                    ==> #[trigger] final(self).code@[i] == old(self).code@[i],
            forall|j: int|
                0 <= j < sites@.len() ==> final(self).code@[#[trigger] sites@[j] as int] == retarget_finally(
                    old(self).code@[sites@[j] as int],
                    target,
                ),
            target <= old(self).code@.len() ==> keeps(*old(self), *final(self)),
    {
        let ghost a = *self;
        proof {
            lemma_keeps_refl(a);
        }
        let mut j: usize = 0;
        while j < sites.len()
            invariant
                self.wf(),
                same_but_code(a, *self),
                self.code@.len() == a.code@.len(),
                kinds_kept(a.code@, self.code@),
                target <= a.code@.len() ==> keeps(a, *self),
                forall|k: int| 0 <= k < sites@.len() ==> #[trigger] sites@[k] < a.code@.len(),
                j <= sites@.len(),
                forall|i: int|
                    0 <= i < a.code@.len() && (forall|k: int|
                        0 <= k < j ==> #[trigger] sites@[k] != i)
                        ==> #[trigger] self.code@[i] == a.code@[i],
                forall|k: int|
                    0 <= k < j ==> self.code@[#[trigger] sites@[k] as int] == retarget_finally(
                        a.code@[sites@[k] as int],
                        target,
                    ),
            decreases sites.len() - j,
        {
            let ghost b = *self;
            self.patch_handler_finally(sites[j], target);
            proof {
                assert forall|i: int| 0 <= i < a.code@.len() implies same_kind(
                    a.code@[i],
                    #[trigger] self.code@[i],
                ) by {
                    assert(same_kind(a.code@[i], b.code@[i]));
                    assert(same_kind(b.code@[i], self.code@[i]));
                }
                assert forall|i: int|
                    0 <= i < a.code@.len() && (forall|k: int|
                        0 <= k < j + 1 ==> #[trigger] sites@[k] != i) implies #[trigger] self.code@[i]
                    == a.code@[i] by {
                    assert(sites@[j as int] != i);
                    assert(self.code@[i] == b.code@[i]);
                }
                let cur = sites@[j as int] as int;
                if forall|k: int| 0 <= k < j ==> #[trigger] sites@[k] != cur {
                    assert(b.code@[cur] == a.code@[cur]);
                } else {
                    let k0 = choose|k: int| 0 <= k < j && #[trigger] sites@[k] == cur;
                    assert(b.code@[cur] == retarget_finally(a.code@[cur], target));
                }
                assert forall|k: int| 0 <= k < j + 1 implies self.code@[#[trigger] sites@[k] as int]
                    == retarget_finally(a.code@[sites@[k] as int], target) by {
                    if sites@[k] != sites@[j as int] {
                        assert(self.code@[sites@[k] as int] == b.code@[sites@[k] as int]);
                    }
                }
                if target <= a.code@.len() {
                    lemma_keeps_trans(a, b, *self);
                }
            }
            j = j + 1;
        }
    }

    /// Points each pending jump in `sites` to `target`.
    fn patch_pending_sites(&mut self, sites: &Vec<usize>, target: usize)
        requires
            old(self).wf(),
            forall|j: int| 0 <= j < sites@.len() ==> #[trigger] sites@[j] < old(self).code@.len(),
        ensures
            final(self).wf(),
            same_but_code(*old(self), *final(self)),
            final(self).code@.len() == old(self).code@.len(),
            kinds_kept(old(self).code@, final(self).code@),
            forall|i: int|
                0 <= i < old(self).code@.len() && (forall|j: int|
                    0 <= j < sites@.len() ==> #[trigger] sites@[j] != i)
                    ==> #[trigger] final(self).code@[i] == old(self).code@[i],
            forall|j: int|
                0 <= j < sites@.len() ==> final(self).code@[#[trigger] sites@[j] as int] == retarget_pending(
                    old(self).code@[sites@[j] as int],
                    target,
                ),
            target <= old(self).code@.len() ==> keeps(*old(self), *final(self)),
    {
        let ghost a = *self;
        proof {
            lemma_keeps_refl(a);
        }
        let mut j: usize = 0;
        while j < sites.len()
            invariant
                self.wf(),
                same_but_code(a, *self),
                self.code@.len() == a.code@.len(),
                kinds_kept(a.code@, self.code@),
                target <= a.code@.len() ==> keeps(a, *self),
                forall|k: int| 0 <= k < sites@.len() ==> #[trigger] sites@[k] < a.code@.len(),
                j <= sites@.len(),
                forall|i: int|
                    0 <= i < a.code@.len() && (forall|k: int|
                        0 <= k < j ==> #[trigger] sites@[k] != i)
                        ==> #[trigger] self.code@[i] == a.code@[i],
                forall|k: int|
                    0 <= k < j ==> self.code@[#[trigger] sites@[k] as int] == retarget_pending(
                        a.code@[sites@[k] as int],
                        target,
                    ),
            decreases sites.len() - j,
        {
            let ghost b = *self;
            self.patch_pending_jump(sites[j], target);
            proof {
                assert forall|i: int| 0 <= i < a.code@.len() implies same_kind(
                    a.code@[i],
                    #[trigger] self.code@[i],
                ) by {
                    assert(same_kind(a.code@[i], b.code@[i]));
                    assert(same_kind(b.code@[i], self.code@[i]));
                }
                assert forall|i: int|
                    0 <= i < a.code@.len() && (forall|k: int|
                        0 <= k < j + 1 ==> #[trigger] sites@[k] != i) implies #[trigger] self.code@[i]
                    == a.code@[i] by {
                    assert(sites@[j as int] != i);
                    assert(self.code@[i] == b.code@[i]);
                }
                let cur = sites@[j as int] as int;
                if forall|k: int| 0 <= k < j ==> #[trigger] sites@[k] != cur {
                    assert(b.code@[cur] == a.code@[cur]);
                } else {
                    let k0 = choose|k: int| 0 <= k < j && #[trigger] sites@[k] == cur;
                    assert(b.code@[cur] == retarget_pending(a.code@[cur], target));
                }
                assert forall|k: int| 0 <= k < j + 1 implies self.code@[#[trigger] sites@[k] as int]
                    == retarget_pending(a.code@[sites@[k] as int], target) by {
                    if sites@[k] != sites@[j as int] {
                        assert(self.code@[sites@[k] as int] == b.code@[sites@[k] as int]);
                    }
                }
                if target <= a.code@.len() {
                    lemma_keeps_trans(a, b, *self);
                }
            }
            j = j + 1;
        }
    }

}

/// Recording a handler site past `a`'s code on a region keeps `a`'s evolution.
proof fn lemma_evolves_region_site(
    a: CompileContext,
    b: CompileContext,
    c: CompileContext,
    region: int,
    site: usize,
)
    requires
        evolves(a, b),
        c.code@ == b.code@,
        c.loop_stack@ == b.loop_stack@,
        c.active_finally@ == b.active_finally@,
        c.finally_regions@.len() == b.finally_regions@.len(),
        0 <= region < b.finally_regions@.len(),
        forall|k: int|
            0 <= k < b.finally_regions@.len() && k != region ==> #[trigger] c.finally_regions@[k]
                == b.finally_regions@[k],
        c.finally_regions@[region].handler_sites@ == b.finally_regions@[region].handler_sites@.push(
            site,
        ),
        c.finally_regions@[region].jump_sites@ == b.finally_regions@[region].jump_sites@,
        site >= a.code@.len(),
    ensures
        evolves(a, c),
{
    let n = a.code@.len() as int;
    assert forall|k: int| 0 <= k < a.finally_regions@.len() implies region_extends(
        a.finally_regions@[k],
        #[trigger] c.finally_regions@[k],
        n,
    ) by {
        assert(region_extends(a.finally_regions@[k], b.finally_regions@[k], n));
        if k == region {
            let oh = a.finally_regions@[k].handler_sites@;
            let bh = b.finally_regions@[k].handler_sites@;
            let ch = c.finally_regions@[k].handler_sites@;
            assert(ch.subrange(0, oh.len() as int) =~= bh.subrange(0, oh.len() as int));
            assert forall|j: int| oh.len() <= j < ch.len() implies #[trigger] ch[j] >= n by {
                if j < bh.len() {
                    assert(ch[j] == bh[j]);
                }
            }
        }
    }
}

/// Patching only sites at or past `n` leaves the code below `n` alone.
proof fn lemma_sites_past(n: int, b: Seq<Instruction>, c: Seq<Instruction>, sites: Seq<usize>)
    requires
        n <= b.len() <= c.len(),
        forall|j: int| 0 <= j < sites.len() ==> #[trigger] sites[j] >= n,
        forall|i: int|
            0 <= i < b.len() && (forall|j: int| 0 <= j < sites.len() ==> #[trigger] sites[j] != i)
                ==> #[trigger] c[i] == b[i],
    ensures
        forall|i: int| 0 <= i < n ==> #[trigger] c[i] == b[i],
{
    assert forall|i: int| 0 <= i < n implies #[trigger] c[i] == b[i] by {
        assert forall|j: int| 0 <= j < sites.len() implies #[trigger] sites[j] != i by {
            assert(sites[j] >= n);
        }
    }
}

/// The sites on the list at index `k` of `b`'s regions, when that region was
/// pushed empty on `a`, all lie past `a`'s code.
proof fn lemma_region_sites_past(a: CompileContext, b: CompileContext, k: int)
    requires
        evolves(a, b),
        0 <= k < a.finally_regions@.len(),
        a.finally_regions@[k].handler_sites@.len() == 0,
        a.finally_regions@[k].jump_sites@.len() == 0,
    ensures
        forall|j: int|
            0 <= j < b.finally_regions@[k].handler_sites@.len() ==> #[trigger] b.finally_regions@[k].handler_sites@[j]
                >= a.code@.len(),
        forall|j: int|
            0 <= j < b.finally_regions@[k].jump_sites@.len() ==> #[trigger] b.finally_regions@[k].jump_sites@[j]
                >= a.code@.len(),
{
    assert(region_extends(a.finally_regions@[k], b.finally_regions@[k], a.code@.len() as int));
}

/// The jump sites of the `finally` block at index `k` of `b`, pushed empty on
/// `a`, all lie past `a`'s code.
proof fn lemma_finally_sites_past(a: CompileContext, b: CompileContext, k: int)
    requires
        evolves(a, b),
        0 <= k < a.active_finally@.len(),
        a.active_finally@[k].jump_sites@.len() == 0,
    ensures
        forall|j: int|
            0 <= j < b.active_finally@[k].jump_sites@.len() ==> #[trigger] b.active_finally@[k].jump_sites@[j]
                >= a.code@.len(),
        b.active_finally@[k].exit_patch_site == a.active_finally@[k].exit_patch_site,
{
    assert(finally_extends(a.active_finally@[k], b.active_finally@[k], a.code@.len() as int));
}

/// The code of a `try`/`catch` without `finally`, put together from its
/// parts as they are emitted and patched.
proof fn lemma_try_catch_code(
    s0: Seq<Instruction>,
    s2: Seq<Instruction>,
    s5: Seq<Instruction>,
    s6: Seq<Instruction>,
    s7: Seq<Instruction>,
    s8: Seq<Instruction>,
    s11b: Seq<Instruction>,
    s13: Seq<Instruction>,
    s14: Seq<Instruction>,
    s15: Seq<Instruction>,
    b: Seq<Instruction>,
    head: Seq<Instruction>,
    k: Seq<Instruction>,
    here: usize,
)
    requires
        s2 == s0.push(Instruction::PushHandler { catch: Some(usize::MAX), finally: None }),
        emits(s2, s5, b),
        s6 == s5.push(Instruction::PopHandler),
        s7 == s6.push(Instruction::Jump(usize::MAX)),
        here as int == s7.len(),
        s8 == s7.update(s0.len() as int, Instruction::PushHandler { catch: Some(here), finally: None }),
        s11b == s8.push(Instruction::PushEnv),
        emits(s11b, s13, head),
        emits(s13, s14, k),
        s15 == s14.push(Instruction::PopEnv),
    ensures
        emits(s0, s15, try_catch_layout(b, head, k, here, usize::MAX)),
{
    let ph = Instruction::PushHandler { catch: Some(usize::MAX), finally: None };
    let ph2 = Instruction::PushHandler { catch: Some(here), finally: None };
    lemma_emits_push(s0, s2, ph);
    lemma_emits_trans(s0, s2, s5, seq![ph], b);
    lemma_emits_then(s0, s5, s6, seq![ph] + b, Instruction::PopHandler);
    let c6 = (seq![ph] + b).push(Instruction::PopHandler);
    lemma_emits_then(s0, s6, s7, c6, Instruction::Jump(usize::MAX));
    let c7 = c6.push(Instruction::Jump(usize::MAX));
    lemma_emits_patch(s0, s7, c7, 0, ph2);
    let c8 = c7.update(0, ph2);
    lemma_emits_then(s0, s8, s11b, c8, Instruction::PushEnv);
    lemma_emits_trans(s0, s11b, s13, c8.push(Instruction::PushEnv), head);
    lemma_emits_trans(s0, s13, s14, c8.push(Instruction::PushEnv) + head, k);
    lemma_emits_then(s0, s14, s15, c8.push(Instruction::PushEnv) + head + k, Instruction::PopEnv);
    assert((c8.push(Instruction::PushEnv) + head + k).push(Instruction::PopEnv) =~= try_catch_layout(
        b,
        head,
        k,
        here,
        usize::MAX,
    ));
}

/// The start of a `catch` block: its parameter's names declared, the caught
/// value taken and bound or dropped.
proof fn lemma_catch_head(
    s11b: Seq<Instruction>,
    s12: Seq<Instruction>,
    s12b: Seq<Instruction>,
    s13: Seq<Instruction>,
    clause: CatchClause,
    init: Instruction,
)
    requires
        s12b == s12.push(Instruction::BeginCatch),
        s13 == s12b.push(init),
        match clause.parameter {
            Some(p) => emits(s11b, s12, declare_code(pattern_names(p), true)) && instr_is(
                init,
                Instruction::InitializePattern(p),
            ),
            None => s12 == s11b && init == Instruction::Pop,
        },
    ensures
        emits(s11b, s13, catch_head(clause)),
{
    match clause.parameter {
        Some(p) => {
            let decls = declare_code(pattern_names(p), true);
            lemma_emits_then(s11b, s12, s12b, decls, Instruction::BeginCatch);
            lemma_emits_then_as(s11b, s12b, s13, decls.push(Instruction::BeginCatch), init, Instruction::InitializePattern(p));
            assert(decls.push(Instruction::BeginCatch).push(Instruction::InitializePattern(p)) =~= catch_head(clause));
        },
        None => {
            lemma_emits_push(s11b, s12b, Instruction::BeginCatch);
            lemma_emits_then(s11b, s12b, s13, seq![Instruction::BeginCatch], Instruction::Pop);
            assert(seq![Instruction::BeginCatch].push(Instruction::Pop) =~= catch_head(clause));
        },
    }
}

/// Patching the jump past the `catch` block.
proof fn lemma_try_patch(
    s0: Seq<Instruction>,
    s18: Seq<Instruction>,
    fin: Seq<Instruction>,
    b: Seq<Instruction>,
    head: Seq<Instruction>,
    k: Seq<Instruction>,
    here: usize,
    after: usize,
)
    requires
        emits(s0, s18, try_catch_layout(b, head, k, here, usize::MAX)),
        fin == s18.update((s0.len() + 1 + b.len() + 1) as int, Instruction::Jump(after)),
    ensures
        emits(s0, fin, try_catch_layout(b, head, k, here, after)),
{
    let jr = (1 + b.len() + 1) as int;
    lemma_emits_patch(s0, s18, try_catch_layout(b, head, k, here, usize::MAX), jr, Instruction::Jump(after));
    assert(try_catch_layout(b, head, k, here, usize::MAX).update(jr, Instruction::Jump(after)) =~= try_catch_layout(
        b,
        head,
        k,
        here,
        after,
    ));
}

/// The code of a `try` with neither `catch` nor `finally`.
proof fn lemma_try_plain_code(s0: Seq<Instruction>, s2: Seq<Instruction>, s5: Seq<Instruction>, s6: Seq<Instruction>, b: Seq<Instruction>)
    requires
        s2 == s0.push(Instruction::PushHandler { catch: None, finally: None }),
        emits(s2, s5, b),
        s6 == s5.push(Instruction::PopHandler),
    ensures
        emits(s0, s6, seq![Instruction::PushHandler { catch: None, finally: None }] + b + seq![Instruction::PopHandler]),
{
    let ph = Instruction::PushHandler { catch: None, finally: None };
    lemma_emits_push(s0, s2, ph);
    lemma_emits_trans(s0, s2, s5, seq![ph], b);
    lemma_emits_then(s0, s5, s6, seq![ph] + b, Instruction::PopHandler);
    assert((seq![ph] + b).push(Instruction::PopHandler) =~= seq![ph] + b + seq![Instruction::PopHandler]);
}

impl Compiler {
    /// Compiles a `try` statement: the protected body under a handler, the
    /// `catch` clause in a scope of its own, and the `finally` block, which
    /// every way out of the body and the clause passes through.
    #[verifier::rlimit(100)]
    #[verifier::spinoff_prover]
    fn compile_try(&mut self, context: &mut CompileContext, statement: &Stmt) -> (r:
        JsliteResult<()>)
        requires
            compiling(*old(self), *old(context)),
            statement is Try,
        ensures
            outcome_matches(r, stmt_fault(*statement, old(context).loop_stack@.len() > 0)),
            r is Ok ==> stmt_step(*old(context), *final(context)) && compiler_step(
                *old(self),
                *final(self),
                *final(context),
            ) && final(context).scope_depth == old(context).scope_depth,
            r is Ok ==> stmt_keeps(*statement, *old(self), *final(self), *old(context), *final(context)),
            r is Ok ==> appended(old(self).functions@, final(self).functions@, stmt_shapes(*statement)),
            r is Ok ==> (stmt_code(*statement, old(context).code@.len() as int) matches Some(c) ==> same_but_code(
                *old(context),
                *final(context),
            ) && emits(old(context).code@, final(context).code@, c)),
        decreases *statement, 0int,
    {
        let ghost c0 = *self;
        let ghost x0 = *context;
        let ghost b = x0.loop_stack@.len() > 0;
        proof {
            lemma_evolves_refl(x0);
            lemma_functions_extend_refl(c0.functions@);
            lemma_adds_all_refl(x0);
        }
        let Stmt::Try { body, catch, finally, .. } = statement else {
            return Ok(());
        };
        proof {
            if stmt_code(*statement, x0.code@.len() as int) is Some {
                lemma_try_shape(*statement, x0.code@.len() as int);
            }
        }
        let ghost ok = !stmt_switch_continue(*statement);
        let ghost rk = x0.finally_regions@.len() as int;
        let ghost mut a1: int = 0;
        let ghost mut a2: int = 0;
        let ghost mut ch: int = 0;
        proof {
            assert(stmt_fault(*statement, b) == first_of(
                stmt_fault(**body, b),
                first_of(
                    match *catch {
                        Some(c) => stmt_fault(*c.body, b),
                        None => None,
                    },
                    match *finally {
                        Some(f) => stmt_fault(*f, b),
                        None => None,
                    },
                ),
            ));
            assert(stmt_switch_continue(*statement) == (stmt_switch_continue(**body) || (match *catch {
                Some(c) => stmt_switch_continue(*c.body),
                None => false,
            }) || (match *finally {
                Some(f) => stmt_switch_continue(*f),
                None => false,
            })));
            assert(stmt_shapes(*statement) == stmt_shapes(**body) + catch_shapes(*catch)
                + opt_stmt_shapes(*finally));
            assert(free_continue(*statement) == (free_continue(**body) || (match *catch {
                Some(c) => free_continue(*c.body),
                None => false,
            }) || (match *finally {
                Some(f) => free_continue(*f),
                None => false,
            })));
        }
        // The region the `finally` block's entries are recorded in.
        let finally_region: Option<usize> = match finally {
            Some(_) => Some(context.push_region()),
            None => None,
        };
        let ghost x1 = *context;
        proof {
            lemma_evolves_from(x0, x0, x1);
            if finally_region is None {
                lemma_keeps_refl(x0);
            }
            lemma_adds_all_keeps(x0, x0, x1, Set::empty());
        }
        let catch_target: Option<usize> = match catch {
            Some(_) => Some(usize::MAX),
            None => None,
        };
        let finally_target: Option<usize> = match finally_region {
            Some(_) => Some(usize::MAX),
            None => None,
        };
        let try_handler_site = context.emit(
            Instruction::PushHandler { catch: catch_target, finally: finally_target },
        );
        let ghost x2 = *context;
        let ghost h = try_handler_site as int;
        let ghost l2: Set<int> = if catch is None && finally is None {
            Set::empty()
        } else {
            Set::empty().insert(h)
        };
        proof {
            if catch is None && finally is None {
                lemma_adds_all_keeps(x0, x1, x2, Set::empty());
            } else {
                lemma_adds_all_adds(x0, x1, x2, Set::empty(), h);
            }
        }
        if let Some(region) = finally_region {
            context.add_region_handler_site(region, try_handler_site);
        }
        let ghost x3 = *context;
        proof {
            lemma_evolves_trans(x1, x1, x2);
            if finally_region is Some {
                lemma_evolves_region_site(x1, x2, x3, x0.finally_regions@.len() as int, try_handler_site);
            } else {
                lemma_keeps_refl(x2);
            }
            lemma_adds_all_keeps(x0, x2, x3, l2);
        }
        context.push_handler(finally_region);
        let ghost x4 = *context;
        let ghost cb = *self;
        let r = self.compile_stmt(context, body);
        if r.is_err() {
            return r;
        }
        let ghost x5 = *context;
        let ghost c5 = *self;
        context.pop_handler();
        let ghost x5b = *context;
        context.emit(Instruction::PopHandler);
        let ghost x6 = *context;
        proof {
            assert(x5b.active_handlers@ =~= x0.active_handlers@);
            lemma_evolves_trans(x1, x3, x5);
            lemma_evolves_from(x1, x5, x5b);
            lemma_evolves_trans(x1, x5b, x6);
            lemma_stmt_keeps_elim(**body, cb, *self, x4, x5);
            assert(lower_loops_kept(x0, x6));
            assert(top_target_kept(x0, x6));
            assert(handlers_kept(x0, x6));
            assert(!free_continue(**body) ==> top_continue_kept(x0, x6));
            if ok {
                lemma_keeps_trans(x3, x4, x5);
                lemma_keeps_trans(x3, x5, x5b);
                lemma_keeps_trans(x3, x5b, x6);
                lemma_adds_all_keeps(x0, x3, x6, l2);
            }
            assert(x6.code@[h] == x2.code@[h]);
        }
        let outer_handler_depth = context.active_handlers.len();
        let mut after_finally_patches: Vec<usize> = Vec::new();
        let mut skip_catch_jump: Option<usize> = None;
        let ghost mut l7: Set<int> = l2;
        match finally_region {
            Some(region) => {
                let depth = context.scope_depth;
                let patch = context.emit(
                    Instruction::PushPendingJump {
                        target: usize::MAX,
                        target_handler_depth: outer_handler_depth,
                        target_scope_depth: depth,
                    },
                );
                let ghost y1 = *context;
                after_finally_patches.push(patch);
                context.emit_jump_to_finally(region);
                proof {
                    lemma_evolves_trans(x1, x6, y1);
                    lemma_evolves_trans(x1, y1, *context);
                    if ok {
                        lemma_adds_all_adds(x0, x6, y1, l2, patch as int);
                        lemma_adds_all_keeps(x0, y1, *context, l2.insert(patch as int));
                    }
                    l7 = l2.insert(patch as int);
                    a1 = patch as int;
                    assert(context.code@[patch as int] == y1.code@[patch as int]);
                    assert(context.code@[h] == x6.code@[h]);
                    assert(x3.finally_regions@[rk].handler_sites@ =~= seq![try_handler_site]);
                    assert(x4.finally_regions@[rk].handler_sites@ == seq![try_handler_site]);
                    assert(x5.finally_regions@[rk].handler_sites@ == seq![try_handler_site]);
                    assert(y1.finally_regions@[rk].handler_sites@ == seq![try_handler_site]);
                    assert(context.finally_regions@[rk].handler_sites@ == seq![try_handler_site]);
                    assert(after_finally_patches@ =~= seq![patch]);
                }
            },
            None => {
                if catch.is_some() {
                    skip_catch_jump = Some(context.emit(Instruction::Jump(usize::MAX)));
                    proof {
                        lemma_evolves_trans(x1, x6, *context);
                        let sk = skip_catch_jump->0 as int;
                        if ok {
                            lemma_adds_all_adds(x0, x6, *context, l2, sk);
                        }
                        l7 = l2.insert(sk);
                        assert(context.code@[h] == x6.code@[h]);
                    }
                } else {
                    proof {
                        lemma_keeps_refl(x6);
                    }
                }
            },
        }
        let ghost x7 = *context;
        assert(evolves(x1, x7));
        assert(x7.active_handlers@ == x0.active_handlers@);
        assert(forall|j: int|
            0 <= j < after_finally_patches@.len() ==> x0.code@.len() <= #[trigger] after_finally_patches@[j]
                < x7.code@.len());
        assert(skip_catch_jump matches Some(s) ==> x0.code@.len() <= s < x7.code@.len());
        assert(skip_catch_jump is Some ==> finally_region is None && catch is Some);
        assert(ok ==> adds_all(x0, x7, l7));
        assert(x7.code@[h] == x2.code@[h]);
        let ghost mut l18: Set<int> = l7;
        if let Some(catch_clause) = catch {
            let here = context.code.len();
            context.patch_handler_catch(try_handler_site, here);
            let ghost x8 = *context;
            let ghost mut l8: Set<int> = l7;
            proof {
                lemma_evolves_from(x1, x7, x8);
                if ok {
                    if finally_region is None {
                        lemma_adds_all_resolves(x0, x7, x8, l7, h);
                        l8 = l7.remove(h);
                    } else {
                        lemma_adds_all_keeps(x0, x7, x8, l7);
                    }
                }
            }
            if let Some(region) = finally_region {
                let catch_handler_site = context.emit(
                    Instruction::PushHandler { catch: None, finally: Some(usize::MAX) },
                );
                let ghost x9 = *context;
                context.add_region_handler_site(region, catch_handler_site);
                let ghost x10 = *context;
                proof {
                    lemma_evolves_trans(x1, x8, x9);
                    lemma_evolves_region_site(x1, x9, x10, region as int, catch_handler_site);
                    if ok {
                        lemma_adds_all_adds(x0, x8, x9, l8, catch_handler_site as int);
                        lemma_adds_all_keeps(x0, x9, x10, l8.insert(catch_handler_site as int));
                    }
                    l8 = l8.insert(catch_handler_site as int);
                    ch = catch_handler_site as int;
                    assert(x9.code@[a1] == x7.code@[a1]);
                    assert(x10.finally_regions@[rk].handler_sites@ =~= seq![
                        try_handler_site,
                        catch_handler_site,
                    ]);
                }
                context.push_handler(Some(region));
            }
            let ghost x11 = *context;
            context.enter_scope();
            let ghost x11b = *context;
            if let Some(parameter) = &catch_clause.parameter {
                context.declare_pattern_names(parameter, None);
            }
            let ghost x12 = *context;
            context.emit(Instruction::BeginCatch);
            let ghost x12b = *context;
            match &catch_clause.parameter {
                Some(parameter) => {
                    context.emit(Instruction::InitializePattern(clone_pattern(parameter)));
                },
                None => {
                    context.emit(Instruction::Pop);
                },
            }
            let ghost x13 = *context;
            proof {
                lemma_evolves_trans(x1, x11, x12);
                lemma_evolves_trans(x1, x12, x13);
                if catch_clause.parameter is None {
                    lemma_keeps_refl(x11b);
                }
                lemma_keeps_trans(x11, x11b, x12);
                lemma_keeps_trans(x11, x12, x12b);
                lemma_keeps_trans(x11, x12b, x13);
            }
            let ghost cc = *self;
            let r = self.compile_stmt(context, &catch_clause.body);
            if r.is_err() {
                return r;
            }
            let ghost x14 = *context;
            context.leave_scope();
            let ghost x15 = *context;
            proof {
                let base = x0.code@.len() as int;
                assert(finally is None && stmt_code(*statement, base) is Some ==> emits(
                    x0.code@,
                    x15.code@,
                    try_catch_at(*statement, base, usize::MAX),
                )) by {
                if finally is None && stmt_code(*statement, base) is Some {
                    lemma_try_shape(*statement, base);
                    let bc = stmt_code(**body, base + 1).unwrap();
                    let head = catch_head(*catch_clause);
                    let k = stmt_code(*catch_clause.body, here + 1 + head.len()).unwrap();
                    assert(here as int == base + 1 + bc.len() + 2);
                    lemma_catch_head(
                        x11b.code@,
                        x12.code@,
                        x12b.code@,
                        x13.code@,
                        *catch_clause,
                        x13.code@[x12b.code@.len() as int],
                    );
                    lemma_try_catch_code(
                        x0.code@,
                        x4.code@,
                        x5b.code@,
                        x6.code@,
                        x7.code@,
                        x8.code@,
                        x11b.code@,
                        x13.code@,
                        x14.code@,
                        x15.code@,
                        bc,
                        head,
                        k,
                        here,
                    );
                    assert(try_catch_at(*statement, base, usize::MAX) == try_catch_layout(bc, head, k, here, usize::MAX));
                }
                }
                lemma_evolves_trans(x1, x13, x14);
                lemma_evolves_trans(x1, x14, x15);
                lemma_stmt_keeps_elim(*catch_clause.body, cc, *self, x13, x14);
                assert(lower_loops_kept(x0, x15));
                assert(top_target_kept(x0, x15));
                assert(!free_continue(**body) && !free_continue(*catch_clause.body) ==> top_continue_kept(
                    x0,
                    x15,
                ));
                if ok {
                    lemma_new_functions_ok_trans(c0, cc, *self);
                    assert(keeps(x11, x13));
                    lemma_keeps_trans(x11, x13, x14);
                    lemma_keeps_trans(x11, x14, x15);
                    lemma_adds_all_keeps(x0, x11, x15, l8);
                }
            }
            if let Some(region) = finally_region {
                context.pop_handler();
                let ghost x16 = *context;
                context.emit(Instruction::PopHandler);
                let ghost x16b = *context;
                let depth = context.scope_depth;
                let patch = context.emit(
                    Instruction::PushPendingJump {
                        target: usize::MAX,
                        target_handler_depth: outer_handler_depth,
                        target_scope_depth: depth,
                    },
                );
                let ghost x17 = *context;
                after_finally_patches.push(patch);
                context.emit_jump_to_finally(region);
                proof {
                    assert(x16.active_handlers@ =~= x0.active_handlers@);
                    lemma_evolves_from(x1, x15, x16);
                    lemma_evolves_trans(x1, x16, x17);
                    lemma_evolves_trans(x1, x17, *context);
                    if ok {
                        lemma_adds_all_keeps(x0, x15, x16, l8);
                        lemma_adds_all_keeps(x0, x16, x16b, l8);
                        lemma_adds_all_adds(x0, x16b, x17, l8, patch as int);
                        lemma_adds_all_keeps(x0, x17, *context, l8.insert(patch as int));
                    }
                    l8 = l8.insert(patch as int);
                    a2 = patch as int;
                    assert(context.code@[patch as int] is PushPendingJump);
                    assert(after_finally_patches@ =~= seq![a1 as usize, patch]);
                    assert(x11.finally_regions@[rk].handler_sites@ == seq![try_handler_site, ch as usize]);
                    assert(x11b.finally_regions@[rk].handler_sites@ == seq![try_handler_site, ch as usize]);
                    assert(x12.finally_regions@[rk].handler_sites@ == seq![try_handler_site, ch as usize]);
                    assert(x13.finally_regions@[rk].handler_sites@ == seq![try_handler_site, ch as usize]);
                    assert(x14.finally_regions@[rk].handler_sites@ == seq![try_handler_site, ch as usize]);
                    assert(x17.finally_regions@[rk].handler_sites@ == seq![try_handler_site, ch as usize]);
                    assert(context.finally_regions@[rk].handler_sites@ == seq![
                        try_handler_site,
                        ch as usize,
                    ]);
                    assert(x11.code@[h] == x8.code@[h] && x11.code@[ch] == Instruction::PushHandler { catch: None, finally: Some(usize::MAX) } && x11.code@[a1] == x8.code@[a1]);
                    assert(x11b.code@[h] == x8.code@[h] && x11b.code@[ch] == Instruction::PushHandler { catch: None, finally: Some(usize::MAX) } && x11b.code@[a1] == x8.code@[a1]);
                    assert(x12.code@[h] == x8.code@[h] && x12.code@[ch] == Instruction::PushHandler { catch: None, finally: Some(usize::MAX) } && x12.code@[a1] == x8.code@[a1]);
                    assert(x12b.code@[h] == x8.code@[h] && x12b.code@[ch] == Instruction::PushHandler { catch: None, finally: Some(usize::MAX) } && x12b.code@[a1] == x8.code@[a1]);
                    assert(x13.code@[h] == x8.code@[h] && x13.code@[ch] == Instruction::PushHandler { catch: None, finally: Some(usize::MAX) } && x13.code@[a1] == x8.code@[a1]);
                    assert(x14.code@[h] == x8.code@[h] && x14.code@[ch] == Instruction::PushHandler { catch: None, finally: Some(usize::MAX) } && x14.code@[a1] == x8.code@[a1]);
                    assert(x15.code@[h] == x8.code@[h] && x15.code@[ch] == Instruction::PushHandler { catch: None, finally: Some(usize::MAX) } && x15.code@[a1] == x8.code@[a1]);
                    assert(x17.code@[h] == x8.code@[h] && x17.code@[ch] == Instruction::PushHandler { catch: None, finally: Some(usize::MAX) } && x17.code@[a1] == x8.code@[a1]);
                    assert(context.code@[h] == x8.code@[h] && context.code@[ch] == Instruction::PushHandler { catch: None, finally: Some(usize::MAX) }
                        && context.code@[a1] == x8.code@[a1] && context.code@[a2] == x17.code@[a2]);
                }
            }
            proof {
                l18 = l8;
                if finally_region is None && ok {
                    let sk = skip_catch_jump->0 as int;
                    assert(x8.code@[sk] == x7.code@[sk]);
                    assert(x15.code@[sk] == x8.code@[sk]);
                    assert(x11b.code@[sk] == x8.code@[sk]);
                    assert(x12.code@[sk] == x8.code@[sk]);
                    assert(x12b.code@[sk] == x8.code@[sk]);
                    assert(x13.code@[sk] == x8.code@[sk]);
                    assert(x14.code@[sk] == x8.code@[sk]);
                    assert(l8 =~= Set::empty().insert(sk));
                }
                let base = x0.code@.len() as int;
                if finally is None && stmt_code(*statement, base) is Some {
                    assert(context.code@ == x15.code@);
                    assert(emits(x0.code@, context.code@, try_catch_at(*statement, base, usize::MAX)));
                }
            }
        }
        let ghost x18 = *context;
        let ghost c18 = *self;
        proof {
            if catch is None {
                lemma_appended_refl(c5.functions@);
            }
            assert(appended(c5.functions@, c18.functions@, catch_shapes(*catch)));
        }
        assert(evolves(x1, x18));
        assert(x18.active_handlers@ == x0.active_handlers@);
        assert(x18.scope_depth == x0.scope_depth);
        assert(forall|j: int|
            0 <= j < after_finally_patches@.len() ==> x0.code@.len() <= #[trigger] after_finally_patches@[j]
                < x18.code@.len());
        proof {
            assert(ok ==> adds_all(x0, x18, l18));
        }
        match finally {
            Some(finally_stmt) => {
                let finally_ip = context.code.len();
                let ghost rk = x0.finally_regions@.len() as int;
                proof {
                    assert(x1.finally_regions@[rk].handler_sites@.len() == 0);
                    lemma_region_sites_past(x1, x18, rk);
                }
                let entry = context.pop_region();
                let ghost x19 = *context;
                proof {
                    lemma_evolves_from(x0, x18, x19);
                }
                context.patch_handler_sites(&entry.handler_sites, finally_ip);
                let ghost x20 = *context;
                proof {
                    lemma_sites_past(x0.code@.len() as int, x19.code@, x20.code@, entry.handler_sites@);
                    lemma_evolves_from(x0, x19, x20);
                }
                context.patch_jump_sites(&entry.jump_sites, finally_ip);
                let ghost x21 = *context;
                let ghost aset = sites_set(after_finally_patches@);
                proof {
                    lemma_sites_past(x0.code@.len() as int, x20.code@, x21.code@, entry.jump_sites@);
                    lemma_evolves_from(x0, x20, x21);
                    if ok {
                        let hs = entry.handler_sites@;
                        assert(x18.finally_regions@.len() == rk + 1);
                        assert(hs == x18.finally_regions@[rk].handler_sites@);
                        if catch is Some {
                            assert(hs == seq![try_handler_site, ch as usize]);
                            assert(after_finally_patches@ == seq![a1 as usize, a2 as usize]);
                            assert(hs[0] as int == h && hs[1] as int == ch);
                            assert(sites_set(hs).contains(h) && sites_set(hs).contains(ch));
                            assert(sites_set(after_finally_patches@).contains(a1));
                            assert(after_finally_patches@[1] as int == a2);
                            assert(sites_set(after_finally_patches@).contains(a2));
                        } else {
                            assert(hs == seq![try_handler_site]);
                            assert(after_finally_patches@ == seq![a1 as usize]);
                            assert(hs[0] as int == h);
                            assert(sites_set(hs).contains(h));
                            assert(after_finally_patches@[0] as int == a1);
                            assert(sites_set(after_finally_patches@).contains(a1));
                        }
                        assert(l18.subset_of(sites_set(hs).union(sites_set(after_finally_patches@))));
                        lemma_try_region_closed(
                            x0,
                            x18,
                            x19,
                            x20,
                            x21,
                            l18,
                            entry,
                            finally_ip,
                            after_finally_patches@,
                        );
                    }
                }
                let enter_finally = context.emit(Instruction::EnterFinally { exit: usize::MAX });
                let ghost x22 = *context;
                context.push_active_finally(enter_finally);
                let ghost x23 = *context;
                proof {
                    lemma_evolves_trans(x0, x21, x22);
                    lemma_evolves_from(x0, x22, x23);
                    if ok {
                        lemma_adds_all_adds(x0, x21, x22, aset, enter_finally as int);
                        lemma_adds_all_resolves(x0, x22, x23, aset.insert(enter_finally as int), enter_finally as int);
                        lemma_adds_all_subset(x0, x23, aset.insert(enter_finally as int).remove(enter_finally as int), aset);
                    }
                }
                let ghost cf = *self;
                let r = self.compile_stmt(context, finally_stmt);
                if r.is_err() {
                    return r;
                }
                let ghost x24 = *context;
                let continue_ip = context.code.len();
                let ghost fk = x0.active_finally@.len() as int;
                proof {
                    lemma_finally_sites_past(x23, x24, fk);
                    lemma_stmt_keeps_elim(**finally_stmt, cf, *self, x23, x24);
                    if ok {
                        lemma_new_functions_ok_trans(c0, cf, *self);
                        lemma_adds_all_keeps(x0, x23, x24, aset);
                    }
                }
                let exit = context.pop_active_finally();
                let ghost x25 = *context;
                proof {
                    lemma_evolves_trans(x0, x23, x24);
                    lemma_evolves_from(x0, x24, x25);
                }
                context.patch_finally_exit_site(exit.exit_patch_site, continue_ip);
                let ghost x26 = *context;
                proof {
                    lemma_evolves_from(x0, x25, x26);
                }
                context.patch_jump_sites(&exit.jump_sites, continue_ip);
                let ghost x27 = *context;
                proof {
                    lemma_sites_past(x0.code@.len() as int, x26.code@, x27.code@, exit.jump_sites@);
                    lemma_evolves_from(x0, x26, x27);
                    if ok {
                        assert forall|j: int| 0 <= j < exit.jump_sites@.len() implies targets_within(
                            #[trigger] x27.code@[exit.jump_sites@[j] as int],
                            x27.code@.len() as int,
                        ) by {
                            let site = exit.jump_sites@[j] as int;
                            assert(is_jump_site(x25.code@, site));
                            assert(same_kind(x25.code@[site], x26.code@[site]));
                        }
                        lemma_finally_closed(x0, x24, x25, x26, x27, aset);
                    }
                }
                context.emit(Instruction::ContinuePending);
                let ghost x28 = *context;
                let after_finally = context.code.len();
                context.patch_pending_sites(&after_finally_patches, after_finally);
                let ghost x29 = *context;
                proof {
                    lemma_evolves_trans(x0, x27, x28);
                    lemma_sites_past(x0.code@.len() as int, x28.code@, x29.code@, after_finally_patches@);
                    lemma_evolves_from(x0, x28, x29);
                    if ok {
                        lemma_adds_all_keeps(x0, x27, x28, aset);
                        assert forall|j: int| 0 <= j < after_finally_patches@.len() implies targets_within(
                            #[trigger] x29.code@[after_finally_patches@[j] as int],
                            x29.code@.len() as int,
                        ) by {
                            let site = after_finally_patches@[j] as int;
                            assert(x18.code@[site] is PushPendingJump);
                            assert(same_kind(x18.code@[site], x19.code@[site]));
                            assert(same_kind(x19.code@[site], x20.code@[site]));
                            assert(same_kind(x20.code@[site], x21.code@[site]));
                            assert(x22.code@[site] == x21.code@[site]);
                            assert(same_kind(x23.code@[site], x24.code@[site]));
                            assert(same_kind(x25.code@[site], x26.code@[site]));
                            assert(same_kind(x26.code@[site], x27.code@[site]));
                            assert(x28.code@[site] == x27.code@[site]);
                        }
                        assert forall|n: int, s: Set<int>| 0 <= n && #[trigger] settled(n, x28, s) implies settled(
                            n,
                            x29,
                            s.union(Set::empty()).difference(aset),
                        ) by {
                            lemma_sites_patched(n, x28, x29, s, after_finally_patches@);
                            assert(s.union(Set::empty()) =~= s);
                        }
                        lemma_adds_all_widen(x0, x28, x29, aset, Set::empty(), aset);
                        lemma_adds_all_subset(x0, x29, aset.union(Set::empty()).difference(aset), Set::empty());
                        lemma_adds_all_empty(x0, x29);
                    }
                }
                if let Some(skip) = skip_catch_jump {
                    context.patch_jump(skip, after_finally);
                    proof {
                        lemma_evolves_from(x0, x29, *context);
                    }
                }
                proof {
                    assert(ok ==> keeps(x0, *context));
                }
            },
            None => {
                if let Some(skip) = skip_catch_jump {
                    let after_catch = context.code.len();
                    context.patch_jump(skip, after_catch);
                    proof {
                        let base = x0.code@.len() as int;
                        if stmt_code(*statement, base) is Some {
                            lemma_try_shape(*statement, base);
                            let cl = (*catch).unwrap();
                            let bc = stmt_code(**body, base + 1).unwrap();
                            let cs = base + 1 + bc.len() + 2;
                            let head = catch_head(cl);
                            let k = stmt_code(*cl.body, cs + 1 + head.len()).unwrap();
                            assert(emits(x0.code@, x18.code@, try_catch_layout(bc, head, k, cs as usize, usize::MAX)));
                            assert(skip as int == base + 1 + bc.len() + 1);
                            assert(context.code@ == x18.code@.update(skip as int, Instruction::Jump(after_catch)));
                            lemma_try_patch(x0.code@, x18.code@, context.code@, bc, head, k, cs as usize, after_catch);
                            assert(after_catch as int == base + try_catch_at(*statement, base, 0).len());
                        }
                        lemma_evolves_from(x0, x18, *context);
                        if ok {
                            let sk = skip as int;
                            assert(x18.code@[sk] is Jump);
                            lemma_adds_all_resolves(x0, x18, *context, l18, sk);
                            lemma_adds_all_subset(x0, *context, l18.remove(sk), Set::empty());
                            lemma_adds_all_empty(x0, *context);
                        }
                    }
                } else {
                    proof {
                        let base = x0.code@.len() as int;
                        if stmt_code(*statement, base) is Some {
                            lemma_try_shape(*statement, base);
                            let bc = stmt_code(**body, base + 1).unwrap();
                            lemma_try_plain_code(x0.code@, x4.code@, x5b.code@, x6.code@, bc);
                            assert(context.code@ == x6.code@);
                        }
                        if ok {
                            lemma_adds_all_subset(x0, x18, l18, Set::empty());
                            lemma_adds_all_empty(x0, x18);
                        }
                    }
                }
            },
        }
        proof {
            assert(ok ==> keeps(x0, *context));
            assert(lower_loops_kept(x0, *context));
            assert(top_target_kept(x0, *context));
            assert(handlers_kept(x0, *context));
            assert(!free_continue(*statement) ==> top_continue_kept(x0, *context));
            assert(ok ==> new_functions_ok(c0, *self));
            lemma_stmt_keeps_intro(*statement, c0, *self, x0, *context);
            if finally is None {
                lemma_appended_refl(c18.functions@);
            }
            assert(appended(c18.functions@, self.functions@, opt_stmt_shapes(*finally)));
            lemma_appended_three(
                c0.functions@,
                c5.functions@,
                c18.functions@,
                self.functions@,
                stmt_shapes(**body),
                catch_shapes(*catch),
                opt_stmt_shapes(*finally),
            );
        }
        Ok(())
    }
}

// ---------------------------------------------------------------------------
// Whole programs.
// ---------------------------------------------------------------------------

impl Compiler {
    /// Compiles the top-level script into a new prototype: the value of a
    /// final expression statement is the script's result, `undefined`
    /// otherwise.
    #[verifier::loop_isolation(false)]
    #[verifier::spinoff_prover]
    #[verifier::rlimit(60)]
    fn compile_root(&mut self, statements: &Vec<Stmt>, span: SourceSpan) -> (r: JsliteResult<usize>)
        requires
            functions_wf(old(self).functions@),
        ensures
            outcome_matches(r, block_fault(statements@, false)),
            r is Ok ==> functions_wf(final(self).functions@) && functions_extend(
                old(self).functions@,
                final(self).functions@,
            ),
            r matches Ok(id) ==> old(self).functions@.len() <= id && id + 1 == final(self).functions@.len(),
            r is Ok && !stmts_switch_continue(statements@, statements@.len() as int)
                ==> new_functions_ok(*old(self), *final(self)),
            r is Ok ==> appended(old(self).functions@, final(self).functions@, hoisted_shapes(statements@, statements@.len() as int) + stmts_shapes(statements@, statements@.len() as int) + seq![script_shape(span)]),
            r matches Ok(id) ==> (script_code(statements@) matches Some(c) ==> emits(
                Seq::empty(),
                final(self).functions@[id as int].code@,
                c,
            )),
    {
        broadcast use group_compile_steps;

        let ghost c0 = *self;
        let mut context = CompileContext::new(Ghost(self.functions@.len()));
        let ghost x0 = context;
        proof {
            lemma_evolves_refl(x0);
            lemma_functions_extend_refl(c0.functions@);
            assert(settled(0, x0, Set::empty()));
        }
        let r = self.emit_block_prologue(&mut context, statements);
        if r.is_err() {
            return Err(r.unwrap_err());
        }
        let ghost x1 = context;
        let ghost c1 = *self;
        let ghost n = statements@.len() as int;
        let ghost decls = lexical_decls(block_lexicals(statements@, n));
        let ghost dl = decls.len() as int;
        proof {
            lemma_appended_refl(c1.functions@);
            if script_code(statements@) is Some {
                assert(no_functions(statements@));
                if final_value(statements@) is Some {
                    lemma_stmts_code_prefix(statements@, 0, n - 1, dl);
                } else {
                    lemma_stmts_code_prefix(statements@, 0, n, dl);
                }
                assert(x1.code@ =~= x1.code@ + stmts_code(statements@, 0, dl).unwrap());
                lemma_emits_same(x1.code@, x1.code@, stmts_code(statements@, 0, dl).unwrap());
            }
        }
        let mut produced_result = false;
        let mut index: usize = 0;
        while index < statements.len()
            invariant
                stmt_step(x0, context),
                compiler_step(c0, *self, context),
                context.scope_depth == x0.scope_depth,
                context.loop_stack@.len() == 0,
                context.finally_regions@.len() == 0,
                context.active_finally@.len() == 0,
                index <= statements@.len(),
                !stmts_switch_continue(statements@, statements@.len() as int) ==> settled(
                    0,
                    context,
                    Set::empty(),
                ) && new_functions_ok(c0, *self),
                hoisted_fault(statements@, statements@.len() as int) is None,
                stmts_fault(statements@, index as int, false) is None,
                appended(c1.functions@, self.functions@, stmts_shapes(statements@, index as int)),
                dl == lexical_decls(block_lexicals(statements@, n)).len(),
                n == statements@.len(),
                script_code(statements@) is Some ==> x1.code@.len() == dl,
                script_code(statements@) is Some ==> same_but_code(x1, context) && if produced_result {
                    &&& index == n
                    &&& final_value(statements@) is Some
                    &&& emits(x1.code@, context.code@, stmts_code(statements@, n - 1, dl).unwrap() + expr_code(
                        final_value(statements@).unwrap(),
                        dl + stmts_code(statements@, n - 1, dl).unwrap().len(),
                    ).unwrap())
                } else {
                    &&& (final_value(statements@) is Some ==> index <= n - 1)
                    &&& emits(x1.code@, context.code@, stmts_code(statements@, index as int, dl).unwrap())
                },
            decreases statements.len() - index,
        {
            let ghost xi = context;
            let ghost ci = *self;
            proof {
                if script_code(statements@) is Some && index + 1 < n || (index + 1 == n && final_value(statements@) is None) {
                    if script_code(statements@) is Some {
                        let m = if final_value(statements@) is Some { n - 1 } else { n };
                        lemma_stmts_code_prefix(statements@, index as int, m, dl);
                        lemma_stmts_code_prefix(statements@, index + 1, m, dl);
                    }
                }
            }
            proof {
                assert(stmts_switch_continue(statements@, index + 1) == (stmts_switch_continue(
                    statements@,
                    index as int,
                ) || stmt_switch_continue(statements@[index as int])));
                if stmts_switch_continue(statements@, index + 1) {
                    lemma_stmts_switch_continue_grows(
                        statements@,
                        index + 1,
                        statements@.len() as int,
                    );
                }
            }
            let is_last = index + 1 == statements.len();
            let mut handled = false;
            if is_last {
                if let Stmt::Expression { expression, .. } = &statements[index] {
                    let r = self.compile_expr(&mut context, expression);
                    if r.is_err() {
                        proof {
                            lemma_stmts_fault_settled(
                                statements@,
                                index + 1,
                                statements@.len() as int,
                                false,
                            );
                        }
                        return Err(r.unwrap_err());
                    }
                    produced_result = true;
                    handled = true;
                    proof {
                        assert(stmt_shapes(statements@[index as int]) == expr_shapes(*expression));
                        assert(stmt_switch_continue(statements@[index as int]) == expr_switch_continue(
                            *expression,
                        ));
                        if script_code(statements@) is Some {
                            assert(final_value(statements@) == Some(*expression));
                            lemma_emits_trans(
                                x1.code@,
                                xi.code@,
                                context.code@,
                                stmts_code(statements@, n - 1, dl).unwrap(),
                                expr_code(*expression, xi.code@.len() as int).unwrap(),
                            );
                        }
                    }
                }
            }
            if !handled {
                let r = self.compile_stmt(&mut context, &statements[index]);
                if r.is_err() {
                    proof {
                        lemma_stmts_fault_settled(
                            statements@,
                            index + 1,
                            statements@.len() as int,
                            false,
                        );
                    }
                    return Err(r.unwrap_err());
                }
                proof {
                    lemma_stmt_keeps_elim(statements@[index as int], ci, *self, xi, context);
                    if script_code(statements@) is Some {
                        assert(!(index + 1 == n && final_value(statements@) is Some));
                        lemma_stmts_code_step(statements@, index as int, dl);
                        lemma_emits_trans(
                            x1.code@,
                            xi.code@,
                            context.code@,
                            stmts_code(statements@, index as int, dl).unwrap(),
                            stmt_code(statements@[index as int], xi.code@.len() as int).unwrap(),
                        );
                    }
                }
            }
            proof {
                lemma_stmt_step_trans(x0, xi, context);
                lemma_appended_trans(
                    c1.functions@,
                    ci.functions@,
                    self.functions@,
                    stmts_shapes(statements@, index as int),
                    stmt_shapes(statements@[index as int]),
                );
            }
            index = index + 1;
        }
        let ghost x2 = context;
        if !produced_result {
            context.emit(Instruction::PushUndefined);
        }
        let ghost x3 = context;
        context.emit(Instruction::Return);
        proof {
            if script_code(statements@) is Some {
                assert(x0.code@ =~= Seq::<Instruction>::empty());
                if produced_result {
                    let a = stmts_code(statements@, n - 1, dl).unwrap() + expr_code(
                        final_value(statements@).unwrap(),
                        dl + stmts_code(statements@, n - 1, dl).unwrap().len(),
                    ).unwrap();
                    assert(x3 == x2);
                    lemma_emits_then(x1.code@, x3.code@, context.code@, a, Instruction::Return);
                    lemma_emits_trans(x0.code@, x1.code@, context.code@, decls, a.push(Instruction::Return));
                    assert(decls + a.push(Instruction::Return) =~= script_code(statements@).unwrap());
                } else {
                    assert(final_value(statements@) is None);
                    let a = stmts_code(statements@, n, dl).unwrap();
                    lemma_emits_then(x1.code@, x2.code@, x3.code@, a, Instruction::PushUndefined);
                    lemma_emits_then(
                        x1.code@,
                        x3.code@,
                        context.code@,
                        a.push(Instruction::PushUndefined),
                        Instruction::Return,
                    );
                    lemma_emits_trans(
                        x0.code@,
                        x1.code@,
                        context.code@,
                        decls,
                        a.push(Instruction::PushUndefined).push(Instruction::Return),
                    );
                    assert(decls + a.push(Instruction::PushUndefined).push(Instruction::Return) =~= script_code(
                        statements@,
                    ).unwrap());
                }
            }
        }
        proof {
            if !stmts_switch_continue(statements@, statements@.len() as int) {
                if produced_result {
                    lemma_keeps_refl(x2);
                }
                assert(settled(0, x3, Set::empty()));
                assert(settled(0, context, Set::empty()));
                lemma_settled_closed(context);
            }
        }
        let id = self.functions.len();
        let ghost before = self.functions@;
        let ghost c2 = *self;
        self.functions.push(
            FunctionPrototype {
                name: None,
                params: Vec::new(),
                rest: None,
                code: context.code,
                is_async: false,
                is_arrow: false,
                span,
            },
        );
        proof {
            assert forall|k: int| 0 <= k < self.functions@.len() implies prototype_wf(
                #[trigger] self.functions@[k],
                k,
            ) by {
                if k < before.len() {
                    assert(self.functions@[k] == before[k]);
                }
            }
            let shape = seq![script_shape(span)];
            assert(prototype_shape(self.functions@[before.len() as int]) == script_shape(span));
            assert(appended(before, self.functions@, shape)) by {
                assert forall|k: int| 0 <= k < shape.len() implies prototype_shape(
                    #[trigger] self.functions@[before.len() + k],
                ) == shape[k] by {
                }
            }
            lemma_appended_three(
                c0.functions@,
                c1.functions@,
                c2.functions@,
                self.functions@,
                hoisted_shapes(statements@, statements@.len() as int),
                stmts_shapes(statements@, statements@.len() as int),
                shape,
            );
            if !stmts_switch_continue(statements@, statements@.len() as int) {
                assert forall|k: int| c0.functions@.len() <= k < self.functions@.len() implies code_targets_within(
                    #[trigger] self.functions@[k].code@,
                ) by {
                    if k < before.len() {
                        assert(self.functions@[k] == before[k]);
                    }
                }
            }
        }
        Ok(id)
    }
}

/// Compiles a lowered program to bytecode.
///
/// The program is refused exactly when, in compile order (each block's named
/// function declarations first, then its statements), a `break` or
/// `continue` appears outside every loop and `switch` of its function, or a
/// `||=` / `&&=` assignment appears; the error is that of the first such
/// construct. Otherwise every function is compiled, nested functions before
/// the function that makes closures of them, and the script last: `root` is
/// the last function. The functions are exactly the program's function
/// literals in compile order (each block's named declarations first, a
/// literal after those it holds; a declaration outside block position is
/// never compiled), each keeping its literal's name, parameter count, rest
/// parameter, `async` and arrow flags and span. Every jump, handler, `finally` exit and pending jump
/// of every function then targets a position inside that function's code
/// (its end included), unless some `continue` of the program is bound to a
/// `switch`: such a jump is never resolved.
pub fn lower_to_bytecode(program: &CompiledProgram) -> (r: JsliteResult<BytecodeProgram>)
    ensures
        outcome_matches(r, block_fault(program.script.body@, false)),
        r matches Ok(p) ==> {
            &&& functions_wf(p.functions@)
            &&& p.root + 1 == p.functions@.len()
        },
        r matches Ok(p) ==> {
            let shapes = hoisted_shapes(program.script.body@, program.script.body@.len() as int)
                + stmts_shapes(program.script.body@, program.script.body@.len() as int) + seq![
                script_shape(program.script.span),
            ];
            &&& p.functions@.len() == shapes.len()
            &&& forall|k: int|
                0 <= k < shapes.len() ==> prototype_shape(#[trigger] p.functions@[k]) == shapes[k]
        },
        !stmts_switch_continue(program.script.body@, program.script.body@.len() as int) ==> (
        r matches Ok(p) ==> forall|k: int|
            0 <= k < p.functions@.len() ==> code_targets_within(#[trigger] p.functions@[k].code@)),
        r matches Ok(p) ==> (script_code(program.script.body@) matches Some(c) ==> emits(
            Seq::empty(),
            p.functions@[p.root as int].code@,
            c,
        )),
{
    let mut compiler = Compiler { functions: Vec::new() };
    match compiler.compile_root(&program.script.body, program.script.span) {
        Ok(root) => {
            proof {
                let shapes = hoisted_shapes(program.script.body@, program.script.body@.len() as int)
                    + stmts_shapes(program.script.body@, program.script.body@.len() as int) + seq![
                    script_shape(program.script.span),
                ];
                assert forall|k: int| 0 <= k < shapes.len() implies prototype_shape(
                    #[trigger] compiler.functions@[k],
                ) == shapes[k] by {
                    assert(compiler.functions@[0 + k] == compiler.functions@[k]);
                }
            }
            Ok(BytecodeProgram { functions: compiler.functions, root })
        },
        Err(e) => Err(e),
    }
}


/// The pieces a `for` loop is compiled from, laid end to end with the exit
/// jump patched, are the loop's layout.
proof fn lemma_for_code(
    x0: Seq<Instruction>,
    xe: Seq<Instruction>,
    xi: Seq<Instruction>,
    xt: Seq<Instruction>,
    yt: Seq<Instruction>,
    xa: Seq<Instruction>,
    xp: Seq<Instruction>,
    xb: Seq<Instruction>,
    xs: Seq<Instruction>,
    xu: Seq<Instruction>,
    x1: Seq<Instruction>,
    y2: Seq<Instruction>,
    xc: Seq<Instruction>,
    xd: Seq<Instruction>,
    xq: Seq<Instruction>,
    xf: Seq<Instruction>,
    s: Stmt,
    loop_start: usize,
    false_path_ip: usize,
    exit_jump: Option<usize>,
)
    requires
        s is For,
        stmt_code(s, x0.len() as int) is Some,
        xe == x0.push(Instruction::PushEnv),
        match s {
            Stmt::For { init, test, update, body, .. } => {
                &&& emits(xe, xi, for_init_code(init, x0.len() + 1int).unwrap())
                &&& loop_start == xi.len()
                &&& (test matches Some(t) ==> {
                    &&& emits(xi, xt, expr_code(t, xi.len() as int).unwrap())
                    &&& yt == xt.push(Instruction::JumpIfFalse(usize::MAX))
                    &&& xa == yt.push(Instruction::Pop)
                    &&& exit_jump == Some(xt.len() as usize)
                })
                &&& (test is None ==> xa == xi && exit_jump is None)
                &&& xp == xa
                &&& emits(xp, xb, stmt_code(*body, xp.len() as int).unwrap())
                &&& xs == xb
                &&& (update matches Some(u) ==> emits(
                    xs,
                    xu,
                    expr_code(u, xs.len() as int).unwrap(),
                ) && x1 == xu.push(Instruction::Pop))
                &&& (update is None ==> x1 == xs)
                &&& y2 == x1.push(Instruction::Jump(loop_start))
                &&& false_path_ip == y2.len()
                &&& xc == if test is Some {
                    y2.push(Instruction::Pop)
                } else {
                    y2
                }
                &&& xd == xc
                &&& xq == match exit_jump {
                    Some(p) => xd.update(p as int, retarget_jump(xd[p as int], false_path_ip)),
                    None => xd,
                }
                &&& xf == xq.push(Instruction::PopEnv)
            },
            _ => false,
        },
    ensures
        emits(x0, xf, stmt_code(s, x0.len() as int).unwrap()),
{
    let base = x0.len() as int;
    lemma_for_parts(s, base);
    reveal(for_finish);
    match s {
        Stmt::For { init, test, update, body, .. } => {
            let i = for_init_code(init, base + 1).unwrap();
            let h = for_head(init, test, base).unwrap();
            lemma_emits_push(x0, xe, Instruction::PushEnv);
            lemma_emits_trans(x0, xe, xi, seq![Instruction::PushEnv], i);
            let c1 = seq![Instruction::PushEnv] + i;
            let jf0 = Instruction::JumpIfFalse(usize::MAX);
            match test {
                Some(x) => {
                    let t = expr_code(x, xi.len() as int).unwrap();
                    lemma_emits_trans(x0, xi, xt, c1, t);
                    lemma_emits_then(x0, xt, yt, c1 + t, jf0);
                    lemma_emits_then(x0, yt, xa, (c1 + t).push(jf0), Instruction::Pop);
                    assert((c1 + t).push(jf0).push(Instruction::Pop) =~= h);
                },
                None => {
                    assert(c1 =~= h);
                },
            }
            let b = stmt_code(*body, base + h.len()).unwrap();
            lemma_emits_trans(x0, xp, xb, h, b);
            let c3 = h + b;
            let u = popped_code(update, base + h.len() + b.len()).unwrap();
            match update {
                Some(ux) => {
                    let ue = expr_code(ux, base + h.len() + b.len()).unwrap();
                    assert(u == ue.push(Instruction::Pop));
                    lemma_emits_trans(x0, xs, xu, c3, ue);
                    lemma_emits_then(x0, xu, x1, c3 + ue, Instruction::Pop);
                    assert((c3 + ue).push(Instruction::Pop) =~= c3 + u);
                },
                None => {
                    assert(c3 + u =~= c3);
                },
            }
            let c4 = c3 + u;
            lemma_emits_then(x0, x1, y2, c4, Instruction::Jump(loop_start));
            let c5 = c4.push(Instruction::Jump(loop_start));
            let exit = base + h.len() + b.len() + u.len() + 1;
            assert(false_path_ip as int == exit);
            assert(loop_start as int == for_start(init, base));
            let code = stmt_code(s, base).unwrap();
            if test is Some {
                lemma_emits_then(x0, y2, xc, c5, Instruction::Pop);
                let c6 = c5.push(Instruction::Pop);
                let k: int = h.len() - 2;
                let jf = Instruction::JumpIfFalse(false_path_ip);
                assert(h[k] == jf0);
                assert(c6[k] == jf0);
                lemma_emits_at(x0, xd, c6, k);
                assert(xd[x0.len() + k] == jf0);
                lemma_emits_patch(x0, xd, c6, k, jf);
                assert(xq == xd.update(x0.len() + k, jf));
                let c7 = c6.update(k, jf);
                lemma_emits_then(x0, xq, xf, c7, Instruction::PopEnv);
                assert(c7.push(Instruction::PopEnv) =~= code);
            } else {
                lemma_emits_then(x0, xq, xf, c5, Instruction::PopEnv);
                assert(c5.push(Instruction::PopEnv) =~= code);
            }
        },
        _ => {},
    }
}


/// `a` and `b` agree on everything but their code and their scope depth.
spec fn same_but_scope(a: CompileContext, b: CompileContext) -> bool {
    &&& b.loop_stack@ == a.loop_stack@
    &&& b.active_handlers@ == a.active_handlers@
    &&& b.active_finally@ == a.active_finally@
    &&& b.finally_regions@ == a.finally_regions@
    &&& b.internal_name_counter == a.internal_name_counter
    &&& b.closure_bound == a.closure_bound
}

/// The steps `compile_for` takes, each as the callee it makes states it,
/// give the whole loop the code `stmt_code` states for it.
proof fn lemma_for_emits(
    x0: CompileContext,
    xe: CompileContext,
    xm: CompileContext,
    xi: CompileContext,
    xt: CompileContext,
    yt: CompileContext,
    xa: CompileContext,
    xp: CompileContext,
    xb: CompileContext,
    xs: CompileContext,
    xu: CompileContext,
    x1: CompileContext,
    y2: CompileContext,
    xc: CompileContext,
    xd: CompileContext,
    xq: CompileContext,
    xf: CompileContext,
    s: Stmt,
    loop_start: usize,
    false_path_ip: usize,
    exit_jump: Option<usize>,
)
    requires
        s is For,
        xe.code@ == x0.code@.push(Instruction::PushEnv),
        xe.scope_depth == x0.scope_depth + 1,
        same_but_scope(x0, xe),
        match s {
            Stmt::For { init, test, update, body, .. } => {
                &&& match init {
                    Some(ForInit::VariableDecl { declarators, .. }) => (declarators_code(
                        declarators@,
                        declarators@.len() as int,
                        xe.code@.len() as int,
                        true,
                    ) matches Some(c) ==> same_but_code(xe, xi) && emits(xe.code@, xi.code@, c)),
                    Some(ForInit::Expression(e)) => (expr_code(e, xe.code@.len() as int) matches Some(c)
                        ==> same_but_code(xe, xm) && emits(xe.code@, xm.code@, c)) && xi.code@
                        == xm.code@.push(Instruction::Pop) && same_but_code(xm, xi),
                    None => xi == xe,
                }
                &&& loop_start == xi.code@.len()
                &&& match test {
                    Some(t) => (expr_code(t, xi.code@.len() as int) matches Some(c) ==> same_but_code(xi, xt)
                        && emits(xi.code@, xt.code@, c)) && yt.code@ == xt.code@.push(
                        Instruction::JumpIfFalse(usize::MAX),
                    ) && same_but_code(xt, yt) && xa.code@ == yt.code@.push(Instruction::Pop)
                        && same_but_code(yt, xa) && exit_jump == Some(xt.code@.len() as usize),
                    None => xa == xi && exit_jump is None,
                }
                &&& xp.code@ == xa.code@
                &&& xp.loop_stack@.len() == xa.loop_stack@.len() + 1
                &&& (forall|k: int| 0 <= k < xa.loop_stack@.len() ==> #[trigger] xp.loop_stack@[k] == xa.loop_stack@[k])
                &&& xp.loop_stack@.last().break_jumps@.len() == 0
                &&& xp.loop_stack@.last().continue_jumps@.len() == 0
                &&& xp.scope_depth == xa.scope_depth
                &&& xp.active_handlers@ == xa.active_handlers@
                &&& xp.active_finally@ == xa.active_finally@
                &&& xp.finally_regions@ == xa.finally_regions@
                &&& xp.internal_name_counter == xa.internal_name_counter
                &&& xp.closure_bound == xa.closure_bound
                &&& (stmt_code(*body, xp.code@.len() as int) matches Some(c) ==> same_but_code(xp, xb) && emits(
                    xp.code@,
                    xb.code@,
                    c,
                ))
                &&& xs.code@ == xb.code@
                &&& xs.loop_stack@.len() == xb.loop_stack@.len()
                &&& (forall|k: int| 0 <= k < xb.loop_stack@.len() - 1 ==> #[trigger] xs.loop_stack@[k] == xb.loop_stack@[k])
                &&& xs.loop_stack@.last().break_jumps@ == xb.loop_stack@.last().break_jumps@
                &&& xs.loop_stack@.last().continue_jumps@ == xb.loop_stack@.last().continue_jumps@
                &&& xs.scope_depth == xb.scope_depth
                &&& xs.active_handlers@ == xb.active_handlers@
                &&& xs.active_finally@ == xb.active_finally@
                &&& xs.finally_regions@ == xb.finally_regions@
                &&& xs.internal_name_counter == xb.internal_name_counter
                &&& xs.closure_bound == xb.closure_bound
                &&& match update {
                    Some(u) => (expr_code(u, xs.code@.len() as int) matches Some(c) ==> same_but_code(xs, xu)
                        && emits(xs.code@, xu.code@, c)) && x1.code@ == xu.code@.push(Instruction::Pop)
                        && same_but_code(xu, x1),
                    None => x1 == xs,
                }
                &&& y2.code@ == x1.code@.push(Instruction::Jump(loop_start))
                &&& same_but_code(x1, y2)
                &&& false_path_ip == y2.code@.len()
                &&& (if exit_jump is Some {
                    xc.code@ == y2.code@.push(Instruction::Pop) && same_but_code(y2, xc)
                } else {
                    xc == y2
                })
                &&& xd.loop_stack@ == xc.loop_stack@.drop_last()
                &&& xd.scope_depth == xc.scope_depth
                &&& xd.active_handlers@ == xc.active_handlers@
                &&& xd.active_finally@ == xc.active_finally@
                &&& xd.finally_regions@ == xc.finally_regions@
                &&& xd.internal_name_counter == xc.internal_name_counter
                &&& xd.closure_bound == xc.closure_bound
                &&& (xc.loop_stack@.last().break_jumps@.len() == 0
                    && xc.loop_stack@.last().continue_jumps@.len() == 0 ==> xd.code@ == xc.code@)
                &&& match exit_jump {
                    Some(p) => xq.code@ == xd.code@.update(
                        p as int,
                        retarget_jump(xd.code@[p as int], false_path_ip),
                    ) && same_but_code(xd, xq),
                    None => xq == xd,
                }
                &&& xf.code@ == xq.code@.push(Instruction::PopEnv)
                &&& xf.scope_depth == xq.scope_depth - 1
                &&& same_but_scope(xq, xf)
            },
            _ => false,
        },
    ensures
        stmt_code(s, x0.code@.len() as int) matches Some(c) ==> same_but_code(x0, xf) && emits(
            x0.code@,
            xf.code@,
            c,
        ),
{
    let base = x0.code@.len() as int;
    if stmt_code(s, base) is Some {
        lemma_for_parts(s, base);
        match s {
            Stmt::For { init, test, update, body, .. } => {
                let i = for_init_code(init, base + 1).unwrap();
                match init {
                    Some(ForInit::Expression(e)) => {
                        let c = expr_code(e, base + 1).unwrap();
                        lemma_emits_then(xe.code@, xm.code@, xi.code@, c, Instruction::Pop);
                    },
                    None => {
                        lemma_emits_refl(xe.code@);
                        assert(i =~= Seq::<Instruction>::empty());
                    },
                    _ => {},
                }
                assert(emits(xe.code@, xi.code@, i));
                assert(xi.code@.len() == for_start(init, base));
                let h = for_head(init, test, base).unwrap();
                assert(xp.code@.len() == base + h.len());
                let b = stmt_code(*body, base + h.len()).unwrap();
                assert(xb.loop_stack@ == xp.loop_stack@);
                assert(xc.loop_stack@.last().break_jumps@.len() == 0);
                assert(xc.loop_stack@.last().continue_jumps@.len() == 0);
                assert(xd.code@ == xc.code@);
                lemma_for_code(
                    x0.code@,
                    xe.code@,
                    xi.code@,
                    xt.code@,
                    yt.code@,
                    xa.code@,
                    xp.code@,
                    xb.code@,
                    xs.code@,
                    xu.code@,
                    x1.code@,
                    y2.code@,
                    xc.code@,
                    xd.code@,
                    xq.code@,
                    xf.code@,
                    s,
                    loop_start,
                    false_path_ip,
                    exit_jump,
                );
                assert(xs.loop_stack@.drop_last() =~= xa.loop_stack@);
                assert(xd.loop_stack@ == xa.loop_stack@);
            },
            _ => {},
        }
    }
}

} // verus!
