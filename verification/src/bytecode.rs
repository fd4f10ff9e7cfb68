use vstd::prelude::*;

use crate::ir::{BinaryOp, Pattern, PropertyName, UnaryOp};
use crate::span::SourceSpan;

verus! {

/// One instruction of the stack machine. Jump targets are instruction
/// indices within the same function's code.
#[derive(Debug)]
pub enum Instruction {
    PushUndefined,
    PushNull,
    PushBool(bool),
    /// A number, as its IEEE-754 bit pattern.
    PushNumber(u64),
    PushString(String),
    PushRegExp { pattern: String, flags: String },
    LoadName(String),
    StoreName(String),
    InitializePattern(Pattern),
    PushEnv,
    PopEnv,
    DeclareName { name: String, mutable: bool },
    MakeClosure { function_id: usize },
    MakeArray { count: usize },
    MakeObject { keys: Vec<PropertyName> },
    GetPropStatic { name: String, optional: bool },
    GetPropComputed { optional: bool },
    SetPropStatic { name: String },
    SetPropComputed,
    Unary(UnaryOp),
    Binary(BinaryOp),
    Pop,
    Dup,
    Dup2,
    Jump(usize),
    JumpIfFalse(usize),
    JumpIfTrue(usize),
    JumpIfNullish(usize),
    PushHandler { catch: Option<usize>, finally: Option<usize> },
    PopHandler,
    EnterFinally { exit: usize },
    BeginCatch,
    PushPendingJump { target: usize, target_handler_depth: usize, target_scope_depth: usize },
    PushPendingReturn,
    PushPendingThrow,
    ContinuePending,
    Throw { span: SourceSpan },
    Return,
    Call { argc: usize, with_this: bool, optional: bool },
    Construct { argc: usize },
    CreateIterator,
    IteratorNext,
    Await,
}

/// A compiled function body.
#[derive(Debug)]
pub struct FunctionPrototype {
    pub name: Option<String>,
    pub params: Vec<Pattern>,
    pub rest: Option<Pattern>,
    pub code: Vec<Instruction>,
    pub is_async: bool,
    pub is_arrow: bool,
    pub span: SourceSpan,
}

/// Every function of a program; `root` indexes the top-level script.
#[derive(Debug)]
pub struct BytecodeProgram {
    pub functions: Vec<FunctionPrototype>,
    pub root: usize,
}

/// Every code address `ins` transfers control to lies in `0..=n`.
pub open spec fn targets_within(ins: Instruction, n: int) -> bool {
    match ins {
        Instruction::Jump(t) => t <= n,
        Instruction::JumpIfFalse(t) => t <= n,
        Instruction::JumpIfTrue(t) => t <= n,
        Instruction::JumpIfNullish(t) => t <= n,
        Instruction::PushHandler { catch, finally } => (catch matches Some(c) ==> c <= n) && (
        finally matches Some(f) ==> f <= n),
        Instruction::EnterFinally { exit } => exit <= n,
        Instruction::PushPendingJump { target, .. } => target <= n,
        _ => true,
    }
}

/// Every function `ins` makes a closure of has an index below `bound`.
pub open spec fn closures_below(ins: Instruction, bound: int) -> bool {
    match ins {
        Instruction::MakeClosure { function_id } => function_id < bound,
        _ => true,
    }
}

/// Each control transfer of `code` stays inside `code` (the index one past
/// the last instruction included).
pub open spec fn code_targets_within(code: Seq<Instruction>) -> bool {
    forall|i: int| 0 <= i < code.len() ==> #[trigger] targets_within(code[i], code.len() as int)
}

} // verus!
