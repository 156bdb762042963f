//! The bytecode instruction set.

use vstd::prelude::*;

verus! {

/// One bytecode instruction.  Jump deltas are unsigned and move the program
/// counter forward, after it has already advanced past the jump itself.
/// `Closure(dest_slot, fn_id)` builds a closure over the function table
/// entry `fn_id` and stores it into local slot `dest_slot`; the upvalue
/// descriptors of the function say what it captures.
#[derive(Debug, Clone, Copy, PartialEq, Eq, Structural)]
pub enum Instruction {
    PushConstant(u16),
    PushTrue,
    PushFalse,
    PushNull,
    Negate,
    ToNumber,
    Not,
    Add,
    Subtract,
    Multiply,
    Divide,
    Equal,
    NotEqual,
    GreaterEqual,
    LessEqual,
    Greater,
    Less,
    Trace,
    GetLocal(u16),
    SetLocal(u16),
    GetUpValue(u16),
    SetUpValue(u16),
    Declare(u16),
    Reserve(u16),
    Jump(u16),
    JumpIfTruthy(u16),
    JumpIfFalsy(u16),
    PopAndJumpIfFalsy(u16),
    FnCall(u16),
    Closure(u16, u16),
    Pop,
    Return,
}

/// A capture descriptor of a function: a *local* capture takes slot
/// `stack_base + id` of the defining frame; a non-local one reuses upvalue
/// `id` of the enclosing closure.
#[derive(Debug, Clone, Copy, PartialEq, Eq, Structural)]
pub struct UpValueIndex {
    pub is_local: bool,
    pub id: u16,
}

} // verus!
