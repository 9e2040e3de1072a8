//! The instruction set that metering reads: Wasm 1.0 instructions, with
//! their immediates as plain values.
use vstd::prelude::*;

verus! {

/// A Wasm value type.
#[derive(Clone, Copy, Debug, PartialEq, Eq, Structural)]
pub enum ValueType {
    I32,
    I64,
    F32,
    F64,
}

/// The result type of a structured control instruction.
#[derive(Clone, Copy, Debug, PartialEq, Eq, Structural)]
pub enum BlockType {
    NoResult,
    Value(ValueType),
}

/// A Wasm 1.0 instruction, with the immediates that the metering logic reads
/// kept as plain values.
#[derive(Clone, Debug, PartialEq, Eq)]
pub enum Instruction {
    Unreachable,
    Nop,
    Block(BlockType),
    Loop(BlockType),
    If(BlockType),
    Else,
    End,
    Br(u32),
    BrIf(u32),
    /// The branch table and its default depth.
    BrTable(Vec<u32>, u32),
    Return,
    /// A call of a function, by its index in the function space.
    Call(u32),
    /// An indirect call, by type index, and the table reserved byte.
    CallIndirect(u32, u8),
    Drop,
    Select,
    GetLocal(u32),
    SetLocal(u32),
    TeeLocal(u32),
    GetGlobal(u32),
    SetGlobal(u32),
    /// A memory load: opcode byte, alignment and offset.
    Load(u8, u32, u32),
    /// A memory store: opcode byte, alignment and offset.
    Store(u8, u32, u32),
    CurrentMemory(u8),
    GrowMemory(u8),
    I32Const(i32),
    I64Const(i64),
    /// An `f32.const`, by the bits of its value.
    F32Const(u32),
    /// An `f64.const`, by the bits of its value.
    F64Const(u64),
    I32Mul,
    /// Any other numeric instruction without immediates, by its opcode byte.
    Numeric(u8),
}

} // verus!
