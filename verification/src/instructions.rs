//! Opcodes and instruction payloads.

use crate::entities::{Block, IntCC, Value};
use vstd::prelude::*;

verus! {

/// Operation performed by an instruction.
#[derive(Clone, Copy, Debug, PartialEq, Eq, Structural)]
pub enum Opcode {
    Nop,
    Iconst,
    Copy,
    Bint,
    Bnot,
    Iadd,
    Isub,
    Imul,
    Umulhi,
    Smulhi,
    Udiv,
    Urem,
    Sdiv,
    Srem,
    Band,
    Bor,
    Bxor,
    Ishl,
    Ushr,
    Sshr,
    Rotl,
    Rotr,
    IaddImm,
    ImulImm,
    IrsubImm,
    UdivImm,
    UremImm,
    SdivImm,
    SremImm,
    BandImm,
    BorImm,
    BxorImm,
    IshlImm,
    UshrImm,
    SshrImm,
    RotlImm,
    RotrImm,
    Icmp,
    IcmpImm,
    Select,
    Jump,
    Fallthrough,
    Brz,
    Brnz,
    BrIcmp,
    Trapz,
    Trapnz,
    Trap,
    Return,
}

/// Payload of an instruction: its opcode with its fixed operands.
///
/// The variable-length block arguments that a jump or branch passes to its
/// destination are kept beside the payload, in the data-flow graph.
#[derive(Clone, Copy, Debug, PartialEq, Eq, Structural)]
pub enum InstructionData {
    NullAry { opcode: Opcode },
    Unary { opcode: Opcode, arg: Value },
    UnaryImm { opcode: Opcode, imm: i64 },
    Binary { opcode: Opcode, lhs: Value, rhs: Value },
    BinaryImm { opcode: Opcode, arg: Value, imm: i64 },
    Ternary { opcode: Opcode, ctrl: Value, lhs: Value, rhs: Value },
    IntCompare { opcode: Opcode, cond: IntCC, lhs: Value, rhs: Value },
    IntCompareImm { opcode: Opcode, cond: IntCC, arg: Value, imm: i64 },
    Jump { opcode: Opcode, destination: Block },
    Branch { opcode: Opcode, arg: Value, destination: Block },
    BranchIcmp { opcode: Opcode, cond: IntCC, lhs: Value, rhs: Value, destination: Block },
    CondTrap { opcode: Opcode, arg: Value },
}

} // verus!
