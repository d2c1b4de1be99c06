//! What instructions compute.
//!
//! A run-time value of a type is a number from zero up to the modulus of
//! the type; signed operations read it in two's complement. An environment
//! gives each SSA value its run-time value. Division by zero, and signed
//! division that overflows, trap: they have no result.

use crate::arith::trunc_div;
use crate::entities::{IntCC, Type, Value};
use crate::function::FunctionView;
use crate::instructions::{InstructionData, Opcode};
use vstd::arithmetic::power2::pow2;
use vstd::prelude::*;

verus! {

/// `x` reduced to a value of `ty`.
pub open spec fn wrap(ty: Type, x: int) -> int {
    x % ty.modulus()
}

/// The two's complement reading of the value `u` of `ty`.
pub open spec fn signed(ty: Type, u: int) -> int {
    if 2 * u >= ty.modulus() {
        u - ty.modulus()
    } else {
        u
    }
}

/// One for true, zero for false.
pub open spec fn truth(b: bool) -> int {
    if b {
        1
    } else {
        0
    }
}

/// The shift count that `k` stands for on a value of `ty`.
pub open spec fn shift_count(ty: Type, k: int) -> nat {
    (k % (ty.bits() as int)) as nat
}

/// Bitwise and of two values.
pub open spec fn bits_and(a: int, b: int) -> int {
    ((a as u64) & (b as u64)) as int
}

/// Bitwise or of two values.
pub open spec fn bits_or(a: int, b: int) -> int {
    ((a as u64) | (b as u64)) as int
}

/// Bitwise exclusive or of two values.
pub open spec fn bits_xor(a: int, b: int) -> int {
    ((a as u64) ^ (b as u64)) as int
}

/// The result of the two-operand operation `opcode` on the values `a` and
/// `b` of `ty`, or `None` where it traps or `opcode` is no such operation.
pub open spec fn eval_binary(opcode: Opcode, ty: Type, a: int, b: int) -> Option<int> {
    let m = ty.modulus();
    let k = shift_count(ty, b);
    match opcode {
        Opcode::Iadd => Some(wrap(ty, a + b)),
        Opcode::Isub => Some(wrap(ty, a - b)),
        Opcode::Imul => Some(wrap(ty, a * b)),
        Opcode::Umulhi => Some((a * b) / m),
        Opcode::Smulhi => Some(wrap(ty, (signed(ty, a) * signed(ty, b)) / m)),
        Opcode::Udiv => if b == 0 {
            None
        } else {
            Some(a / b)
        },
        Opcode::Urem => if b == 0 {
            None
        } else {
            Some(a % b)
        },
        Opcode::Sdiv => if b == 0 || (signed(ty, b) == -1 && 2 * a == m) {
            None
        } else {
            Some(wrap(ty, trunc_div(signed(ty, a), signed(ty, b))))
        },
        Opcode::Srem => if b == 0 {
            None
        } else {
            Some(
                wrap(
                    ty,
                    signed(ty, a) - signed(ty, b) * trunc_div(signed(ty, a), signed(ty, b)),
                ),
            )
        },
        Opcode::Band => Some(bits_and(a, b)),
        Opcode::Bor => Some(bits_or(a, b)),
        Opcode::Bxor => Some(bits_xor(a, b)),
        Opcode::Ishl => Some(wrap(ty, a * pow2(k))),
        Opcode::Ushr => Some(a / (pow2(k) as int)),
        Opcode::Sshr => Some(wrap(ty, signed(ty, a) / (pow2(k) as int))),
        Opcode::Rotl => Some(wrap(ty, a * pow2(k)) + a / (pow2((ty.bits() - k) as nat) as int)),
        Opcode::Rotr => Some(a / (pow2(k) as int) + wrap(ty, a * pow2((ty.bits() - k) as nat))),
        _ => None,
    }
}

/// Whether the right operand of `opcode` is a shift count, which may have
/// a type of its own.
pub open spec fn takes_shift_count(opcode: Opcode) -> bool {
    matches!(opcode, Opcode::Ishl | Opcode::Ushr | Opcode::Sshr | Opcode::Rotl | Opcode::Rotr)
}

/// Whether operands of the types `lhs` and `rhs` suit `opcode`: a shift
/// count is of any integer type, and any other right operand of the type
/// of the left one.
pub open spec fn operands_agree(opcode: Opcode, lhs: Type, rhs: Type) -> bool {
    if takes_shift_count(opcode) {
        rhs.is_int()
    } else {
        rhs == lhs
    }
}

/// The two-operand operation that an immediate-form opcode performs, and
/// whether the immediate is its left operand.
pub open spec fn immediate_form(opcode: Opcode) -> Option<(Opcode, bool)> {
    match opcode {
        Opcode::IaddImm => Some((Opcode::Iadd, false)),
        Opcode::ImulImm => Some((Opcode::Imul, false)),
        Opcode::IrsubImm => Some((Opcode::Isub, true)),
        Opcode::UdivImm => Some((Opcode::Udiv, false)),
        Opcode::UremImm => Some((Opcode::Urem, false)),
        Opcode::SdivImm => Some((Opcode::Sdiv, false)),
        Opcode::SremImm => Some((Opcode::Srem, false)),
        Opcode::BandImm => Some((Opcode::Band, false)),
        Opcode::BorImm => Some((Opcode::Bor, false)),
        Opcode::BxorImm => Some((Opcode::Bxor, false)),
        Opcode::IshlImm => Some((Opcode::Ishl, false)),
        Opcode::UshrImm => Some((Opcode::Ushr, false)),
        Opcode::SshrImm => Some((Opcode::Sshr, false)),
        Opcode::RotlImm => Some((Opcode::Rotl, false)),
        Opcode::RotrImm => Some((Opcode::Rotr, false)),
        _ => None,
    }
}

/// The result of an operation with the immediate `imm`: that of the
/// two-operand operation on `a` and the immediate reduced to `ty`.
pub open spec fn eval_binary_imm(opcode: Opcode, ty: Type, a: int, imm: int) -> Option<int> {
    match immediate_form(opcode) {
        Some((base, true)) => eval_binary(base, ty, wrap(ty, imm), a),
        Some((base, false)) => eval_binary(base, ty, a, wrap(ty, imm)),
        None => None,
    }
}

/// Whether the condition `cond` holds of the values `a` and `b` of `ty`.
pub open spec fn holds(cond: IntCC, ty: Type, a: int, b: int) -> bool {
    match cond {
        IntCC::Equal => a == b,
        IntCC::NotEqual => a != b,
        IntCC::SignedLessThan => signed(ty, a) < signed(ty, b),
        IntCC::SignedGreaterThanOrEqual => signed(ty, a) >= signed(ty, b),
        IntCC::SignedGreaterThan => signed(ty, a) > signed(ty, b),
        IntCC::SignedLessThanOrEqual => signed(ty, a) <= signed(ty, b),
        IntCC::UnsignedLessThan => a < b,
        IntCC::UnsignedGreaterThanOrEqual => a >= b,
        IntCC::UnsignedGreaterThan => a > b,
        IntCC::UnsignedLessThanOrEqual => a <= b,
    }
}

impl FunctionView {
    /// The result that the payload `data` computes in the environment
    /// `env`, for an instruction whose result has type `result_ty`; `None`
    /// where it traps, is ill-typed, or computes no value.
    pub open spec fn eval(self, data: InstructionData, result_ty: Type, env: spec_fn(Value) -> int) -> Option<int> {
        match data {
            InstructionData::UnaryImm { opcode: Opcode::Iconst, imm } => Some(wrap(result_ty, imm as int)),
            InstructionData::Unary { opcode: Opcode::Copy, arg } => Some(env(arg)),
            InstructionData::Unary { opcode: Opcode::Bint, arg } => Some(truth(env(arg) != 0)),
            InstructionData::Unary { opcode: Opcode::Bnot, arg } => Some(self.ty(arg).modulus() - 1 - env(arg)),
            InstructionData::Binary { opcode, lhs, rhs } => if operands_agree(
                opcode,
                self.ty(lhs),
                self.ty(rhs),
            ) {
                eval_binary(opcode, self.ty(lhs), env(lhs), env(rhs))
            } else {
                None
            },
            InstructionData::BinaryImm { opcode, arg, imm } => eval_binary_imm(
                opcode,
                self.ty(arg),
                env(arg),
                imm as int,
            ),
            InstructionData::Ternary { opcode: Opcode::Select, ctrl, lhs, rhs } => Some(
                if env(ctrl) != 0 {
                    env(lhs)
                } else {
                    env(rhs)
                },
            ),
            InstructionData::IntCompare { opcode, cond, lhs, rhs } => if self.ty(rhs) == self.ty(lhs) {
                Some(truth(holds(cond, self.ty(lhs), env(lhs), env(rhs))))
            } else {
                None
            },
            InstructionData::IntCompareImm { opcode, cond, arg, imm } => Some(
                truth(holds(cond, self.ty(arg), env(arg), wrap(self.ty(arg), imm as int))),
            ),
            _ => None,
        }
    }

    /// Whether the jump, branch or conditional trap `data` is taken in the
    /// environment `env`; `None` for any other payload.
    pub open spec fn taken(self, data: InstructionData, env: spec_fn(Value) -> int) -> Option<bool> {
        match data {
            InstructionData::Jump { .. } => Some(true),
            InstructionData::Branch { opcode: Opcode::Brz, arg, .. } => Some(env(arg) == 0),
            InstructionData::Branch { opcode: Opcode::Brnz, arg, .. } => Some(env(arg) != 0),
            InstructionData::BranchIcmp { cond, lhs, rhs, .. } => Some(
                holds(cond, self.ty(lhs), env(lhs), env(rhs)),
            ),
            InstructionData::CondTrap { opcode: Opcode::Trapz, arg } => Some(env(arg) == 0),
            InstructionData::CondTrap { opcode: Opcode::Trapnz, arg } => Some(env(arg) != 0),
            _ => None,
        }
    }

    /// Every value of the function has a run-time value of its type.
    pub open spec fn in_range(self, env: spec_fn(Value) -> int) -> bool {
        forall|v: Value| self.has_value(v) ==> 0 <= #[trigger] env(v) < self.ty(v).modulus()
    }

    /// The result of instruction `i` has the value that the instruction
    /// computes, where it computes one.
    pub open spec fn respects(self, env: spec_fn(Value) -> int, i: int) -> bool {
        match self.results[i] {
            Some(r) => match self.eval(self.insts[i], self.ty(r), env) {
                Some(x) => env(r) == x,
                None => true,
            },
            None => true,
        }
    }

    /// What a consistent environment gives the result of an instruction.
    pub proof fn lemma_respects(self, env: spec_fn(Value) -> int, inst: crate::entities::Inst)
        requires
            self.consistent(env),
            self.has_inst(inst),
        ensures
            self.respects(env, inst.0 as int),
    {
    }

    /// The environment is one that a run of the function can produce.
    pub open spec fn consistent(self, env: spec_fn(Value) -> int) -> bool {
        &&& self.in_range(env)
        &&& forall|i: int| 0 <= i < self.insts.len() ==> #[trigger] self.respects(env, i)
    }
}

} // verus!
