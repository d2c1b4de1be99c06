//! Division and remainder by a constant: recognizing them, and the
//! cheaper instruction sequences that replace them.

use crate::arith::{abs, lemma_pow2_le};
use crate::convert::{i64_bits, magnitude_i32, magnitude_i64, spec_i64_bits, u64_as_i64};
use crate::cursor::FuncCursor;
use crate::entities::{Inst, Type, Value};
use crate::function::{Function, FunctionView};
use crate::instructions::{InstructionData, Opcode};
use crate::magic::{
    magic_s32, magic_s64, magic_u32, magic_u64, spec_magic_s32, spec_magic_s64, spec_magic_u32,
    spec_magic_u64, MS32, MS64, MU32, MU64,
};
use vstd::arithmetic::power2::{
    lemma2_to64, lemma2_to64_rest, lemma_pow2_strictly_increases, lemma_pow2_unfold, pow2,
};
use vstd::prelude::*;

verus! {

/// Whether `d` is a power of two.
pub open spec fn is_power_of_two(d: int) -> bool {
    exists|k: nat| pow2(k) == d
}

/// The exponent of the power of two `d`.
pub open spec fn exponent_of(d: int) -> nat {
    choose|k: nat| pow2(k) == d
}

/// Different exponents give different powers of two.
pub proof fn lemma_pow2_injective(a: nat, b: nat)
    requires
        pow2(a) == pow2(b),
    ensures
        a == b,
{
    if a < b {
        lemma_pow2_strictly_increases(a, b);
    }
    if b < a {
        lemma_pow2_strictly_increases(b, a);
    }
}

/// The exponent `k` with `d == 2^k`, if `d` is a power of two.
pub fn u64_power_of_two(d: u64) -> (r: Option<u32>)
    ensures
        match r {
            Some(k) => is_power_of_two(d as int) && k == exponent_of(d as int) && k <= 63 && pow2(
                k as nat,
            ) == d,
            None => !is_power_of_two(d as int),
        },
{
    let mut k: u32 = 0;
    let mut pw: u64 = 1;
    proof {
        lemma2_to64();
    }
    while k < 63 && pw != d
        invariant
            k <= 63,
            pw == pow2(k as nat),
            forall|j: nat| j < k ==> pow2(j) != d,
        decreases 63 - k,
    {
        proof {
            lemma_pow2_unfold((k + 1) as nat);
            lemma_pow2_le((k + 1) as nat, 63);
            lemma2_to64_rest();
        }
        pw = pw * 2;
        k = k + 1;
    }
    if pw == d {
        proof {
            let e = exponent_of(d as int);
            lemma_pow2_injective(e, k as nat);
        }
        Some(k)
    } else {
        proof {
            assert forall|j: nat| pow2(j) != d by {
                if j > 63 {
                    lemma2_to64();
                    lemma_pow2_le(64, j);
                }
            }
        }
        None
    }
}

/// The sign and exponent of `x` where its magnitude is a power of two.
pub open spec fn spec_signed_power_of_two(x: int) -> Option<(bool, u32)> {
    if is_power_of_two(abs(x)) {
        Some((x < 0, exponent_of(abs(x)) as u32))
    } else {
        None
    }
}

/// If `x` is a power of two, or the negation of one, the exponent, along
/// with whether `x` is negative.
pub fn i32_is_power_of_two(x: i32) -> (r: Option<(bool, u32)>)
    ensures
        r == spec_signed_power_of_two(x as int),
        r matches Some((_, k)) ==> k <= 31 && pow2(k as nat) == abs(x as int),
{
    let abs_x: u32 = magnitude_i32(x);
    match u64_power_of_two(abs_x as u64) {
        Some(k) => {
            proof {
                if k > 31 {
                    lemma2_to64();
                    lemma_pow2_le(32, k as nat);
                }
            }
            Some((x < 0, k))
        },
        None => None,
    }
}

/// If `x` is a power of two, or the negation of one, the exponent, along
/// with whether `x` is negative.
pub fn i64_is_power_of_two(x: i64) -> (r: Option<(bool, u32)>)
    ensures
        r == spec_signed_power_of_two(x as int),
        r matches Some((_, k)) ==> k <= 63 && pow2(k as nat) == abs(x as int),
{
    let abs_x: u64 = magnitude_i64(x);
    match u64_power_of_two(abs_x) {
        Some(k) => Some((x < 0, k)),
        None => None,
    }
}

/// A division or remainder of a value by a constant, by signedness and
/// width.
#[derive(Clone, Copy, Debug, PartialEq, Eq, Structural)]
pub enum DivRemByConstInfo {
    DivU32(Value, u32),
    DivU64(Value, u64),
    DivS32(Value, i32),
    DivS64(Value, i64),
    RemU32(Value, u32),
    RemU64(Value, u64),
    RemS32(Value, i32),
    RemS64(Value, i64),
}

impl DivRemByConstInfo {
    /// The dividend.
    pub open spec fn operand(self) -> Value {
        match self {
            DivRemByConstInfo::DivU32(n, _) => n,
            DivRemByConstInfo::DivU64(n, _) => n,
            DivRemByConstInfo::DivS32(n, _) => n,
            DivRemByConstInfo::DivS64(n, _) => n,
            DivRemByConstInfo::RemU32(n, _) => n,
            DivRemByConstInfo::RemU64(n, _) => n,
            DivRemByConstInfo::RemS32(n, _) => n,
            DivRemByConstInfo::RemS64(n, _) => n,
        }
    }

    /// The divisor: as a number for an unsigned operation, in two's
    /// complement reading for a signed one.
    pub open spec fn divisor(self) -> int {
        match self {
            DivRemByConstInfo::DivU32(_, d) => d as int,
            DivRemByConstInfo::DivU64(_, d) => d as int,
            DivRemByConstInfo::DivS32(_, d) => d as int,
            DivRemByConstInfo::DivS64(_, d) => d as int,
            DivRemByConstInfo::RemU32(_, d) => d as int,
            DivRemByConstInfo::RemU64(_, d) => d as int,
            DivRemByConstInfo::RemS32(_, d) => d as int,
            DivRemByConstInfo::RemS64(_, d) => d as int,
        }
    }

    /// Whether the operation is a remainder.
    pub open spec fn is_rem(self) -> bool {
        match self {
            DivRemByConstInfo::RemU32(_, _) => true,
            DivRemByConstInfo::RemU64(_, _) => true,
            DivRemByConstInfo::RemS32(_, _) => true,
            DivRemByConstInfo::RemS64(_, _) => true,
            _ => false,
        }
    }

    /// Whether the operation is signed.
    pub open spec fn is_signed(self) -> bool {
        match self {
            DivRemByConstInfo::DivS32(_, _) => true,
            DivRemByConstInfo::DivS64(_, _) => true,
            DivRemByConstInfo::RemS32(_, _) => true,
            DivRemByConstInfo::RemS64(_, _) => true,
            _ => false,
        }
    }

    /// The type of the dividend and of the result.
    pub open spec fn ty(self) -> Type {
        match self {
            DivRemByConstInfo::DivU32(_, _) => Type::I32,
            DivRemByConstInfo::DivS32(_, _) => Type::I32,
            DivRemByConstInfo::RemU32(_, _) => Type::I32,
            DivRemByConstInfo::RemS32(_, _) => Type::I32,
            _ => Type::I64,
        }
    }
}

/// The descriptor of a division or remainder of `value`, of type
/// `value_type`, by the immediate `imm`; `None` where the type is neither
/// 32 nor 64 bits wide or a 32-bit immediate is out of range.
pub open spec fn spec_package_up_divrem_info(
    value: Value,
    value_type: Type,
    imm: i64,
    is_signed: bool,
    is_rem: bool,
) -> Option<DivRemByConstInfo> {
    match (is_signed, value_type) {
        (false, Type::I32) => if 0 <= imm < 0x1_0000_0000 {
            if is_rem {
                Some(DivRemByConstInfo::RemU32(value, imm as u32))
            } else {
                Some(DivRemByConstInfo::DivU32(value, imm as u32))
            }
        } else {
            None
        },
        (false, Type::I64) => if is_rem {
            Some(DivRemByConstInfo::RemU64(value, spec_i64_bits(imm)))
        } else {
            Some(DivRemByConstInfo::DivU64(value, spec_i64_bits(imm)))
        },
        (true, Type::I32) => if -0x8000_0000 <= imm <= 0x7fff_ffff {
            if is_rem {
                Some(DivRemByConstInfo::RemS32(value, imm as i32))
            } else {
                Some(DivRemByConstInfo::DivS32(value, imm as i32))
            }
        } else {
            None
        },
        (true, Type::I64) => if is_rem {
            Some(DivRemByConstInfo::RemS64(value, imm))
        } else {
            Some(DivRemByConstInfo::DivS64(value, imm))
        },
        _ => None,
    }
}

/// Packages a division or remainder by an immediate into its descriptor,
/// checking the range of a 32-bit immediate.
pub fn package_up_divrem_info(
    value: Value,
    value_type: Type,
    imm_i64: i64,
    is_signed: bool,
    is_rem: bool,
) -> (r: Option<DivRemByConstInfo>)
    ensures
        r == spec_package_up_divrem_info(value, value_type, imm_i64, is_signed, is_rem),
{
    let imm_u64: u64 = i64_bits(imm_i64);
    match (is_signed, value_type) {
        (false, Type::I32) => {
            if imm_u64 < 0x1_0000_0000 {
                if is_rem {
                    Some(DivRemByConstInfo::RemU32(value, imm_u64 as u32))
                } else {
                    Some(DivRemByConstInfo::DivU32(value, imm_u64 as u32))
                }
            } else {
                None
            }
        },
        (false, Type::I64) => {
            if is_rem {
                Some(DivRemByConstInfo::RemU64(value, imm_u64))
            } else {
                Some(DivRemByConstInfo::DivU64(value, imm_u64))
            }
        },
        (true, Type::I32) => {
            if imm_u64 <= 0x7fff_ffff || imm_u64 >= 0xffff_ffff_8000_0000 {
                if is_rem {
                    Some(DivRemByConstInfo::RemS32(value, imm_i64 as i32))
                } else {
                    Some(DivRemByConstInfo::DivS32(value, imm_i64 as i32))
                }
            } else {
                None
            }
        },
        (true, Type::I64) => {
            if is_rem {
                Some(DivRemByConstInfo::RemS64(value, imm_i64))
            } else {
                Some(DivRemByConstInfo::DivS64(value, imm_i64))
            }
        },
        _ => None,
    }
}

/// The descriptor of the instruction `inst` if it divides, or takes the
/// remainder, by an immediate.
pub open spec fn spec_get_div_info(f: FunctionView, inst: Inst) -> Option<DivRemByConstInfo> {
    match f.data(inst) {
        InstructionData::BinaryImm { opcode, arg, imm } => match opcode {
            Opcode::UdivImm => spec_package_up_divrem_info(arg, f.ty(arg), imm, false, false),
            Opcode::UremImm => spec_package_up_divrem_info(arg, f.ty(arg), imm, false, true),
            Opcode::SdivImm => spec_package_up_divrem_info(arg, f.ty(arg), imm, true, false),
            Opcode::SremImm => spec_package_up_divrem_info(arg, f.ty(arg), imm, true, true),
            _ => None,
        },
        _ => None,
    }
}

/// Examines `inst` to see whether it is a division or remainder by a
/// constant, and if so returns operand, divisor, signedness, width and
/// kind in one descriptor.
pub fn get_div_info(inst: Inst, func: &Function) -> (r: Option<DivRemByConstInfo>)
    requires
        func@.wf(),
        func@.has_inst(inst),
    ensures
        r == spec_get_div_info(func@, inst),
        r matches Some(info) ==> func@.has_value(info.operand()) && func@.ty(info.operand())
            == info.ty(),
{
    proof {
        assert(func@.inst_ok(inst.0 as int));
    }
    match func.inst_data(inst) {
        InstructionData::BinaryImm { opcode, arg, imm } => {
            assert(func@.data(inst).fixed_args()[0] == arg);
            let (is_signed, is_rem) = match opcode {
                Opcode::UdivImm => (false, false),
                Opcode::UremImm => (false, true),
                Opcode::SdivImm => (true, false),
                Opcode::SremImm => (true, true),
                _ => {
                    return None;
                },
            };
            package_up_divrem_info(arg, func.value_type(arg), imm, is_signed, is_rem)
        },
        _ => None,
    }
}

/// The value that the `j`-th new instruction defines in a function that
/// had `base` values.
pub open spec fn fresh(base: nat, j: int) -> Value {
    Value((base + j) as usize)
}

/// Instructions to insert, and the payload that replaces the division or
/// remainder. The `j`-th inserted instruction defines the value
/// `fresh(base, j)`.
pub struct Expansion {
    pub ops: Seq<InstructionData>,
    pub last: InstructionData,
}

/// The function with an expansion applied at `inst`, which stands at
/// position `at` of `block`.
pub open spec fn apply_expansion(f: FunctionView, block: int, at: int, inst: Inst, ty: Type, x: Expansion) -> FunctionView {
    f.emit(block, at, x.ops, ty).replace(inst, x.last)
}

/// `iconst imm`.
pub open spec fn iconst(imm: i64) -> InstructionData {
    InstructionData::UnaryImm { opcode: Opcode::Iconst, imm }
}

/// `copy arg`.
pub open spec fn copy_of(arg: Value) -> InstructionData {
    InstructionData::Unary { opcode: Opcode::Copy, arg }
}

/// The two-operand instruction `opcode lhs, rhs`.
pub open spec fn binary(opcode: Opcode, lhs: Value, rhs: Value) -> InstructionData {
    InstructionData::Binary { opcode, lhs, rhs }
}

/// The instruction `opcode arg, imm`.
pub open spec fn binary_imm(opcode: Opcode, arg: Value, imm: int) -> InstructionData {
    InstructionData::BinaryImm { opcode, arg, imm: imm as i64 }
}

/// From a quotient to the result: a copy of the quotient `qf` for a
/// division; for a remainder, the dividend minus the quotient times the
/// divisor.
pub open spec fn with_remainder(ops: Seq<InstructionData>, qf: Value, n: Value, d_imm: i64, is_rem: bool, base: nat) -> Expansion {
    if is_rem {
        Expansion {
            ops: ops.push(binary_imm(Opcode::ImulImm, qf, d_imm as int)),
            last: binary(Opcode::Isub, n, fresh(base, ops.len() as int)),
        }
    } else {
        Expansion { ops, last: copy_of(qf) }
    }
}

/// The instructions of unsigned division by multiplication that compute
/// the quotient: the high word of the product with the multiplier,
/// shifted right; with `do_add`, the dividend is added in through an
/// average that cannot overflow.
pub open spec fn unsigned_magic_ops(n: Value, mul_imm: i64, do_add: bool, shift_by: int, base: nat) -> Seq<
    InstructionData,
> {
    let head = seq![iconst(mul_imm), binary(Opcode::Umulhi, n, fresh(base, 0))];
    if do_add {
        head + seq![
            binary(Opcode::Isub, n, fresh(base, 1)),
            binary_imm(Opcode::UshrImm, fresh(base, 2), 1),
            binary(Opcode::Iadd, fresh(base, 3), fresh(base, 1)),
            binary_imm(Opcode::UshrImm, fresh(base, 4), shift_by - 1),
        ]
    } else if shift_by > 0 {
        head.push(binary_imm(Opcode::UshrImm, fresh(base, 1), shift_by))
    } else {
        head
    }
}

/// Unsigned division by multiplication: the quotient, and what turns it
/// into the result.
pub open spec fn unsigned_magic_expansion(
    n: Value,
    d_imm: i64,
    mul_imm: i64,
    do_add: bool,
    shift_by: int,
    is_rem: bool,
    base: nat,
) -> Expansion {
    let ops = unsigned_magic_ops(n, mul_imm, do_add, shift_by, base);
    with_remainder(ops, fresh(base, ops.len() - 1), n, d_imm, is_rem, base)
}

/// Signed division by `2^k` or its negation, in words of `bits` bits: the
/// dividend is biased by `2^k - 1` where it is negative, then shifted or
/// masked.
pub open spec fn signed_pow2_expansion(
    n: Value,
    k: int,
    is_negative: bool,
    is_rem: bool,
    bits: int,
    base: nat,
) -> Expansion {
    let pre = if k == 1 {
        Seq::<InstructionData>::empty()
    } else {
        seq![binary_imm(Opcode::SshrImm, n, k - 1)]
    };
    let t1 = if k == 1 {
        n
    } else {
        fresh(base, 0)
    };
    let j = pre.len() as int;
    let biased = pre + seq![
        binary_imm(Opcode::UshrImm, t1, bits - k),
        binary(Opcode::Iadd, n, fresh(base, j)),
    ];
    if is_rem {
        Expansion {
            ops: biased.push(binary_imm(Opcode::BandImm, fresh(base, j + 1), -(pow2(k as nat) as int))),
            last: binary(Opcode::Isub, n, fresh(base, j + 2)),
        }
    } else {
        Expansion {
            ops: biased.push(binary_imm(Opcode::SshrImm, fresh(base, j + 1), k)),
            last: if is_negative {
                binary_imm(Opcode::IrsubImm, fresh(base, j + 2), 0)
            } else {
                copy_of(fresh(base, j + 2))
            },
        }
    }
}

/// The instructions of signed division by multiplication that compute
/// the quotient: the high word of the product with the multiplier,
/// corrected where the multiplier's sign differs from the divisor's,
/// shifted right, plus its sign bit.
pub open spec fn signed_magic_ops(n: Value, d: int, mul_by: i64, shift_by: int, bits: int, base: nat) -> Seq<
    InstructionData,
> {
    let head = seq![iconst(mul_by), binary(Opcode::Smulhi, n, fresh(base, 0))];
    let corrected = if d > 0 && mul_by < 0 {
        head.push(binary(Opcode::Iadd, fresh(base, 1), n))
    } else if d < 0 && mul_by > 0 {
        head.push(binary(Opcode::Isub, fresh(base, 1), n))
    } else {
        head
    };
    let q2 = fresh(base, corrected.len() - 1);
    let shifted = if shift_by == 0 {
        corrected
    } else {
        corrected.push(binary_imm(Opcode::SshrImm, q2, shift_by))
    };
    let q3 = fresh(base, shifted.len() - 1);
    shifted.push(binary_imm(Opcode::UshrImm, q3, bits - 1)).push(
        binary(Opcode::Iadd, q3, fresh(base, shifted.len() as int)),
    )
}

/// Signed division by multiplication: the quotient, and what turns it
/// into the result.
pub open spec fn signed_magic_expansion(
    n: Value,
    d: int,
    mul_by: i64,
    shift_by: int,
    is_rem: bool,
    bits: int,
    base: nat,
) -> Expansion {
    let all = signed_magic_ops(n, d, mul_by, shift_by, bits, base);
    with_remainder(all, fresh(base, all.len() - 1), n, d as i64, is_rem, base)
}

/// Division by one is a copy; the remainder by one is zero.
pub open spec fn by_one_expansion(n: Value, is_rem: bool) -> Expansion {
    Expansion {
        ops: Seq::empty(),
        last: if is_rem {
            iconst(0)
        } else {
            copy_of(n)
        },
    }
}

/// Unsigned division by `2^k` is a shift; the remainder is a mask.
pub open spec fn unsigned_pow2_expansion(n: Value, d: int, is_rem: bool) -> Expansion {
    Expansion {
        ops: Seq::empty(),
        last: if is_rem {
            binary_imm(Opcode::BandImm, n, d - 1)
        } else {
            binary_imm(Opcode::UshrImm, n, exponent_of(d) as int)
        },
    }
}

/// The expansion of an unsigned division or remainder by `d`, with the
/// multiplier to use where `d` is neither below two nor a power of two.
/// There is none for `d == 0`, which stays as it is and traps.
#[verifier::opaque]
pub open spec fn unsigned_expansion(
    n: Value,
    d: int,
    d_imm: i64,
    is_rem: bool,
    mul_imm: i64,
    do_add: bool,
    shift_by: int,
    base: nat,
) -> Option<Expansion> {
    if d == 0 {
        None
    } else if d == 1 {
        Some(by_one_expansion(n, is_rem))
    } else if is_power_of_two(d) {
        Some(unsigned_pow2_expansion(n, d, is_rem))
    } else {
        Some(unsigned_magic_expansion(n, d_imm, mul_imm, do_add, shift_by, is_rem, base))
    }
}

/// The expansion of a signed division or remainder by `d`, with the
/// multiplier to use where the magnitude of `d` is neither below two nor a
/// power of two. There is none for `d == 0` and `d == -1`, which stay as
/// they are: the one traps, the other can overflow.
#[verifier::opaque]
pub open spec fn signed_expansion(
    n: Value,
    d: int,
    is_rem: bool,
    mul_by: i64,
    shift_by: int,
    bits: int,
    base: nat,
) -> Option<Expansion> {
    if d == 0 || d == -1 {
        None
    } else if d == 1 {
        Some(by_one_expansion(n, is_rem))
    } else {
        match spec_signed_power_of_two(d) {
            Some((is_negative, k)) => Some(signed_pow2_expansion(n, k as int, is_negative, is_rem, bits, base)),
            None => Some(signed_magic_expansion(n, d, mul_by, shift_by, is_rem, bits, base)),
        }
    }
}

/// The expansion of the division or remainder that `info` describes, in a
/// function that has `base` values; `None` where it is left as it is.
#[verifier::opaque]
pub open spec fn expansion(info: DivRemByConstInfo, base: nat) -> Option<Expansion> {
    match info {
        DivRemByConstInfo::DivU32(n, d) | DivRemByConstInfo::RemU32(n, d) => {
            let m = spec_magic_u32(d);
            unsigned_expansion(
                n,
                d as int,
                d as i64,
                info.is_rem(),
                m.mul_by as i64,
                m.do_add,
                m.shift_by as int,
                base,
            )
        },
        DivRemByConstInfo::DivU64(n, d) | DivRemByConstInfo::RemU64(n, d) => {
            let m = spec_magic_u64(d);
            unsigned_expansion(
                n,
                d as int,
                crate::convert::spec_u64_as_i64(d),
                info.is_rem(),
                crate::convert::spec_u64_as_i64(m.mul_by),
                m.do_add,
                m.shift_by as int,
                base,
            )
        },
        DivRemByConstInfo::DivS32(n, d) | DivRemByConstInfo::RemS32(n, d) => {
            let m = spec_magic_s32(d);
            signed_expansion(n, d as int, info.is_rem(), m.mul_by as i64, m.shift_by as int, 32, base)
        },
        DivRemByConstInfo::DivS64(n, d) | DivRemByConstInfo::RemS64(n, d) => {
            let m = spec_magic_s64(d);
            signed_expansion(n, d as int, info.is_rem(), m.mul_by, m.shift_by as int, 64, base)
        },
    }
}

/// The function after the division or remainder at `inst`, which stands
/// at position `at` of `block`, has been rewritten.
pub open spec fn divrem_rewrite(f: FunctionView, block: int, at: int, inst: Inst, info: DivRemByConstInfo) -> FunctionView {
    match expansion(info, f.values.len()) {
        Some(x) => apply_expansion(f, block, at, inst, info.ty(), x),
        None => f,
    }
}

/// The number of instructions that the rewrite inserts.
pub open spec fn divrem_inserted(f: FunctionView, info: DivRemByConstInfo) -> nat {
    match expansion(info, f.values.len()) {
        Some(x) => x.ops.len(),
        None => 0,
    }
}

/// Inserts one more instruction of an expansion before the cursor.
///
/// `f0` is the function before the expansion began, at position `at0` of
/// the cursor's block, and `ops` the instructions inserted so far.
fn emit_step(
    func: &mut Function,
    pos: &mut FuncCursor,
    data: InstructionData,
    ty: Type,
    Ghost(f0): Ghost<FunctionView>,
    Ghost(at0): Ghost<int>,
    Ghost(ops): Ghost<Seq<InstructionData>>,
) -> (v: Value)
    requires
        f0.wf(),
        old(pos).block.0 < f0.blocks.len(),
        0 <= at0 < f0.blocks[old(pos).block.0 as int].len(),
        old(func)@ == f0.emit(old(pos).block.0 as int, at0, ops, ty),
        old(func)@.wf(),
        old(pos).at == at0 + ops.len(),
        data.fits(f0.values.len() + ops.len()),
    ensures
        final(func)@ == f0.emit(old(pos).block.0 as int, at0, ops.push(data), ty),
        final(func)@.wf(),
        final(pos).block == old(pos).block,
        final(pos).at == at0 + ops.len() + 1,
        v == fresh(f0.values.len(), ops.len() as int),
        v.0 == f0.values.len() + ops.len(),
{
    proof {
        f0.lemma_emit_push(pos.block.0 as int, at0, ops, data, ty);
    }
    pos.ins(func, data, ty)
}

/// Replaces `inst` when the instructions of an expansion are in place.
fn emit_last(
    func: &mut Function,
    pos: &FuncCursor,
    inst: Inst,
    data: InstructionData,
    ty: Type,
    Ghost(f0): Ghost<FunctionView>,
    Ghost(at0): Ghost<int>,
    Ghost(ops): Ghost<Seq<InstructionData>>,
)
    requires
        f0.wf(),
        f0.has_inst(inst),
        pos.block.0 < f0.blocks.len(),
        0 <= at0 < f0.blocks[pos.block.0 as int].len(),
        f0.blocks[pos.block.0 as int][at0] == inst,
        old(func)@ == f0.emit(pos.block.0 as int, at0, ops, ty),
        old(func)@.wf(),
        pos.at == at0 + ops.len(),
        data.fits(f0.values.len() + ops.len()),
    ensures
        final(func)@ == apply_expansion(f0, pos.block.0 as int, at0, inst, ty, Expansion { ops, last: data }),
        final(func)@.wf(),
        pos.valid(final(func)@),
        pos.inst(final(func)@) == inst,
{
    func.replace(inst, data);
}

/// Emits what turns the quotient `qf` into the result, and replaces
/// `inst`.
fn finish_quotient(
    func: &mut Function,
    pos: &mut FuncCursor,
    inst: Inst,
    n: Value,
    qf: Value,
    d_imm: i64,
    is_rem: bool,
    ty: Type,
    Ghost(f0): Ghost<FunctionView>,
    Ghost(at0): Ghost<int>,
    Ghost(ops): Ghost<Seq<InstructionData>>,
)
    requires
        f0.wf(),
        f0.has_inst(inst),
        f0.has_value(n),
        old(pos).block.0 < f0.blocks.len(),
        0 <= at0 < f0.blocks[old(pos).block.0 as int].len(),
        f0.blocks[old(pos).block.0 as int][at0] == inst,
        old(func)@ == f0.emit(old(pos).block.0 as int, at0, ops, ty),
        old(func)@.wf(),
        old(pos).at == at0 + ops.len(),
        qf.0 < f0.values.len() + ops.len(),
    ensures
        final(func)@ == apply_expansion(
            f0,
            old(pos).block.0 as int,
            at0,
            inst,
            ty,
            with_remainder(ops, qf, n, d_imm, is_rem, f0.values.len()),
        ),
        final(func)@.wf(),
        final(pos).block == old(pos).block,
        final(pos).at == at0 + with_remainder(ops, qf, n, d_imm, is_rem, f0.values.len()).ops.len(),
        final(pos).valid(final(func)@),
        final(pos).inst(final(func)@) == inst,
{
    if is_rem {
        let tt = emit_step(
            func,
            pos,
            InstructionData::BinaryImm { opcode: Opcode::ImulImm, arg: qf, imm: d_imm },
            ty,
            Ghost(f0),
            Ghost(at0),
            Ghost(ops),
        );
        emit_last(
            func,
            pos,
            inst,
            InstructionData::Binary { opcode: Opcode::Isub, lhs: n, rhs: tt },
            ty,
            Ghost(f0),
            Ghost(at0),
            Ghost(ops.push(binary_imm(Opcode::ImulImm, qf, d_imm as int))),
        );
    } else {
        emit_last(
            func,
            pos,
            inst,
            InstructionData::Unary { opcode: Opcode::Copy, arg: qf },
            ty,
            Ghost(f0),
            Ghost(at0),
            Ghost(ops),
        );
    }
}

/// `-(2^k)` as an immediate.
fn neg_pow2(k: u32) -> (r: i64)
    requires
        k <= 63,
    ensures
        r == -(pow2(k as nat) as int),
{
    proof {
        lemma2_to64();
        lemma2_to64_rest();
        lemma_pow2_le(k as nat, 63);
        vstd::bits::lemma_u64_shl_is_mul(1u64, k as u64);
    }
    if k == 63 {
        i64::MIN
    } else {
        proof {
            lemma_pow2_le(k as nat, 62);
        }
        let p: u64 = 1u64 << k;
        -(p as i64)
    }
}

/// Rewrites a division by one to a copy, a remainder by one to zero.
fn rewrite_by_one(func: &mut Function, pos: &FuncCursor, inst: Inst, n: Value, is_rem: bool, ty: Type)
    requires
        old(func)@.wf(),
        pos.valid(old(func)@),
        pos.inst(old(func)@) == inst,
        old(func)@.has_value(n),
    ensures
        final(func)@ == apply_expansion(
            old(func)@,
            pos.block.0 as int,
            pos.at as int,
            inst,
            ty,
            by_one_expansion(n, is_rem),
        ),
        final(func)@.wf(),
        pos.valid(final(func)@),
        pos.inst(final(func)@) == inst,
{
    let ghost f0 = func@;
    proof {
        f0.lemma_emit_nothing(pos.block.0 as int, pos.at as int, ty);
    }
    let data = if is_rem {
        InstructionData::UnaryImm { opcode: Opcode::Iconst, imm: 0 }
    } else {
        InstructionData::Unary { opcode: Opcode::Copy, arg: n }
    };
    emit_last(func, pos, inst, data, ty, Ghost(f0), Ghost(pos.at as int), Ghost(Seq::empty()));
}

/// Rewrites an unsigned division by `d == 2^k` to a shift, a remainder to
/// a mask.
fn rewrite_unsigned_pow2(
    func: &mut Function,
    pos: &FuncCursor,
    inst: Inst,
    n: Value,
    d: u64,
    k: u32,
    is_rem: bool,
    ty: Type,
)
    requires
        old(func)@.wf(),
        pos.valid(old(func)@),
        pos.inst(old(func)@) == inst,
        old(func)@.has_value(n),
        k <= 63,
        d == pow2(k as nat),
        k == exponent_of(d as int),
    ensures
        final(func)@ == apply_expansion(
            old(func)@,
            pos.block.0 as int,
            pos.at as int,
            inst,
            ty,
            unsigned_pow2_expansion(n, d as int, is_rem),
        ),
        final(func)@.wf(),
        pos.valid(final(func)@),
        pos.inst(final(func)@) == inst,
{
    let ghost f0 = func@;
    proof {
        f0.lemma_emit_nothing(pos.block.0 as int, pos.at as int, ty);
        lemma2_to64();
        lemma2_to64_rest();
        lemma_pow2_le(k as nat, 63);
        vstd::arithmetic::power2::lemma_pow2_pos(k as nat);
    }
    let data = if is_rem {
        let mask: u64 = d - 1;
        InstructionData::BinaryImm { opcode: Opcode::BandImm, arg: n, imm: mask as i64 }
    } else {
        InstructionData::BinaryImm { opcode: Opcode::UshrImm, arg: n, imm: k as i64 }
    };
    emit_last(func, pos, inst, data, ty, Ghost(f0), Ghost(pos.at as int), Ghost(Seq::empty()));
}

/// Rewrites an unsigned division or remainder to a multiplication by
/// `mul_imm` and a shift by `shift_by`.
fn rewrite_unsigned_magic(
    func: &mut Function,
    pos: &mut FuncCursor,
    inst: Inst,
    n: Value,
    d_imm: i64,
    mul_imm: i64,
    do_add: bool,
    shift_by: i32,
    is_rem: bool,
    ty: Type,
)
    requires
        old(func)@.wf(),
        old(pos).valid(old(func)@),
        old(pos).inst(old(func)@) == inst,
        old(func)@.has_value(n),
        0 <= shift_by <= 64,
        do_add ==> shift_by >= 1,
    ensures
        final(func)@ == apply_expansion(
            old(func)@,
            old(pos).block.0 as int,
            old(pos).at as int,
            inst,
            ty,
            unsigned_magic_expansion(n, d_imm, mul_imm, do_add, shift_by as int, is_rem, old(func)@.values.len()),
        ),
        final(func)@.wf(),
        final(pos).block == old(pos).block,
        final(pos).at == old(pos).at + unsigned_magic_expansion(
            n,
            d_imm,
            mul_imm,
            do_add,
            shift_by as int,
            is_rem,
            old(func)@.values.len(),
        ).ops.len(),
        final(pos).valid(final(func)@),
        final(pos).inst(final(func)@) == inst,
{
    let ghost f0 = func@;
    let ghost at0 = pos.at as int;
    let ghost base = f0.values.len();
    proof {
        f0.lemma_emit_nothing(pos.block.0 as int, at0, ty);
    }
    let ghost mut ops: Seq<InstructionData> = Seq::empty();
    let q0 = emit_step(
        func,
        pos,
        InstructionData::UnaryImm { opcode: Opcode::Iconst, imm: mul_imm },
        ty,
        Ghost(f0),
        Ghost(at0),
        Ghost(ops),
    );
    proof {
        ops = ops.push(iconst(mul_imm));
    }
    let q1 = emit_step(
        func,
        pos,
        InstructionData::Binary { opcode: Opcode::Umulhi, lhs: n, rhs: q0 },
        ty,
        Ghost(f0),
        Ghost(at0),
        Ghost(ops),
    );
    proof {
        ops = ops.push(binary(Opcode::Umulhi, n, q0));
    }
    let ghost head = seq![iconst(mul_imm), binary(Opcode::Umulhi, n, fresh(base, 0))];
    assert(ops =~= head);
    let qf;
    if do_add {
        let t1 = emit_step(
            func,
            pos,
            InstructionData::Binary { opcode: Opcode::Isub, lhs: n, rhs: q1 },
            ty,
            Ghost(f0),
            Ghost(at0),
            Ghost(ops),
        );
        proof {
            ops = ops.push(binary(Opcode::Isub, n, q1));
        }
        let t2 = emit_step(
            func,
            pos,
            InstructionData::BinaryImm { opcode: Opcode::UshrImm, arg: t1, imm: 1 },
            ty,
            Ghost(f0),
            Ghost(at0),
            Ghost(ops),
        );
        proof {
            ops = ops.push(binary_imm(Opcode::UshrImm, t1, 1));
        }
        let t3 = emit_step(
            func,
            pos,
            InstructionData::Binary { opcode: Opcode::Iadd, lhs: t2, rhs: q1 },
            ty,
            Ghost(f0),
            Ghost(at0),
            Ghost(ops),
        );
        proof {
            ops = ops.push(binary(Opcode::Iadd, t2, q1));
        }
        qf = emit_step(
            func,
            pos,
            InstructionData::BinaryImm { opcode: Opcode::UshrImm, arg: t3, imm: (shift_by - 1) as i64 },
            ty,
            Ghost(f0),
            Ghost(at0),
            Ghost(ops),
        );
        proof {
            ops = ops.push(binary_imm(Opcode::UshrImm, t3, shift_by - 1));
            assert(ops =~= head + seq![
                binary(Opcode::Isub, n, fresh(base, 1)),
                binary_imm(Opcode::UshrImm, fresh(base, 2), 1),
                binary(Opcode::Iadd, fresh(base, 3), fresh(base, 1)),
                binary_imm(Opcode::UshrImm, fresh(base, 4), shift_by - 1),
            ]);
        }
    } else if shift_by > 0 {
        qf = emit_step(
            func,
            pos,
            InstructionData::BinaryImm { opcode: Opcode::UshrImm, arg: q1, imm: shift_by as i64 },
            ty,
            Ghost(f0),
            Ghost(at0),
            Ghost(ops),
        );
        proof {
            ops = ops.push(binary_imm(Opcode::UshrImm, q1, shift_by as int));
            assert(ops =~= head.push(binary_imm(Opcode::UshrImm, fresh(base, 1), shift_by as int)));
        }
    } else {
        qf = q1;
    }
    assert(ops =~= unsigned_magic_ops(n, mul_imm, do_add, shift_by as int, base));
    finish_quotient(func, pos, inst, n, qf, d_imm, is_rem, ty, Ghost(f0), Ghost(at0), Ghost(ops));
}

/// Rewrites a signed division or remainder by `2^k` or its negation, in
/// words of `bits` bits.
fn rewrite_signed_pow2(
    func: &mut Function,
    pos: &mut FuncCursor,
    inst: Inst,
    n: Value,
    k: u32,
    is_negative: bool,
    is_rem: bool,
    bits: u32,
    ty: Type,
)
    requires
        old(func)@.wf(),
        old(pos).valid(old(func)@),
        old(pos).inst(old(func)@) == inst,
        old(func)@.has_value(n),
        1 <= k < bits <= 64,
    ensures
        final(func)@ == apply_expansion(
            old(func)@,
            old(pos).block.0 as int,
            old(pos).at as int,
            inst,
            ty,
            signed_pow2_expansion(n, k as int, is_negative, is_rem, bits as int, old(func)@.values.len()),
        ),
        final(func)@.wf(),
        final(pos).block == old(pos).block,
        final(pos).at == old(pos).at + signed_pow2_expansion(
            n,
            k as int,
            is_negative,
            is_rem,
            bits as int,
            old(func)@.values.len(),
        ).ops.len(),
        final(pos).valid(final(func)@),
        final(pos).inst(final(func)@) == inst,
{
    let ghost f0 = func@;
    let ghost at0 = pos.at as int;
    let ghost base = f0.values.len();
    proof {
        f0.lemma_emit_nothing(pos.block.0 as int, at0, ty);
    }
    let ghost mut ops: Seq<InstructionData> = Seq::empty();
    let t1 = if k - 1 == 0 {
        n
    } else {
        let t = emit_step(
            func,
            pos,
            InstructionData::BinaryImm { opcode: Opcode::SshrImm, arg: n, imm: (k - 1) as i64 },
            ty,
            Ghost(f0),
            Ghost(at0),
            Ghost(ops),
        );
        proof {
            ops = ops.push(binary_imm(Opcode::SshrImm, n, k - 1));
        }
        t
    };
    let ghost pre = ops;
    let ghost j = pre.len() as int;
    let t2 = emit_step(
        func,
        pos,
        InstructionData::BinaryImm { opcode: Opcode::UshrImm, arg: t1, imm: (bits - k) as i64 },
        ty,
        Ghost(f0),
        Ghost(at0),
        Ghost(ops),
    );
    proof {
        ops = ops.push(binary_imm(Opcode::UshrImm, t1, bits - k));
    }
    let t3 = emit_step(
        func,
        pos,
        InstructionData::Binary { opcode: Opcode::Iadd, lhs: n, rhs: t2 },
        ty,
        Ghost(f0),
        Ghost(at0),
        Ghost(ops),
    );
    proof {
        ops = ops.push(binary(Opcode::Iadd, n, t2));
        assert(ops =~= pre + seq![
            binary_imm(Opcode::UshrImm, t1, bits - k),
            binary(Opcode::Iadd, n, fresh(base, j)),
        ]);
        assert(pre =~= if k == 1 {
            Seq::<InstructionData>::empty()
        } else {
            seq![binary_imm(Opcode::SshrImm, n, k - 1)]
        });
    }
    if is_rem {
        let t4 = emit_step(
            func,
            pos,
            InstructionData::BinaryImm { opcode: Opcode::BandImm, arg: t3, imm: neg_pow2(k) },
            ty,
            Ghost(f0),
            Ghost(at0),
            Ghost(ops),
        );
        emit_last(
            func,
            pos,
            inst,
            InstructionData::Binary { opcode: Opcode::Isub, lhs: n, rhs: t4 },
            ty,
            Ghost(f0),
            Ghost(at0),
            Ghost(ops.push(binary_imm(Opcode::BandImm, t3, -(pow2(k as nat) as int)))),
        );
    } else {
        let t4 = emit_step(
            func,
            pos,
            InstructionData::BinaryImm { opcode: Opcode::SshrImm, arg: t3, imm: k as i64 },
            ty,
            Ghost(f0),
            Ghost(at0),
            Ghost(ops),
        );
        let last = if is_negative {
            InstructionData::BinaryImm { opcode: Opcode::IrsubImm, arg: t4, imm: 0 }
        } else {
            InstructionData::Unary { opcode: Opcode::Copy, arg: t4 }
        };
        emit_last(
            func,
            pos,
            inst,
            last,
            ty,
            Ghost(f0),
            Ghost(at0),
            Ghost(ops.push(binary_imm(Opcode::SshrImm, t3, k as int))),
        );
    }
}

/// Rewrites a signed division or remainder by `d` to a multiplication by
/// `mul_by` and a shift by `shift_by`, in words of `bits` bits.
fn rewrite_signed_magic(
    func: &mut Function,
    pos: &mut FuncCursor,
    inst: Inst,
    n: Value,
    d: i64,
    mul_by: i64,
    shift_by: i32,
    is_rem: bool,
    bits: u32,
    ty: Type,
)
    requires
        old(func)@.wf(),
        old(pos).valid(old(func)@),
        old(pos).inst(old(func)@) == inst,
        old(func)@.has_value(n),
        0 <= shift_by <= 63,
        1 <= bits <= 64,
    ensures
        final(func)@ == apply_expansion(
            old(func)@,
            old(pos).block.0 as int,
            old(pos).at as int,
            inst,
            ty,
            signed_magic_expansion(
                n,
                d as int,
                mul_by,
                shift_by as int,
                is_rem,
                bits as int,
                old(func)@.values.len(),
            ),
        ),
        final(func)@.wf(),
        final(pos).block == old(pos).block,
        final(pos).at == old(pos).at + signed_magic_expansion(
            n,
            d as int,
            mul_by,
            shift_by as int,
            is_rem,
            bits as int,
            old(func)@.values.len(),
        ).ops.len(),
        final(pos).valid(final(func)@),
        final(pos).inst(final(func)@) == inst,
{
    let ghost f0 = func@;
    let ghost at0 = pos.at as int;
    let ghost base = f0.values.len();
    proof {
        f0.lemma_emit_nothing(pos.block.0 as int, at0, ty);
    }
    let ghost mut ops: Seq<InstructionData> = Seq::empty();
    let q0 = emit_step(
        func,
        pos,
        InstructionData::UnaryImm { opcode: Opcode::Iconst, imm: mul_by },
        ty,
        Ghost(f0),
        Ghost(at0),
        Ghost(ops),
    );
    proof {
        ops = ops.push(iconst(mul_by));
    }
    let q1 = emit_step(
        func,
        pos,
        InstructionData::Binary { opcode: Opcode::Smulhi, lhs: n, rhs: q0 },
        ty,
        Ghost(f0),
        Ghost(at0),
        Ghost(ops),
    );
    proof {
        ops = ops.push(binary(Opcode::Smulhi, n, q0));
    }
    let ghost head = seq![iconst(mul_by), binary(Opcode::Smulhi, n, fresh(base, 0))];
    assert(ops =~= head);
    let q2 = if d > 0 && mul_by < 0 {
        let t = emit_step(
            func,
            pos,
            InstructionData::Binary { opcode: Opcode::Iadd, lhs: q1, rhs: n },
            ty,
            Ghost(f0),
            Ghost(at0),
            Ghost(ops),
        );
        proof {
            ops = ops.push(binary(Opcode::Iadd, q1, n));
        }
        t
    } else if d < 0 && mul_by > 0 {
        let t = emit_step(
            func,
            pos,
            InstructionData::Binary { opcode: Opcode::Isub, lhs: q1, rhs: n },
            ty,
            Ghost(f0),
            Ghost(at0),
            Ghost(ops),
        );
        proof {
            ops = ops.push(binary(Opcode::Isub, q1, n));
        }
        t
    } else {
        q1
    };
    let ghost corrected = ops;
    let q3 = if shift_by == 0 {
        q2
    } else {
        let t = emit_step(
            func,
            pos,
            InstructionData::BinaryImm { opcode: Opcode::SshrImm, arg: q2, imm: shift_by as i64 },
            ty,
            Ghost(f0),
            Ghost(at0),
            Ghost(ops),
        );
        proof {
            ops = ops.push(binary_imm(Opcode::SshrImm, q2, shift_by as int));
        }
        t
    };
    let ghost shifted = ops;
    let t1 = emit_step(
        func,
        pos,
        InstructionData::BinaryImm { opcode: Opcode::UshrImm, arg: q3, imm: (bits - 1) as i64 },
        ty,
        Ghost(f0),
        Ghost(at0),
        Ghost(ops),
    );
    proof {
        ops = ops.push(binary_imm(Opcode::UshrImm, q3, bits - 1));
    }
    let qf = emit_step(
        func,
        pos,
        InstructionData::Binary { opcode: Opcode::Iadd, lhs: q3, rhs: t1 },
        ty,
        Ghost(f0),
        Ghost(at0),
        Ghost(ops),
    );
    proof {
        ops = ops.push(binary(Opcode::Iadd, q3, t1));
        assert(ops =~= signed_magic_ops(n, d as int, mul_by, shift_by as int, bits as int, base));
    }
    finish_quotient(func, pos, inst, n, qf, d, is_rem, ty, Ghost(f0), Ghost(at0), Ghost(ops));
}

/// Replaces the division or remainder by a constant at `inst`, at which
/// `pos` stands, by a sequence of cheaper operations that computes the
/// same result. The new instructions go before `inst`, which then holds
/// the last operation; `pos` goes on standing at `inst`.
///
/// A division by zero, and a signed division by minus one, are left as
/// they are.
pub fn do_divrem_transformation(
    divrem_info: &DivRemByConstInfo,
    func: &mut Function,
    pos: &mut FuncCursor,
    inst: Inst,
)
    requires
        old(func)@.wf(),
        old(pos).valid(old(func)@),
        old(pos).inst(old(func)@) == inst,
        old(func)@.has_value(divrem_info.operand()),
    ensures
        final(func)@ == divrem_rewrite(
            old(func)@,
            old(pos).block.0 as int,
            old(pos).at as int,
            inst,
            *divrem_info,
        ),
        final(func)@.wf(),
        final(pos).block == old(pos).block,
        final(pos).at == old(pos).at + divrem_inserted(old(func)@, *divrem_info),
        final(pos).valid(final(func)@),
        final(pos).inst(final(func)@) == inst,
{
    proof {
        reveal(expansion);
        reveal(unsigned_expansion);
        reveal(signed_expansion);
    }
    let is_rem = match *divrem_info {
        DivRemByConstInfo::DivU32(_, _)
        | DivRemByConstInfo::DivU64(_, _)
        | DivRemByConstInfo::DivS32(_, _)
        | DivRemByConstInfo::DivS64(_, _) => false,
        DivRemByConstInfo::RemU32(_, _)
        | DivRemByConstInfo::RemU64(_, _)
        | DivRemByConstInfo::RemS32(_, _)
        | DivRemByConstInfo::RemS64(_, _) => true,
    };
    match *divrem_info {
        DivRemByConstInfo::DivU32(n1, d) | DivRemByConstInfo::RemU32(n1, d) => {
            if d == 0 {
                // a division by zero stays, and traps when it runs
            } else if d == 1 {
                rewrite_by_one(func, pos, inst, n1, is_rem, Type::I32);
            } else {
                match u64_power_of_two(d as u64) {
                    Some(k) => {
                        rewrite_unsigned_pow2(func, pos, inst, n1, d as u64, k, is_rem, Type::I32);
                    },
                    None => {
                        let MU32 { mul_by, do_add, shift_by } = magic_u32(d);
                        rewrite_unsigned_magic(
                            func,
                            pos,
                            inst,
                            n1,
                            d as i64,
                            mul_by as i64,
                            do_add,
                            shift_by,
                            is_rem,
                            Type::I32,
                        );
                    },
                }
            }
        },
        DivRemByConstInfo::DivU64(n1, d) | DivRemByConstInfo::RemU64(n1, d) => {
            if d == 0 {
                // a division by zero stays, and traps when it runs
            } else if d == 1 {
                rewrite_by_one(func, pos, inst, n1, is_rem, Type::I64);
            } else {
                match u64_power_of_two(d) {
                    Some(k) => {
                        rewrite_unsigned_pow2(func, pos, inst, n1, d, k, is_rem, Type::I64);
                    },
                    None => {
                        let MU64 { mul_by, do_add, shift_by } = magic_u64(d);
                        rewrite_unsigned_magic(
                            func,
                            pos,
                            inst,
                            n1,
                            u64_as_i64(d),
                            u64_as_i64(mul_by),
                            do_add,
                            shift_by,
                            is_rem,
                            Type::I64,
                        );
                    },
                }
            }
        },
        DivRemByConstInfo::DivS32(n1, d) | DivRemByConstInfo::RemS32(n1, d) => {
            if d == -1 || d == 0 {
                // a division by zero traps, and one by minus one can overflow: both stay
            } else if d == 1 {
                rewrite_by_one(func, pos, inst, n1, is_rem, Type::I32);
            } else {
                match i32_is_power_of_two(d) {
                    Some((is_negative, k)) => {
                        proof {
                            lemma2_to64();
                        }
                        rewrite_signed_pow2(func, pos, inst, n1, k, is_negative, is_rem, 32, Type::I32);
                    },
                    None => {
                        let MS32 { mul_by, shift_by } = magic_s32(d);
                        rewrite_signed_magic(
                            func,
                            pos,
                            inst,
                            n1,
                            d as i64,
                            mul_by as i64,
                            shift_by,
                            is_rem,
                            32,
                            Type::I32,
                        );
                    },
                }
            }
        },
        DivRemByConstInfo::DivS64(n1, d) | DivRemByConstInfo::RemS64(n1, d) => {
            if d == -1 || d == 0 {
                // a division by zero traps, and one by minus one can overflow: both stay
            } else if d == 1 {
                rewrite_by_one(func, pos, inst, n1, is_rem, Type::I64);
            } else {
                match i64_is_power_of_two(d) {
                    Some((is_negative, k)) => {
                        proof {
                            lemma2_to64();
                        }
                        rewrite_signed_pow2(func, pos, inst, n1, k, is_negative, is_rem, 64, Type::I64);
                    },
                    None => {
                        let MS64 { mul_by, shift_by } = magic_s64(d);
                        rewrite_signed_magic(
                            func,
                            pos,
                            inst,
                            n1,
                            d,
                            mul_by,
                            shift_by,
                            is_rem,
                            64,
                            Type::I64,
                        );
                    },
                }
            }
        },
    }
}

/// Whether `data` is an instruction that an expansion may hold at place
/// `j`: an operation on values, with its operands among the values of the
/// function and the results before it.
pub open spec fn expansion_op_ok(data: InstructionData, base: nat, j: int) -> bool {
    data.fits((base + j) as nat) && data.branch_destination() is None && !divides_by_immediate(data)
}

/// Whether `data` is a division or remainder by an immediate.
pub open spec fn divides_by_immediate(data: InstructionData) -> bool {
    match data {
        InstructionData::BinaryImm { opcode, .. } => matches!(
            opcode,
            Opcode::UdivImm | Opcode::UremImm | Opcode::SdivImm | Opcode::SremImm
        ),
        _ => false,
    }
}

/// Whether an expansion is sound in a function with `base` values: each
/// instruction, and the payload that replaces the division, is an
/// operation on values that are there when it runs.
pub open spec fn expansion_ok(x: Expansion, base: nat) -> bool {
    &&& forall|j: int| 0 <= j < x.ops.len() ==> expansion_op_ok(#[trigger] x.ops[j], base, j)
    &&& expansion_op_ok(x.last, base, x.ops.len() as int)
}

/// Turning a sound quotient into the result gives a sound expansion.
proof fn lemma_with_remainder_ok(ops: Seq<InstructionData>, qf: Value, n: Value, d_imm: i64, is_rem: bool, base: nat)
    requires
        forall|j: int| 0 <= j < ops.len() ==> expansion_op_ok(#[trigger] ops[j], base, j),
        qf.0 < base + ops.len(),
        n.0 < base,
        base + with_remainder(ops, qf, n, d_imm, is_rem, base).ops.len() <= usize::MAX,
    ensures
        expansion_ok(with_remainder(ops, qf, n, d_imm, is_rem, base), base),
        with_remainder(ops, qf, n, d_imm, is_rem, base).ops.len() <= ops.len() + 1,
{
    let x = with_remainder(ops, qf, n, d_imm, is_rem, base);
    lemma_args_below(x.last, (base + x.ops.len()) as nat);
    assert forall|j: int| 0 <= j < x.ops.len() implies expansion_op_ok(#[trigger] x.ops[j], base, j) by {
        if j < ops.len() {
            assert(x.ops[j] == ops[j]);
        } else {
            lemma_args_below(x.ops[j], (base + j) as nat);
        }
    }
}

/// Unsigned division by multiplication is a sound expansion.
proof fn lemma_unsigned_magic_expansion_ok(
    n: Value,
    d_imm: i64,
    mul_imm: i64,
    do_add: bool,
    shift_by: int,
    is_rem: bool,
    base: nat,
)
    requires
        n.0 < base,
        base + unsigned_magic_expansion(n, d_imm, mul_imm, do_add, shift_by, is_rem, base).ops.len()
            <= usize::MAX,
    ensures
        expansion_ok(unsigned_magic_expansion(n, d_imm, mul_imm, do_add, shift_by, is_rem, base), base),
        unsigned_magic_expansion(n, d_imm, mul_imm, do_add, shift_by, is_rem, base).ops.len() <= 7,
{
    let ops = unsigned_magic_ops(n, mul_imm, do_add, shift_by, base);
    assert forall|j: int| 0 <= j < ops.len() implies expansion_op_ok(#[trigger] ops[j], base, j) by {
        lemma_args_below(ops[j], (base + j) as nat);
    }
    lemma_with_remainder_ok(ops, fresh(base, ops.len() - 1), n, d_imm, is_rem, base);
}

/// Signed division by a power of two is a sound expansion.
proof fn lemma_signed_pow2_expansion_ok(n: Value, k: int, is_negative: bool, is_rem: bool, bits: int, base: nat)
    requires
        n.0 < base,
        base + signed_pow2_expansion(n, k, is_negative, is_rem, bits, base).ops.len() <= usize::MAX,
    ensures
        expansion_ok(signed_pow2_expansion(n, k, is_negative, is_rem, bits, base), base),
        signed_pow2_expansion(n, k, is_negative, is_rem, bits, base).ops.len() <= 7,
{
    let x = signed_pow2_expansion(n, k, is_negative, is_rem, bits, base);
    assert forall|j: int| 0 <= j < x.ops.len() implies expansion_op_ok(#[trigger] x.ops[j], base, j) by {
        lemma_args_below(x.ops[j], (base + j) as nat);
    }
    lemma_args_below(x.last, (base + x.ops.len()) as nat);
}

/// Signed division by multiplication is a sound expansion.
proof fn lemma_signed_magic_expansion_ok(
    n: Value,
    d: int,
    mul_by: i64,
    shift_by: int,
    is_rem: bool,
    bits: int,
    base: nat,
)
    requires
        n.0 < base,
        base + signed_magic_expansion(n, d, mul_by, shift_by, is_rem, bits, base).ops.len() <= usize::MAX,
    ensures
        expansion_ok(signed_magic_expansion(n, d, mul_by, shift_by, is_rem, bits, base), base),
        signed_magic_expansion(n, d, mul_by, shift_by, is_rem, bits, base).ops.len() <= 7,
{
    let all = signed_magic_ops(n, d, mul_by, shift_by, bits, base);
    assert forall|j: int| 0 <= j < all.len() implies expansion_op_ok(#[trigger] all[j], base, j) by {
        lemma_args_below(all[j], (base + j) as nat);
    }
    lemma_with_remainder_ok(all, fresh(base, all.len() - 1), n, d as i64, is_rem, base);
}

/// An expansion has at most seven instructions.
pub proof fn lemma_expansion_length(info: DivRemByConstInfo, base: nat)
    requires
        expansion(info, base) is Some,
    ensures
        expansion(info, base).unwrap().ops.len() <= 7,
{
    reveal(expansion);
    reveal(unsigned_expansion);
    reveal(signed_expansion);
    let n = info.operand();
    let d = info.divisor();
    let is_rem = info.is_rem();
    if info.is_signed() {
        if d != 1 {
            match spec_signed_power_of_two(d) {
                Some((neg, k)) => {
                    assert(signed_pow2_expansion(n, k as int, neg, is_rem, info.ty().bits() as int, base).ops.len()
                        <= 4);
                },
                None => {
                    match info {
                        DivRemByConstInfo::DivS32(_, dd) | DivRemByConstInfo::RemS32(_, dd) => {
                            let m = spec_magic_s32(dd);
                            assert(signed_magic_ops(n, d, m.mul_by as i64, m.shift_by as int, 32, base).len() <= 6);
                        },
                        DivRemByConstInfo::DivS64(_, dd) | DivRemByConstInfo::RemS64(_, dd) => {
                            let m = spec_magic_s64(dd);
                            assert(signed_magic_ops(n, d, m.mul_by, m.shift_by as int, 64, base).len() <= 6);
                        },
                        _ => {},
                    }
                },
            }
        }
    } else {
        if d != 1 && !is_power_of_two(d) {
            match info {
                DivRemByConstInfo::DivU32(_, dd) | DivRemByConstInfo::RemU32(_, dd) => {
                    let m = spec_magic_u32(dd);
                    assert(unsigned_magic_ops(n, m.mul_by as i64, m.do_add, m.shift_by as int, base).len() <= 6);
                },
                DivRemByConstInfo::DivU64(_, dd) | DivRemByConstInfo::RemU64(_, dd) => {
                    let m = spec_magic_u64(dd);
                    assert(unsigned_magic_ops(
                        n,
                        crate::convert::spec_u64_as_i64(m.mul_by),
                        m.do_add,
                        m.shift_by as int,
                        base,
                    ).len() <= 6);
                },
                _ => {},
            }
        }
    }
}

/// The shape of an expansion: at most seven instructions, each an
/// operation on values that are there when it runs.
pub proof fn lemma_expansion_shape(info: DivRemByConstInfo, base: nat)
    requires
        info.operand().0 < base,
        expansion(info, base) is Some,
        base + expansion(info, base).unwrap().ops.len() <= usize::MAX,
    ensures
        expansion(info, base).unwrap().ops.len() <= 7,
        expansion_ok(expansion(info, base).unwrap(), base),
{
    reveal(expansion);
    reveal(unsigned_expansion);
    reveal(signed_expansion);
    let x = expansion(info, base).unwrap();
    let n = info.operand();
    let d = info.divisor();
    let is_rem = info.is_rem();
    lemma_args_below(by_one_expansion(n, is_rem).last, base);
    if info.is_signed() {
        if d != 1 {
            match spec_signed_power_of_two(d) {
                Some((neg, k)) => {
                    lemma_signed_pow2_expansion_ok(n, k as int, neg, is_rem, info.ty().bits() as int, base);
                },
                None => {
                    match info {
                        DivRemByConstInfo::DivS32(_, dd) | DivRemByConstInfo::RemS32(_, dd) => {
                            let m = spec_magic_s32(dd);
                            lemma_signed_magic_expansion_ok(n, d, m.mul_by as i64, m.shift_by as int, is_rem, 32, base);
                        },
                        DivRemByConstInfo::DivS64(_, dd) | DivRemByConstInfo::RemS64(_, dd) => {
                            let m = spec_magic_s64(dd);
                            lemma_signed_magic_expansion_ok(n, d, m.mul_by, m.shift_by as int, is_rem, 64, base);
                        },
                        _ => {},
                    }
                },
            }
        }
    } else {
        lemma_args_below(unsigned_pow2_expansion(n, d, is_rem).last, base);
        if d != 1 && !is_power_of_two(d) {
            match info {
                DivRemByConstInfo::DivU32(_, dd) | DivRemByConstInfo::RemU32(_, dd) => {
                    let m = spec_magic_u32(dd);
                    lemma_unsigned_magic_expansion_ok(
                        n,
                        dd as i64,
                        m.mul_by as i64,
                        m.do_add,
                        m.shift_by as int,
                        is_rem,
                        base,
                    );
                },
                DivRemByConstInfo::DivU64(_, dd) | DivRemByConstInfo::RemU64(_, dd) => {
                    let m = spec_magic_u64(dd);
                    lemma_unsigned_magic_expansion_ok(
                        n,
                        crate::convert::spec_u64_as_i64(dd),
                        crate::convert::spec_u64_as_i64(m.mul_by),
                        m.do_add,
                        m.shift_by as int,
                        is_rem,
                        base,
                    );
                },
                _ => {},
            }
        }
    }
}

/// A payload whose operands all lie below `n` has its operand list below
/// `n`.
pub proof fn lemma_args_below(data: InstructionData, n: nat)
    ensures
        (match data {
            InstructionData::NullAry { .. } => true,
            InstructionData::Unary { arg, .. } => arg.0 < n,
            InstructionData::UnaryImm { .. } => true,
            InstructionData::Binary { lhs, rhs, .. } => lhs.0 < n && rhs.0 < n,
            InstructionData::BinaryImm { arg, .. } => arg.0 < n,
            InstructionData::Ternary { ctrl, lhs, rhs, .. } => ctrl.0 < n && lhs.0 < n && rhs.0 < n,
            InstructionData::IntCompare { lhs, rhs, .. } => lhs.0 < n && rhs.0 < n,
            InstructionData::IntCompareImm { arg, .. } => arg.0 < n,
            InstructionData::Jump { .. } => true,
            InstructionData::Branch { arg, .. } => arg.0 < n,
            InstructionData::BranchIcmp { lhs, rhs, .. } => lhs.0 < n && rhs.0 < n,
            InstructionData::CondTrap { arg, .. } => arg.0 < n,
        }) ==> data.args_below(n),
{
}

/// The expansion of an unsigned division or remainder, spelled out.
pub proof fn lemma_expansion_unsigned(info: DivRemByConstInfo, base: nat)
    requires
        !info.is_signed(),
    ensures
        info matches DivRemByConstInfo::DivU32(n, d) ==> expansion(info, base) == unsigned_expansion(
            n,
            d as int,
            d as i64,
            false,
            spec_magic_u32(d).mul_by as i64,
            spec_magic_u32(d).do_add,
            spec_magic_u32(d).shift_by as int,
            base,
        ),
        info matches DivRemByConstInfo::RemU32(n, d) ==> expansion(info, base) == unsigned_expansion(
            n,
            d as int,
            d as i64,
            true,
            spec_magic_u32(d).mul_by as i64,
            spec_magic_u32(d).do_add,
            spec_magic_u32(d).shift_by as int,
            base,
        ),
        info matches DivRemByConstInfo::DivU64(n, d) ==> expansion(info, base) == unsigned_expansion(
            n,
            d as int,
            crate::convert::spec_u64_as_i64(d),
            false,
            crate::convert::spec_u64_as_i64(spec_magic_u64(d).mul_by),
            spec_magic_u64(d).do_add,
            spec_magic_u64(d).shift_by as int,
            base,
        ),
        info matches DivRemByConstInfo::RemU64(n, d) ==> expansion(info, base) == unsigned_expansion(
            n,
            d as int,
            crate::convert::spec_u64_as_i64(d),
            true,
            crate::convert::spec_u64_as_i64(spec_magic_u64(d).mul_by),
            spec_magic_u64(d).do_add,
            spec_magic_u64(d).shift_by as int,
            base,
        ),
        expansion(info, base) is Some ==> info.divisor() != 0,
{
    reveal(expansion);
    reveal(unsigned_expansion);
}

/// The expansion of a signed division or remainder, spelled out.
pub proof fn lemma_expansion_signed(info: DivRemByConstInfo, base: nat)
    requires
        info.is_signed(),
    ensures
        info matches DivRemByConstInfo::DivS32(n, d) ==> expansion(info, base) == signed_expansion(
            n,
            d as int,
            false,
            spec_magic_s32(d).mul_by as i64,
            spec_magic_s32(d).shift_by as int,
            32,
            base,
        ),
        info matches DivRemByConstInfo::RemS32(n, d) ==> expansion(info, base) == signed_expansion(
            n,
            d as int,
            true,
            spec_magic_s32(d).mul_by as i64,
            spec_magic_s32(d).shift_by as int,
            32,
            base,
        ),
        info matches DivRemByConstInfo::DivS64(n, d) ==> expansion(info, base) == signed_expansion(
            n,
            d as int,
            false,
            spec_magic_s64(d).mul_by,
            spec_magic_s64(d).shift_by as int,
            64,
            base,
        ),
        info matches DivRemByConstInfo::RemS64(n, d) ==> expansion(info, base) == signed_expansion(
            n,
            d as int,
            true,
            spec_magic_s64(d).mul_by,
            spec_magic_s64(d).shift_by as int,
            64,
            base,
        ),
        expansion(info, base) is Some ==> info.divisor() != 0 && info.divisor() != -1,
{
    reveal(expansion);
    reveal(signed_expansion);
}

/// A division by zero, and a signed division by minus one, have no
/// expansion.
pub proof fn lemma_trapping_has_no_expansion(info: DivRemByConstInfo, base: nat)
    ensures
        info.divisor() == 0 || (info.is_signed() && info.divisor() == -1) ==> expansion(info, base) is None,
{
    reveal(expansion);
    reveal(unsigned_expansion);
    reveal(signed_expansion);
}

} // verus!
