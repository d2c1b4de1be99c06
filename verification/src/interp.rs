//! An interpreter for single instructions: what an instruction computes
//! on given operands, in machine arithmetic.

use crate::arith::trunc_div;
use crate::entities::{Inst, IntCC, Type, Value};
use crate::function::{Function, FunctionView};
use crate::instructions::{InstructionData, Opcode};
use crate::semantics::{
    bits_and, bits_or, bits_xor, eval_binary, eval_binary_imm, holds, signed, takes_shift_count,
    wrap,
};
use vstd::arithmetic::power2::{lemma2_to64, lemma_pow2_pos, lemma_pow2_unfold, pow2};
use vstd::prelude::*;

verus! {

/// The number of values of `ty`.
pub fn modulus_of(ty: Type) -> (m: u128)
    ensures
        m == ty.modulus(),
{
    match ty {
        Type::B1 => 2,
        Type::I8 => 0x100,
        Type::I16 => 0x1_0000,
        Type::I32 => 0x1_0000_0000,
        Type::I64 => 0x1_0000_0000_0000_0000,
    }
}

/// The width of `ty` in bits.
pub fn bits_of(ty: Type) -> (b: u32)
    ensures
        b == ty.bits(),
{
    match ty {
        Type::B1 => 1,
        Type::I8 => 8,
        Type::I16 => 16,
        Type::I32 => 32,
        Type::I64 => 64,
    }
}

/// Two to the power of `k`.
pub fn pow2_of(k: u32) -> (p: u128)
    requires
        k <= 64,
    ensures
        p == pow2(k as nat),
        1 <= p <= 0x1_0000_0000_0000_0000,
{
    let mut p: u128 = 1;
    let mut i: u32 = 0;
    proof {
        lemma2_to64();
    }
    while i < k
        invariant
            i <= k <= 64,
            p == pow2(i as nat),
            p <= pow2(64),
            pow2(64) == 0x1_0000_0000_0000_0000,
        decreases k - i,
    {
        proof {
            lemma_pow2_unfold((i + 1) as nat);
            crate::arith::lemma_pow2_le((i + 1) as nat, 64);
        }
        p = p * 2;
        i = i + 1;
    }
    proof {
        lemma_pow2_pos(k as nat);
    }
    p
}

/// The two's complement reading of the value `a` of `ty`.
pub fn signed_of(ty: Type, a: u64) -> (s: i128)
    ensures
        s == signed(ty, a as int),
        a < ty.modulus() ==> -0x8000_0000_0000_0000 <= s < 0x8000_0000_0000_0000,
{
    let m = modulus_of(ty);
    if 2 * (a as u128) >= m {
        (a as i128) - (m as i128)
    } else {
        a as i128
    }
}

/// The number `s` reduced to a value of `ty`.
pub fn wrap_of(ty: Type, s: i128) -> (u: u64)
    requires
        -0x7fff_ffff_ffff_ffff_ffff_ffff_ffff_ffff <= s,
    ensures
        u == wrap(ty, s as int),
        u < ty.modulus(),
{
    let m = modulus_of(ty);
    if s >= 0 {
        ((s as u128) % m) as u64
    } else {
        let r: u128 = ((-s) as u128) % m;
        proof {
            // s == -(q * m + r)
            let q = ((-s) as int) / (m as int);
            vstd::arithmetic::div_mod::lemma_fundamental_div_mod(-s as int, m as int);
            if r == 0 {
                assert(s as int == (-q) * m + 0) by (nonlinear_arith)
                    requires
                        -s as int == m * q + r,
                        r == 0,
                ;
                vstd::arithmetic::div_mod::lemma_fundamental_div_mod_converse(s as int, m as int, -q, 0);
            } else {
                assert(s as int == (-q - 1) * m + (m - r)) by (nonlinear_arith)
                    requires
                        -s as int == m * q + r,
                ;
                vstd::arithmetic::div_mod::lemma_fundamental_div_mod_converse(
                    s as int,
                    m as int,
                    -q - 1,
                    m - r,
                );
            }
        }
        if r == 0 {
            0
        } else {
            (m - r) as u64
        }
    }
}

/// The quotient of `s` by the positive `p`, rounded down.
pub fn floor_div(s: i128, p: u128) -> (q: i128)
    requires
        1 <= p <= 0x1_0000_0000_0000_0000,
        -0x4000_0000_0000_0000_0000_0000_0000_0000 <= s <= 0x4000_0000_0000_0000_0000_0000_0000_0000,
    ensures
        q == (s as int) / (p as int),
        s >= 0 ==> 0 <= q <= s,
        s < 0 ==> s <= q < 0,
{
    if s >= 0 {
        let q: u128 = (s as u128) / p;
        proof {
            vstd::arithmetic::div_mod::lemma_fundamental_div_mod(s as int, p as int);
            assert(0 <= q <= s) by (nonlinear_arith)
                requires
                    s as int == p * q + (s as int) % (p as int),
                    0 <= (s as int) % (p as int) < p,
                    p >= 1,
                    s >= 0,
                    q >= 0,
            ;
        }
        q as i128
    } else {
        let n: u128 = (-s) as u128;
        let c: u128 = (n + (p - 1)) / p;
        proof {
            let x = (n + (p - 1)) as int;
            let r = x % (p as int);
            vstd::arithmetic::div_mod::lemma_fundamental_div_mod(x, p as int);
            assert(s as int == (-(c as int)) * p + (p - 1 - r)) by (nonlinear_arith)
                requires
                    x == p * c + r,
                    x == n + (p - 1),
                    n == -s,
            ;
            vstd::arithmetic::div_mod::lemma_fundamental_div_mod_converse(
                s as int,
                p as int,
                -(c as int),
                p - 1 - r,
            );
            assert(1 <= c <= n) by (nonlinear_arith)
                requires
                    x == p * c + r,
                    0 <= r < p,
                    x == n + (p - 1),
                    n >= 1,
                    p >= 1,
                    c >= 0,
            ;
        }
        -(c as i128)
    }
}

/// The quotient of `a` by `b` rounded toward zero.
pub fn trunc_div_of(a: i128, b: i128) -> (q: i128)
    requires
        b != 0,
        -0x8000_0000_0000_0000 <= a < 0x8000_0000_0000_0000,
        -0x8000_0000_0000_0000 <= b < 0x8000_0000_0000_0000,
    ensures
        q == trunc_div(a as int, b as int),
        -0x8000_0000_0000_0000 <= q <= 0x8000_0000_0000_0000,
{
    let na: u128 = if a >= 0 {
        a as u128
    } else {
        (-a) as u128
    };
    let nb: u128 = if b >= 0 {
        b as u128
    } else {
        (-b) as u128
    };
    let q: u128 = na / nb;
    proof {
        vstd::arithmetic::div_mod::lemma_fundamental_div_mod(na as int, nb as int);
        assert(0 <= q <= na) by (nonlinear_arith)
            requires
                na as int == nb * q + (na as int) % (nb as int),
                0 <= (na as int) % (nb as int),
                nb >= 1,
                q >= 0,
        ;
    }
    if (a >= 0) == (b > 0) {
        q as i128
    } else {
        -(q as i128)
    }
}

/// The product of two values, in full.
pub fn wide_mul(a: u64, b: u64) -> (p: u128)
    ensures
        p == a * b,
{
    proof {
        assert(a * b <= 0xffff_ffff_ffff_ffff * 0xffff_ffff_ffff_ffff) by (nonlinear_arith)
            requires
                0 <= a <= 0xffff_ffff_ffff_ffff,
                0 <= b <= 0xffff_ffff_ffff_ffff,
        ;
    }
    (a as u128) * (b as u128)
}

/// The product of two two's complement readings, in full.
pub fn wide_mul_signed(a: i128, b: i128) -> (p: i128)
    requires
        -0x8000_0000_0000_0000 <= a <= 0x8000_0000_0000_0000,
        -0x8000_0000_0000_0000 <= b <= 0x8000_0000_0000_0000,
    ensures
        p == a * b,
        -0x4000_0000_0000_0000_0000_0000_0000_0000 <= p <= 0x4000_0000_0000_0000_0000_0000_0000_0000,
{
    proof {
        assert(-0x4000_0000_0000_0000_0000_0000_0000_0000 <= a * b
            <= 0x4000_0000_0000_0000_0000_0000_0000_0000) by (nonlinear_arith)
            requires
                -0x8000_0000_0000_0000 <= a <= 0x8000_0000_0000_0000,
                -0x8000_0000_0000_0000 <= b <= 0x8000_0000_0000_0000,
        ;
    }
    a * b
}

/// The value `a` of `ty` rotated left by `k` bits, `k` at most the width:
/// the bits that a shift by `k` pushes out come back in at the bottom.
pub fn rotate_of(ty: Type, a: u64, k: u32) -> (r: u64)
    requires
        a < ty.modulus(),
        k <= ty.bits(),
    ensures
        r == wrap(ty, a * pow2(k as nat)) + (a as int) / (pow2((ty.bits() - k) as nat) as int),
        r < ty.modulus(),
{
    let m = modulus_of(ty);
    let bits = bits_of(ty);
    let p = pow2_of(k);
    let b = pow2_of(bits - k);
    let hi: u128 = (a as u128) / b;
    let lo: u128 = (a as u128) % b;
    proof {
        lemma2_to64();
        vstd::arithmetic::power2::lemma_pow2_adds(k as nat, (bits - k) as nat);
        assert(p * b == m);
        vstd::arithmetic::div_mod::lemma_fundamental_div_mod(a as int, b as int);
        assert(lo * p <= m - p && hi < p) by (nonlinear_arith)
            requires
                a as int == b * hi + lo,
                0 <= lo < b,
                p * b == m,
                a < m,
                p >= 1,
                hi >= 0,
        ;
        assert(a * p == hi * m + lo * p) by (nonlinear_arith)
            requires
                a as int == b * hi + lo,
                p * b == m,
        ;
        assert(hi * m == m * hi) by (nonlinear_arith);
        vstd::arithmetic::div_mod::lemma_fundamental_div_mod_converse(
            a * p,
            m as int,
            hi as int,
            lo * p,
        );
    }
    (lo * p + hi) as u64
}

/// Bitwise or of two values of `ty`.
fn or_of(ty: Type, a: u64, b: u64) -> (r: u64)
    requires
        a < ty.modulus(),
        b < ty.modulus(),
    ensures
        r == bits_or(a as int, b as int),
        r < ty.modulus(),
{
    proof {
        assert(a < 2 && b < 2 ==> a | b < 2) by (bit_vector);
        assert(a < 0x100 && b < 0x100 ==> a | b < 0x100) by (bit_vector);
        assert(a < 0x1_0000 && b < 0x1_0000 ==> a | b < 0x1_0000) by (bit_vector);
        assert(a < 0x1_0000_0000 && b < 0x1_0000_0000 ==> a | b < 0x1_0000_0000) by (bit_vector);
    }
    a | b
}

/// Bitwise exclusive or of two values of `ty`.
fn xor_of(ty: Type, a: u64, b: u64) -> (r: u64)
    requires
        a < ty.modulus(),
        b < ty.modulus(),
    ensures
        r == bits_xor(a as int, b as int),
        r < ty.modulus(),
{
    proof {
        assert(a < 2 && b < 2 ==> a ^ b < 2) by (bit_vector);
        assert(a < 0x100 && b < 0x100 ==> a ^ b < 0x100) by (bit_vector);
        assert(a < 0x1_0000 && b < 0x1_0000 ==> a ^ b < 0x1_0000) by (bit_vector);
        assert(a < 0x1_0000_0000 && b < 0x1_0000_0000 ==> a ^ b < 0x1_0000_0000) by (bit_vector);
    }
    a ^ b
}

/// Bitwise and of two values.
fn and_of(a: u64, b: u64) -> (r: u64)
    ensures
        r == bits_and(a as int, b as int),
        r <= a,
{
    proof {
        assert(a & b <= a) by (bit_vector);
    }
    a & b
}

/// What the two-operand operation `opcode` computes on the values `a` and
/// `b` of `ty`; `None` where it traps or `opcode` is no such operation.
/// The right operand of a shift or rotation may be any number.
pub fn eval_binary_of(opcode: Opcode, ty: Type, a: u64, b: u64) -> (r: Option<u64>)
    requires
        a < ty.modulus(),
        b < ty.modulus() || takes_shift_count(opcode),
    ensures
        match r {
            Some(v) => eval_binary(opcode, ty, a as int, b as int) == Some(v as int) && v < ty.modulus(),
            None => eval_binary(opcode, ty, a as int, b as int) is None,
        },
{
    let m = modulus_of(ty);
    let bits = bits_of(ty);
    match opcode {
        Opcode::Iadd => Some(wrap_of(ty, (a as i128) + (b as i128))),
        Opcode::Isub => Some(wrap_of(ty, (a as i128) - (b as i128))),
        Opcode::Imul => {
            let p = wide_mul(a, b);
            Some((p % m) as u64)
        },
        Opcode::Umulhi => {
            let p = wide_mul(a, b);
            proof {
                vstd::arithmetic::div_mod::lemma_fundamental_div_mod(p as int, m as int);
                let q = (p as int) / (m as int);
                assert(q < m) by (nonlinear_arith)
                    requires
                        p as int == m * q + (p as int) % (m as int),
                        0 <= (p as int) % (m as int),
                        p == a * b,
                        0 <= a < m,
                        0 <= b < m,
                ;
            }
            Some((p / m) as u64)
        },
        Opcode::Smulhi => {
            let p = wide_mul_signed(signed_of(ty, a), signed_of(ty, b));
            Some(wrap_of(ty, floor_div(p, m)))
        },
        Opcode::Udiv => {
            if b == 0 {
                None
            } else {
                proof {
                    vstd::arithmetic::div_mod::lemma_fundamental_div_mod(a as int, b as int);
                    assert(a / b <= a) by (nonlinear_arith)
                        requires
                            a as int == b * (a / b) + a % b,
                            0 <= a % b,
                            b >= 1,
                            a / b >= 0,
                    ;
                }
                Some(a / b)
            }
        },
        Opcode::Urem => {
            if b == 0 {
                None
            } else {
                Some(a % b)
            }
        },
        Opcode::Sdiv => {
            let sb = signed_of(ty, b);
            if b == 0 || (sb == -1 && 2 * (a as u128) == m) {
                None
            } else {
                Some(wrap_of(ty, trunc_div_of(signed_of(ty, a), sb)))
            }
        },
        Opcode::Srem => {
            if b == 0 {
                None
            } else {
                let sa = signed_of(ty, a);
                let sb = signed_of(ty, b);
                let q = trunc_div_of(sa, sb);
                let p = wide_mul_signed(sb, q);
                Some(wrap_of(ty, sa - p))
            }
        },
        Opcode::Band => Some(and_of(a, b)),
        Opcode::Bor => Some(or_of(ty, a, b)),
        Opcode::Bxor => Some(xor_of(ty, a, b)),
        Opcode::Ishl => {
            let k: u32 = (b % (bits as u64)) as u32;
            let p = pow2_of(k);
            proof {
                assert(a * p <= 0xffff_ffff_ffff_ffff * 0x1_0000_0000_0000_0000) by (nonlinear_arith)
                    requires
                        0 <= a <= 0xffff_ffff_ffff_ffff,
                        0 <= p <= 0x1_0000_0000_0000_0000,
                ;
            }
            Some((((a as u128) * p) % m) as u64)
        },
        Opcode::Ushr => {
            let k: u32 = (b % (bits as u64)) as u32;
            let p = pow2_of(k);
            proof {
                vstd::arithmetic::div_mod::lemma_fundamental_div_mod(a as int, p as int);
                assert((a as int) / (p as int) <= a) by (nonlinear_arith)
                    requires
                        a as int == p * ((a as int) / (p as int)) + (a as int) % (p as int),
                        0 <= (a as int) % (p as int),
                        p >= 1,
                        (a as int) / (p as int) >= 0,
                ;
            }
            Some(((a as u128) / p) as u64)
        },
        Opcode::Sshr => {
            let k: u32 = (b % (bits as u64)) as u32;
            let p = pow2_of(k);
            Some(wrap_of(ty, floor_div(signed_of(ty, a), p)))
        },
        Opcode::Rotl => {
            let k: u32 = (b % (bits as u64)) as u32;
            Some(rotate_of(ty, a, k))
        },
        Opcode::Rotr => {
            let k: u32 = (b % (bits as u64)) as u32;
            let r = rotate_of(ty, a, bits - k);
            proof {
                assert((ty.bits() - (bits - k)) as nat == k as nat);
            }
            Some(r)
        },
        _ => None,
    }
}

/// What the operation `opcode` with the immediate `imm` computes on the
/// value `a` of `ty`; `None` where it traps or `opcode` is no such
/// operation.
pub fn eval_binary_imm_of(opcode: Opcode, ty: Type, a: u64, imm: i64) -> (r: Option<u64>)
    requires
        a < ty.modulus(),
    ensures
        match r {
            Some(v) => eval_binary_imm(opcode, ty, a as int, imm as int) == Some(v as int) && v
                < ty.modulus(),
            None => eval_binary_imm(opcode, ty, a as int, imm as int) is None,
        },
{
    let c = wrap_of(ty, imm as i128);
    match opcode {
        Opcode::IaddImm => eval_binary_of(Opcode::Iadd, ty, a, c),
        Opcode::ImulImm => eval_binary_of(Opcode::Imul, ty, a, c),
        Opcode::IrsubImm => eval_binary_of(Opcode::Isub, ty, c, a),
        Opcode::UdivImm => eval_binary_of(Opcode::Udiv, ty, a, c),
        Opcode::UremImm => eval_binary_of(Opcode::Urem, ty, a, c),
        Opcode::SdivImm => eval_binary_of(Opcode::Sdiv, ty, a, c),
        Opcode::SremImm => eval_binary_of(Opcode::Srem, ty, a, c),
        Opcode::BandImm => eval_binary_of(Opcode::Band, ty, a, c),
        Opcode::BorImm => eval_binary_of(Opcode::Bor, ty, a, c),
        Opcode::BxorImm => eval_binary_of(Opcode::Bxor, ty, a, c),
        Opcode::IshlImm => eval_binary_of(Opcode::Ishl, ty, a, c),
        Opcode::UshrImm => eval_binary_of(Opcode::Ushr, ty, a, c),
        Opcode::SshrImm => eval_binary_of(Opcode::Sshr, ty, a, c),
        Opcode::RotlImm => eval_binary_of(Opcode::Rotl, ty, a, c),
        Opcode::RotrImm => eval_binary_of(Opcode::Rotr, ty, a, c),
        _ => None,
    }
}

/// Whether the condition `cond` holds of the values `a` and `b` of `ty`.
pub fn holds_of(cond: IntCC, ty: Type, a: u64, b: u64) -> (r: bool)
    ensures
        r == holds(cond, ty, a as int, b as int),
{
    match cond {
        IntCC::Equal => a == b,
        IntCC::NotEqual => a != b,
        IntCC::SignedLessThan => signed_of(ty, a) < signed_of(ty, b),
        IntCC::SignedGreaterThanOrEqual => signed_of(ty, a) >= signed_of(ty, b),
        IntCC::SignedGreaterThan => signed_of(ty, a) > signed_of(ty, b),
        IntCC::SignedLessThanOrEqual => signed_of(ty, a) <= signed_of(ty, b),
        IntCC::UnsignedLessThan => a < b,
        IntCC::UnsignedGreaterThanOrEqual => a >= b,
        IntCC::UnsignedGreaterThan => a > b,
        IntCC::UnsignedLessThanOrEqual => a <= b,
    }
}

/// The environment that the table `env` stands for: the value of each SSA
/// value is the entry at its index.
pub open spec fn env_of(env: Seq<u64>) -> spec_fn(Value) -> int {
    |v: Value| env[v.0 as int] as int
}

/// Whether the table `env` holds a value of its type for every value of
/// `f`.
pub open spec fn env_fits(f: FunctionView, env: Seq<u64>) -> bool {
    &&& env.len() == f.values.len()
    &&& forall|v: int| 0 <= v < env.len() ==> (#[trigger] env[v]) < f.values[v].ty.modulus()
}

/// The type of the result of `inst`, or the boolean type where it has
/// none.
pub open spec fn result_type(f: FunctionView, inst: Inst) -> Type {
    match f.results[inst.0 as int] {
        Some(r) => f.ty(r),
        None => Type::B1,
    }
}

/// What a table that fits says of one value.
pub proof fn lemma_env_fits(f: FunctionView, env: Seq<u64>, v: Value)
    requires
        env_fits(f, env),
        f.has_value(v),
    ensures
        env_of(env)(v) == env[v.0 as int],
        env[v.0 as int] < f.ty(v).modulus(),
{
}

impl Function {
    /// The value of `v` in the table `env`, with its type.
    fn operand(&self, env: &Vec<u64>, v: Value) -> (r: (u64, Type))
        requires
            env_fits(self@, env@),
            self@.has_value(v),
        ensures
            r.0 == env_of(env@)(v),
            r.1 == self@.ty(v),
            r.0 < r.1.modulus(),
    {
        proof {
            lemma_env_fits(self@, env@, v);
        }
        (env[v.0], self.value_type(v))
    }

    /// The type of the result of `inst`, or the boolean type where it has
    /// none.
    pub fn result_type(&self, inst: Inst) -> (ty: Type)
        requires
            self@.wf(),
            self@.has_inst(inst),
        ensures
            ty == result_type(self@, inst),
    {
        proof {
            self@.lemma_inst(inst);
        }
        match self.inst_result(inst) {
            Some(r) => self.value_type(r),
            None => Type::B1,
        }
    }

    /// What the instruction `inst` computes when the values of the
    /// function are those of the table `env`; `None` where it traps, is
    /// ill-typed, or computes no value.
    pub fn eval_inst(&self, inst: Inst, env: &Vec<u64>) -> (r: Option<u64>)
        requires
            self@.wf(),
            self@.has_inst(inst),
            env_fits(self@, env@),
        ensures
            match r {
                Some(x) => self@.eval(self@.data(inst), result_type(self@, inst), env_of(env@)) == Some(
                    x as int,
                ),
                None => self@.eval(self@.data(inst), result_type(self@, inst), env_of(env@)) is None,
            },
    {
        proof {
            self@.lemma_inst(inst);
        }
        let rt = self.result_type(inst);
        match self.inst_data(inst) {
            InstructionData::UnaryImm { opcode: Opcode::Iconst, imm } => Some(wrap_of(rt, imm as i128)),
            InstructionData::Unary { opcode: Opcode::Copy, arg } => {
                let (a, _) = self.operand(env, arg);
                Some(a)
            },
            InstructionData::Unary { opcode: Opcode::Bint, arg } => {
                let (a, _) = self.operand(env, arg);
                if a != 0 {
                    Some(1)
                } else {
                    Some(0)
                }
            },
            InstructionData::Unary { opcode: Opcode::Bnot, arg } => {
                let (a, ty) = self.operand(env, arg);
                Some(((modulus_of(ty) - 1) - (a as u128)) as u64)
            },
            InstructionData::Binary { opcode, lhs, rhs } => {
                let (a, tl) = self.operand(env, lhs);
                let (b, tr) = self.operand(env, rhs);
                if shift_opcode(opcode) {
                    match tr {
                        Type::B1 => None,
                        _ => eval_binary_of(opcode, tl, a, b),
                    }
                } else if same_type(tl, tr) {
                    eval_binary_of(opcode, tl, a, b)
                } else {
                    None
                }
            },
            InstructionData::BinaryImm { opcode, arg, imm } => {
                let (a, ty) = self.operand(env, arg);
                eval_binary_imm_of(opcode, ty, a, imm)
            },
            InstructionData::Ternary { opcode: Opcode::Select, ctrl, lhs, rhs } => {
                let (c, _) = self.operand(env, ctrl);
                let (a, _) = self.operand(env, lhs);
                let (b, _) = self.operand(env, rhs);
                if c != 0 {
                    Some(a)
                } else {
                    Some(b)
                }
            },
            InstructionData::IntCompare { cond, lhs, rhs, .. } => {
                let (a, tl) = self.operand(env, lhs);
                let (b, tr) = self.operand(env, rhs);
                if same_type(tl, tr) {
                    if holds_of(cond, tl, a, b) {
                        Some(1)
                    } else {
                        Some(0)
                    }
                } else {
                    None
                }
            },
            InstructionData::IntCompareImm { cond, arg, imm, .. } => {
                let (a, ty) = self.operand(env, arg);
                if holds_of(cond, ty, a, wrap_of(ty, imm as i128)) {
                    Some(1)
                } else {
                    Some(0)
                }
            },
            _ => None,
        }
    }

    /// Whether the jump, branch or conditional trap `inst` is taken when
    /// the values of the function are those of the table `env`; `None`
    /// for any other instruction.
    pub fn taken_of(&self, inst: Inst, env: &Vec<u64>) -> (r: Option<bool>)
        requires
            self@.wf(),
            self@.has_inst(inst),
            env_fits(self@, env@),
        ensures
            r == self@.taken(self@.data(inst), env_of(env@)),
    {
        proof {
            self@.lemma_inst(inst);
        }
        match self.inst_data(inst) {
            InstructionData::Jump { .. } => Some(true),
            InstructionData::Branch { opcode: Opcode::Brz, arg, .. } => {
                let (a, _) = self.operand(env, arg);
                Some(a == 0)
            },
            InstructionData::Branch { opcode: Opcode::Brnz, arg, .. } => {
                let (a, _) = self.operand(env, arg);
                Some(a != 0)
            },
            InstructionData::BranchIcmp { cond, lhs, rhs, .. } => {
                let (a, tl) = self.operand(env, lhs);
                let (b, _) = self.operand(env, rhs);
                Some(holds_of(cond, tl, a, b))
            },
            InstructionData::CondTrap { opcode: Opcode::Trapz, arg } => {
                let (a, _) = self.operand(env, arg);
                Some(a == 0)
            },
            InstructionData::CondTrap { opcode: Opcode::Trapnz, arg } => {
                let (a, _) = self.operand(env, arg);
                Some(a != 0)
            },
            _ => None,
        }
    }
}

/// Whether `opcode` is a shift or a rotation.
pub fn shift_opcode(opcode: Opcode) -> (r: bool)
    ensures
        r == takes_shift_count(opcode),
{
    match opcode {
        Opcode::Ishl | Opcode::Ushr | Opcode::Sshr | Opcode::Rotl | Opcode::Rotr => true,
        _ => false,
    }
}

/// Whether two types are the same.
pub fn same_type(a: Type, b: Type) -> (r: bool)
    ensures
        r == (a == b),
{
    match (a, b) {
        (Type::B1, Type::B1) => true,
        (Type::I8, Type::I8) => true,
        (Type::I16, Type::I16) => true,
        (Type::I32, Type::I32) => true,
        (Type::I64, Type::I64) => true,
        _ => false,
    }
}

} // verus!
