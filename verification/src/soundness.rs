//! The expansions compute what the divisions compute.
//!
//! For every environment that gives the new values what the new
//! instructions compute, the instruction that replaces a division or
//! remainder by a constant has the value of the division or remainder.

use crate::arith::{
    abs, lemma_div_add_multiple, lemma_div_div, lemma_div_range, lemma_pow2_le, signed_magic_high,
    signed_magic_result, trunc_div,
};
use crate::divrem::{
    apply_expansion, expansion, signed_expansion, spec_get_div_info, spec_signed_power_of_two,
    unsigned_expansion, DivRemByConstInfo, binary, binary_imm, by_one_expansion, copy_of,
    exponent_of, fresh, iconst, is_power_of_two, signed_magic_expansion, signed_magic_ops,
    signed_pow2_expansion, unsigned_magic_expansion, unsigned_magic_ops, unsigned_pow2_expansion,
    with_remainder, Expansion,
};
use crate::convert::{spec_u64_as_i64};
use crate::entities::{Block, Inst, Type, Value};
use crate::function::FunctionView;
use crate::instructions::{InstructionData, Opcode};
use crate::magic::{
    lemma_spec_magic_s32, lemma_spec_magic_s64, lemma_spec_magic_u32, lemma_spec_magic_u64,
    magic_quotient, signed_magic, spec_magic_s32, spec_magic_s64, spec_magic_u32, spec_magic_u64,
    unsigned_magic, unsigned_multiplier,
};
use crate::preopt::{spec_try_divrem_inserted, spec_try_divrem_rewrite};
use crate::semantics::{bits_and, eval_binary, eval_binary_imm, shift_count, signed, wrap};
use vstd::arithmetic::div_mod::{lemma_fundamental_div_mod, lemma_fundamental_div_mod_converse};
use vstd::arithmetic::power2::{
    lemma2_to64, lemma_pow2_adds, lemma_pow2_pos, lemma_pow2_unfold, pow2,
};
use vstd::prelude::*;

verus! {

/// Whether `env` gives each value that the expansion `x` defines a value
/// of `ty`, and the one that its instruction computes.
pub open spec fn computes(g: FunctionView, env: spec_fn(Value) -> int, ty: Type, x: Expansion, base: nat) -> bool {
    forall|j: int|
        0 <= j < x.ops.len() ==> {
            &&& g.ty(fresh(base, j)) == ty
            &&& 0 <= env(fresh(base, j)) < ty.modulus()
            &&& (g.eval(#[trigger] x.ops[j], ty, env) matches Some(v) ==> env(fresh(base, j)) == v)
        }
}

/// The modulus of a 32-bit or 64-bit type is two to the power of its
/// width.
pub proof fn lemma_modulus(ty: Type)
    requires
        ty == Type::I32 || ty == Type::I64,
    ensures
        ty.modulus() == pow2(ty.bits()),
        ty.modulus() == 2 * pow2((ty.bits() - 1) as nat),
        ty.bits() == 32 || ty.bits() == 64,
{
    lemma2_to64();
    vstd::arithmetic::power2::lemma2_to64_rest();
}

/// A shift count below the width of the type stands for itself.
pub proof fn lemma_shift_count(ty: Type, k: int)
    requires
        ty == Type::I32 || ty == Type::I64,
        0 <= k < ty.bits(),
    ensures
        shift_count(ty, wrap(ty, k)) == k,
{
}

/// What unsigned division by multiplication computes, step by step, on
/// numbers.
pub proof fn lemma_unsigned_magic_steps(m: int, bits: nat, n: int, d: int, mul_by: int, do_add: bool, s: int)
    requires
        m == pow2(bits),
        bits >= 1,
        0 <= n < m,
        1 <= d,
        unsigned_magic(m, bits as int, d, mul_by, do_add, s),
    ensures
        0 <= (n * mul_by) / m <= n,
        unsigned_steps(m, n, d, mul_by, do_add, s),
{
    let q1 = (n * mul_by) / m;
    let ts = pow2(s as nat) as int;
    let tp = m * ts;
    lemma_pow2_pos(s as nat);
    lemma_pow2_pos(bits);
    let mm = unsigned_multiplier(m, mul_by, do_add);
    assert(magic_quotient(n, mm, tp) == n / d);
    assert(0 <= n * mul_by <= n * m) by (nonlinear_arith)
        requires
            0 <= n,
            0 <= mul_by < m,
    ;
    lemma_fundamental_div_mod(n * mul_by, m);
    assert(0 <= q1 <= n) by (nonlinear_arith)
        requires
            n * mul_by == m * q1 + (n * mul_by) % m,
            0 <= (n * mul_by) % m < m,
            0 <= n * mul_by <= n * m,
            m > 0,
    ;
    if !do_add {
        lemma_div_div(n * mul_by, m, ts);
    } else {
        assert(n * mm == n * mul_by + n * m) by (nonlinear_arith)
            requires
                mm == m + mul_by,
        ;
        lemma_div_add_multiple(n * mul_by, n, m);
        assert((n * mm) / m == q1 + n);
        lemma_div_div(n * mm, m, ts);
        // the average of n and q1, taken without overflow
        lemma_div_add_multiple(n - q1, q1, 2);
        let t3 = (n - q1) / 2 + q1;
        assert(t3 == (n + q1) / 2);
        lemma_pow2_unfold(s as nat);
        let th = pow2((s - 1) as nat) as int;
        lemma_pow2_pos((s - 1) as nat);
        lemma_div_div(n + q1, 2, th);
        assert(2 * th == ts);
    }
}

/// From a quotient to the result: the copy is the quotient, and the
/// dividend minus the quotient times the divisor is the remainder.
pub proof fn lemma_with_remainder_sound(
    g: FunctionView,
    env: spec_fn(Value) -> int,
    ty: Type,
    ops: Seq<InstructionData>,
    qf: Value,
    n: Value,
    d_imm: i64,
    is_rem: bool,
    base: nat,
    rt: Type,
    q: int,
    r: int,
)
    requires
        ty == Type::I32 || ty == Type::I64,
        g.ty(n) == ty,
        g.ty(qf) == ty,
        0 <= env(n) < ty.modulus(),
        computes(g, env, ty, with_remainder(ops, qf, n, d_imm, is_rem, base), base),
        (env(n) - (wrap(ty, d_imm as int) * q + r)) % ty.modulus() == 0,
        env(qf) == wrap(ty, q),
    ensures
        g.eval(with_remainder(ops, qf, n, d_imm, is_rem, base).last, rt, env) == Some(
            if is_rem {
                wrap(ty, r)
            } else {
                wrap(ty, q)
            },
        ),
{
    let x = with_remainder(ops, qf, n, d_imm, is_rem, base);
    let m = ty.modulus();
    if is_rem {
        let j = ops.len() as int;
        let tt = fresh(base, j);
        assert(x.ops[j] == binary_imm(Opcode::ImulImm, qf, d_imm as int));
        let dv = wrap(ty, d_imm as int);
        assert(g.eval(x.ops[j], ty, env) == Some(wrap(ty, env(qf) * dv)));
        assert(env(tt) == wrap(ty, env(qf) * dv));
        assert(g.eval(x.last, rt, env) == Some(wrap(ty, env(n) - env(tt))));
        // all of it is congruent to n - d * q modulo m
        lemma_wrap_mul(m, wrap(ty, q), dv, q, dv);
        assert(q * dv == dv * q) by (nonlinear_arith);
        lemma_wrap_sub(m, env(n), env(tt), dv * q + r, dv * q);
    } else {
    }
}

/// Reducing a product of two numbers is reducing the product of any two
/// numbers congruent to them.
pub proof fn lemma_wrap_mul(m: int, a: int, b: int, a2: int, b2: int)
    requires
        m > 0,
        (a - a2) % m == 0,
        (b - b2) % m == 0,
    ensures
        (a * b) % m == (a2 * b2) % m,
{
    let ka = (a - a2) / m;
    let kb = (b - b2) / m;
    lemma_fundamental_div_mod(a - a2, m);
    lemma_fundamental_div_mod(b - b2, m);
    assert(a * b == a2 * b + (ka * b) * m) by (nonlinear_arith)
        requires
            a - a2 == m * ka,
    ;
    lemma_mod_add_multiple(a2 * b, ka * b, m);
    assert(a2 * b == a2 * b2 + (a2 * kb) * m) by (nonlinear_arith)
        requires
            b - b2 == m * kb,
    ;
    lemma_mod_add_multiple(a2 * b2, a2 * kb, m);
}

/// Reducing a difference of two numbers is reducing the difference of any
/// two numbers congruent to them.
pub proof fn lemma_wrap_sub(m: int, a: int, b: int, a2: int, b2: int)
    requires
        m > 0,
        (a - a2) % m == 0,
        (b % m) == (b2 % m),
    ensures
        (a - b) % m == (a2 - b2) % m,
{
    let ka = (a - a2) / m;
    lemma_fundamental_div_mod(a - a2, m);
    lemma_fundamental_div_mod(b, m);
    lemma_fundamental_div_mod(b2, m);
    let kb = b / m - b2 / m;
    assert(a - b == (a2 - b2) + (ka - kb) * m) by (nonlinear_arith)
        requires
            a - a2 == m * ka,
            b == m * (b / m) + b % m,
            b2 == m * (b2 / m) + b2 % m,
            b % m == b2 % m,
            kb == b / m - b2 / m,
    ;
    lemma_mod_add_multiple(a2 - b2, ka - kb, m);
}

/// Adding a multiple of the modulus changes no remainder.
pub proof fn lemma_mod_add_multiple(x: int, k: int, m: int)
    requires
        m > 0,
    ensures
        (x + k * m) % m == x % m,
{
    lemma_fundamental_div_mod(x, m);
    let q = x / m;
    let r = x % m;
    assert(x + k * m == (q + k) * m + r) by (nonlinear_arith)
        requires
            x == m * q + r,
    ;
    lemma_fundamental_div_mod_converse(x + k * m, m, q + k, r);
}

/// What `env` holds for the `j`-th value of an expansion that a
/// two-operand instruction defines.
pub proof fn lemma_step_binary(
    g: FunctionView,
    env: spec_fn(Value) -> int,
    ty: Type,
    x: Expansion,
    base: nat,
    j: int,
    opcode: Opcode,
    lhs: Value,
    rhs: Value,
)
    requires
        computes(g, env, ty, x, base),
        0 <= j < x.ops.len(),
        x.ops[j] == binary(opcode, lhs, rhs),
        g.ty(lhs) == ty,
        g.ty(rhs) == ty,
        !crate::semantics::takes_shift_count(opcode),
        eval_binary(opcode, ty, env(lhs), env(rhs)) is Some,
    ensures
        env(fresh(base, j)) == eval_binary(opcode, ty, env(lhs), env(rhs)).unwrap(),
        g.ty(fresh(base, j)) == ty,
        0 <= env(fresh(base, j)) < ty.modulus(),
{
    assert(g.eval(x.ops[j], ty, env) == eval_binary(opcode, ty, env(lhs), env(rhs)));
}

/// What `env` holds for the `j`-th value of an expansion that an
/// instruction with an immediate defines.
pub proof fn lemma_step_imm(
    g: FunctionView,
    env: spec_fn(Value) -> int,
    ty: Type,
    x: Expansion,
    base: nat,
    j: int,
    opcode: Opcode,
    arg: Value,
    imm: int,
)
    requires
        computes(g, env, ty, x, base),
        0 <= j < x.ops.len(),
        x.ops[j] == binary_imm(opcode, arg, imm),
        g.ty(arg) == ty,
        eval_binary_imm(opcode, ty, env(arg), (imm as i64) as int) is Some,
    ensures
        env(fresh(base, j)) == eval_binary_imm(opcode, ty, env(arg), (imm as i64) as int).unwrap(),
        g.ty(fresh(base, j)) == ty,
        0 <= env(fresh(base, j)) < ty.modulus(),
{
    assert(g.eval(x.ops[j], ty, env) == eval_binary_imm(opcode, ty, env(arg), (imm as i64) as int));
}

/// What `env` holds for the `j`-th value of an expansion that a constant
/// defines.
pub proof fn lemma_step_iconst(
    g: FunctionView,
    env: spec_fn(Value) -> int,
    ty: Type,
    x: Expansion,
    base: nat,
    j: int,
    imm: i64,
)
    requires
        computes(g, env, ty, x, base),
        0 <= j < x.ops.len(),
        x.ops[j] == iconst(imm),
    ensures
        env(fresh(base, j)) == wrap(ty, imm as int),
        g.ty(fresh(base, j)) == ty,
        0 <= env(fresh(base, j)) < ty.modulus(),
{
    assert(g.eval(x.ops[j], ty, env) == Some(wrap(ty, imm as int)));
}

/// A logical shift right by an immediate below the width divides by the
/// power of two.
pub proof fn lemma_ushr_imm(ty: Type, a: int, k: int)
    requires
        ty == Type::I32 || ty == Type::I64,
        0 <= k < ty.bits(),
    ensures
        eval_binary_imm(Opcode::UshrImm, ty, a, (k as i64) as int) == Some(a / (pow2(k as nat) as int)),
{
    lemma_shift_count(ty, k);
}

/// What the steps of unsigned division by multiplication compute.
pub open spec fn unsigned_steps(m: int, n: int, d: int, mul_by: int, do_add: bool, s: int) -> bool {
    let q1 = (n * mul_by) / m;
    let t3 = (n - q1) / 2 + q1;
    &&& 0 <= q1 <= n
    &&& !do_add ==> q1 / (pow2(s as nat) as int) == n / d
    &&& do_add ==> 0 <= t3 <= n && t3 / (pow2((s - 1) as nat) as int) == n / d
}

/// The average of the dividend and the high word, taken without
/// overflow, which unsigned division by multiplication shifts last when
/// its multiplier has one bit more than the word.
pub proof fn lemma_unsigned_magic_average(
    g: FunctionView,
    env: spec_fn(Value) -> int,
    ty: Type,
    n: Value,
    base: nat,
    x: Expansion,
)
    requires
        ty == Type::I32 || ty == Type::I64,
        g.ty(n) == ty,
        g.ty(fresh(base, 1)) == ty,
        0 <= env(fresh(base, 1)) <= env(n) < ty.modulus(),
        computes(g, env, ty, x, base),
        x.ops.len() >= 5,
        x.ops[2] == binary(Opcode::Isub, n, fresh(base, 1)),
        x.ops[3] == binary_imm(Opcode::UshrImm, fresh(base, 2), 1),
        x.ops[4] == binary(Opcode::Iadd, fresh(base, 3), fresh(base, 1)),
    ensures
        g.ty(fresh(base, 4)) == ty,
        env(fresh(base, 4)) == (env(n) - env(fresh(base, 1))) / 2 + env(fresh(base, 1)),
{
    let nv = env(n);
    let q1 = fresh(base, 1);
    let t1 = fresh(base, 2);
    let t2 = fresh(base, 3);
    lemma_step_binary(g, env, ty, x, base, 2, Opcode::Isub, n, q1);
    assert(env(t1) == nv - env(q1)) by {
        if ty == Type::I32 {
        } else {
        }
    }
    lemma_ushr_imm(ty, env(t1), 1);
    lemma_step_imm(g, env, ty, x, base, 3, Opcode::UshrImm, t1, 1);
    assert(pow2(1) == 2) by {
        lemma2_to64();
    }
    assert(env(t2) == env(t1) / 2);
    lemma_step_binary(g, env, ty, x, base, 4, Opcode::Iadd, t2, q1);
    assert(env(fresh(base, 4)) == env(t2) + env(q1)) by {
        if ty == Type::I32 {
        } else {
        }
    }
}

/// The quotient `qf` that unsigned division by multiplication leaves.
pub proof fn lemma_unsigned_magic_quotient(
    g: FunctionView,
    env: spec_fn(Value) -> int,
    ty: Type,
    n: Value,
    d: int,
    mul_imm: i64,
    do_add: bool,
    shift_by: int,
    base: nat,
    x: Expansion,
)
    requires
        ty == Type::I32 || ty == Type::I64,
        n.0 < base,
        g.ty(n) == ty,
        0 <= env(n) < ty.modulus(),
        0 <= shift_by <= ty.bits(),
        !do_add ==> shift_by < ty.bits(),
        do_add ==> shift_by >= 1,
        unsigned_steps(ty.modulus(), env(n), d, wrap(ty, mul_imm as int), do_add, shift_by),
        computes(g, env, ty, x, base),
        unsigned_magic_ops(n, mul_imm, do_add, shift_by, base).len() <= x.ops.len(),
        forall|j: int|
            0 <= j < unsigned_magic_ops(n, mul_imm, do_add, shift_by, base).len() ==> x.ops[j]
                == unsigned_magic_ops(n, mul_imm, do_add, shift_by, base)[j],
    ensures
        unsigned_magic_ops(n, mul_imm, do_add, shift_by, base).len() >= 2,
        env(fresh(base, unsigned_magic_ops(n, mul_imm, do_add, shift_by, base).len() - 1)) == env(n) / d,
        g.ty(fresh(base, unsigned_magic_ops(n, mul_imm, do_add, shift_by, base).len() - 1)) == ty,
{
    let ops = unsigned_magic_ops(n, mul_imm, do_add, shift_by, base);
    let m = ty.modulus();
    let nv = env(n);
    let mul_by = wrap(ty, mul_imm as int);
    let q0 = fresh(base, 0);
    let q1 = fresh(base, 1);
    assert(ops[0] == iconst(mul_imm));
    lemma_step_iconst(g, env, ty, x, base, 0, mul_imm);
    assert(ops[1] == binary(Opcode::Umulhi, n, q0));
    lemma_step_binary(g, env, ty, x, base, 1, Opcode::Umulhi, n, q0);
    assert(env(q1) == (nv * mul_by) / m);
    if do_add {
        let t3 = fresh(base, 4);
        assert(ops.len() == 6);
        assert(ops[2] == binary(Opcode::Isub, n, q1));
        assert(ops[3] == binary_imm(Opcode::UshrImm, fresh(base, 2), 1));
        assert(ops[4] == binary(Opcode::Iadd, fresh(base, 3), q1));
        assert(ops[5] == binary_imm(Opcode::UshrImm, t3, shift_by - 1));
        lemma_unsigned_magic_average(g, env, ty, n, base, x);
        lemma_ushr_imm(ty, env(t3), shift_by - 1);
        lemma_step_imm(g, env, ty, x, base, 5, Opcode::UshrImm, t3, shift_by - 1);
        assert(env(fresh(base, 5)) == env(t3) / (pow2((shift_by - 1) as nat) as int));
    } else if shift_by > 0 {
        assert(ops.len() == 3);
        assert(ops[2] == binary_imm(Opcode::UshrImm, q1, shift_by));
        lemma_ushr_imm(ty, env(q1), shift_by);
        lemma_step_imm(g, env, ty, x, base, 2, Opcode::UshrImm, q1, shift_by);
        assert(env(fresh(base, 2)) == env(q1) / (pow2(shift_by as nat) as int));
    } else {
        assert(ops.len() == 2);
        assert(pow2(0) == 1) by {
            lemma2_to64();
        }
        assert(env(q1) / 1 == env(q1));
    }
}

/// Unsigned division by multiplication gives the quotient, and the
/// remainder that is computed from it.
pub proof fn lemma_unsigned_magic_sound(
    g: FunctionView,
    env: spec_fn(Value) -> int,
    ty: Type,
    n: Value,
    d: int,
    d_imm: i64,
    mul_imm: i64,
    do_add: bool,
    shift_by: int,
    is_rem: bool,
    base: nat,
    rt: Type,
)
    requires
        ty == Type::I32 || ty == Type::I64,
        n.0 < base,
        g.ty(n) == ty,
        0 <= env(n) < ty.modulus(),
        1 <= d,
        wrap(ty, d_imm as int) == d,
        unsigned_magic(ty.modulus(), ty.bits() as int, d, wrap(ty, mul_imm as int), do_add, shift_by),
        computes(
            g,
            env,
            ty,
            unsigned_magic_expansion(n, d_imm, mul_imm, do_add, shift_by, is_rem, base),
            base,
        ),
    ensures
        g.eval(
            unsigned_magic_expansion(n, d_imm, mul_imm, do_add, shift_by, is_rem, base).last,
            rt,
            env,
        ) == Some(
            if is_rem {
                env(n) % d
            } else {
                env(n) / d
            },
        ),
{
    let x = unsigned_magic_expansion(n, d_imm, mul_imm, do_add, shift_by, is_rem, base);
    let ops = unsigned_magic_ops(n, mul_imm, do_add, shift_by, base);
    let m = ty.modulus();
    let nv = env(n);
    let mul_by = wrap(ty, mul_imm as int);
    lemma_modulus(ty);
    lemma_unsigned_magic_steps(m, ty.bits(), nv, d, mul_by, do_add, shift_by);
    let qf = fresh(base, ops.len() - 1);
    assert forall|j: int| 0 <= j < ops.len() implies x.ops[j] == ops[j] by {}
    lemma_unsigned_magic_quotient(g, env, ty, n, d, mul_imm, do_add, shift_by, base, x);
    let q = nv / d;
    let r = nv % d;
    lemma_fundamental_div_mod(nv, d);
    assert(0 <= q <= nv) by (nonlinear_arith)
        requires
            nv == d * q + r,
            0 <= r < d,
            d >= 1,
            nv >= 0,
    ;
    vstd::arithmetic::div_mod::lemma_small_mod(r as nat, m as nat);
    vstd::arithmetic::div_mod::lemma_small_mod(q as nat, m as nat);
    assert((nv - (d * q + r)) % m == 0) by {
        lemma_mod_add_multiple(0, 0, m);
    }
    lemma_with_remainder_sound(g, env, ty, ops, qf, n, d_imm, is_rem, base, rt, q, r);
}

/// Unsigned division by a power of two is a shift, and the remainder a
/// mask.
pub proof fn lemma_unsigned_pow2_sound(
    g: FunctionView,
    env: spec_fn(Value) -> int,
    ty: Type,
    n: Value,
    d: int,
    is_rem: bool,
    rt: Type,
)
    requires
        ty == Type::I32 || ty == Type::I64,
        g.ty(n) == ty,
        0 <= env(n) < ty.modulus(),
        2 <= d < ty.modulus(),
        is_power_of_two(d),
    ensures
        g.eval(unsigned_pow2_expansion(n, d, is_rem).last, rt, env) == Some(
            if is_rem {
                env(n) % d
            } else {
                env(n) / d
            },
        ),
{
    let k = exponent_of(d);
    let nv = env(n);
    lemma_modulus(ty);
    assert(pow2(k) == d);
    if k >= ty.bits() {
        lemma_pow2_le(ty.bits(), k);
    }
    if is_rem {
        lemma_pow2_le(k, 63);
        vstd::arithmetic::power2::lemma2_to64_rest();
        assert(k <= 63);
        assert(d <= 0x8000_0000_0000_0000);
        assert(((d - 1) as i64) as int == d - 1);
        vstd::arithmetic::div_mod::lemma_small_mod((d - 1) as nat, ty.modulus() as nat);
        assert(wrap(ty, ((d - 1) as i64) as int) == d - 1);
        let x = nv as u64;
        vstd::bits::lemma_u64_low_bits_mask_is_mod(x, k);
        assert(vstd::bits::low_bits_mask(k) == d - 1);
        assert((x & ((d - 1) as u64)) == x % (d as u64));
    } else {
        lemma_shift_count(ty, k as int);
    }
}

/// Division by one is a copy, and the remainder by one is zero.
pub proof fn lemma_by_one_sound(g: FunctionView, env: spec_fn(Value) -> int, ty: Type, n: Value, is_rem: bool, rt: Type)
    requires
        0 <= env(n),
        rt.modulus() > 0,
    ensures
        g.eval(by_one_expansion(n, is_rem).last, rt, env) == Some(
            if is_rem {
                0
            } else {
                env(n)
            },
        ),
{
}

/// The two's complement reading of a reduced number that lies in the
/// signed range is the number.
pub proof fn lemma_signed_wrap(ty: Type, x: int)
    requires
        ty == Type::I32 || ty == Type::I64,
        -ty.modulus() <= 2 * x < ty.modulus(),
    ensures
        signed(ty, wrap(ty, x)) == x,
        0 <= wrap(ty, x) < ty.modulus(),
        x >= 0 ==> wrap(ty, x) == x,
        x < 0 ==> wrap(ty, x) == x + ty.modulus(),
{
    if ty == Type::I32 {
        assert(wrap(ty, x) == x % 0x1_0000_0000);
    } else {
        assert(wrap(ty, x) == x % 0x1_0000_0000_0000_0000);
    }
}

/// A value is the reduction of its two's complement reading, which lies
/// in the signed range.
pub proof fn lemma_wrap_signed(ty: Type, u: int)
    requires
        ty == Type::I32 || ty == Type::I64,
        0 <= u < ty.modulus(),
    ensures
        wrap(ty, signed(ty, u)) == u,
        -ty.modulus() <= 2 * signed(ty, u) < ty.modulus(),
        (u - signed(ty, u)) % ty.modulus() == 0,
{
    if ty == Type::I32 {
        assert(wrap(ty, signed(ty, u)) == signed(ty, u) % 0x1_0000_0000);
        assert((u - signed(ty, u)) % 0x1_0000_0000 == 0);
    } else {
        assert(wrap(ty, signed(ty, u)) == signed(ty, u) % 0x1_0000_0000_0000_0000);
        assert((u - signed(ty, u)) % 0x1_0000_0000_0000_0000 == 0);
    }
}

/// What the steps of signed division by a power of two compute.
pub open spec fn signed_pow2_steps(m: int, bits: nat, k: nat, sn: int) -> bool {
    let p = pow2(k) as int;
    let s1 = sn / (pow2((k - 1) as nat) as int);
    let t2 = (s1 % m) / (pow2((bits - k) as nat) as int);
    &&& -m <= 2 * s1 < m
    &&& t2 == if sn < 0 {
        p - 1
    } else {
        0
    }
    &&& -m <= 2 * (sn + t2) < m
    &&& (sn + t2) / p == trunc_div(sn, p)
    &&& -m <= 4 * trunc_div(sn, p) <= m
    &&& 2 <= p
    &&& 2 * p <= m
}

/// Signed division by a power of two, step by step, on numbers.
pub proof fn lemma_signed_pow2_steps(m: int, bits: nat, k: nat, sn: int)
    requires
        m == pow2(bits),
        1 <= k < bits,
        -m <= 2 * sn < m,
    ensures
        signed_pow2_steps(m, bits, k, sn),
{
    let p = pow2(k) as int;
    let a = pow2((k - 1) as nat) as int;
    let b = pow2((bits - k) as nat) as int;
    let hb = pow2((bits - 1) as nat) as int;
    lemma_pow2_pos((k - 1) as nat);
    lemma_pow2_pos((bits - k) as nat);
    lemma_pow2_unfold(k);
    lemma_pow2_unfold(bits);
    lemma_pow2_adds((k - 1) as nat, (bits - k) as nat);
    lemma_pow2_adds(k, (bits - k) as nat);
    lemma_pow2_le(1, (bits - k) as nat);
    lemma2_to64();
    assert(a * b == hb && p * b == m && p == 2 * a && m == 2 * hb && b >= 2);
    let s1 = sn / a;
    lemma_fundamental_div_mod(sn, a);
    assert(-b <= s1 < b) by (nonlinear_arith)
        requires
            sn == a * s1 + sn % a,
            0 <= sn % a < a,
            -(a * b) <= sn < a * b,
            a > 0,
    ;
    assert(2 * b <= m) by (nonlinear_arith)
        requires
            p * b == m,
            p >= 2,
            b >= 1,
    ;
    assert(2 * p <= m) by (nonlinear_arith)
        requires
            p * b == m,
            p >= 2,
            b >= 2,
    ;
    let t1u = s1 % m;
    let t2 = t1u / b;
    if sn >= 0 {
        assert(s1 >= 0) by (nonlinear_arith)
            requires
                sn == a * s1 + sn % a,
                0 <= sn % a < a,
                sn >= 0,
                a > 0,
        ;
        vstd::arithmetic::div_mod::lemma_small_mod(s1 as nat, m as nat);
        vstd::arithmetic::div_mod::lemma_basic_div(s1, b);
        assert(t2 == 0);
        lemma_fundamental_div_mod(sn, p);
        assert(2 * (sn / p) <= sn) by (nonlinear_arith)
            requires
                sn == p * (sn / p) + sn % p,
                0 <= sn % p,
                p >= 2,
                sn >= 0,
        ;
        assert(sn / p >= 0) by (nonlinear_arith)
            requires
                sn == p * (sn / p) + sn % p,
                0 <= sn % p < p,
                p >= 2,
                sn >= 0,
        ;
        assert(trunc_div(sn, p) == sn / p);
        assert(2 * p <= m);
        assert(signed_pow2_steps(m, bits, k, sn));
    } else {
        assert(s1 <= -1) by (nonlinear_arith)
            requires
                sn == a * s1 + sn % a,
                0 <= sn % a < a,
                sn < 0,
                a > 0,
        ;
        // the word that holds s1 has its top k bits set
        lemma_fundamental_div_mod_converse(s1, m, -1, s1 + m);
        assert(t1u == s1 + m);
        assert(t1u == (p - 1) * b + (b + s1)) by (nonlinear_arith)
            requires
                t1u == s1 + m,
                p * b == m,
        ;
        assert((p - 1) * b == b * (p - 1)) by (nonlinear_arith);
        lemma_fundamental_div_mod_converse(t1u, b, p - 1, b + s1);
        assert(t2 == p - 1);
        // rounding up the quotient of a negative dividend
        let nn = -sn;
        let qa = nn / p;
        let rb = nn % p;
        lemma_fundamental_div_mod(nn, p);
        assert(sn + p - 1 == (-qa) * p + (p - 1 - rb)) by (nonlinear_arith)
            requires
                nn == p * qa + rb,
                nn == -sn,
        ;
        lemma_fundamental_div_mod_converse(sn + p - 1, p, -qa, p - 1 - rb);
        assert((sn + t2) / p == -qa);
        assert(0 <= 2 * qa <= nn) by (nonlinear_arith)
            requires
                nn == p * qa + rb,
                0 <= rb < p,
                p >= 2,
                nn >= 0,
        ;
        assert(trunc_div(sn, p) == -qa);
        assert(2 * p <= m);
        assert(-m <= 2 * s1 < m);
        assert(-m <= 2 * (sn + t2) < m);
        assert(signed_pow2_steps(m, bits, k, sn));
    }
}

/// Masking with the modulus minus a power of two clears the bits below
/// the power.
pub proof fn lemma_mask_off_low(ty: Type, x: int, k: nat)
    requires
        ty == Type::I32 || ty == Type::I64,
        0 <= x < ty.modulus(),
        1 <= k < ty.bits(),
    ensures
        bits_and(x, ty.modulus() - pow2(k)) == x - x % (pow2(k) as int),
{
    let xu = x as u64;
    let kk = k as u64;
    lemma2_to64();
    vstd::arithmetic::power2::lemma2_to64_rest();
    lemma_pow2_le(k, 63);
    vstd::bits::lemma_u64_shl_is_mul(1u64, kk);
    let p = 1u64 << kk;
    assert(p == pow2(k));
    vstd::bits::lemma_u64_low_bits_mask_is_mod(xu, k);
    assert(vstd::bits::low_bits_mask(k) == p - 1);
    assert(xu & ((p - 1) as u64) == xu % p);
    if ty == Type::I32 {
        lemma_pow2_le(k, 31);
        let mask = (0x1_0000_0000u64 - p) as u64;
        assert(xu & mask == xu - (xu & ((p - 1) as u64))) by (bit_vector)
            requires
                p == 1u64 << kk,
                kk < 32,
                xu < 0x1_0000_0000u64,
                mask == (0x1_0000_0000u64 - p) as u64,
        ;
    } else {
        let mask = (0x1_0000_0000_0000_0000 - p) as u64;
        assert(mask == !((p - 1) as u64)) by (bit_vector)
            requires
                p == 1u64 << kk,
                kk < 64,
                mask == (0x1_0000_0000_0000_0000 - p) as u64,
        ;
        assert(xu & !((p - 1) as u64) == xu - (xu & ((p - 1) as u64))) by (bit_vector)
            requires
                p == 1u64 << kk,
                kk < 64,
        ;
    }
}

/// An arithmetic shift right by an immediate below the width divides the
/// two's complement reading by the power of two, rounding down.
pub proof fn lemma_sshr_imm(ty: Type, a: int, k: int)
    requires
        ty == Type::I32 || ty == Type::I64,
        0 <= k < ty.bits(),
    ensures
        eval_binary_imm(Opcode::SshrImm, ty, a, (k as i64) as int) == Some(
            wrap(ty, signed(ty, a) / (pow2(k as nat) as int)),
        ),
{
    lemma_shift_count(ty, k);
}

/// The biased dividend `t3` of signed division by a power of two, which
/// the last step shifts or masks.
pub proof fn lemma_signed_pow2_biased(
    g: FunctionView,
    env: spec_fn(Value) -> int,
    ty: Type,
    n: Value,
    k: int,
    base: nat,
    x: Expansion,
)
    requires
        ty == Type::I32 || ty == Type::I64,
        n.0 < base,
        g.ty(n) == ty,
        0 <= env(n) < ty.modulus(),
        1 <= k < ty.bits(),
        signed_pow2_steps(ty.modulus(), ty.bits(), k as nat, signed(ty, env(n))),
        computes(g, env, ty, x, base),
        x.ops.len() >= (if k == 1 {
            2int
        } else {
            3int
        }),
        k != 1 ==> x.ops[0] == binary_imm(Opcode::SshrImm, n, k - 1),
        x.ops[if k == 1 {
            0int
        } else {
            1int
        }] == binary_imm(
            Opcode::UshrImm,
            if k == 1 {
                n
            } else {
                fresh(base, 0)
            },
            ty.bits() - k,
        ),
        x.ops[if k == 1 {
            1int
        } else {
            2int
        }] == binary(
            Opcode::Iadd,
            n,
            fresh(
                base,
                if k == 1 {
                    0int
                } else {
                    1int
                },
            ),
        ),
    ensures
        ({
            let j = if k == 1 {
                0int
            } else {
                1int
            };
            let sn = signed(ty, env(n));
            let t3 = fresh(base, j + 1);
            &&& g.ty(t3) == ty
            &&& 0 <= env(t3) < ty.modulus()
            &&& signed(ty, env(t3)) == sn + (if sn < 0 {
                pow2(k as nat) - 1
            } else {
                0
            })
        }),
{
    let m = ty.modulus();
    let nv = env(n);
    let sn = signed(ty, nv);
    let j = if k == 1 {
        0int
    } else {
        1int
    };
    let s1 = sn / (pow2((k - 1) as nat) as int);
    lemma_wrap_signed(ty, nv);
    lemma2_to64();
    let t1 = if k == 1 {
        n
    } else {
        fresh(base, 0)
    };
    if k == 1 {
        assert((k - 1) as nat == 0nat);
        assert(pow2(0) == 1);
        assert(s1 == sn / 1);
        assert(s1 == sn);
        assert(env(t1) == wrap(ty, s1));
    } else {
        lemma_sshr_imm(ty, nv, k - 1);
        lemma_step_imm(g, env, ty, x, base, 0, Opcode::SshrImm, n, k - 1);
        assert(env(t1) == wrap(ty, s1));
    }
    let t2 = fresh(base, j);
    lemma_ushr_imm(ty, env(t1), ty.bits() - k);
    lemma_step_imm(g, env, ty, x, base, j, Opcode::UshrImm, t1, ty.bits() - k);
    let tv = if sn < 0 {
        pow2(k as nat) - 1
    } else {
        0
    };
    assert(env(t2) == tv);
    let t3 = fresh(base, j + 1);
    lemma_step_binary(g, env, ty, x, base, j + 1, Opcode::Iadd, n, t2);
    assert(env(t3) == wrap(ty, nv + tv));
    lemma_signed_wrap(ty, sn + tv);
    assert(wrap(ty, nv + tv) == wrap(ty, sn + tv)) by {
        if ty == Type::I32 {
        } else {
        }
    }
}

/// The product of a divisor that is a power of two, or the negation of
/// one, with the quotient rounded toward zero.
pub proof fn lemma_trunc_div_neg(sn: int, p: int, d: int)
    requires
        p >= 1,
        d == p || d == -p,
    ensures
        trunc_div(sn, d) == (if d > 0 {
            trunc_div(sn, p)
        } else {
            -trunc_div(sn, p)
        }),
        d * trunc_div(sn, d) == p * trunc_div(sn, p),
{
    let q = trunc_div(sn, p);
    if d < 0 {
        assert(trunc_div(sn, d) == -q);
        assert(d * (-q) == p * q) by (nonlinear_arith)
            requires
                d == -p,
        ;
    }
}

/// What is left of a number reduced modulo `p * b` when its remainder by
/// `p` is taken off is congruent to `p` times its quotient by `p`.
pub proof fn lemma_masked_congruent(m: int, p: int, b: int, t: int, s: int)
    requires
        p > 0,
        b > 0,
        m == p * b,
        t == s % m,
    ensures
        (t - t % p) % m == (p * (s / p)) % m,
{
    vstd::arithmetic::div_mod::lemma_mod_mod(s, p, b);
    assert(m > 0) by (nonlinear_arith)
        requires
            m == p * b,
            p > 0,
            b > 0,
    ;
    lemma_fundamental_div_mod(s, p);
    lemma_fundamental_div_mod(s, m);
    let c = s / m;
    let q = s / p;
    assert(t - t % p == p * q + (-c) * m) by (nonlinear_arith)
        requires
            t == s % m,
            t % p == s % p,
            s == p * q + s % p,
            s == m * c + s % m,
    ;
    lemma_mod_add_multiple(p * q, -c, m);
}

/// The last step of the remainder by a power of two: masking the biased
/// dividend and taking it off the dividend.
pub proof fn lemma_signed_pow2_rem_last(
    g: FunctionView,
    env: spec_fn(Value) -> int,
    ty: Type,
    n: Value,
    t3: Value,
    k: int,
    tv: int,
    base: nat,
    x: Expansion,
    j: int,
    rt: Type,
)
    requires
        ty == Type::I32 || ty == Type::I64,
        g.ty(n) == ty,
        g.ty(t3) == ty,
        0 <= env(n) < ty.modulus(),
        0 <= env(t3) < ty.modulus(),
        1 <= k < ty.bits(),
        signed(ty, env(t3)) == signed(ty, env(n)) + tv,
        computes(g, env, ty, x, base),
        0 <= j < x.ops.len(),
        x.ops[j] == binary_imm(Opcode::BandImm, t3, -(pow2(k as nat) as int)),
        x.last == binary(Opcode::Isub, n, fresh(base, j)),
    ensures
        g.eval(x.last, rt, env) == Some(
            wrap(
                ty,
                signed(ty, env(n)) - (pow2(k as nat) as int) * ((signed(ty, env(n)) + tv) / (pow2(
                    k as nat,
                ) as int)),
            ),
        ),
{
    let m = ty.modulus();
    let nv = env(n);
    let sn = signed(ty, nv);
    let p = pow2(k as nat) as int;
    let t4 = fresh(base, j);
    lemma_modulus(ty);
    lemma_wrap_signed(ty, nv);
    lemma_wrap_signed(ty, env(t3));
    lemma_pow2_le(k as nat, 63);
    lemma_pow2_pos(k as nat);
    vstd::arithmetic::power2::lemma2_to64_rest();
    lemma2_to64();
    assert(((-p) as i64) as int == -p);
    assert(wrap(ty, -p) == m - p) by {
        lemma_pow2_le(k as nat, ty.bits());
        lemma_fundamental_div_mod_converse(-p, m, -1, m - p);
    }
    lemma_mask_off_low(ty, env(t3), k as nat);
    assert(eval_binary_imm(Opcode::BandImm, ty, env(t3), ((-p) as i64) as int) == Some(
        env(t3) - env(t3) % p,
    ));
    lemma_step_imm(g, env, ty, x, base, j, Opcode::BandImm, t3, -p);
    let t4v = env(t4);
    assert(t4v == env(t3) - env(t3) % p);
    assert(g.eval(x.last, rt, env) == Some(wrap(ty, nv - t4v)));
    let b = pow2((ty.bits() - k) as nat) as int;
    lemma_pow2_adds(k as nat, (ty.bits() - k) as nat);
    lemma_pow2_pos((ty.bits() - k) as nat);
    assert(m == p * b);
    assert(env(t3) == (sn + tv) % m);
    lemma_masked_congruent(m, p, b, env(t3), sn + tv);
    lemma_wrap_sub(m, nv, t4v, sn, p * ((sn + tv) / p));
}

/// The last step of the division by a power of two: shifting the biased
/// dividend, and negating the quotient for a negative divisor.
pub proof fn lemma_signed_pow2_div_last(
    g: FunctionView,
    env: spec_fn(Value) -> int,
    ty: Type,
    t3: Value,
    k: int,
    negative: bool,
    base: nat,
    x: Expansion,
    j: int,
    rt: Type,
    q: int,
)
    requires
        ty == Type::I32 || ty == Type::I64,
        g.ty(t3) == ty,
        0 <= env(t3) < ty.modulus(),
        1 <= k < ty.bits(),
        signed(ty, env(t3)) / (pow2(k as nat) as int) == q,
        -ty.modulus() <= 4 * q <= ty.modulus(),
        computes(g, env, ty, x, base),
        0 <= j < x.ops.len(),
        x.ops[j] == binary_imm(Opcode::SshrImm, t3, k),
        x.last == (if negative {
            binary_imm(Opcode::IrsubImm, fresh(base, j), 0)
        } else {
            copy_of(fresh(base, j))
        }),
    ensures
        g.eval(x.last, rt, env) == Some(
            wrap(
                ty,
                if negative {
                    -q
                } else {
                    q
                },
            ),
        ),
{
    let t4 = fresh(base, j);
    lemma_sshr_imm(ty, env(t3), k);
    lemma_step_imm(g, env, ty, x, base, j, Opcode::SshrImm, t3, k);
    assert(env(t4) == wrap(ty, q));
    if negative {
        assert(g.eval(x.last, rt, env) == Some(wrap(ty, wrap(ty, 0) - env(t4))));
        lemma_signed_wrap(ty, q);
        lemma_signed_wrap(ty, -q);
        assert(wrap(ty, wrap(ty, 0) - wrap(ty, q)) == wrap(ty, -q)) by {
            if ty == Type::I32 {
            } else {
            }
        }
    }
}

/// Signed division by a power of two, or by the negation of one, gives
/// the quotient rounded toward zero, and the remainder that goes with it.
pub proof fn lemma_signed_pow2_sound(
    g: FunctionView,
    env: spec_fn(Value) -> int,
    ty: Type,
    n: Value,
    d: int,
    k: int,
    is_rem: bool,
    base: nat,
    rt: Type,
)
    requires
        ty == Type::I32 || ty == Type::I64,
        n.0 < base,
        g.ty(n) == ty,
        0 <= env(n) < ty.modulus(),
        1 <= k < ty.bits(),
        abs(d) == pow2(k as nat),
        computes(g, env, ty, signed_pow2_expansion(n, k, d < 0, is_rem, ty.bits() as int, base), base),
    ensures
        g.eval(signed_pow2_expansion(n, k, d < 0, is_rem, ty.bits() as int, base).last, rt, env) == Some(
            wrap(
                ty,
                if is_rem {
                    signed(ty, env(n)) - d * trunc_div(signed(ty, env(n)), d)
                } else {
                    trunc_div(signed(ty, env(n)), d)
                },
            ),
        ),
{
    let x = signed_pow2_expansion(n, k, d < 0, is_rem, ty.bits() as int, base);
    let m = ty.modulus();
    let sn = signed(ty, env(n));
    let p = pow2(k as nat) as int;
    let j = if k == 1 {
        0int
    } else {
        1int
    };
    lemma_modulus(ty);
    lemma_wrap_signed(ty, env(n));
    lemma_signed_pow2_steps(m, ty.bits(), k as nat, sn);
    lemma_signed_pow2_biased(g, env, ty, n, k, base, x);
    lemma_trunc_div_neg(sn, p, d);
    let t3 = fresh(base, j + 1);
    let tv = if sn < 0 {
        p - 1
    } else {
        0
    };
    if is_rem {
        lemma_signed_pow2_rem_last(g, env, ty, n, t3, k, tv, base, x, j + 2, rt);
    } else {
        lemma_signed_pow2_div_last(g, env, ty, t3, k, d < 0, base, x, j + 2, rt, trunc_div(sn, p));
    }
}

/// The quotient of a number in the signed range by a positive number
/// lies in the signed range, and is negative exactly when the number is.
pub proof fn lemma_floor_div_in_range(m: int, h: int, t: int)
    requires
        m > 0,
        t >= 1,
        -m <= 2 * h < m,
    ensures
        -m <= 2 * (h / t) < m,
        h / t < 0 <==> h < 0,
{
    lemma_fundamental_div_mod(h, t);
    let q = h / t;
    let r = h % t;
    assert(-m <= 2 * q < m && (q < 0 <==> h < 0)) by (nonlinear_arith)
        requires
            h == t * q + r,
            0 <= r < t,
            t >= 1,
            -m <= 2 * h < m,
            m > 0,
    ;
}

/// The corrected high word `q2` of signed division by multiplication.
pub proof fn lemma_signed_magic_high_word(
    g: FunctionView,
    env: spec_fn(Value) -> int,
    ty: Type,
    n: Value,
    d: int,
    mul_by: i64,
    base: nat,
    x: Expansion,
)
    requires
        ty == Type::I32 || ty == Type::I64,
        n.0 < base,
        g.ty(n) == ty,
        0 <= env(n) < ty.modulus(),
        -ty.modulus() <= 2 * mul_by < ty.modulus(),
        -ty.modulus() <= 2 * signed_magic_high(ty.modulus(), signed(ty, env(n)), d, mul_by as int)
            < ty.modulus(),
        computes(g, env, ty, x, base),
        x.ops.len() >= 3,
        x.ops[0] == iconst(mul_by),
        x.ops[1] == binary(Opcode::Smulhi, n, fresh(base, 0)),
        d > 0 && mul_by < 0 ==> x.ops[2] == binary(Opcode::Iadd, fresh(base, 1), n),
        d < 0 && mul_by > 0 ==> x.ops[2] == binary(Opcode::Isub, fresh(base, 1), n),
    ensures
        ({
            let j = if (d > 0 && mul_by < 0) || (d < 0 && mul_by > 0) {
                2int
            } else {
                1int
            };
            let q2 = fresh(base, j);
            &&& g.ty(q2) == ty
            &&& 0 <= env(q2) < ty.modulus()
            &&& signed(ty, env(q2)) == signed_magic_high(
                ty.modulus(),
                signed(ty, env(n)),
                d,
                mul_by as int,
            )
        }),
{
    let m = ty.modulus();
    let nv = env(n);
    let sn = signed(ty, nv);
    let mb = mul_by as int;
    let q0 = fresh(base, 0);
    let q1 = fresh(base, 1);
    lemma_modulus(ty);
    lemma_wrap_signed(ty, nv);
    lemma_step_iconst(g, env, ty, x, base, 0, mul_by);
    lemma_signed_wrap(ty, mb);
    assert(signed(ty, env(q0)) == mb);
    lemma_step_binary(g, env, ty, x, base, 1, Opcode::Smulhi, n, q0);
    let h1 = (sn * mb) / m;
    assert(env(q1) == wrap(ty, h1));
    assert(-(m / 2) * m <= sn * mb < (m / 2) * m) by (nonlinear_arith)
        requires
            -m <= 2 * sn < m,
            -m <= 2 * mb < m,
            m >= 4,
            m % 2 == 0,
    ;
    lemma_div_range(sn * mb, m, m / 2);
    lemma_signed_wrap(ty, h1);
    let high = signed_magic_high(m, sn, d, mb);
    lemma_signed_wrap(ty, high);
    if d > 0 && mul_by < 0 {
        lemma_step_binary(g, env, ty, x, base, 2, Opcode::Iadd, q1, n);
        assert(env(fresh(base, 2)) == wrap(ty, env(q1) + nv));
        assert(wrap(ty, env(q1) + nv) == wrap(ty, h1 + sn)) by {
            if ty == Type::I32 {
            } else {
            }
        }
    } else if d < 0 && mul_by > 0 {
        lemma_step_binary(g, env, ty, x, base, 2, Opcode::Isub, q1, n);
        assert(env(fresh(base, 2)) == wrap(ty, env(q1) - nv));
        assert(wrap(ty, env(q1) - nv) == wrap(ty, h1 - sn)) by {
            if ty == Type::I32 {
            } else {
            }
        }
    } else {
    }
}

/// The top bit of a value is set exactly when its two's complement
/// reading is negative.
pub proof fn lemma_sign_bit(ty: Type, u: int)
    requires
        ty == Type::I32 || ty == Type::I64,
        0 <= u < ty.modulus(),
    ensures
        eval_binary_imm(Opcode::UshrImm, ty, u, (((ty.bits() - 1) as int) as i64) as int) == Some(
            if signed(ty, u) < 0 {
                1int
            } else {
                0int
            },
        ),
{
    lemma_modulus(ty);
    lemma_ushr_imm(ty, u, ty.bits() - 1);
    if ty == Type::I32 {
        lemma2_to64();
        assert(pow2(31) == 0x8000_0000);
        assert(u / 0x8000_0000 == if u >= 0x8000_0000 { 1int } else { 0int });
    } else {
        assert(pow2(63) == 0x8000_0000_0000_0000) by {
            lemma2_to64();
            vstd::arithmetic::power2::lemma2_to64_rest();
        }
        assert(u / 0x8000_0000_0000_0000 == if u >= 0x8000_0000_0000_0000 { 1int } else { 0int });
    }
}

/// Adding its sign bit to a value adds one to its two's complement
/// reading where that is negative.
pub proof fn lemma_add_sign_bit(ty: Type, h: int)
    requires
        ty == Type::I32 || ty == Type::I64,
        -ty.modulus() <= 2 * h < ty.modulus(),
    ensures
        eval_binary(
            Opcode::Iadd,
            ty,
            wrap(ty, h),
            if h < 0 {
                1int
            } else {
                0int
            },
        ) == Some(
            wrap(
                ty,
                if h < 0 {
                    h + 1
                } else {
                    h
                },
            ),
        ),
{
    if ty == Type::I32 {
    } else {
    }
}

/// The quotient `qf` of signed division by multiplication, from the
/// shifted high word `q3`: the word plus its sign bit.
pub proof fn lemma_signed_magic_round(
    g: FunctionView,
    env: spec_fn(Value) -> int,
    ty: Type,
    base: nat,
    x: Expansion,
    i: int,
    h3: int,
)
    requires
        ty == Type::I32 || ty == Type::I64,
        g.ty(fresh(base, i)) == ty,
        -ty.modulus() <= 2 * h3 < ty.modulus(),
        env(fresh(base, i)) == wrap(ty, h3),
        computes(g, env, ty, x, base),
        0 <= i,
        x.ops.len() >= i + 3,
        x.ops[i + 1] == binary_imm(Opcode::UshrImm, fresh(base, i), ty.bits() - 1),
        x.ops[i + 2] == binary(Opcode::Iadd, fresh(base, i), fresh(base, i + 1)),
    ensures
        g.ty(fresh(base, i + 2)) == ty,
        env(fresh(base, i + 2)) == wrap(
            ty,
            if h3 < 0 {
                h3 + 1
            } else {
                h3
            },
        ),
{
    let q3 = fresh(base, i);
    let t1 = fresh(base, i + 1);
    lemma_signed_wrap(ty, h3);
    lemma_sign_bit(ty, env(q3));
    lemma_step_imm(g, env, ty, x, base, i + 1, Opcode::UshrImm, q3, ty.bits() - 1);
    lemma_add_sign_bit(ty, h3);
    lemma_step_binary(g, env, ty, x, base, i + 2, Opcode::Iadd, q3, t1);
}

/// The shifted high word `q3` of signed division by multiplication.
pub proof fn lemma_signed_magic_shift(
    g: FunctionView,
    env: spec_fn(Value) -> int,
    ty: Type,
    shift_by: int,
    base: nat,
    x: Expansion,
    j: int,
)
    requires
        ty == Type::I32 || ty == Type::I64,
        g.ty(fresh(base, j)) == ty,
        0 <= env(fresh(base, j)) < ty.modulus(),
        0 <= shift_by < ty.bits(),
        computes(g, env, ty, x, base),
        0 <= j,
        x.ops.len() >= j + 2,
        shift_by != 0 ==> x.ops[j + 1] == binary_imm(Opcode::SshrImm, fresh(base, j), shift_by),
    ensures
        ({
            let i = if shift_by == 0 {
                j
            } else {
                j + 1
            };
            let h3 = signed(ty, env(fresh(base, j))) / (pow2(shift_by as nat) as int);
            &&& g.ty(fresh(base, i)) == ty
            &&& env(fresh(base, i)) == wrap(ty, h3)
            &&& -ty.modulus() <= 2 * h3 < ty.modulus()
        }),
{
    let m = ty.modulus();
    let q2 = fresh(base, j);
    let high = signed(ty, env(q2));
    let ts = pow2(shift_by as nat) as int;
    lemma_wrap_signed(ty, env(q2));
    lemma_pow2_pos(shift_by as nat);
    lemma_floor_div_in_range(m, high, ts);
    if shift_by == 0 {
        assert(pow2(0) == 1) by {
            lemma2_to64();
        }
        assert(high / ts == high);
    } else {
        lemma_sshr_imm(ty, env(q2), shift_by);
        lemma_step_imm(g, env, ty, x, base, j + 1, Opcode::SshrImm, q2, shift_by);
    }
}

/// A dividend is congruent to the divisor times any quotient plus what is
/// left, in whatever words dividend and divisor are held.
pub proof fn lemma_remainder_congruent(m: int, nv: int, sn: int, dv: int, d: int, q: int)
    requires
        m > 0,
        (nv - sn) % m == 0,
        (dv - d) % m == 0,
    ensures
        (nv - (dv * q + (sn - d * q))) % m == 0,
{
    lemma_fundamental_div_mod(nv - sn, m);
    lemma_fundamental_div_mod(dv - d, m);
    let a = (nv - sn) / m;
    let c = (dv - d) / m;
    assert(nv - (dv * q + (sn - d * q)) == 0 + (a - c * q) * m) by (nonlinear_arith)
        requires
            nv - sn == m * a,
            dv - d == m * c,
    ;
    lemma_mod_add_multiple(0, a - c * q, m);
}

/// Where the instructions of signed division by multiplication stand.
pub proof fn lemma_signed_magic_ops_shape(n: Value, d: int, mul_by: i64, shift_by: int, bits: int, base: nat)
    ensures
        ({
            let ops = signed_magic_ops(n, d, mul_by, shift_by, bits, base);
            let j = if (d > 0 && mul_by < 0) || (d < 0 && mul_by > 0) {
                2int
            } else {
                1int
            };
            let i = if shift_by == 0 {
                j
            } else {
                j + 1
            };
            &&& ops.len() == i + 3
            &&& ops[0] == iconst(mul_by)
            &&& ops[1] == binary(Opcode::Smulhi, n, fresh(base, 0))
            &&& (d > 0 && mul_by < 0 ==> ops[2] == binary(Opcode::Iadd, fresh(base, 1), n))
            &&& (d < 0 && mul_by > 0 ==> ops[2] == binary(Opcode::Isub, fresh(base, 1), n))
            &&& (shift_by != 0 ==> ops[j + 1] == binary_imm(Opcode::SshrImm, fresh(base, j), shift_by))
            &&& ops[i + 1] == binary_imm(Opcode::UshrImm, fresh(base, i), bits - 1)
            &&& ops[i + 2] == binary(Opcode::Iadd, fresh(base, i), fresh(base, i + 1))
        }),
{
}

/// The quotient `qf` that signed division by multiplication leaves.
pub proof fn lemma_signed_magic_quotient(
    g: FunctionView,
    env: spec_fn(Value) -> int,
    ty: Type,
    n: Value,
    d: int,
    mul_by: i64,
    shift_by: int,
    base: nat,
    x: Expansion,
)
    requires
        ty == Type::I32 || ty == Type::I64,
        n.0 < base,
        g.ty(n) == ty,
        0 <= env(n) < ty.modulus(),
        0 <= shift_by < ty.bits(),
        -ty.modulus() <= 2 * mul_by < ty.modulus(),
        -ty.modulus() <= 2 * signed_magic_high(ty.modulus(), signed(ty, env(n)), d, mul_by as int)
            < ty.modulus(),
        computes(g, env, ty, x, base),
        signed_magic_ops(n, d, mul_by, shift_by, ty.bits() as int, base).len() <= x.ops.len(),
        forall|k: int|
            0 <= k < signed_magic_ops(n, d, mul_by, shift_by, ty.bits() as int, base).len() ==> x.ops[k]
                == signed_magic_ops(n, d, mul_by, shift_by, ty.bits() as int, base)[k],
    ensures
        ({
            let ops = signed_magic_ops(n, d, mul_by, shift_by, ty.bits() as int, base);
            let qf = fresh(base, ops.len() - 1);
            &&& g.ty(qf) == ty
            &&& env(qf) == wrap(
                ty,
                signed_magic_result(
                    ty.modulus(),
                    pow2(shift_by as nat) as int,
                    signed(ty, env(n)),
                    d,
                    mul_by as int,
                ),
            )
        }),
{
    let m = ty.modulus();
    let sn = signed(ty, env(n));
    let ts = pow2(shift_by as nat) as int;
    let high = signed_magic_high(m, sn, d, mul_by as int);
    let j = if (d > 0 && mul_by < 0) || (d < 0 && mul_by > 0) {
        2int
    } else {
        1int
    };
    let i = if shift_by == 0 {
        j
    } else {
        j + 1
    };
    lemma_signed_magic_ops_shape(n, d, mul_by, shift_by, ty.bits() as int, base);
    lemma_signed_magic_high_word(g, env, ty, n, d, mul_by, base, x);
    lemma_signed_magic_shift(g, env, ty, shift_by, base, x, j);
    lemma_signed_magic_round(g, env, ty, base, x, i, high / ts);
}

/// Signed division by multiplication gives the quotient rounded toward
/// zero, and the remainder that is computed from it.
pub proof fn lemma_signed_magic_sound(
    g: FunctionView,
    env: spec_fn(Value) -> int,
    ty: Type,
    n: Value,
    d: int,
    mul_by: i64,
    shift_by: int,
    is_rem: bool,
    base: nat,
    rt: Type,
)
    requires
        ty == Type::I32 || ty == Type::I64,
        n.0 < base,
        g.ty(n) == ty,
        0 <= env(n) < ty.modulus(),
        -ty.modulus() <= 2 * d < ty.modulus(),
        signed_magic(ty.modulus(), ty.bits() as int, d, mul_by as int, shift_by),
        computes(
            g,
            env,
            ty,
            signed_magic_expansion(n, d, mul_by, shift_by, is_rem, ty.bits() as int, base),
            base,
        ),
    ensures
        g.eval(
            signed_magic_expansion(n, d, mul_by, shift_by, is_rem, ty.bits() as int, base).last,
            rt,
            env,
        ) == Some(
            wrap(
                ty,
                if is_rem {
                    signed(ty, env(n)) - d * trunc_div(signed(ty, env(n)), d)
                } else {
                    trunc_div(signed(ty, env(n)), d)
                },
            ),
        ),
{
    let x = signed_magic_expansion(n, d, mul_by, shift_by, is_rem, ty.bits() as int, base);
    let all = signed_magic_ops(n, d, mul_by, shift_by, ty.bits() as int, base);
    let m = ty.modulus();
    let nv = env(n);
    let sn = signed(ty, nv);
    let mb = mul_by as int;
    let ts = pow2(shift_by as nat) as int;
    let qf = fresh(base, all.len() - 1);
    lemma_modulus(ty);
    lemma_wrap_signed(ty, nv);
    assert forall|k: int| 0 <= k < all.len() implies x.ops[k] == all[k] by {}
    // what the multiplier promises of this dividend
    assert(-(m / 2) <= signed_magic_high(m, sn, d, mb) < m / 2);
    assert(signed_magic_result(m, ts, sn, d, mb) == trunc_div(sn, d));
    lemma_signed_magic_quotient(g, env, ty, n, d, mul_by, shift_by, base, x);
    let q = trunc_div(sn, d);
    let dv = wrap(ty, (d as i64) as int);
    assert((dv - d) % m == 0) by {
        lemma_signed_wrap(ty, d);
        assert((d as i64) as int == d);
        assert(dv == d || dv == d + m);
        if ty == Type::I32 {
            assert((dv - d) % 0x1_0000_0000 == 0);
        } else {
            assert((dv - d) % 0x1_0000_0000_0000_0000 == 0);
        }
    }
    lemma_remainder_congruent(m, nv, sn, dv, d, q);
    lemma_signed_magic_ops_shape(n, d, mul_by, shift_by, ty.bits() as int, base);
    lemma_with_remainder_sound(g, env, ty, all, qf, n, d as i64, is_rem, base, rt, q, sn - d * q);
}

/// An environment that a run of the rewritten function can produce gives
/// the values of the expansion what its instructions compute.
pub proof fn lemma_rewrite_computes(
    f: FunctionView,
    block: int,
    at: int,
    inst: Inst,
    ty: Type,
    x: Expansion,
    env: spec_fn(Value) -> int,
)
    requires
        f.wf(),
        f.has_inst(inst),
        f.insts.len() + x.ops.len() <= usize::MAX,
        f.values.len() + x.ops.len() <= usize::MAX,
        apply_expansion(f, block, at, inst, ty, x).in_range(env),
        forall|i: int|
            f.insts.len() <= i < f.insts.len() + x.ops.len() ==> #[trigger] apply_expansion(
                f,
                block,
                at,
                inst,
                ty,
                x,
            ).respects(env, i),
    ensures
        computes(apply_expansion(f, block, at, inst, ty, x), env, ty, x, f.values.len()),
        forall|v: Value|
            f.has_value(v) ==> #[trigger] apply_expansion(f, block, at, inst, ty, x).ty(v) == f.ty(v),
        apply_expansion(f, block, at, inst, ty, x).data(inst) == x.last,
{
    let g = apply_expansion(f, block, at, inst, ty, x);
    let base = f.values.len();
    let n0 = f.insts.len();
    assert forall|j: int| 0 <= j < x.ops.len() implies {
        &&& g.ty(fresh(base, j)) == ty
        &&& 0 <= env(fresh(base, j)) < ty.modulus()
        &&& (g.eval(#[trigger] x.ops[j], ty, env) matches Some(v) ==> env(fresh(base, j)) == v)
    } by {
        let r = fresh(base, j);
        assert(r.0 == base + j);
        assert(g.insts[n0 + j] == x.ops[j]);
        assert(g.results[n0 + j] == Some(r));
        assert(g.values[base + j].ty == ty);
        assert(g.has_value(r));
        assert(g.respects(env, n0 + j));
    }
}

/// The expansion of an unsigned division or remainder computes the
/// quotient or the remainder.
pub proof fn lemma_unsigned_expansion_sound(
    g: FunctionView,
    env: spec_fn(Value) -> int,
    ty: Type,
    n: Value,
    d: int,
    d_imm: i64,
    is_rem: bool,
    mul_imm: i64,
    do_add: bool,
    shift_by: int,
    base: nat,
    rt: Type,
)
    requires
        ty == Type::I32 || ty == Type::I64,
        n.0 < base,
        g.ty(n) == ty,
        0 <= env(n) < ty.modulus(),
        1 <= d < ty.modulus(),
        wrap(ty, d_imm as int) == d,
        d >= 2 ==> unsigned_magic(
            ty.modulus(),
            ty.bits() as int,
            d,
            wrap(ty, mul_imm as int),
            do_add,
            shift_by,
        ),
        computes(
            g,
            env,
            ty,
            unsigned_expansion(n, d, d_imm, is_rem, mul_imm, do_add, shift_by, base).unwrap(),
            base,
        ),
    ensures
        g.eval(
            unsigned_expansion(n, d, d_imm, is_rem, mul_imm, do_add, shift_by, base).unwrap().last,
            rt,
            env,
        ) == Some(
            if is_rem {
                env(n) % d
            } else {
                env(n) / d
            },
        ),
{
    reveal(unsigned_expansion);
    if d == 1 {
        lemma_by_one_sound(g, env, ty, n, is_rem, rt);
    } else if is_power_of_two(d) {
        lemma_unsigned_pow2_sound(g, env, ty, n, d, is_rem, rt);
    } else {
        lemma_unsigned_magic_sound(g, env, ty, n, d, d_imm, mul_imm, do_add, shift_by, is_rem, base, rt);
    }
}

/// The expansion of a signed division or remainder computes the quotient
/// rounded toward zero, or the remainder that goes with it.
pub proof fn lemma_signed_expansion_sound(
    g: FunctionView,
    env: spec_fn(Value) -> int,
    ty: Type,
    n: Value,
    d: int,
    is_rem: bool,
    mul_by: i64,
    shift_by: int,
    base: nat,
    rt: Type,
)
    requires
        ty == Type::I32 || ty == Type::I64,
        n.0 < base,
        g.ty(n) == ty,
        0 <= env(n) < ty.modulus(),
        -ty.modulus() <= 2 * d < ty.modulus(),
        d != 0,
        d != -1,
        d != 1 ==> signed_magic(ty.modulus(), ty.bits() as int, d, mul_by as int, shift_by),
        computes(
            g,
            env,
            ty,
            signed_expansion(n, d, is_rem, mul_by, shift_by, ty.bits() as int, base).unwrap(),
            base,
        ),
    ensures
        g.eval(
            signed_expansion(n, d, is_rem, mul_by, shift_by, ty.bits() as int, base).unwrap().last,
            rt,
            env,
        ) == Some(
            wrap(
                ty,
                if is_rem {
                    signed(ty, env(n)) - d * trunc_div(signed(ty, env(n)), d)
                } else {
                    trunc_div(signed(ty, env(n)), d)
                },
            ),
        ),
{
    reveal(signed_expansion);
    let sn = signed(ty, env(n));
    lemma_modulus(ty);
    lemma_wrap_signed(ty, env(n));
    if d == 1 {
        lemma_by_one_sound(g, env, ty, n, is_rem, rt);
        assert(trunc_div(sn, 1) == sn);
        assert(wrap(ty, 0) == 0);
    } else {
        match spec_signed_power_of_two(d) {
            Some((is_negative, k)) => {
                let e = exponent_of(abs(d));
                assert(pow2(e) == abs(d));
                if e >= ty.bits() {
                    lemma_pow2_le(ty.bits(), e);
                }
                if e == 0 {
                    lemma2_to64();
                }
                assert(k as int == e);
                lemma_signed_pow2_sound(g, env, ty, n, d, k as int, is_rem, base, rt);
            },
            None => {
                lemma_signed_magic_sound(g, env, ty, n, d, mul_by, shift_by, is_rem, base, rt);
            },
        }
    }
}

/// What an unsigned division or remainder by an immediate computes.
pub proof fn lemma_unsigned_division_value(ty: Type, nv: int, imm: i64, d: int, is_rem: bool)
    requires
        wrap(ty, imm as int) == d,
        d != 0,
    ensures
        eval_binary_imm(
            if is_rem {
                Opcode::UremImm
            } else {
                Opcode::UdivImm
            },
            ty,
            nv,
            imm as int,
        ) == Some(
            if is_rem {
                nv % d
            } else {
                nv / d
            },
        ),
{
}

/// What a signed division or remainder by an immediate computes.
pub proof fn lemma_signed_division_value(ty: Type, nv: int, imm: i64, d: int, is_rem: bool)
    requires
        ty == Type::I32 || ty == Type::I64,
        -ty.modulus() <= 2 * d < ty.modulus(),
        imm == d,
        d != 0,
        d != -1,
    ensures
        eval_binary_imm(
            if is_rem {
                Opcode::SremImm
            } else {
                Opcode::SdivImm
            },
            ty,
            nv,
            imm as int,
        ) == Some(
            wrap(
                ty,
                if is_rem {
                    signed(ty, nv) - d * trunc_div(signed(ty, nv), d)
                } else {
                    trunc_div(signed(ty, nv), d)
                },
            ),
        ),
{
    lemma_signed_wrap(ty, d);
}

/// The rewrite of a division or remainder by a constant keeps its value.
///
/// Let `g` be the function after the instruction at position `at` of
/// `block` has been rewritten. In every environment that gives each value
/// of `g` a value of its type, and each value that the rewrite added what
/// its instruction computes, the rewritten instruction computes what the
/// division or remainder computes.
pub proof fn lemma_divrem_rewrite_equivalent(
    f: FunctionView,
    block: Block,
    at: int,
    env: spec_fn(Value) -> int,
    rt: Type,
)
    requires
        f.wf(),
        f.has_block(block),
        0 <= at < f.len_of(block),
        f.insts.len() + spec_try_divrem_inserted(f, block, at) <= usize::MAX,
        f.values.len() + spec_try_divrem_inserted(f, block, at) <= usize::MAX,
        spec_try_divrem_rewrite(f, block, at).in_range(env),
        forall|i: int|
            f.insts.len() <= i < spec_try_divrem_rewrite(f, block, at).insts.len()
                ==> #[trigger] spec_try_divrem_rewrite(f, block, at).respects(env, i),
    ensures
        spec_try_divrem_rewrite(f, block, at).eval(
            spec_try_divrem_rewrite(f, block, at).data(f.inst_at(block, at)),
            rt,
            env,
        ) == f.eval(f.data(f.inst_at(block, at)), rt, env),
{
    let inst = f.inst_at(block, at);
    let g = spec_try_divrem_rewrite(f, block, at);
    f.lemma_inst(inst);
    match spec_get_div_info(f, inst) {
        None => {
            assert(g == f);
        },
        Some(info) => {
            match expansion(info, f.values.len()) {
                None => {
                    assert(g == f);
                },
                Some(x) => {
                    assert(g == apply_expansion(f, block.0 as int, at, inst, info.ty(), x));
                    lemma_applied_expansion_sound(f, g, block.0 as int, at, inst, info, x, env, rt);
                },
            }
        },
    }
}

/// [`lemma_divrem_rewrite_equivalent`] for a rewrite that took place.
pub proof fn lemma_applied_expansion_sound(
    f: FunctionView,
    g: FunctionView,
    block: int,
    at: int,
    inst: Inst,
    info: DivRemByConstInfo,
    x: Expansion,
    env: spec_fn(Value) -> int,
    rt: Type,
)
    requires
        f.wf(),
        f.has_inst(inst),
        f.insts.len() + x.ops.len() <= usize::MAX,
        f.values.len() + x.ops.len() <= usize::MAX,
        spec_get_div_info(f, inst) == Some(info),
        expansion(info, f.values.len()) == Some(x),
        g == apply_expansion(f, block, at, inst, info.ty(), x),
        g.in_range(env),
        forall|i: int| f.insts.len() <= i < g.insts.len() ==> #[trigger] g.respects(env, i),
    ensures
        g.eval(g.data(inst), rt, env) == f.eval(f.data(inst), rt, env),
{
    let n = info.operand();
    f.lemma_inst(inst);
    assert(f.has_value(n) && f.ty(n) == info.ty()) by {
        lemma_div_info_operand(f, inst);
    }
    crate::divrem::lemma_expansion_length(info, f.values.len());
    crate::divrem::lemma_expansion_shape(info, f.values.len());
    lemma_rewrite_computes(f, block, at, inst, info.ty(), x, env);
    assert(g.has_value(n));
    assert(g.ty(n) == f.ty(n));
    lemma_divrem_info_sound(f, g, inst, info, x, env, rt);
}

/// The dividend of a division that was recognized is a value of the
/// function, of the type of the division.
pub proof fn lemma_div_info_operand(f: FunctionView, inst: Inst)
    requires
        f.wf(),
        f.has_inst(inst),
        spec_get_div_info(f, inst) is Some,
    ensures
        f.has_value(spec_get_div_info(f, inst).unwrap().operand()),
        f.ty(spec_get_div_info(f, inst).unwrap().operand()) == spec_get_div_info(f, inst).unwrap().ty(),
{
    f.lemma_inst(inst);
}

/// The heart of [`lemma_divrem_rewrite_equivalent`]: from what the
/// expansion computes to what the division computes, by the kind of the
/// division.
pub proof fn lemma_divrem_info_sound(
    f: FunctionView,
    g: FunctionView,
    inst: Inst,
    info: DivRemByConstInfo,
    x: Expansion,
    env: spec_fn(Value) -> int,
    rt: Type,
)
    requires
        f.has_inst(inst),
        spec_get_div_info(f, inst) == Some(info),
        expansion(info, f.values.len()) == Some(x),
        f.has_value(info.operand()),
        g.ty(info.operand()) == info.ty(),
        f.ty(info.operand()) == info.ty(),
        0 <= env(info.operand()) < info.ty().modulus(),
        computes(g, env, info.ty(), x, f.values.len()),
    ensures
        g.eval(x.last, rt, env) == f.eval(f.data(inst), rt, env),
{
    let n = info.operand();
    let ty = info.ty();
    let nv = env(n);
    match f.data(inst) {
        InstructionData::BinaryImm { opcode, arg, imm } => {
            assert(arg == n);
            assert(f.eval(f.data(inst), rt, env) == eval_binary_imm(opcode, ty, nv, imm as int));
            if info.is_signed() {
                assert(imm == info.divisor());
                assert(opcode == (if info.is_rem() {
                    Opcode::SremImm
                } else {
                    Opcode::SdivImm
                }));
                lemma_signed_info_sound(g, info, x, env, rt, f.values.len());
                lemma_signed_division_value(ty, nv, imm, info.divisor(), info.is_rem());
            } else {
                assert(wrap(ty, imm as int) == info.divisor());
                assert(opcode == (if info.is_rem() {
                    Opcode::UremImm
                } else {
                    Opcode::UdivImm
                }));
                lemma_unsigned_info_sound(g, info, x, env, rt, f.values.len());
                lemma_unsigned_division_value(ty, nv, imm, info.divisor(), info.is_rem());
            }
        },
        _ => {},
    }
}

/// What the expansion of an unsigned division or remainder computes.
pub proof fn lemma_unsigned_info_sound(
    g: FunctionView,
    info: DivRemByConstInfo,
    x: Expansion,
    env: spec_fn(Value) -> int,
    rt: Type,
    base: nat,
)
    requires
        !info.is_signed(),
        expansion(info, base) == Some(x),
        info.operand().0 < base,
        g.ty(info.operand()) == info.ty(),
        0 <= env(info.operand()) < info.ty().modulus(),
        computes(g, env, info.ty(), x, base),
    ensures
        info.divisor() != 0,
        g.eval(x.last, rt, env) == Some(
            if info.is_rem() {
                env(info.operand()) % info.divisor()
            } else {
                env(info.operand()) / info.divisor()
            },
        ),
{
    let n = info.operand();
    let ty = info.ty();
    let is_rem = info.is_rem();
    crate::divrem::lemma_expansion_unsigned(info, base);
    match info {
        DivRemByConstInfo::DivU32(_, d) | DivRemByConstInfo::RemU32(_, d) => {
            let m = spec_magic_u32(d);
            if d >= 2 {
                lemma_spec_magic_u32(d);
            }
            lemma_unsigned_expansion_sound(
                g,
                env,
                ty,
                n,
                d as int,
                d as i64,
                is_rem,
                m.mul_by as i64,
                m.do_add,
                m.shift_by as int,
                base,
                rt,
            );
        },
        DivRemByConstInfo::DivU64(_, d) | DivRemByConstInfo::RemU64(_, d) => {
            let m = spec_magic_u64(d);
            if d >= 2 {
                lemma_spec_magic_u64(d);
            }
            lemma_unsigned_expansion_sound(
                g,
                env,
                ty,
                n,
                d as int,
                spec_u64_as_i64(d),
                is_rem,
                spec_u64_as_i64(m.mul_by),
                m.do_add,
                m.shift_by as int,
                base,
                rt,
            );
        },
        _ => {},
    }
}

/// What the expansion of a signed division or remainder computes.
pub proof fn lemma_signed_info_sound(
    g: FunctionView,
    info: DivRemByConstInfo,
    x: Expansion,
    env: spec_fn(Value) -> int,
    rt: Type,
    base: nat,
)
    requires
        info.is_signed(),
        expansion(info, base) == Some(x),
        info.operand().0 < base,
        g.ty(info.operand()) == info.ty(),
        0 <= env(info.operand()) < info.ty().modulus(),
        computes(g, env, info.ty(), x, base),
    ensures
        info.divisor() != 0,
        info.divisor() != -1,
        -info.ty().modulus() <= 2 * info.divisor() < info.ty().modulus(),
        g.eval(x.last, rt, env) == Some(
            wrap(
                info.ty(),
                if info.is_rem() {
                    signed(info.ty(), env(info.operand())) - info.divisor() * trunc_div(
                        signed(info.ty(), env(info.operand())),
                        info.divisor(),
                    )
                } else {
                    trunc_div(signed(info.ty(), env(info.operand())), info.divisor())
                },
            ),
        ),
{
    let n = info.operand();
    let ty = info.ty();
    let is_rem = info.is_rem();
    crate::divrem::lemma_expansion_signed(info, base);
    match info {
        DivRemByConstInfo::DivS32(_, d) | DivRemByConstInfo::RemS32(_, d) => {
            let m = spec_magic_s32(d);
            if d != 1 {
                lemma_spec_magic_s32(d);
            }
            lemma_signed_expansion_sound(
                g,
                env,
                ty,
                n,
                d as int,
                is_rem,
                m.mul_by as i64,
                m.shift_by as int,
                base,
                rt,
            );
        },
        DivRemByConstInfo::DivS64(_, d) | DivRemByConstInfo::RemS64(_, d) => {
            let m = spec_magic_s64(d);
            if d != 1 {
                lemma_spec_magic_s64(d);
            }
            lemma_signed_expansion_sound(
                g,
                env,
                ty,
                n,
                d as int,
                is_rem,
                m.mul_by,
                m.shift_by as int,
                base,
                rt,
            );
        },
        _ => {},
    }
}

} // verus!
