//! Multipliers and shift counts that replace division by a constant.
//!
//! For a divisor `d` the functions here search the smallest power of two
//! `2^p`, `p` at least the word size, at which a multiplier `m` one above
//! the quotient of `2^p` by `d` gives `n / d == (n * m) / 2^p` for every
//! dividend `n` of the word size.

use crate::arith::{
    abs, lemma_magic_bracket, lemma_pow2_le, lemma_signed_anc, lemma_signed_magic_at,
    lemma_signed_search_goes_on, lemma_signed_search_step, lemma_signed_search_stops,
    lemma_unsigned_nc, lemma_unsigned_search_goes_on, lemma_unsigned_search_step,
    lemma_unsigned_search_stops, signed_anc, signed_magic_high, signed_magic_result, signed_excess,
    signed_multiplier, signed_search, signed_search_passes, trunc_div, unsigned_excess,
    unsigned_nc, unsigned_search, unsigned_search_passes,
};
use crate::convert::{magnitude_i32, magnitude_i64, u32_as_i32, u64_as_i64};
use vstd::arithmetic::div_mod::{lemma_fundamental_div_mod, lemma_fundamental_div_mod_converse};
use vstd::arithmetic::power2::{
    lemma2_to64, lemma2_to64_rest, lemma_pow2_adds, lemma_pow2_pos, lemma_pow2_strictly_increases,
    lemma_pow2_unfold, pow2,
};
use vstd::prelude::*;

verus! {

/// Multiplier for unsigned 32-bit division.
#[derive(Clone, Copy, Debug, PartialEq, Eq, Structural)]
pub struct MU32 {
    pub mul_by: u32,
    pub do_add: bool,
    pub shift_by: i32,
}

/// Multiplier for unsigned 64-bit division.
#[derive(Clone, Copy, Debug, PartialEq, Eq, Structural)]
pub struct MU64 {
    pub mul_by: u64,
    pub do_add: bool,
    pub shift_by: i32,
}

/// Multiplier for signed 32-bit division.
#[derive(Clone, Copy, Debug, PartialEq, Eq, Structural)]
pub struct MS32 {
    pub mul_by: i32,
    pub shift_by: i32,
}

/// Multiplier for signed 64-bit division.
#[derive(Clone, Copy, Debug, PartialEq, Eq, Structural)]
pub struct MS64 {
    pub mul_by: i64,
    pub shift_by: i32,
}

/// The quotient that multiplying by `m` and dropping `tp` gives for `n`.
pub open spec fn magic_quotient(n: int, m: int, tp: int) -> int {
    (n * m) / tp
}

/// The multiplier that an unsigned result stands for: `mul_by`, with one
/// more bit above the word when `do_add` is set.
pub open spec fn unsigned_multiplier(modulus: int, mul_by: int, do_add: bool) -> int {
    if do_add {
        modulus + mul_by
    } else {
        mul_by
    }
}

/// What makes `(mul_by, do_add, shift_by)` a multiplier for unsigned
/// division by `d` in words of `modulus` values.
pub open spec fn unsigned_magic(modulus: int, bits: int, d: int, mul_by: int, do_add: bool, shift_by: int) -> bool {
    let m = unsigned_multiplier(modulus, mul_by, do_add);
    let tp = modulus * pow2(shift_by as nat);
    &&& 0 <= shift_by <= bits
    &&& 0 <= mul_by < modulus
    &&& !do_add ==> shift_by <= bits - 1
    &&& do_add ==> shift_by >= 1
    &&& do_add && d >= 3 ==> shift_by >= 2
    &&& tp <= m * d < tp + d
    &&& !unsigned_search_passes(modulus, bits as nat, d, (bits + shift_by) as nat)
    &&& forall|k: nat|
        bits <= k < bits + shift_by ==> #[trigger] unsigned_search_passes(modulus, bits as nat, d, k)
    &&& forall|n: int| 0 <= n < modulus ==> #[trigger] magic_quotient(n, m, tp) == n / d
}


/// A quotient times a divisor of at least `lo` that stays within `lo * x`
/// is at most `x`.
proof fn lemma_quotient_bound(q: int, nc: int, r: int, t: int, lo: int, x: int)
    requires
        q * nc + r == t,
        r >= 0,
        nc >= lo,
        lo >= 1,
        q >= 0,
        t <= lo * x,
    ensures
        q <= x,
{
    assert(q <= x) by (nonlinear_arith)
        requires
            q * nc + r == t,
            r >= 0,
            nc >= lo,
            lo >= 1,
            q >= 0,
            t <= lo * x,
    ;
}

/// From the state in which the search stopped to the multiplier's law.
proof fn lemma_unsigned_magic_found(
    b: int,
    bits: nat,
    d: int,
    nc: int,
    p: nat,
    m: int,
    e: int,
    mul_by: int,
    do_add: bool,
)
    requires
        b == pow2(bits),
        bits >= 2,
        2 <= d < b,
        nc == unsigned_nc(b, d),
        bits <= p <= 2 * bits,
        m * d == pow2(p) + e,
        0 <= e < d,
        nc * e < pow2(p),
        0 < m < 2 * b,
        do_add == (m >= b),
        0 <= mul_by < b,
        m == unsigned_multiplier(b, mul_by, do_add),
        !unsigned_search_passes(b, bits, d, p),
        forall|k: nat| bits <= k < p ==> #[trigger] unsigned_search_passes(b, bits, d, k),
    ensures
        unsigned_magic(b, bits as int, d, mul_by, do_add, p - bits),
{
    let s = (p - bits) as nat;
    let tp = pow2(p) as int;
    lemma_pow2_adds(bits, s);
    lemma_pow2_adds(bits, bits);
    lemma_pow2_unfold(bits);
    lemma_pow2_unfold(bits + 1);
    lemma_pow2_unfold(bits + 2);
    let hb = pow2((bits - 1) as nat) as int;
    lemma_pow2_unfold((bits - 1) as nat);
    if bits > 2 {
        lemma_pow2_strictly_increases(1, (bits - 1) as nat);
    }
    lemma2_to64();
    lemma_unsigned_nc(b, hb, d);
    assert(tp == b * pow2(s));
    if !do_add && p == 2 * bits {
        assert(false) by (nonlinear_arith)
            requires
                m * d == tp + e,
                e >= 0,
                tp == b * b,
                0 < m < b,
                2 <= d < b,
        ;
    }
    if do_add {
        assert(tp >= 2 * b - 1 && (d >= 3 ==> tp >= 3 * b - 2)) by (nonlinear_arith)
            requires
                m * d == tp + e,
                e < d,
                m >= b,
                d >= 2,
                b >= 4,
        ;
        if p == bits {
            assert(false);
        }
        if d >= 3 && p == bits + 1 {
            assert(false);
        }
    }
    assert forall|n: int| 0 <= n < b implies #[trigger] magic_quotient(n, m, tp) == n / d by {
        assert(e * nc == nc * e) by (nonlinear_arith);
        lemma_magic_bracket(d, m, e, tp, nc, n);
    }
}

/// The values of the powers of two at which a 32-bit search can stand.
proof fn lemma_pow2_marks_32()
    ensures
        pow2(31) == 0x8000_0000,
        pow2(32) == 0x1_0000_0000,
        pow2(62) == 0x4000_0000_0000_0000,
        pow2(63) == 0x8000_0000_0000_0000,
        pow2(64) == 0x1_0000_0000_0000_0000,
{
    lemma2_to64();
    lemma2_to64_rest();
}

/// `2 * x`, wrapped to 32 bits.
fn twice_u32(x: u32) -> (r: u32)
    ensures
        r == (2 * x) % 0x1_0000_0000,
{
    x.wrapping_mul(2)
}

/// `2 * x + 1`, wrapped to 32 bits.
fn twice_plus_one_u32(x: u32) -> (r: u32)
    ensures
        r == (2 * x + 1) % 0x1_0000_0000,
{
    x.wrapping_mul(2).wrapping_add(1)
}

/// `2 * x - y` where that is a 32-bit value, though `2 * x` may not be.
fn twice_minus_u32(x: u32, y: u32) -> (r: u32)
    requires
        0 <= 2 * x - y <= u32::MAX,
    ensures
        r == 2 * x - y,
{
    x.wrapping_mul(2).wrapping_sub(y)
}

/// `2 * x + 1 - y` where that is a 32-bit value, though `2 * x + 1` may not
/// be.
fn twice_plus_one_minus_u32(x: u32, y: u32) -> (r: u32)
    requires
        0 <= 2 * x + 1 - y <= u32::MAX,
    ensures
        r == 2 * x + 1 - y,
{
    x.wrapping_mul(2).wrapping_add(1).wrapping_sub(y)
}

/// Multiplier and shift for unsigned 32-bit division by `d`.
///
/// The quotient of `n` by `d` is the high word of `n * mul_by`, shifted
/// right by `shift_by`; when `do_add` is set the multiplier has a 33rd bit,
/// and the caller adds `n` in before the last bit of the shift.
pub fn magic_u32(d: u32) -> (r: MU32)
    requires
        d >= 2,
    ensures
        unsigned_magic(0x1_0000_0000, 32, d as int, r.mul_by as int, r.do_add, r.shift_by as int),
        r == spec_magic_u32(d),
{
    let mut do_add: bool = false;
    let mut p: i32 = 31;
    let nc: u32 = 0xFFFF_FFFFu32 - (0xFFFF_FFFFu32 - d + 1) % d;
    let ghost b: int = 0x1_0000_0000;
    let ghost hb: int = 0x8000_0000;
    proof {
        lemma_pow2_marks_32();
        lemma_unsigned_nc(b, hb, d as int);
    }
    let mut q1: u32 = 0x8000_0000u32 / nc;
    let mut r1: u32 = 0x8000_0000u32 % nc;
    let mut q2: u32 = 0x7FFF_FFFFu32 / d;
    let mut r2: u32 = 0x7FFF_FFFFu32 % d;
    let ghost mut tp: int = hb;
    let ghost mut gq1: int = q1 as int;
    let ghost mut gq2: int = q2 as int;
    proof {
        lemma_fundamental_div_mod(hb, nc as int);
        lemma_fundamental_div_mod(hb - 1, d as int);
        assert(nc * gq1 == gq1 * nc) by (nonlinear_arith);
        assert(d * gq2 == gq2 * d) by (nonlinear_arith);
        lemma_quotient_bound(gq2, d as int, r2 as int, hb - 1, 2, 0x4000_0000);
    }
    loop
        invariant_except_break
            2 <= d,
            b == 0x1_0000_0000,
            hb == 0x8000_0000,
            nc == unsigned_nc(b, d as int),
            hb <= nc < b,
            31 <= p < 64,
            tp == pow2(p as nat),
            unsigned_search(d as int, nc as int, tp, gq1, r1 as int, gq2, r2 as int),
            p <= 62 ==> gq1 == q1,
            gq2 == q2,
            gq2 + 1 < b,
            !do_add,
            forall|k: nat| 32 <= k <= p ==> #[trigger] unsigned_search_passes(b, 32, d as int, k),
        ensures
            32 <= p <= 64,
            !unsigned_search_passes(b, 32, d as int, p as nat),
            forall|k: nat| 32 <= k < p ==> #[trigger] unsigned_search_passes(b, 32, d as int, k),
            tp == pow2(p as nat),
            0 < gq2 + 1 < 2 * b,
            do_add == (gq2 + 1 >= b),
            q2 == gq2 % b,
            (gq2 + 1) * d == tp + (d - 1 - r2),
            0 <= r2 < d,
            nc * (d - 1 - r2) < tp,
        decreases 64 - p,
    {
        let ghost old_q1 = gq1;
        let ghost old_r1 = r1 as int;
        let ghost old_q2 = gq2;
        let ghost old_r2 = r2 as int;
        let ghost old_tp = tp;
        p = p + 1;
        if r1 >= nc - r1 {
            q1 = twice_plus_one_u32(q1);
            r1 = twice_minus_u32(r1, nc);
            proof {
                gq1 = 2 * gq1 + 1;
            }
        } else {
            q1 = twice_u32(q1);
            r1 = 2 * r1;
            proof {
                gq1 = 2 * gq1;
            }
        }
        if r2 + 1 >= d - r2 {
            if q2 >= 0x7FFF_FFFFu32 {
                do_add = true;
            }
            q2 = twice_plus_one_u32(q2);
            r2 = twice_plus_one_minus_u32(r2, d);
            proof {
                gq2 = 2 * gq2 + 1;
            }
        } else {
            if q2 >= 0x8000_0000u32 {
                do_add = true;
            }
            q2 = twice_u32(q2);
            r2 = 2 * r2 + 1;
            proof {
                gq2 = 2 * gq2;
            }
        }
        proof {
            tp = 2 * tp;
            lemma_pow2_unfold(p as nat);
            lemma_unsigned_search_step(d as int, nc as int, old_tp, old_q1, old_r1, old_q2, old_r2);
            assert(unsigned_search(d as int, nc as int, tp, gq1, r1 as int, gq2, r2 as int));
            assert(p <= 63 ==> gq1 <= b && q1 == (if gq1 < b {
                gq1
            } else {
                0
            })) by {
                if p <= 63 {
                    lemma_pow2_marks_32();
                    lemma_pow2_le(p as nat, 63);
                    lemma_quotient_bound(gq1, nc as int, r1 as int, tp, 0x8000_0000, 0x1_0000_0000);
                }
            }
            assert(p <= 62 ==> q1 == gq1) by {
                if p <= 62 {
                    lemma_pow2_marks_32();
                    lemma_pow2_le(p as nat, 62);
                    lemma_quotient_bound(gq1, nc as int, r1 as int, tp, 0x8000_0000, 0x8000_0000);
                }
            }
            assert(p == 64 ==> tp == b * b) by {
                lemma_pow2_marks_32();
            }
            assert(p == 63 ==> tp == b * hb) by {
                lemma_pow2_marks_32();
            }
            assert(p <= 63 ==> tp <= b * hb) by {
                if p <= 63 {
                    lemma_pow2_marks_32();
                    lemma_pow2_le(p as nat, 63);
                }
            }
        }
        let delta: u32 = d - 1 - r2;
        if !(p < 64 && (q1 < delta || (q1 == delta && r1 == 0))) {
            proof {
                lemma_unsigned_search_stops(b, hb, 32, p as nat, d as int, nc as int, tp, gq1, r1 as int, gq2, r2 as int, q1 as int);
            }
            break ;
        }
        proof {
            lemma_unsigned_search_goes_on(b, hb, 32, p as nat, d as int, nc as int, tp, gq1, r1 as int, gq2, r2 as int, q1 as int);
        }
    }
    let mul_by: u32 = q2.wrapping_add(1);
    proof {
        lemma_pow2_marks_32();
        lemma_unsigned_magic_found(b, 32, d as int, nc as int, p as nat, gq2 + 1, d - 1 - r2, mul_by as int, do_add);
    }
    let r = MU32 { mul_by, do_add, shift_by: p - 32 };
    proof {
        assert(unsigned_magic(0x1_0000_0000, 32, d as int, r.mul_by as int, r.do_add, r.shift_by as int));
        let c = spec_magic_u32(d);
        lemma_unsigned_magic_unique(
            0x1_0000_0000,
            32,
            d as int,
            r.mul_by as int,
            r.do_add,
            r.shift_by as int,
            c.mul_by as int,
            c.do_add,
            c.shift_by as int,
        );
    }
    r
}

/// The values of the powers of two at which a 64-bit search can stand.
proof fn lemma_pow2_marks_64()
    ensures
        pow2(63) == 0x8000_0000_0000_0000,
        pow2(64) == 0x1_0000_0000_0000_0000,
        pow2(126) == 0x4000_0000_0000_0000_0000_0000_0000_0000,
        pow2(127) == 0x8000_0000_0000_0000_0000_0000_0000_0000,
        pow2(128) == 0x1_0000_0000_0000_0000_0000_0000_0000_0000,
{
    lemma2_to64();
    lemma2_to64_rest();
    lemma_pow2_adds(63, 63);
    lemma_pow2_adds(63, 64);
    lemma_pow2_adds(64, 64);
}

/// `2 * x`, wrapped to 64 bits.
fn twice_u64(x: u64) -> (r: u64)
    ensures
        r == (2 * x) % 0x1_0000_0000_0000_0000,
{
    x.wrapping_mul(2)
}

/// `2 * x + 1`, wrapped to 64 bits.
fn twice_plus_one_u64(x: u64) -> (r: u64)
    ensures
        r == (2 * x + 1) % 0x1_0000_0000_0000_0000,
{
    x.wrapping_mul(2).wrapping_add(1)
}

/// `2 * x - y` where that is a 64-bit value, though `2 * x` may not be.
fn twice_minus_u64(x: u64, y: u64) -> (r: u64)
    requires
        0 <= 2 * x - y <= u64::MAX,
    ensures
        r == 2 * x - y,
{
    x.wrapping_mul(2).wrapping_sub(y)
}

/// `2 * x + 1 - y` where that is a 64-bit value, though `2 * x + 1` may not
/// be.
fn twice_plus_one_minus_u64(x: u64, y: u64) -> (r: u64)
    requires
        0 <= 2 * x + 1 - y <= u64::MAX,
    ensures
        r == 2 * x + 1 - y,
{
    x.wrapping_mul(2).wrapping_add(1).wrapping_sub(y)
}

/// Multiplier and shift for unsigned 64-bit division by `d`.
///
/// The quotient of `n` by `d` is the high word of `n * mul_by`, shifted
/// right by `shift_by`; when `do_add` is set the multiplier has a 65th bit,
/// and the caller adds `n` in before the last bit of the shift.
pub fn magic_u64(d: u64) -> (r: MU64)
    requires
        d >= 2,
    ensures
        unsigned_magic(0x1_0000_0000_0000_0000, 64, d as int, r.mul_by as int, r.do_add, r.shift_by as int),
        r == spec_magic_u64(d),
{
    let mut do_add: bool = false;
    let mut p: i32 = 63;
    let nc: u64 = 0xFFFF_FFFF_FFFF_FFFFu64 - (0xFFFF_FFFF_FFFF_FFFFu64 - d + 1) % d;
    let ghost b: int = 0x1_0000_0000_0000_0000;
    let ghost hb: int = 0x8000_0000_0000_0000;
    proof {
        lemma_pow2_marks_64();
        lemma_unsigned_nc(b, hb, d as int);
    }
    let mut q1: u64 = 0x8000_0000_0000_0000u64 / nc;
    let mut r1: u64 = 0x8000_0000_0000_0000u64 % nc;
    let mut q2: u64 = 0x7FFF_FFFF_FFFF_FFFFu64 / d;
    let mut r2: u64 = 0x7FFF_FFFF_FFFF_FFFFu64 % d;
    let ghost mut tp: int = hb;
    let ghost mut gq1: int = q1 as int;
    let ghost mut gq2: int = q2 as int;
    proof {
        lemma_fundamental_div_mod(hb, nc as int);
        lemma_fundamental_div_mod(hb - 1, d as int);
        assert(nc * gq1 == gq1 * nc) by (nonlinear_arith);
        assert(d * gq2 == gq2 * d) by (nonlinear_arith);
        lemma_quotient_bound(gq2, d as int, r2 as int, hb - 1, 2, 0x4000_0000_0000_0000);
    }
    loop
        invariant_except_break
            2 <= d,
            b == 0x1_0000_0000_0000_0000,
            hb == 0x8000_0000_0000_0000,
            nc == unsigned_nc(b, d as int),
            hb <= nc < b,
            63 <= p < 128,
            tp == pow2(p as nat),
            unsigned_search(d as int, nc as int, tp, gq1, r1 as int, gq2, r2 as int),
            p <= 126 ==> gq1 == q1,
            gq2 == q2,
            gq2 + 1 < b,
            !do_add,
            forall|k: nat| 64 <= k <= p ==> #[trigger] unsigned_search_passes(b, 64, d as int, k),
        ensures
            64 <= p <= 128,
            !unsigned_search_passes(b, 64, d as int, p as nat),
            forall|k: nat| 64 <= k < p ==> #[trigger] unsigned_search_passes(b, 64, d as int, k),
            tp == pow2(p as nat),
            0 < gq2 + 1 < 2 * b,
            do_add == (gq2 + 1 >= b),
            q2 == gq2 % b,
            (gq2 + 1) * d == tp + (d - 1 - r2),
            0 <= r2 < d,
            nc * (d - 1 - r2) < tp,
        decreases 128 - p,
    {
        let ghost old_q1 = gq1;
        let ghost old_r1 = r1 as int;
        let ghost old_q2 = gq2;
        let ghost old_r2 = r2 as int;
        let ghost old_tp = tp;
        p = p + 1;
        if r1 >= nc - r1 {
            q1 = twice_plus_one_u64(q1);
            r1 = twice_minus_u64(r1, nc);
            proof {
                gq1 = 2 * gq1 + 1;
            }
        } else {
            q1 = twice_u64(q1);
            r1 = 2 * r1;
            proof {
                gq1 = 2 * gq1;
            }
        }
        if r2 + 1 >= d - r2 {
            if q2 >= 0x7FFF_FFFF_FFFF_FFFFu64 {
                do_add = true;
            }
            q2 = twice_plus_one_u64(q2);
            r2 = twice_plus_one_minus_u64(r2, d);
            proof {
                gq2 = 2 * gq2 + 1;
            }
        } else {
            if q2 >= 0x8000_0000_0000_0000u64 {
                do_add = true;
            }
            q2 = twice_u64(q2);
            r2 = 2 * r2 + 1;
            proof {
                gq2 = 2 * gq2;
            }
        }
        proof {
            tp = 2 * tp;
            lemma_pow2_unfold(p as nat);
            lemma_unsigned_search_step(d as int, nc as int, old_tp, old_q1, old_r1, old_q2, old_r2);
            assert(unsigned_search(d as int, nc as int, tp, gq1, r1 as int, gq2, r2 as int));
            assert(p <= 127 ==> gq1 <= b && q1 == (if gq1 < b {
                gq1
            } else {
                0
            })) by {
                if p <= 127 {
                    lemma_pow2_marks_64();
                    lemma_pow2_le(p as nat, 127);
                    lemma_quotient_bound(gq1, nc as int, r1 as int, tp, 0x8000_0000_0000_0000, 0x1_0000_0000_0000_0000);
                }
            }
            assert(p <= 126 ==> q1 == gq1) by {
                if p <= 126 {
                    lemma_pow2_marks_64();
                    lemma_pow2_le(p as nat, 126);
                    lemma_quotient_bound(gq1, nc as int, r1 as int, tp, 0x8000_0000_0000_0000, 0x8000_0000_0000_0000);
                }
            }
            assert(p == 128 ==> tp == b * b) by {
                lemma_pow2_marks_64();
            }
            assert(p == 127 ==> tp == b * hb) by {
                lemma_pow2_marks_64();
            }
            assert(p <= 127 ==> tp <= b * hb) by {
                if p <= 127 {
                    lemma_pow2_marks_64();
                    lemma_pow2_le(p as nat, 127);
                }
            }
        }
        let delta: u64 = d - 1 - r2;
        if !(p < 128 && (q1 < delta || (q1 == delta && r1 == 0))) {
            proof {
                lemma_unsigned_search_stops(b, hb, 64, p as nat, d as int, nc as int, tp, gq1, r1 as int, gq2, r2 as int, q1 as int);
            }
            break ;
        }
        proof {
            lemma_unsigned_search_goes_on(b, hb, 64, p as nat, d as int, nc as int, tp, gq1, r1 as int, gq2, r2 as int, q1 as int);
        }
    }
    let mul_by: u64 = q2.wrapping_add(1);
    proof {
        lemma_pow2_marks_64();
        lemma_unsigned_magic_found(b, 64, d as int, nc as int, p as nat, gq2 + 1, d - 1 - r2, mul_by as int, do_add);
    }
    let r = MU64 { mul_by, do_add, shift_by: p - 64 };
    proof {
        assert(unsigned_magic(0x1_0000_0000_0000_0000, 64, d as int, r.mul_by as int, r.do_add, r.shift_by as int));
        let c = spec_magic_u64(d);
        lemma_unsigned_magic_unique(
            0x1_0000_0000_0000_0000,
            64,
            d as int,
            r.mul_by as int,
            r.do_add,
            r.shift_by as int,
            c.mul_by as int,
            c.do_add,
            c.shift_by as int,
        );
    }
    r
}

/// What makes `(mul_by, shift_by)` a multiplier for signed division by `d`
/// in words of `modulus` values.
///
/// The magnitude of the multiplier is the first multiple-quotient above
/// `modulus * 2^shift_by / |d|`; `mul_by` is its two's complement reading,
/// negated for a negative divisor.
pub open spec fn signed_magic(modulus: int, bits: int, d: int, mul_by: int, shift_by: int) -> bool {
    let hb = modulus / 2;
    let ts = pow2(shift_by as nat) as int;
    let m = if d > 0 {
        mul_by % modulus
    } else {
        (-mul_by) % modulus
    };
    &&& 0 <= shift_by <= bits - 1
    &&& -hb <= mul_by < hb
    &&& mul_by != 0
    &&& modulus * ts < m * abs(d) <= modulus * ts + abs(d)
    &&& !signed_search_passes(hb, d, (bits + shift_by) as nat)
    &&& forall|k: nat| bits <= k < bits + shift_by ==> #[trigger] signed_search_passes(hb, d, k)
    &&& forall|n: int|
        -hb <= n < hb ==> #[trigger] signed_magic_result(modulus, ts, n, d, mul_by) == trunc_div(
            n,
            d,
        )
    &&& forall|n: int| -hb <= n < hb ==> -hb <= #[trigger] signed_magic_high(modulus, n, d, mul_by) < hb
}

/// From the state in which the search stopped to the multiplier's law.
proof fn lemma_signed_magic_found(b: int, hb: int, bits: nat, d: int, p: nat, m: int, e: int)
    requires
        b == pow2(bits),
        hb == pow2((bits - 1) as nat),
        bits >= 4,
        2 <= abs(d) <= hb,
        d < hb,
        bits <= p,
        m * abs(d) == pow2(p) + e,
        1 <= e <= abs(d),
        signed_anc(hb, d) * e < pow2(p),
        0 < m < b,
        !signed_search_passes(hb, d, p),
        forall|k: nat| bits <= k < p ==> #[trigger] signed_search_passes(hb, d, k),
    ensures
        p <= 2 * bits - 2,
        signed_magic(b, bits as int, d, signed_multiplier(b, d, m), p - bits),
{
    let s = (p - bits) as nat;
    let tp = pow2(p) as int;
    let ts = pow2(s) as int;
    let ad = abs(d);
    let mul_by = signed_multiplier(b, d, m);
    lemma_pow2_adds(bits, s);
    lemma_pow2_unfold(bits);
    lemma_pow2_le(3, (bits - 1) as nat);
    lemma_pow2_unfold((bits - 1) as nat);
    lemma_pow2_unfold(1);
    lemma_pow2_unfold(2);
    lemma_pow2_unfold(3);
    vstd::arithmetic::power2::lemma_pow2_pos(s);
    vstd::arithmetic::power2::lemma_pow2_pos(0);
    assert(hb >= 8 && hb % 2 == 0 && b == 2 * hb);
    assert(tp == b * ts);
    // the power of two stays below the modulus times its half
    assert(tp < b * hb) by (nonlinear_arith)
        requires
            m * ad == tp + e,
            e >= 1,
            0 < m < b,
            2 <= ad <= hb,
    ;
    if p >= 2 * bits - 1 {
        lemma_pow2_adds(bits, (bits - 1) as nat);
        lemma_pow2_le((2 * bits - 1) as nat, p);
        assert(false);
    }
    if d > 0 {
        if 2 * m >= b {
            lemma_fundamental_div_mod_converse(mul_by, b, -1, m);
        } else {
            lemma_fundamental_div_mod_converse(mul_by, b, 0, m);
        }
    } else {
        if 2 * (b - m) >= b {
            lemma_fundamental_div_mod_converse(-mul_by, b, 0, m);
        } else {
            lemma_fundamental_div_mod_converse(-mul_by, b, -1, m);
        }
    }
    assert forall|n: int| -hb <= n < hb implies #[trigger] signed_magic_result(b, ts, n, d, mul_by)
        == trunc_div(n, d) by {
        lemma_signed_magic_at(b, hb, d, m, e, ts, n);
    }
    assert forall|n: int| -hb <= n < hb implies -hb <= #[trigger] signed_magic_high(b, n, d, mul_by)
        < hb by {
        lemma_signed_magic_at(b, hb, d, m, e, ts, n);
    }
    lemma_signed_magic_at(b, hb, d, m, e, ts, 0);
}

/// Multiplier and shift for signed 32-bit division by `d`.
///
/// The quotient of `n` by `d`, rounded toward zero, is the high word of
/// `n * mul_by`, corrected by `n` where the multiplier's sign differs from
/// the divisor's, shifted right arithmetically by `shift_by`, plus its own
/// sign bit.
pub fn magic_s32(d: i32) -> (r: MS32)
    requires
        d != -1,
        d != 0,
        d != 1,
    ensures
        signed_magic(0x1_0000_0000, 32, d as int, r.mul_by as int, r.shift_by as int),
        r == spec_magic_s32(d),
{
    let two31: u32 = 0x8000_0000u32;
    let mut p: i32 = 31;
    let ad: u32 = magnitude_i32(d);
    let t: u32 = if d < 0 {
        two31 + 1
    } else {
        two31
    };
    let ghost b: int = 0x1_0000_0000;
    let ghost hb: int = 0x8000_0000;
    proof {
        lemma_pow2_marks_32();
        lemma_signed_anc(hb, d as int);
    }
    let anc: u32 = t - 1 - t % ad;
    let mut q1: u32 = two31 / anc;
    let mut r1: u32 = two31 % anc;
    let mut q2: u32 = two31 / ad;
    let mut r2: u32 = two31 % ad;
    proof {
        lemma_fundamental_div_mod(hb, anc as int);
        lemma_fundamental_div_mod(hb, ad as int);
        assert(anc * q1 == q1 * anc) by (nonlinear_arith);
        assert(ad * q2 == q2 * ad) by (nonlinear_arith);
        lemma_quotient_bound(q1 as int, anc as int, r1 as int, hb, 2, 0x4000_0000);
        lemma_quotient_bound(q2 as int, ad as int, r2 as int, hb, 2, 0x4000_0000);
    }
    loop
        invariant_except_break
            2 <= ad <= hb,
            d < hb,
            ad == abs(d as int),
            b == 0x1_0000_0000,
            hb == 0x8000_0000,
            anc == signed_anc(hb, d as int),
            2 <= anc <= hb,
            31 <= p <= 62,
            signed_search(ad as int, anc as int, pow2(p as nat) as int, q1 as int, r1 as int, q2 as int, r2 as int),
            q1 <= hb - 1,
            q2 + 1 <= hb,
            q2 + 1 == hb ==> r2 == 0,
            forall|k: nat| 32 <= k <= p ==> #[trigger] signed_search_passes(hb, d as int, k),
        ensures
            32 <= p <= 63,
            !signed_search_passes(hb, d as int, p as nat),
            forall|k: nat| 32 <= k < p ==> #[trigger] signed_search_passes(hb, d as int, k),
            0 < q2 + 1 < b,
            (q2 + 1) * ad == pow2(p as nat) + (ad - r2),
            0 <= r2 < ad,
            anc * (ad - r2) < pow2(p as nat),
        decreases 63 - p,
    {
        proof {
            lemma_signed_search_step(ad as int, anc as int, pow2(p as nat) as int, q1 as int, r1 as int, q2 as int, r2 as int);
            lemma_pow2_unfold((p + 1) as nat);
        }
        p = p + 1;
        q1 = 2 * q1;
        r1 = 2 * r1;
        if r1 >= anc {
            q1 = q1 + 1;
            r1 = r1 - anc;
        }
        q2 = 2 * q2;
        r2 = 2 * r2;
        if r2 >= ad {
            q2 = q2 + 1;
            r2 = r2 - ad;
        }
        let delta: u32 = ad - r2;
        if !(q1 < delta || (q1 == delta && r1 == 0)) {
            proof {
                lemma_signed_search_stops(hb, d as int, p as nat, q1 as int, r1 as int, q2 as int, r2 as int);
            }
            break ;
        }
        proof {
            lemma_pow2_marks_32();
            lemma_pow2_adds(32, (p - 32) as nat);
            vstd::arithmetic::power2::lemma_pow2_pos((p - 32) as nat);
            lemma_signed_search_goes_on(hb, d as int, p as nat, pow2((p - 32) as nat) as int, q1 as int, r1 as int, q2 as int, r2 as int);
            if p >= 63 {
                lemma_pow2_le(63, p as nat);
                assert(false);
            }
        }
    }
    let m: u32 = q2 + 1;
    let um: u32 = if d < 0 {
        0u32.wrapping_sub(m)
    } else {
        m
    };
    proof {
        lemma_pow2_marks_32();
        lemma_signed_magic_found(b, hb, 32, d as int, p as nat, m as int, ad - r2);
    }
    let r = MS32 { mul_by: u32_as_i32(um), shift_by: p - 32 };
    proof {
        let c = spec_magic_s32(d);
        lemma_signed_magic_unique(
            0x1_0000_0000,
            32,
            d as int,
            r.mul_by as int,
            r.shift_by as int,
            c.mul_by as int,
            c.shift_by as int,
        );
    }
    r
}

/// Multiplier and shift for signed 64-bit division by `d`.
///
/// The quotient of `n` by `d`, rounded toward zero, is the high word of
/// `n * mul_by`, corrected by `n` where the multiplier's sign differs from
/// the divisor's, shifted right arithmetically by `shift_by`, plus its own
/// sign bit.
pub fn magic_s64(d: i64) -> (r: MS64)
    requires
        d != -1,
        d != 0,
        d != 1,
    ensures
        signed_magic(0x1_0000_0000_0000_0000, 64, d as int, r.mul_by as int, r.shift_by as int),
        r == spec_magic_s64(d),
{
    let two63: u64 = 0x8000_0000_0000_0000u64;
    let mut p: i32 = 63;
    let ad: u64 = magnitude_i64(d);
    let t: u64 = if d < 0 {
        two63 + 1
    } else {
        two63
    };
    let ghost b: int = 0x1_0000_0000_0000_0000;
    let ghost hb: int = 0x8000_0000_0000_0000;
    proof {
        lemma_pow2_marks_64();
        lemma_signed_anc(hb, d as int);
    }
    let anc: u64 = t - 1 - t % ad;
    let mut q1: u64 = two63 / anc;
    let mut r1: u64 = two63 % anc;
    let mut q2: u64 = two63 / ad;
    let mut r2: u64 = two63 % ad;
    proof {
        lemma_fundamental_div_mod(hb, anc as int);
        lemma_fundamental_div_mod(hb, ad as int);
        assert(anc * q1 == q1 * anc) by (nonlinear_arith);
        assert(ad * q2 == q2 * ad) by (nonlinear_arith);
        lemma_quotient_bound(q1 as int, anc as int, r1 as int, hb, 2, 0x4000_0000_0000_0000);
        lemma_quotient_bound(q2 as int, ad as int, r2 as int, hb, 2, 0x4000_0000_0000_0000);
    }
    loop
        invariant_except_break
            2 <= ad <= hb,
            d < hb,
            ad == abs(d as int),
            b == 0x1_0000_0000_0000_0000,
            hb == 0x8000_0000_0000_0000,
            anc == signed_anc(hb, d as int),
            2 <= anc <= hb,
            63 <= p <= 126,
            signed_search(ad as int, anc as int, pow2(p as nat) as int, q1 as int, r1 as int, q2 as int, r2 as int),
            q1 <= hb - 1,
            q2 + 1 <= hb,
            q2 + 1 == hb ==> r2 == 0,
            forall|k: nat| 64 <= k <= p ==> #[trigger] signed_search_passes(hb, d as int, k),
        ensures
            64 <= p <= 127,
            !signed_search_passes(hb, d as int, p as nat),
            forall|k: nat| 64 <= k < p ==> #[trigger] signed_search_passes(hb, d as int, k),
            0 < q2 + 1 < b,
            (q2 + 1) * ad == pow2(p as nat) + (ad - r2),
            0 <= r2 < ad,
            anc * (ad - r2) < pow2(p as nat),
        decreases 127 - p,
    {
        proof {
            lemma_signed_search_step(ad as int, anc as int, pow2(p as nat) as int, q1 as int, r1 as int, q2 as int, r2 as int);
            lemma_pow2_unfold((p + 1) as nat);
        }
        p = p + 1;
        q1 = 2 * q1;
        r1 = 2 * r1;
        if r1 >= anc {
            q1 = q1 + 1;
            r1 = r1 - anc;
        }
        q2 = 2 * q2;
        r2 = 2 * r2;
        if r2 >= ad {
            q2 = q2 + 1;
            r2 = r2 - ad;
        }
        let delta: u64 = ad - r2;
        if !(q1 < delta || (q1 == delta && r1 == 0)) {
            proof {
                lemma_signed_search_stops(hb, d as int, p as nat, q1 as int, r1 as int, q2 as int, r2 as int);
            }
            break ;
        }
        proof {
            lemma_pow2_marks_64();
            lemma_pow2_adds(64, (p - 64) as nat);
            vstd::arithmetic::power2::lemma_pow2_pos((p - 64) as nat);
            lemma_signed_search_goes_on(hb, d as int, p as nat, pow2((p - 64) as nat) as int, q1 as int, r1 as int, q2 as int, r2 as int);
            if p >= 127 {
                lemma_pow2_le(127, p as nat);
                assert(false);
            }
        }
    }
    let m: u64 = q2 + 1;
    let um: u64 = if d < 0 {
        0u64.wrapping_sub(m)
    } else {
        m
    };
    proof {
        lemma_pow2_marks_64();
        lemma_signed_magic_found(b, hb, 64, d as int, p as nat, m as int, ad - r2);
    }
    let r = MS64 { mul_by: u64_as_i64(um), shift_by: p - 64 };
    proof {
        let c = spec_magic_s64(d);
        lemma_signed_magic_unique(
            0x1_0000_0000_0000_0000,
            64,
            d as int,
            r.mul_by as int,
            r.shift_by as int,
            c.mul_by as int,
            c.shift_by as int,
        );
    }
    r
}

/// At most one multiplier meets [`unsigned_magic`] for a divisor.
pub proof fn lemma_unsigned_magic_unique(
    modulus: int,
    bits: int,
    d: int,
    mul_by_1: int,
    do_add_1: bool,
    shift_by_1: int,
    mul_by_2: int,
    do_add_2: bool,
    shift_by_2: int,
)
    requires
        bits >= 0,
        modulus > 0,
        d > 0,
        unsigned_magic(modulus, bits, d, mul_by_1, do_add_1, shift_by_1),
        unsigned_magic(modulus, bits, d, mul_by_2, do_add_2, shift_by_2),
    ensures
        mul_by_1 == mul_by_2,
        do_add_1 == do_add_2,
        shift_by_1 == shift_by_2,
{
    if shift_by_1 < shift_by_2 {
        assert(unsigned_search_passes(modulus, bits as nat, d, (bits + shift_by_1) as nat));
    }
    if shift_by_2 < shift_by_1 {
        assert(unsigned_search_passes(modulus, bits as nat, d, (bits + shift_by_2) as nat));
    }
    let tp = modulus * pow2(shift_by_1 as nat);
    let m1 = unsigned_multiplier(modulus, mul_by_1, do_add_1);
    let m2 = unsigned_multiplier(modulus, mul_by_2, do_add_2);
    assert(m1 == m2) by (nonlinear_arith)
        requires
            tp <= m1 * d < tp + d,
            tp <= m2 * d < tp + d,
            d > 0,
    ;
}

/// At most one multiplier meets [`signed_magic`] for a divisor.
pub proof fn lemma_signed_magic_unique(
    modulus: int,
    bits: int,
    d: int,
    mul_by_1: int,
    shift_by_1: int,
    mul_by_2: int,
    shift_by_2: int,
)
    requires
        bits >= 0,
        modulus > 0,
        modulus % 2 == 0,
        d != 0,
        signed_magic(modulus, bits, d, mul_by_1, shift_by_1),
        signed_magic(modulus, bits, d, mul_by_2, shift_by_2),
    ensures
        mul_by_1 == mul_by_2,
        shift_by_1 == shift_by_2,
{
    let hb = modulus / 2;
    if shift_by_1 < shift_by_2 {
        assert(signed_search_passes(hb, d, (bits + shift_by_1) as nat));
    }
    if shift_by_2 < shift_by_1 {
        assert(signed_search_passes(hb, d, (bits + shift_by_2) as nat));
    }
    let tp = modulus * pow2(shift_by_1 as nat);
    let ad = abs(d);
    let x1 = if d > 0 {
        mul_by_1
    } else {
        -mul_by_1
    };
    let x2 = if d > 0 {
        mul_by_2
    } else {
        -mul_by_2
    };
    let m1 = x1 % modulus;
    let m2 = x2 % modulus;
    assert(m1 == m2) by (nonlinear_arith)
        requires
            tp < m1 * ad <= tp + ad,
            tp < m2 * ad <= tp + ad,
            ad > 0,
    ;
    lemma_fundamental_div_mod(x1, modulus);
    lemma_fundamental_div_mod(x2, modulus);
    let q1 = x1 / modulus;
    let q2 = x2 / modulus;
    assert(q1 == q2) by (nonlinear_arith)
        requires
            x1 == modulus * q1 + m1,
            x2 == modulus * q2 + m2,
            m1 == m2,
            -modulus < x1 - x2 < modulus,
            modulus > 0,
    ;
}

/// The search for an unsigned multiplier stops at some power, at the
/// latest at twice the width.
proof fn lemma_unsigned_stop_exists(b: int, hb: int, bits: nat, d: int, from: nat) -> (s: nat)
    requires
        b == pow2(bits),
        hb >= 2,
        b == 2 * hb,
        2 <= d < b,
        bits <= from <= 2 * bits,
        forall|k: nat| bits <= k < from ==> #[trigger] unsigned_search_passes(b, bits, d, k),
    ensures
        from <= s <= 2 * bits,
        !unsigned_search_passes(b, bits, d, s),
        forall|k: nat| bits <= k < s ==> #[trigger] unsigned_search_passes(b, bits, d, k),
    decreases 2 * bits - from,
{
    if !unsigned_search_passes(b, bits, d, from) {
        from
    } else {
        if from == 2 * bits {
            let nc = unsigned_nc(b, d);
            let e = unsigned_excess(d, from);
            lemma_unsigned_nc(b, hb, d);
            lemma_pow2_adds(bits, bits);
            assert(nc * e < b * b) by (nonlinear_arith)
                requires
                    0 <= nc < b,
                    e < b,
            ;
            assert(false);
        }
        lemma_unsigned_stop_exists(b, hb, bits, d, from + 1)
    }
}

/// Every divisor from two up has an unsigned multiplier.
pub proof fn lemma_unsigned_magic_exists(b: int, hb: int, bits: nat, d: int) -> (r: (int, bool, int))
    requires
        b == pow2(bits),
        hb == pow2((bits - 1) as nat),
        bits >= 2,
        2 <= d < b,
    ensures
        unsigned_magic(b, bits as int, d, r.0, r.1, r.2),
        0 <= r.0 < b,
        0 <= r.2 <= bits,
{
    lemma_pow2_unfold(bits);
    lemma_pow2_unfold(1);
    lemma_pow2_le(1, (bits - 1) as nat);
    lemma2_to64();
    let nc = unsigned_nc(b, d);
    lemma_unsigned_nc(b, hb, d);
    let s = lemma_unsigned_stop_exists(b, hb, bits, d, bits);
    let tp = pow2(s) as int;
    lemma_pow2_pos(s);
    lemma_pow2_le(bits, s);
    let q2 = (tp - 1) / d;
    let r2 = (tp - 1) % d;
    let e = d - 1 - r2;
    let m = q2 + 1;
    lemma_fundamental_div_mod(tp - 1, d);
    assert(m * d == tp + e) by (nonlinear_arith)
        requires
            tp - 1 == d * q2 + r2,
            m == q2 + 1,
            e == d - 1 - r2,
    ;
    assert(q2 >= 0) by (nonlinear_arith)
        requires
            tp - 1 == d * q2 + r2,
            0 <= r2 < d,
            tp >= 1,
    ;
    assert(e == unsigned_excess(d, s));
    if s == bits {
        lemma_quotient_bound(q2, d, r2, tp - 1, 2, hb);
        assert(d * q2 == q2 * d) by (nonlinear_arith);
    } else {
        let p = (s - 1) as nat;
        let tq = pow2(p) as int;
        lemma_pow2_unfold(s);
        lemma_pow2_pos(p);
        lemma_pow2_le(bits, p);
        lemma_pow2_le(p, (2 * bits - 1) as nat);
        lemma_pow2_adds(bits, (bits - 1) as nat);
        let q1 = tq / nc;
        let r1 = tq % nc;
        let q2p = (tq - 1) / d;
        let r2p = (tq - 1) % d;
        lemma_fundamental_div_mod(tq, nc);
        lemma_fundamental_div_mod(tq - 1, d);
        assert(nc * q1 == q1 * nc) by (nonlinear_arith);
        assert(d * q2p == q2p * d) by (nonlinear_arith);
        assert(q1 >= 0) by (nonlinear_arith)
            requires
                tq == nc * q1 + r1,
                0 <= r1 < nc,
                tq >= 1,
        ;
        assert(q2p >= 0) by (nonlinear_arith)
            requires
                tq - 1 == d * q2p + r2p,
                0 <= r2p < d,
                tq >= 1,
        ;
        assert(unsigned_search(d, nc, tq, q1, r1, q2p, r2p));
        assert(unsigned_search_passes(b, bits, d, p));
        let ep = d - 1 - r2p;
        assert(ep == unsigned_excess(d, p));
        let q1w = if tq <= nc * ep {
            q1
        } else {
            0
        };
        if tq <= nc * ep {
            assert(q1 < ep || (q1 == ep && r1 == 0)) by (nonlinear_arith)
                requires
                    tq == nc * q1 + r1,
                    0 <= r1 < nc,
                    tq <= nc * ep,
            ;
        } else {
            // the quotient has reached the modulus
            assert(p == 2 * bits - 1 && nc == hb);
            assert(tq == b * hb);
            assert(q1 == b && r1 == 0) by (nonlinear_arith)
                requires
                    tq == nc * q1 + r1,
                    0 <= r1 < nc,
                    nc == hb,
                    tq == b * hb,
                    hb >= 2,
            ;
        }
        lemma_unsigned_search_goes_on(b, hb, bits, p, d, nc, tq, q1, r1, q2p, r2p, q1w);
        lemma_unsigned_search_step(d, nc, tq, q1, r1, q2p, r2p);
        let q2n = if r2p + 1 >= d - r2p {
            2 * q2p + 1
        } else {
            2 * q2p
        };
        let r2n = if r2p + 1 >= d - r2p {
            2 * r2p + 1 - d
        } else {
            2 * r2p + 1
        };
        assert(q2n * d + r2n == tp - 1);
        assert(q2n * d == d * q2n) by (nonlinear_arith);
        lemma_fundamental_div_mod_converse(tp - 1, d, q2n, r2n);
        assert(q2 == q2n);
    }
    let do_add = m >= b;
    let mul_by = if do_add {
        m - b
    } else {
        m
    };
    assert(nc * e < tp);
    lemma_unsigned_magic_found(b, bits, d, nc, s, m, e, mul_by, do_add);
    (mul_by, do_add, s - bits)
}

/// The search for a signed multiplier stops at some power below twice the
/// width.
proof fn lemma_signed_stop_exists(hb: int, bits: nat, d: int, from: nat) -> (s: nat)
    requires
        hb == pow2((bits - 1) as nat),
        bits >= 4,
        2 <= abs(d) <= hb,
        d < hb,
        bits <= from <= 2 * bits - 1,
        forall|k: nat| bits <= k < from ==> #[trigger] signed_search_passes(hb, d, k),
    ensures
        from <= s <= 2 * bits - 1,
        !signed_search_passes(hb, d, s),
        forall|k: nat| bits <= k < s ==> #[trigger] signed_search_passes(hb, d, k),
    decreases 2 * bits - 1 - from,
{
    if !signed_search_passes(hb, d, from) {
        from
    } else {
        if from == 2 * bits - 1 {
            let anc = signed_anc(hb, d);
            let e = signed_excess(d, from);
            lemma_pow2_le(3, (bits - 1) as nat);
            lemma2_to64();
            lemma_signed_anc(hb, d);
            lemma_pow2_adds((bits - 1) as nat, (bits - 1) as nat);
            lemma_pow2_unfold((2 * bits - 1) as nat);
            assert(anc * e <= hb * hb) by (nonlinear_arith)
                requires
                    0 <= anc <= hb,
                    0 <= e <= hb,
            ;
            assert(hb * hb > 0) by (nonlinear_arith)
                requires
                    hb >= 2,
            ;
            assert(false);
        }
        lemma_signed_stop_exists(hb, bits, d, from + 1)
    }
}

/// Every divisor other than zero, one and minus one has a signed
/// multiplier.
pub proof fn lemma_signed_magic_exists(b: int, hb: int, bits: nat, d: int) -> (r: (int, int))
    requires
        b == pow2(bits),
        hb == pow2((bits - 1) as nat),
        bits >= 4,
        2 <= abs(d) <= hb,
        d < hb,
    ensures
        signed_magic(b, bits as int, d, r.0, r.1),
        -hb <= r.0 < hb,
        0 <= r.1 < bits,
{
    lemma_pow2_unfold(bits);
    lemma_pow2_le(3, (bits - 1) as nat);
    lemma2_to64();
    let ad = abs(d);
    let anc = signed_anc(hb, d);
    lemma_signed_anc(hb, d);
    let s = lemma_signed_stop_exists(hb, bits, d, bits);
    let tp = pow2(s) as int;
    lemma_pow2_pos(s);
    let q2 = tp / ad;
    let r2 = tp % ad;
    let e = ad - r2;
    let m = q2 + 1;
    lemma_fundamental_div_mod(tp, ad);
    assert(m * ad == tp + e) by (nonlinear_arith)
        requires
            tp == ad * q2 + r2,
            m == q2 + 1,
            e == ad - r2,
    ;
    assert(q2 >= 0) by (nonlinear_arith)
        requires
            tp == ad * q2 + r2,
            0 <= r2 < ad,
            tp >= 1,
    ;
    assert(e == signed_excess(d, s));
    if s == bits {
        assert(ad * q2 == q2 * ad) by (nonlinear_arith);
        lemma_quotient_bound(q2, ad, r2, tp, 2, hb);
    } else {
        let p = (s - 1) as nat;
        let tq = pow2(p) as int;
        lemma_pow2_unfold(s);
        lemma_pow2_pos(p);
        lemma_pow2_adds(bits, (p - bits) as nat);
        lemma_pow2_pos((p - bits) as nat);
        let q1 = tq / anc;
        let r1 = tq % anc;
        let q2p = tq / ad;
        let r2p = tq % ad;
        lemma_fundamental_div_mod(tq, anc);
        lemma_fundamental_div_mod(tq, ad);
        assert(anc * q1 == q1 * anc) by (nonlinear_arith);
        assert(ad * q2p == q2p * ad) by (nonlinear_arith);
        assert(q1 >= 0) by (nonlinear_arith)
            requires
                tq == anc * q1 + r1,
                0 <= r1 < anc,
                tq >= 1,
        ;
        assert(q2p >= 0) by (nonlinear_arith)
            requires
                tq == ad * q2p + r2p,
                0 <= r2p < ad,
                tq >= 1,
        ;
        assert(signed_search(ad, anc, tq, q1, r1, q2p, r2p));
        assert(signed_search_passes(hb, d, p));
        let ep = ad - r2p;
        assert(ep == signed_excess(d, p));
        assert(q1 < ep || (q1 == ep && r1 == 0)) by (nonlinear_arith)
            requires
                tq == anc * q1 + r1,
                0 <= r1 < anc,
                tq <= anc * ep,
        ;
        lemma_pow2_unfold((bits - 1) as nat);
        assert(hb % 2 == 0);
        lemma_signed_search_goes_on(hb, d, p, pow2((p - bits) as nat) as int, q1, r1, q2p, r2p);
        lemma_signed_search_step(ad, anc, tq, q1, r1, q2p, r2p);
        let q2n = if 2 * r2p >= ad {
            2 * q2p + 1
        } else {
            2 * q2p
        };
        let r2n = if 2 * r2p >= ad {
            2 * r2p - ad
        } else {
            2 * r2p
        };
        assert(q2n * ad + r2n == tp);
        assert(q2n * ad == ad * q2n) by (nonlinear_arith);
        lemma_fundamental_div_mod_converse(tp, ad, q2n, r2n);
        assert(q2 == q2n);
    }
    assert(anc * e < tp);
    lemma_signed_magic_found(b, hb, bits, d, s, m, e);
    (signed_multiplier(b, d, m), s - bits)
}

/// The multiplier for unsigned 32-bit division by `d`.
pub open spec fn spec_magic_u32(d: u32) -> MU32 {
    choose|r: MU32| unsigned_magic(0x1_0000_0000, 32, d as int, r.mul_by as int, r.do_add, r.shift_by as int)
}

/// The multiplier for unsigned 64-bit division by `d`.
pub open spec fn spec_magic_u64(d: u64) -> MU64 {
    choose|r: MU64|
        unsigned_magic(
            0x1_0000_0000_0000_0000,
            64,
            d as int,
            r.mul_by as int,
            r.do_add,
            r.shift_by as int,
        )
}

/// The multiplier for signed 32-bit division by `d`.
pub open spec fn spec_magic_s32(d: i32) -> MS32 {
    choose|r: MS32| signed_magic(0x1_0000_0000, 32, d as int, r.mul_by as int, r.shift_by as int)
}

/// The multiplier for signed 64-bit division by `d`.
pub open spec fn spec_magic_s64(d: i64) -> MS64 {
    choose|r: MS64| signed_magic(0x1_0000_0000_0000_0000, 64, d as int, r.mul_by as int, r.shift_by as int)
}

/// The multiplier for unsigned 32-bit division meets [`unsigned_magic`].
pub proof fn lemma_spec_magic_u32(d: u32)
    requires
        d >= 2,
    ensures
        unsigned_magic(
            0x1_0000_0000,
            32,
            d as int,
            spec_magic_u32(d).mul_by as int,
            spec_magic_u32(d).do_add,
            spec_magic_u32(d).shift_by as int,
        ),
{
    lemma_pow2_marks_32();
    let r = lemma_unsigned_magic_exists(0x1_0000_0000, 0x8000_0000, 32, d as int);
    let w = MU32 { mul_by: r.0 as u32, do_add: r.1, shift_by: r.2 as i32 };
    assert(unsigned_magic(0x1_0000_0000, 32, d as int, w.mul_by as int, w.do_add, w.shift_by as int));
}

/// The multiplier for unsigned 64-bit division meets [`unsigned_magic`].
pub proof fn lemma_spec_magic_u64(d: u64)
    requires
        d >= 2,
    ensures
        unsigned_magic(
            0x1_0000_0000_0000_0000,
            64,
            d as int,
            spec_magic_u64(d).mul_by as int,
            spec_magic_u64(d).do_add,
            spec_magic_u64(d).shift_by as int,
        ),
{
    lemma_pow2_marks_64();
    let r = lemma_unsigned_magic_exists(0x1_0000_0000_0000_0000, 0x8000_0000_0000_0000, 64, d as int);
    let w = MU64 { mul_by: r.0 as u64, do_add: r.1, shift_by: r.2 as i32 };
    assert(unsigned_magic(
        0x1_0000_0000_0000_0000,
        64,
        d as int,
        w.mul_by as int,
        w.do_add,
        w.shift_by as int,
    ));
}

/// The multiplier for signed 32-bit division meets [`signed_magic`].
pub proof fn lemma_spec_magic_s32(d: i32)
    requires
        d != -1,
        d != 0,
        d != 1,
    ensures
        signed_magic(
            0x1_0000_0000,
            32,
            d as int,
            spec_magic_s32(d).mul_by as int,
            spec_magic_s32(d).shift_by as int,
        ),
{
    lemma_pow2_marks_32();
    let r = lemma_signed_magic_exists(0x1_0000_0000, 0x8000_0000, 32, d as int);
    let w = MS32 { mul_by: r.0 as i32, shift_by: r.1 as i32 };
    assert(signed_magic(0x1_0000_0000, 32, d as int, w.mul_by as int, w.shift_by as int));
}

/// The multiplier for signed 64-bit division meets [`signed_magic`].
pub proof fn lemma_spec_magic_s64(d: i64)
    requires
        d != -1,
        d != 0,
        d != 1,
    ensures
        signed_magic(
            0x1_0000_0000_0000_0000,
            64,
            d as int,
            spec_magic_s64(d).mul_by as int,
            spec_magic_s64(d).shift_by as int,
        ),
{
    lemma_pow2_marks_64();
    let r = lemma_signed_magic_exists(0x1_0000_0000_0000_0000, 0x8000_0000_0000_0000, 64, d as int);
    let w = MS64 { mul_by: r.0 as i64, shift_by: r.1 as i32 };
    assert(signed_magic(0x1_0000_0000_0000_0000, 64, d as int, w.mul_by as int, w.shift_by as int));
}

} // verus!
