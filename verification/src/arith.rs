//! Integer lemmas behind division by multiplication.
//!
//! A divisor `d` is replaced by a multiplier `m` and a power of two `tp` with
//! `m * d == tp + e` for a small excess `e`. The lemmas here show for which
//! dividends the product `n * m` falls between the right multiples of `tp`.

use vstd::arithmetic::div_mod::{lemma_fundamental_div_mod, lemma_fundamental_div_mod_converse};
use vstd::arithmetic::power2::{lemma_pow2_strictly_increases, pow2};
use vstd::prelude::*;

verus! {

/// A value that lies between two neighbouring multiples of a positive `t`
/// has the smaller multiple's factor as its quotient.
pub proof fn lemma_div_between(x: int, t: int, q: int)
    requires
        t > 0,
        q * t <= x < (q + 1) * t,
    ensures
        x / t == q,
{
    assert((q + 1) * t == q * t + t) by (nonlinear_arith);
    assert(x == q * t + (x - q * t));
    assert(q * t == t * q) by (nonlinear_arith);
    lemma_fundamental_div_mod_converse(x, t, q, x - q * t);
}

/// Cancels a positive factor from a strict inequality between products.
pub proof fn lemma_cancel_lt(a: int, b: int, d: int)
    requires
        d > 0,
        d * a < d * b,
    ensures
        a < b,
{
    assert(a < b) by (nonlinear_arith)
        requires
            d > 0,
            d * a < d * b,
    ;
}

/// Cancels a positive factor from an inequality between products.
pub proof fn lemma_cancel_le(a: int, b: int, d: int)
    requires
        d > 0,
        d * a <= d * b,
    ensures
        a <= b,
{
    assert(a <= b) by (nonlinear_arith)
        requires
            d > 0,
            d * a <= d * b,
    ;
}

/// The remainder term of `n * m` over `tp`.
///
/// With `n == q * d + r` and `m * d == tp + e`, the product `n * m` is
/// `q * tp + x` where `x == q * e + r * m` and `d * x == e * n + r * tp`.
pub proof fn lemma_magic_split(d: int, m: int, e: int, tp: int, n: int)
    requires
        d >= 1,
        m * d == tp + e,
    ensures
        n * m == (n / d) * tp + ((n / d) * e + (n % d) * m),
        d * ((n / d) * e + (n % d) * m) == e * n + (n % d) * tp,
        0 <= n % d < d,
        n == d * (n / d) + n % d,
{
    let q = n / d;
    let r = n % d;
    lemma_fundamental_div_mod(n, d);
    assert(n * m == q * tp + (q * e + r * m)) by (nonlinear_arith)
        requires
            n == d * q + r,
            m * d == tp + e,
    ;
    assert(d * (q * e + r * m) == e * n + r * tp) by (nonlinear_arith)
        requires
            n == d * q + r,
            m * d == tp + e,
    ;
}

/// The central bracket: for every dividend up to `nc + d - 1`, the product
/// `n * m` lies in the `tp`-interval that starts at `(n / d) * tp`.
///
/// `nc` is a dividend with remainder `d - 1`, and the excess `e` of the
/// multiplier is small enough that `e * nc < tp`.
pub proof fn lemma_magic_bracket(d: int, m: int, e: int, tp: int, nc: int, n: int)
    requires
        d >= 1,
        tp >= 1,
        m * d == tp + e,
        0 <= e <= d,
        nc >= 0,
        (nc + 1) % d == 0,
        e * nc < tp,
        0 <= n <= nc + d - 1,
    ensures
        (n / d) * tp <= n * m < (n / d + 1) * tp,
        (n * m) / tp == n / d,
{
    let q = n / d;
    let r = n % d;
    let x = q * e + r * m;
    lemma_magic_split(d, m, e, tp, n);
    assert(m >= 1) by (nonlinear_arith)
        requires
            d >= 1,
            tp >= 1,
            e >= 0,
            m * d == tp + e,
    ;
    assert(q >= 0) by (nonlinear_arith)
        requires
            n == d * q + r,
            0 <= r < d,
            n >= 0,
            d >= 1,
    ;
    assert(x >= 0) by (nonlinear_arith)
        requires
            x == q * e + r * m,
            q >= 0,
            e >= 0,
            r >= 0,
            m >= 1,
    ;
    // nc + 1 is a positive multiple of d
    let c = (nc + 1) / d;
    lemma_fundamental_div_mod(nc + 1, d);
    assert(nc + 1 == d * c);
    assert(c >= 1) by (nonlinear_arith)
        requires
            nc + 1 == d * c,
            nc >= 0,
            d >= 1,
    ;
    assert(nc >= d - 1) by (nonlinear_arith)
        requires
            nc + 1 == d * c,
            c >= 1,
            d >= 1,
    ;
    if n <= nc {
        assert(d * x < d * tp) by (nonlinear_arith)
            requires
                d * x == e * n + r * tp,
                0 <= n <= nc,
                0 <= e,
                e * nc < tp,
                0 <= r <= d - 1,
                tp >= 1,
        ;
    } else {
        // n is one of the d - 1 dividends just above nc
        assert(q == c && r == n - nc - 1) by {
            assert(n == d * c + (n - nc - 1));
            assert(d * c == c * d) by (nonlinear_arith);
            lemma_fundamental_div_mod_converse(n, d, c, n - nc - 1);
        }
        assert(d * x < d * tp) by (nonlinear_arith)
            requires
                d * x == e * n + r * tp,
                n == nc + 1 + r,
                0 <= r <= d - 2,
                0 <= e,
                e * nc < tp,
                nc >= d - 1,
                tp >= 1,
        ;
    }
    lemma_cancel_lt(x, tp, d);
    assert((q + 1) * tp == q * tp + tp) by (nonlinear_arith);
    lemma_div_between(n * m, tp, q);
}

/// The bracket for a negated negative dividend: `n * m` lies strictly above
/// `(n / d) * tp` and reaches at most the next multiple.
///
/// The one dividend beyond `nc + d - 1` that is allowed is `nc + d` itself,
/// where the caller shows `e * n <= tp`.
pub proof fn lemma_magic_bracket_upper(d: int, m: int, e: int, tp: int, nc: int, n: int)
    requires
        d >= 1,
        tp >= 1,
        m * d == tp + e,
        1 <= e <= d,
        nc >= 0,
        (nc + 1) % d == 0,
        e * nc < tp,
        1 <= n <= nc + d,
        n == nc + d ==> e * n <= tp,
    ensures
        (n / d) * tp < n * m <= (n / d + 1) * tp,
{
    let q = n / d;
    let r = n % d;
    let x = q * e + r * m;
    lemma_magic_split(d, m, e, tp, n);
    assert(m >= 1) by (nonlinear_arith)
        requires
            d >= 1,
            tp >= 1,
            e >= 0,
            m * d == tp + e,
    ;
    assert(q >= 0) by (nonlinear_arith)
        requires
            n == d * q + r,
            0 <= r < d,
            n >= 0,
            d >= 1,
    ;
    assert(x >= 1) by (nonlinear_arith)
        requires
            x == q * e + r * m,
            n == d * q + r,
            n >= 1,
            q >= 0,
            e >= 1,
            r >= 0,
            m >= 1,
    ;
    assert((q + 1) * tp == q * tp + tp) by (nonlinear_arith);
    if n <= nc + d - 1 {
        lemma_magic_bracket(d, m, e, tp, nc, n);
    } else {
        assert(d * x <= d * tp) by (nonlinear_arith)
            requires
                d * x == e * n + r * tp,
                e * n <= tp,
                0 <= r <= d - 1,
                tp >= 1,
        ;
        lemma_cancel_le(x, tp, d);
    }
}

/// When half the modulus plus one is a multiple of `d`, the excess of the
/// multiplier is at most the cofactor of `hb` in `tp`, so `e * hb <= tp`.
pub proof fn lemma_magic_edge(d: int, m: int, e: int, tp: int, hb: int, t: int)
    requires
        d >= 1,
        m * d == tp + e,
        1 <= e <= d,
        t >= 1,
        hb >= 1,
        tp == hb * t,
        (hb + 1) % d == 0,
    ensures
        e * hb <= tp,
{
    let c = (hb + 1) / d;
    lemma_fundamental_div_mod(hb + 1, d);
    assert(hb + 1 == d * c);
    // e - t is a multiple of d
    let k = m - c * t;
    assert(e - t == d * k) by (nonlinear_arith)
        requires
            hb + 1 == d * c,
            tp == hb * t,
            m * d == tp + e,
            k == m - c * t,
    ;
    if e > t {
        assert(false) by (nonlinear_arith)
            requires
                e - t == d * k,
                0 < e - t < d,
                d >= 1,
        ;
    }
    assert(e * hb <= t * hb) by (nonlinear_arith)
        requires
            e <= t,
            hb >= 1,
    ;
    assert(t * hb == hb * t) by (nonlinear_arith);
}


/// The largest dividend below the modulus `b` whose remainder by `d` is
/// `d - 1`.
pub open spec fn unsigned_nc(b: int, d: int) -> int {
    b - 1 - (b - d) % d
}

/// What the search for an unsigned multiplier uses of [`unsigned_nc`].
pub proof fn lemma_unsigned_nc(b: int, hb: int, d: int)
    requires
        hb >= 2,
        b == 2 * hb,
        1 <= d < b,
    ensures
        (unsigned_nc(b, d) + 1) % d == 0,
        hb <= unsigned_nc(b, d) < b,
        b - d <= unsigned_nc(b, d),
        unsigned_nc(b, d) == hb ==> d >= hb + 1,
{
    let r0 = (b - d) % d;
    let q0 = (b - d) / d;
    let nc = unsigned_nc(b, d);
    lemma_fundamental_div_mod(b - d, d);
    assert(nc + 1 == (q0 + 1) * d + 0) by (nonlinear_arith)
        requires
            b - d == d * q0 + r0,
            nc == b - 1 - r0,
    ;
    lemma_fundamental_div_mod_converse(nc + 1, d, q0 + 1, 0);
    if d > hb {
        assert(b - d == 0 * d + (b - d)) by (nonlinear_arith);
        lemma_fundamental_div_mod_converse(b - d, d, 0, b - d);
    }
    if nc == hb && d <= hb {
        // then d == hb, and hb + 1 is no multiple of hb
        assert(hb + 1 == 1 * hb + 1) by (nonlinear_arith);
        lemma_fundamental_div_mod_converse(hb + 1, hb, 1, 1);
    }
}

/// The excess over `2^k` of the first multiple of `d` above `2^k - 1`.
pub open spec fn unsigned_excess(d: int, k: nat) -> int {
    d - 1 - (pow2(k) - 1) % d
}

/// Whether the search for an unsigned multiplier goes past the power `k`:
/// the excess there is still too large, or the quotient of `2^k` has just
/// left the word, which happens one step before the last for one divisor.
pub open spec fn unsigned_search_passes(b: int, bits: nat, d: int, k: nat) -> bool {
    pow2(k) <= unsigned_nc(b, d) * unsigned_excess(d, k) || (k == 2 * bits - 1 && 2 * unsigned_nc(
        b,
        d,
    ) == b)
}

/// State of the search for an unsigned multiplier at the power of two `tp`:
/// quotient and remainder of `tp` by `nc`, and of `tp - 1` by `d`.
pub open spec fn unsigned_search(d: int, nc: int, tp: int, q1: int, r1: int, q2: int, r2: int) -> bool {
    &&& q1 * nc + r1 == tp
    &&& 0 <= r1 < nc
    &&& q2 * d + r2 == tp - 1
    &&& 0 <= r2 < d
    &&& q1 >= 0
    &&& q2 >= 0
}

/// Doubling the power of two doubles both quotients, with a carry out of
/// each remainder.
pub proof fn lemma_unsigned_search_step(d: int, nc: int, tp: int, q1: int, r1: int, q2: int, r2: int)
    requires
        unsigned_search(d, nc, tp, q1, r1, q2, r2),
    ensures
        r1 >= nc - r1 ==> unsigned_search(
            d,
            nc,
            2 * tp,
            2 * q1 + 1,
            2 * r1 - nc,
            if r2 + 1 >= d - r2 { 2 * q2 + 1 } else { 2 * q2 },
            if r2 + 1 >= d - r2 { 2 * r2 + 1 - d } else { 2 * r2 + 1 },
        ),
        r1 < nc - r1 ==> unsigned_search(
            d,
            nc,
            2 * tp,
            2 * q1,
            2 * r1,
            if r2 + 1 >= d - r2 { 2 * q2 + 1 } else { 2 * q2 },
            if r2 + 1 >= d - r2 { 2 * r2 + 1 - d } else { 2 * r2 + 1 },
        ),
{
    assert((2 * q1 + 1) * nc + (2 * r1 - nc) == 2 * (q1 * nc + r1)) by (nonlinear_arith);
    assert((2 * q1) * nc + 2 * r1 == 2 * (q1 * nc + r1)) by (nonlinear_arith);
    assert((2 * q2 + 1) * d + (2 * r2 + 1 - d) == 2 * (q2 * d + r2) + 1) by (nonlinear_arith);
    assert((2 * q2) * d + (2 * r2 + 1) == 2 * (q2 * d + r2) + 1) by (nonlinear_arith);
}

/// While the search goes on, the multiplier `q2 + 1` stays below the
/// modulus.
///
/// `q1w` is the machine word that holds `q1`: equal to it, or wrapped when
/// `q1` has reached the modulus.
pub proof fn lemma_unsigned_search_goes_on(
    b: int,
    hb: int,
    bits: nat,
    p: nat,
    d: int,
    nc: int,
    tp: int,
    q1: int,
    r1: int,
    q2: int,
    r2: int,
    q1w: int,
)
    requires
        hb >= 2,
        b == 2 * hb,
        2 <= d < b,
        nc == unsigned_nc(b, d),
        tp == pow2(p),
        unsigned_search(d, nc, tp, q1, r1, q2, r2),
        tp <= b * hb,
        q1w == q1 || (q1 >= b && p == 2 * bits - 1),
        q1w < d - 1 - r2 || (q1w == d - 1 - r2 && r1 == 0),
    ensures
        q2 + 1 < b,
        unsigned_search_passes(b, bits, d, p),
{
    assert(tp - 1 == d * q2 + r2) by (nonlinear_arith)
        requires
            q2 * d + r2 == tp - 1,
    ;
    lemma_fundamental_div_mod_converse(tp - 1, d, q2, r2);
    assert(unsigned_excess(d, p) == d - 1 - r2);
    assert(nc * (d - 1 - r2) == unsigned_nc(b, d) * unsigned_excess(d, p));
    let e = d - 1 - r2;
    let m = q2 + 1;
    lemma_unsigned_nc(b, hb, d);
    assert(m * d == tp + e) by (nonlinear_arith)
        requires
            q2 * d + r2 == tp - 1,
            m == q2 + 1,
            e == d - 1 - r2,
    ;
    if q1 == q1w {
        assert(tp <= nc * e) by (nonlinear_arith)
            requires
                q1 * nc + r1 == tp,
                0 <= r1 < nc,
                q1 < e || (q1 == e && r1 == 0),
        ;
        assert(m * d < b * d) by (nonlinear_arith)
            requires
                m * d == tp + e,
                tp <= nc * e,
                0 <= e <= d - 1,
                0 <= nc < b,
                d >= 2,
        ;
    } else {
        assert(nc == hb && tp == b * hb) by (nonlinear_arith)
            requires
                q1 * nc + r1 == tp,
                r1 >= 0,
                q1 >= b,
                nc >= hb,
                tp <= b * hb,
                hb >= 2,
                b == 2 * hb,
        ;
        assert(m * d < b * d) by (nonlinear_arith)
            requires
                m * d == tp + e,
                tp == b * hb,
                e <= d - 1,
                d >= hb + 1,
                d < b,
                b == 2 * hb,
        ;
    }
    assert(m < b) by (nonlinear_arith)
        requires
            m * d < b * d,
            d >= 2,
    ;
}

/// When the search stops, the excess of the multiplier is small enough:
/// `nc * e < tp`.
pub proof fn lemma_unsigned_search_stops(
    b: int,
    hb: int,
    bits: nat,
    p: nat,
    d: int,
    nc: int,
    tp: int,
    q1: int,
    r1: int,
    q2: int,
    r2: int,
    q1w: int,
)
    requires
        hb >= 2,
        b == 2 * hb,
        2 <= d < b,
        nc == unsigned_nc(b, d),
        tp == pow2(p),
        unsigned_search(d, nc, tp, q1, r1, q2, r2),
        p == 2 * bits - 1 ==> tp == b * hb,
        (p == 2 * bits && tp == b * b) || (p <= 2 * bits - 1 && q1 <= b && q1w == (if q1 < b {
            q1
        } else {
            0
        }) && (q1w > d - 1 - r2 || (q1w == d - 1 - r2 && r1 != 0))),
    ensures
        nc * (d - 1 - r2) < tp,
        (q2 + 1) * d == tp + (d - 1 - r2),
        !unsigned_search_passes(b, bits, d, p),
{
    let e = d - 1 - r2;
    lemma_unsigned_nc(b, hb, d);
    assert((q2 + 1) * d == tp + e) by (nonlinear_arith)
        requires
            q2 * d + r2 == tp - 1,
            e == d - 1 - r2,
    ;
    assert(tp - 1 == d * q2 + r2) by (nonlinear_arith)
        requires
            q2 * d + r2 == tp - 1,
    ;
    lemma_fundamental_div_mod_converse(tp - 1, d, q2, r2);
    assert(unsigned_excess(d, p) == e);
    if p == 2 * bits - 1 && 2 * nc == b {
        // the quotient has reached the modulus and its word reads zero
        assert(q1 == b && r1 == 0) by (nonlinear_arith)
            requires
                q1 * nc + r1 == tp,
                0 <= r1 < nc,
                nc == hb,
                tp == b * hb,
                hb >= 2,
        ;
        assert(false);
    }
    if tp == b * b {
        assert(nc * e < b * b) by (nonlinear_arith)
            requires
                0 <= nc < b,
                0 <= e < b,
        ;
    } else {
        assert(nc * e < tp) by (nonlinear_arith)
            requires
                q1 * nc + r1 == tp,
                0 <= r1,
                nc >= 1,
                e >= 0,
                q1 > e || (q1 == e && r1 != 0),
        ;
    }
    assert(nc * e == unsigned_nc(b, d) * unsigned_excess(d, p));
}


/// Powers of two grow with the exponent.
pub proof fn lemma_pow2_le(a: nat, b: nat)
    requires
        a <= b,
    ensures
        pow2(a) <= pow2(b),
{
    if a < b {
        lemma_pow2_strictly_increases(a, b);
    }
}


/// Dividing by `a` and then by `b` is dividing by `a * b`, for dividends of
/// either sign.
pub proof fn lemma_div_div(x: int, a: int, b: int)
    requires
        a > 0,
        b > 0,
    ensures
        a * b > 0,
        (x / a) / b == x / (a * b),
{
    let q1 = x / a;
    let r1 = x % a;
    let q2 = q1 / b;
    let r2 = q1 % b;
    lemma_fundamental_div_mod(x, a);
    lemma_fundamental_div_mod(q1, b);
    assert(a * b > 0) by (nonlinear_arith)
        requires
            a > 0,
            b > 0,
    ;
    assert(x == q2 * (a * b) + (a * r2 + r1)) by (nonlinear_arith)
        requires
            x == a * q1 + r1,
            q1 == b * q2 + r2,
    ;
    assert(0 <= a * r2 + r1 < a * b) by (nonlinear_arith)
        requires
            0 <= r1 < a,
            0 <= r2 < b,
            a > 0,
    ;
    lemma_fundamental_div_mod_converse(x, a * b, q2, a * r2 + r1);
}

/// Adding `j` times the divisor to the dividend adds `j` to the quotient.
pub proof fn lemma_div_add_multiple(x: int, j: int, d: int)
    requires
        d > 0,
    ensures
        (x + j * d) / d == x / d + j,
{
    let q = x / d;
    let r = x % d;
    lemma_fundamental_div_mod(x, d);
    assert(x + j * d == (q + j) * d + r) by (nonlinear_arith)
        requires
            x == d * q + r,
    ;
    lemma_fundamental_div_mod_converse(x + j * d, d, q + j, r);
}

/// An odd number that divides a power of two is one.
pub proof fn lemma_odd_divisor_of_pow2(d: int, m: int, p: nat)
    requires
        d >= 1,
        m >= 1,
        d % 2 == 1,
        d * m == pow2(p),
    ensures
        d == 1,
    decreases p,
{
    if p == 0 {
        vstd::arithmetic::power2::lemma2_to64();
        assert(d == 1) by (nonlinear_arith)
            requires
                d >= 1,
                m >= 1,
                d * m == 1,
        ;
    } else {
        vstd::arithmetic::power2::lemma_pow2_unfold(p);
        let h = pow2((p - 1) as nat) as int;
        // d is odd and d * m is even, so m is even
        if m % 2 == 1 {
            let dk = d / 2;
            let mk = m / 2;
            assert(d * m == 2 * (2 * dk * mk + dk + mk) + 1) by (nonlinear_arith)
                requires
                    d == 2 * dk + 1,
                    m == 2 * mk + 1,
            ;
            assert(false);
        }
        let mh = m / 2;
        assert(d * mh == h) by (nonlinear_arith)
            requires
                m == 2 * mh,
                d * m == 2 * h,
        ;
        lemma_odd_divisor_of_pow2(d, mh, (p - 1) as nat);
    }
}

/// Absolute value.
pub open spec fn abs(x: int) -> int {
    if x < 0 {
        -x
    } else {
        x
    }
}

/// The largest magnitude of a dividend whose remainder by `|d|` is
/// `|d| - 1`, among the dividends of the sign that `d` rounds away from.
pub open spec fn signed_anc(hb: int, d: int) -> int {
    let t = if d < 0 {
        hb + 1
    } else {
        hb
    };
    t - 1 - t % abs(d)
}

/// What the search for a signed multiplier uses of [`signed_anc`].
pub proof fn lemma_signed_anc(hb: int, d: int)
    requires
        hb >= 4,
        2 <= abs(d) <= hb,
        d < hb,
    ensures
        (signed_anc(hb, d) + 1) % abs(d) == 0,
        signed_anc(hb, d) >= abs(d) - 1,
        signed_anc(hb, d) >= 2,
        d > 0 ==> signed_anc(hb, d) <= hb - 1 && signed_anc(hb, d) + abs(d) >= hb,
        d < 0 ==> signed_anc(hb, d) <= hb && signed_anc(hb, d) + abs(d) >= hb + 1,
        signed_anc(hb, d) == hb ==> (hb + 1) % abs(d) == 0,
{
    let ad = abs(d);
    let t = if d < 0 {
        hb + 1
    } else {
        hb
    };
    let anc = signed_anc(hb, d);
    let q0 = t / ad;
    let r0 = t % ad;
    lemma_fundamental_div_mod(t, ad);
    assert(q0 >= 1) by (nonlinear_arith)
        requires
            t == ad * q0 + r0,
            0 <= r0 < ad,
            t >= ad,
            ad >= 2,
    ;
    assert(anc + 1 == q0 * ad + 0) by (nonlinear_arith)
        requires
            t == ad * q0 + r0,
            anc == t - 1 - r0,
    ;
    lemma_fundamental_div_mod_converse(anc + 1, ad, q0, 0);
    assert(anc + 1 >= ad) by (nonlinear_arith)
        requires
            anc + 1 == q0 * ad + 0,
            q0 >= 1,
            ad >= 2,
    ;
}

/// The excess over `2^k` of the first multiple of `|d|` above `2^k`.
pub open spec fn signed_excess(d: int, k: nat) -> int {
    abs(d) - (pow2(k) as int) % abs(d)
}

/// Whether the search for a signed multiplier goes past the power `k`: the
/// excess there is still too large.
pub open spec fn signed_search_passes(hb: int, d: int, k: nat) -> bool {
    pow2(k) <= signed_anc(hb, d) * signed_excess(d, k)
}

/// State of the search for a signed multiplier at the power of two `tp`:
/// quotient and remainder of `tp` by `anc`, and by `ad`.
pub open spec fn signed_search(ad: int, anc: int, tp: int, q1: int, r1: int, q2: int, r2: int) -> bool {
    &&& q1 * anc + r1 == tp
    &&& 0 <= r1 < anc
    &&& q2 * ad + r2 == tp
    &&& 0 <= r2 < ad
    &&& q1 >= 0
    &&& q2 >= 0
}

/// Doubling the power of two doubles both quotients, with a carry out of
/// each remainder.
pub proof fn lemma_signed_search_step(ad: int, anc: int, tp: int, q1: int, r1: int, q2: int, r2: int)
    requires
        signed_search(ad, anc, tp, q1, r1, q2, r2),
    ensures
        signed_search(
            ad,
            anc,
            2 * tp,
            if 2 * r1 >= anc { 2 * q1 + 1 } else { 2 * q1 },
            if 2 * r1 >= anc { 2 * r1 - anc } else { 2 * r1 },
            if 2 * r2 >= ad { 2 * q2 + 1 } else { 2 * q2 },
            if 2 * r2 >= ad { 2 * r2 - ad } else { 2 * r2 },
        ),
{
    assert((2 * q1 + 1) * anc + (2 * r1 - anc) == 2 * (q1 * anc + r1)) by (nonlinear_arith);
    assert((2 * q1) * anc + 2 * r1 == 2 * (q1 * anc + r1)) by (nonlinear_arith);
    assert((2 * q2 + 1) * ad + (2 * r2 - ad) == 2 * (q2 * ad + r2)) by (nonlinear_arith);
    assert((2 * q2) * ad + 2 * r2 == 2 * (q2 * ad + r2)) by (nonlinear_arith);
}

/// While the search goes on, both quotients stay below half the modulus,
/// so that the next doubling fits the word.
pub proof fn lemma_signed_search_goes_on(
    hb: int,
    d: int,
    p: nat,
    ts: int,
    q1: int,
    r1: int,
    q2: int,
    r2: int,
)
    requires
        hb >= 4,
        hb % 2 == 0,
        2 <= abs(d) <= hb,
        d < hb,
        ts >= 1,
        pow2(p) == 2 * hb * ts,
        signed_search(abs(d), signed_anc(hb, d), pow2(p) as int, q1, r1, q2, r2),
        q1 < abs(d) - r2 || (q1 == abs(d) - r2 && r1 == 0),
    ensures
        q1 <= hb - 1,
        q2 + 1 <= hb,
        q2 + 1 == hb ==> r2 == 0,
        pow2(p) <= hb * hb,
        signed_search_passes(hb, d, p),
{
    let ad = abs(d);
    let anc = signed_anc(hb, d);
    let tp = pow2(p) as int;
    let e = ad - r2;
    let m = q2 + 1;
    lemma_signed_anc(hb, d);
    assert(tp == ad * q2 + r2) by (nonlinear_arith)
        requires
            q2 * ad + r2 == tp,
    ;
    lemma_fundamental_div_mod_converse(tp, ad, q2, r2);
    assert(signed_excess(d, p) == e);
    assert(tp <= anc * e) by (nonlinear_arith)
        requires
            q1 * anc + r1 == tp,
            0 <= r1 < anc,
            q1 < e || (q1 == e && r1 == 0),
    ;
    assert(anc * e <= hb * hb) by (nonlinear_arith)
        requires
            0 <= anc <= hb,
            0 <= e <= hb,
    ;
    if q1 >= hb {
        // then q1 == e == ad == hb and r1 == 0, so tp == hb * anc with anc == hb - 1
        assert(q1 == hb && e == hb && ad == hb && r2 == 0 && r1 == 0);
        let c = (anc + 1) / hb;
        lemma_fundamental_div_mod(anc + 1, hb);
        assert(anc + 1 == hb * c);
        assert(anc + 1 == hb) by (nonlinear_arith)
            requires
                anc + 1 == hb * c,
                2 <= anc <= hb,
                hb >= 4,
        ;
        assert(false) by (nonlinear_arith)
            requires
                q1 * anc + r1 == tp,
                q1 == hb,
                r1 == 0,
                anc == hb - 1,
                tp == 2 * hb * ts,
                hb % 2 == 0,
                hb >= 4,
        ;
    }
    assert(m * ad == tp + e) by (nonlinear_arith)
        requires
            q2 * ad + r2 == tp,
            m == q2 + 1,
            e == ad - r2,
    ;
    if anc <= hb - 1 {
        assert(m * ad <= hb * e) by (nonlinear_arith)
            requires
                m * ad == tp + e,
                tp <= anc * e,
                anc <= hb - 1,
                e >= 0,
        ;
        assert(m <= hb && (m == hb ==> e >= ad)) by (nonlinear_arith)
            requires
                m * ad <= hb * e,
                1 <= e <= ad,
                ad >= 2,
                hb >= 4,
        ;
    } else {
        let c = (hb + 1) / ad;
        lemma_fundamental_div_mod(hb + 1, ad);
        assert(hb + 1 == ad * c);
        assert(c >= 2) by (nonlinear_arith)
            requires
                hb + 1 == ad * c,
                2 <= ad <= hb,
        ;
        if r2 == 0 {
            // ad divides hb + 1, which is odd, and divides the power of two
            let k = ad / 2;
            if ad % 2 == 0 {
                assert(hb + 1 == 2 * (k * c)) by (nonlinear_arith)
                    requires
                        hb + 1 == ad * c,
                        ad == 2 * k,
                ;
                assert(false);
            }
            vstd::arithmetic::power2::lemma_pow2_pos(p);
            assert(q2 >= 1) by (nonlinear_arith)
                requires
                    q2 * ad == tp,
                    tp >= 1,
                    ad >= 2,
                    q2 >= 0,
            ;
            assert(ad * q2 == q2 * ad) by (nonlinear_arith);
            lemma_odd_divisor_of_pow2(ad, q2, p);
        }
        assert(m <= hb - 1) by (nonlinear_arith)
            requires
                m * ad == tp + e,
                tp <= anc * e,
                anc == hb,
                hb + 1 == ad * c,
                c >= 2,
                1 <= e <= ad - 1,
                ad >= 2,
        ;
    }
}

/// When the search stops, the excess of the multiplier is small enough:
/// `anc * e < tp`.
pub proof fn lemma_signed_search_stops(hb: int, d: int, p: nat, q1: int, r1: int, q2: int, r2: int)
    requires
        hb >= 4,
        2 <= abs(d) <= hb,
        d < hb,
        signed_search(abs(d), signed_anc(hb, d), pow2(p) as int, q1, r1, q2, r2),
        q1 > abs(d) - r2 || (q1 == abs(d) - r2 && r1 != 0),
    ensures
        signed_anc(hb, d) * (abs(d) - r2) < pow2(p),
        (q2 + 1) * abs(d) == pow2(p) + (abs(d) - r2),
        !signed_search_passes(hb, d, p),
{
    let ad = abs(d);
    let anc = signed_anc(hb, d);
    let tp = pow2(p) as int;
    let e = ad - r2;
    lemma_signed_anc(hb, d);
    assert((q2 + 1) * ad == tp + e) by (nonlinear_arith)
        requires
            q2 * ad + r2 == tp,
            e == ad - r2,
    ;
    assert(anc * e < tp) by (nonlinear_arith)
        requires
            q1 * anc + r1 == tp,
            0 <= r1,
            anc >= 1,
            e >= 1,
            q1 > e || (q1 == e && r1 != 0),
    ;
    assert(tp == ad * q2 + r2) by (nonlinear_arith)
        requires
            q2 * ad + r2 == tp,
    ;
    lemma_fundamental_div_mod_converse(tp, ad, q2, r2);
    assert(signed_excess(d, p) == e);
}


/// The quotient of `n` by `d` rounded toward zero.
pub open spec fn trunc_div(n: int, d: int) -> int {
    if n >= 0 {
        if d > 0 {
            n / d
        } else {
            -(n / (-d))
        }
    } else {
        if d > 0 {
            -((-n) / d)
        } else {
            (-n) / (-d)
        }
    }
}

/// The high word of `n * mul_by`, corrected for a multiplier whose sign
/// differs from the divisor's.
pub open spec fn signed_magic_high(b: int, n: int, d: int, mul_by: int) -> int {
    let q1 = (n * mul_by) / b;
    if d > 0 && mul_by < 0 {
        q1 + n
    } else if d < 0 && mul_by > 0 {
        q1 - n
    } else {
        q1
    }
}

/// The quotient that a signed multiplier gives: the corrected high word,
/// shifted right by dividing by `ts`, and one more where that is negative.
pub open spec fn signed_magic_result(b: int, ts: int, n: int, d: int, mul_by: int) -> int {
    let q3 = signed_magic_high(b, n, d, mul_by) / ts;
    if q3 < 0 {
        q3 + 1
    } else {
        q3
    }
}

/// The two's complement reading, as a signed word, of the multiplier of
/// magnitude `m` for the divisor `d`.
pub open spec fn signed_multiplier(b: int, d: int, m: int) -> int {
    let u = if d > 0 {
        m
    } else {
        b - m
    };
    if 2 * u >= b {
        u - b
    } else {
        u
    }
}

/// A signed multiplier gives the quotient rounded toward zero for every
/// dividend of the word, and no step of the computation leaves the word.
pub proof fn lemma_signed_magic_at(b: int, hb: int, d: int, m: int, e: int, ts: int, n: int)
    requires
        hb >= 4,
        hb % 2 == 0,
        b == 2 * hb,
        2 <= abs(d) <= hb,
        d < hb,
        ts >= 1,
        m * abs(d) == b * ts + e,
        1 <= e <= abs(d),
        signed_anc(hb, d) * e < b * ts,
        0 < m < b,
        -hb <= n < hb,
    ensures
        signed_magic_result(b, ts, n, d, signed_multiplier(b, d, m)) == trunc_div(n, d),
        -hb <= (n * signed_multiplier(b, d, m)) / b < hb,
        -hb <= signed_magic_high(b, n, d, signed_multiplier(b, d, m)) < hb,
        -hb <= signed_multiplier(b, d, m) < hb,
        signed_multiplier(b, d, m) != 0,
{
    let ad = abs(d);
    let anc = signed_anc(hb, d);
    let tp = b * ts;
    let mul_by = signed_multiplier(b, d, m);
    let sm = if d > 0 {
        m
    } else {
        -m
    };
    let q1 = (n * mul_by) / b;
    let q2 = signed_magic_high(b, n, d, mul_by);
    // the corrected high word is the high word of the product with the signed magnitude
    assert(q2 == (n * sm) / b) by {
        if mul_by == sm {
        } else if mul_by == sm - b {
            assert(n * mul_by == n * sm + (-n) * b) by (nonlinear_arith)
                requires
                    mul_by == sm - b,
            ;
            lemma_div_add_multiple(n * sm, -n, b);
        } else {
            assert(mul_by == sm + b);
            assert(n * mul_by == n * sm + n * b) by (nonlinear_arith)
                requires
                    mul_by == sm + b,
            ;
            lemma_div_add_multiple(n * sm, n, b);
        }
    }
    assert(-hb <= q1 < hb) by {
        assert(-hb * b <= n * mul_by < hb * b) by (nonlinear_arith)
            requires
                -hb <= n < hb,
                -hb <= mul_by < hb,
                b == 2 * hb,
                hb >= 4,
        ;
        lemma_div_range(n * mul_by, b, hb);
    }
    assert(-hb <= q2 < hb) by {
        assert(-hb * b <= n * sm < hb * b) by (nonlinear_arith)
            requires
                -hb <= n < hb,
                -b < sm < b,
                b == 2 * hb,
                hb >= 4,
        ;
        lemma_div_range(n * sm, b, hb);
    }
    lemma_div_div(n * sm, b, ts);
    let q3 = q2 / ts;
    assert(q3 == (n * sm) / tp);
    lemma_signed_anc(hb, d);
    let nn = abs(n);
    let q = nn / ad;
    assert(tp >= 1) by (nonlinear_arith)
        requires
            tp == b * ts,
            b >= 8,
            ts >= 1,
    ;
    assert(e * anc == anc * e) by (nonlinear_arith);
    lemma_fundamental_div_mod(nn, ad);
    assert(q >= 0) by (nonlinear_arith)
        requires
            nn == ad * q + nn % ad,
            0 <= nn % ad < ad,
            nn >= 0,
            ad >= 2,
    ;
    if (n >= 0 && d > 0) || (n <= 0 && d < 0) {
        assert(n * sm == nn * m) by (nonlinear_arith)
            requires
                (n >= 0 && sm == m && nn == n) || (n <= 0 && sm == -m && nn == -n),
        ;
        lemma_magic_bracket(ad, m, e, tp, anc, nn);
        assert(q3 == q);
    } else {
        assert(n * sm == -(nn * m)) by (nonlinear_arith)
            requires
                (n > 0 && sm == -m && nn == n) || (n < 0 && sm == m && nn == -n),
        ;
        if nn == anc + ad {
            // only -hb with a positive divisor reaches this far
            assert(nn == hb);
            assert((hb + 1) % ad == 0) by {
                let c = (anc + 1) / ad;
                lemma_fundamental_div_mod(anc + 1, ad);
                assert(hb + 1 == (c + 1) * ad + 0) by (nonlinear_arith)
                    requires
                        anc + 1 == ad * c,
                        hb == anc + ad,
                ;
                lemma_fundamental_div_mod_converse(hb + 1, ad, c + 1, 0);
            }
            assert(tp == hb * (2 * ts)) by (nonlinear_arith)
                requires
                    tp == b * ts,
                    b == 2 * hb,
            ;
            lemma_magic_edge(ad, m, e, tp, hb, 2 * ts);
            assert(e * nn <= tp);
        }
        lemma_magic_bracket_upper(ad, m, e, tp, anc, nn);
        assert((-(q + 1)) * tp <= -(nn * m) < (-(q + 1) + 1) * tp) by (nonlinear_arith)
            requires
                q * tp < nn * m <= (q + 1) * tp,
        ;
        lemma_div_between(-(nn * m), tp, -(q + 1));
        assert(q3 == -(q + 1));
    }
}

/// A dividend within `hb` multiples of a positive `b`, below and above
/// zero, has a quotient within `hb`.
pub proof fn lemma_div_range(x: int, b: int, hb: int)
    requires
        b > 0,
        -hb * b <= x < hb * b,
    ensures
        -hb <= x / b < hb,
{
    let q = x / b;
    let r = x % b;
    lemma_fundamental_div_mod(x, b);
    assert(-hb <= q < hb) by (nonlinear_arith)
        requires
            x == b * q + r,
            0 <= r < b,
            -hb * b <= x < hb * b,
    ;
}

} // verus!
