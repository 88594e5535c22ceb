//! The inverse ST 2084 (PQ) transfer function in fixed point.
//!
//! For a linear luminance `y` in `0..=1` (one stands for 10000 cd/m²) the
//! standard defines
//!
//! ```text
//! V = ((c1 + c2 * t) / (1 + c3 * t)) ^ m2     with t = y ^ m1
//!
//! m1 = 2610 / 16384 = 1305 / 8192     m2 = 2523 / 4096 * 128 = 2523 / 32
//! c1 = 3424 / 4096    c2 = 2413 / 128    c3 = 2392 / 128
//! ```
//!
//! so that the ratio inside is `(107 + 2413 t) / (128 + 2392 t)`.
use vstd::arithmetic::power2::pow2;
use vstd::prelude::*;

use crate::fixed_point;
use crate::fixed_point::ONE;
use crate::real_power;

verus! {

/// The largest value of a table entry.
pub const CODE_MAX: u16 = 0xFFFF;

// ---------------------------------------------------------------------------
// The curve over the reals
// ---------------------------------------------------------------------------

/// `b` raised to `1 / m2` is at most the PQ ratio at `t`.
pub open spec fn ratio_reaches(t: real, b: real) -> bool {
    real_power::rpow(b, 32) * real_power::rpow(128real + 2392real * t, 2523) <= real_power::rpow(
        107real + 2413real * t,
        2523,
    )
}

/// `b` raised to `1 / m2` is at least the PQ ratio at `t`.
pub open spec fn ratio_within(t: real, b: real) -> bool {
    real_power::rpow(107real + 2413real * t, 2523) <= real_power::rpow(b, 32) * real_power::rpow(
        128real + 2392real * t,
        2523,
    )
}

/// `t` is at most `y ^ (e / 2^k)`, and already there the curve reaches `b`.
pub open spec fn pq_witness_below(y: real, e: nat, k: nat, b: real, t: real) -> bool {
    &&& 0real <= t
    &&& real_power::rpow(t, pow2(k)) <= real_power::rpow(y, e)
    &&& ratio_reaches(t, b)
}

/// `t` is at least `y ^ (e / 2^k)`, and even there the curve stays within `b`.
pub open spec fn pq_witness_above(y: real, e: nat, k: nat, b: real, t: real) -> bool {
    &&& 0real <= t
    &&& real_power::rpow(y, e) <= real_power::rpow(t, pow2(k))
    &&& ratio_within(t, b)
}

/// The PQ curve, taken at `t = y ^ (e / 2^k)`, is at least `b`.
pub open spec fn pq_at_least(y: real, e: nat, k: nat, b: real) -> bool {
    b <= 0real || exists|t: real| pq_witness_below(y, e, k, b, t)
}

/// The PQ curve, taken at `t = y ^ (e / 2^k)`, is at most `b`.
pub open spec fn pq_at_most(y: real, e: nat, k: nat, b: real) -> bool {
    0real <= b && exists|t: real| pq_witness_above(y, e, k, b, t)
}

/// `code` is the curve's value in steps of `1 / 65535`, rounded to the nearest
/// step: the value is at least half a step below `code`, and at most half a step
/// and `slack` steps above it.
pub open spec fn pq_code_is_nearest(y: real, e: nat, k: nat, code: nat, slack: real) -> bool {
    &&& pq_at_least(y, e, k, (code as real - 1real / 2real) / 65535real)
    &&& pq_at_most(y, e, k, (code as real + 1real / 2real + slack) / 65535real)
}

proof fn lemma_ratio_grows(t: real, u: real)
    requires
        0real <= t <= u,
    ensures
        (107real + 2413real * t) * (128real + 2392real * u) <= (107real + 2413real * u) * (128real
            + 2392real * t),
{
    assert((107real + 2413real * t) * (128real + 2392real * u) <= (107real + 2413real * u) * (
    128real + 2392real * t)) by (nonlinear_arith)
        requires
            0real <= t <= u,
    ;
}

proof fn lemma_cancel(a: real, b: real, c: real)
    requires
        0real < c,
        a * c <= b * c,
    ensures
        a <= b,
{
    assert(a <= b) by (nonlinear_arith)
        requires
            0real < c,
            a * c <= b * c,
    ;
}

proof fn lemma_scale(a: real, b: real, c: real)
    requires
        0real <= c,
        a <= b,
    ensures
        a * c <= b * c,
        c * a <= c * b,
{
    assert(a * c <= b * c) by (nonlinear_arith)
        requires
            0real <= c,
            a <= b,
    ;
    assert(c * a <= c * b) by (nonlinear_arith)
        requires
            0real <= c,
            a <= b,
    ;
}

/// The two sides of the curve fit together: what the curve reaches does not
/// exceed what it stays within. So a code that is nearest to the curve's value is
/// fixed up to the slack.
pub proof fn lemma_pq_sides_agree(y: real, e: nat, k: nat, low: real, high: real)
    requires
        pq_at_least(y, e, k, low),
        pq_at_most(y, e, k, high),
    ensures
        low <= high,
{
    if low > 0real {
        let t = choose|t: real| pq_witness_below(y, e, k, low, t);
        let u = choose|t: real| pq_witness_above(y, e, k, high, t);
        vstd::arithmetic::power2::lemma_pow2_pos(k);
        real_power::lemma_rpow_order(t, u, pow2(k));
        let (nt, dt) = (107real + 2413real * t, 128real + 2392real * t);
        let (nu, du) = (107real + 2413real * u, 128real + 2392real * u);
        lemma_ratio_grows(t, u);
        let (pnt, pdt) = (real_power::rpow(nt, 2523), real_power::rpow(dt, 2523));
        let (pnu, pdu) = (real_power::rpow(nu, 2523), real_power::rpow(du, 2523));
        real_power::lemma_rpow_positive(dt, 2523);
        real_power::lemma_rpow_positive(du, 2523);
        real_power::lemma_rpow_positive(nt, 2523);
        assert(0real <= nt * du) by (nonlinear_arith)
            requires
                0real <= nt,
                0real <= du,
        ;
        real_power::lemma_rpow_monotone(nt * du, nu * dt, 2523);
        real_power::lemma_rpow_mul(nt, du, 2523);
        real_power::lemma_rpow_mul(nu, dt, 2523);
        let (a, b) = (real_power::rpow(low, 32), real_power::rpow(high, 32));
        lemma_scale(a * pdt, pnt, pdu);
        lemma_scale(pnu, b * pdu, pdt);
        assert(a * (pdt * pdu) <= b * (pdt * pdu)) by {
            assert((a * pdt) * pdu == a * (pdt * pdu)) by (nonlinear_arith);
            assert((b * pdu) * pdt == b * (pdt * pdu)) by (nonlinear_arith);
        }
        assert(0real < pdt * pdu) by (nonlinear_arith)
            requires
                0real < pdt,
                0real < pdu,
        ;
        lemma_cancel(a, b, pdt * pdu);
        real_power::lemma_rpow_order(low, high, 32);
    }
}

// ---------------------------------------------------------------------------
// Fixed point
// ---------------------------------------------------------------------------

/// The PQ ratio at `t` in fixed point, rounded down. It is written as one less
/// `21 (1 - t) / (128 + 2392 t)`.
pub open spec fn pq_ratio(t: nat) -> nat {
    let divisor = 128 * ONE as nat + 2392 * t;
    (ONE - (21 * ((ONE - t) * ONE) + divisor - 1) / divisor as int) as nat
}

/// The PQ value of `(n / d) ^ (e / 2^k / m1)` in fixed point, every step rounded
/// down; `e / 2^k` is the exponent that leads from the fraction to `t`.
pub open spec fn pq_value(n: nat, d: nat, e: nat, k: nat) -> nat {
    fixed_point::fraction_power(
        pq_ratio(fixed_point::fraction_power(n, d, e, k)),
        ONE as nat,
        2523,
        5,
    )
}

/// A fixed-point value in steps of `1 / 65535`, rounded to the nearest step.
pub open spec fn nearest_code(v: nat) -> nat {
    (CODE_MAX as nat * v + ONE as nat / 2) / ONE as nat
}

/// The table code of the PQ value of `(n / d) ^ (e / 2^k / m1)`.
pub open spec fn pq_code(n: nat, d: nat, e: nat, k: nat) -> nat {
    nearest_code(pq_value(n, d, e, k))
}

proof fn lemma_pq_ratio_parts(t: nat)
    requires
        t <= ONE,
    ensures
        0 <= 21 * ((ONE - t) * ONE) <= 21 * (ONE * ONE),
        ({
            let divisor = 128 * ONE + 2392 * t;
            let c = (21 * ((ONE - t) * ONE) + divisor - 1) / divisor;
            &&& 0 <= c
            &&& 128 * c <= 21 * ONE + 128
            &&& 21 * ((ONE - t) * ONE) <= c * divisor
            &&& c * divisor <= 21 * ((ONE - t) * ONE) + divisor - 1
            &&& pq_ratio(t) == ONE - c
            &&& pq_ratio(t) <= ONE
            &&& 5 * pq_ratio(t) >= 4 * ONE
        }),
{
    let s = ONE as int;
    let divisor = 128 * s + 2392 * t;
    let top = 21 * ((s - t) * s);
    assert(0 <= (s - t) * s <= s * s) by (nonlinear_arith)
        requires
            0 <= t <= s,
    ;
    let c = (top + divisor - 1) / divisor;
    vstd::arithmetic::div_mod::lemma_fundamental_div_mod(top + divisor - 1, divisor);
    let rest = (top + divisor - 1) % divisor;
    vstd::arithmetic::div_mod::lemma_mod_bound(top + divisor - 1, divisor);
    vstd::arithmetic::div_mod::lemma_div_pos_is_pos(top + divisor - 1, divisor);
    assert(divisor * c == c * divisor) by (nonlinear_arith);
    assert(c * divisor >= c * (128 * s)) by (nonlinear_arith)
        requires
            c >= 0,
            divisor >= 128 * s,
    ;
    assert(128 * c <= 21 * s + 128) by {
        if 128 * c > 21 * s + 128 {
            assert(c * (128 * s) >= (21 * s + 129) * s) by (nonlinear_arith)
                requires
                    128 * c >= 21 * s + 129,
                    s > 0,
            ;
            assert((21 * s + 129) * s == 21 * (s * s) + 129 * s) by (nonlinear_arith);
            // c * divisor < top + divisor would put the divisor far above its size.
            assert(c * divisor >= (21 * s + 129) * s + 2392 * t * c) by (nonlinear_arith)
                requires
                    c * (128 * s) >= (21 * s + 129) * s,
                    divisor == 128 * s + 2392 * t,
            ;
            assert(2392 * t * c >= 2392 * t) by (nonlinear_arith)
                requires
                    c >= 1,
                    t >= 0,
            ;
        }
    }
}

/// The PQ ratio at `t`.
fn ratio_of(t: u64) -> (ratio: u64)
    requires
        t <= ONE,
    ensures
        ratio == pq_ratio(t as nat),
        ratio <= ONE,
{
    proof {
        lemma_pq_ratio_parts(t as nat);
    }
    let divisor: u128 = 128 * (ONE as u128) + 2392 * (t as u128);
    let top: u128 = 21 * (((ONE - t) as u128) * (ONE as u128));
    let drop: u128 = (top + divisor - 1) / divisor;
    ONE - drop as u64
}

/// The PQ value of `(n / d) ^ (e / 2^k / m1)`, as a table code.
pub fn encode(n: u64, d: u64, e: u64, k: u32) -> (code: u16)
    requires
        n <= d <= ONE,
        0 < d,
        k < 64,
    ensures
        code == pq_code(n as nat, d as nat, e as nat, k as nat),
{
    let t: u64 = fixed_point::power_of_fraction(n, d, e, k);
    let ratio: u64 = ratio_of(t);
    let v: u64 = fixed_point::power_of_fraction(ratio, ONE, 2523, 5);
    ((CODE_MAX as u128 * (v as u128) + (ONE / 2) as u128) / (ONE as u128)) as u16
}

// ---------------------------------------------------------------------------
// Accuracy
// ---------------------------------------------------------------------------

proof fn lemma_ratio_lower(p: nat)
    requires
        p <= ONE,
    ensures
        fixed_point::to_real(pq_ratio(p)) * (128real + 2392real * fixed_point::to_real(p))
            <= 107real + 2413real * fixed_point::to_real(p),
{
    lemma_pq_ratio_parts(p);
    let s = ONE as nat;
    let g = pq_ratio(p);
    let divisor = 128 * s + 2392 * p;
    assert(g * divisor <= (107 * s + 2413 * p) * s) by (nonlinear_arith)
        requires
            21 * ((s - p) * s) <= (s - g) * divisor,
            divisor == 128 * s + 2392 * p,
    ;
    fixed_point::lemma_real_product(g, divisor);
    fixed_point::lemma_real_product(107 * s + 2413 * p, s);
    let (rg, rp, rs) = (g as real, p as real, s as real);
    assert(divisor as real == 128real * rs + 2392real * rp);
    assert((107 * s + 2413 * p) as real == 107real * rs + 2413real * rp);
    let (x, y) = (rg / rs, rp / rs);
    assert(x * rs == rg && y * rs == rp) by (nonlinear_arith)
        requires
            x == rg / rs,
            y == rp / rs,
            rs > 0real,
    ;
    assert(x * (128real + 2392real * y) <= 107real + 2413real * y) by (nonlinear_arith)
        requires
            rg * (128real * rs + 2392real * rp) <= (107real * rs + 2413real * rp) * rs,
            x * rs == rg,
            y * rs == rp,
            rs > 0real,
    ;
}

proof fn lemma_ratio_upper(p: nat, w: nat)
    requires
        p <= ONE,
    ensures
        107real + 2413real * fixed_point::to_real(p + w) <= fixed_point::to_real(
            pq_ratio(p) + 4 * w + 1,
        ) * (128real + 2392real * fixed_point::to_real(p + w)),
{
    lemma_pq_ratio_parts(p);
    let s = ONE as nat;
    let g = pq_ratio(p);
    let c = (s - g) as nat;
    let divisor = 128 * s + 2392 * p;
    let t = p + w;
    let wide = 128 * s + 2392 * t;
    let h = g + 4 * w + 1;
    assert(c * wide == c * divisor + 2392 * (w * c)) by (nonlinear_arith)
        requires
            wide == divisor + 2392 * w,
    ;
    assert(w * (128 * c) <= w * (21 * s + 128)) by (nonlinear_arith)
        requires
            128 * c <= 21 * s + 128,
            w >= 0,
    ;
    assert(w * (128 * c) == 128 * (w * c)) by (nonlinear_arith);
    assert(w * (21 * s + 128) == 21 * (w * s) + 128 * w) by (nonlinear_arith);
    assert(w * s >= 1000 * w) by (nonlinear_arith)
        requires
            s >= 1000,
            w >= 0,
    ;
    assert(4 * w * wide >= 512 * (w * s)) by (nonlinear_arith)
        requires
            wide >= 128 * s,
            w >= 0,
    ;
    assert(21 * ((s - t) * s) == 21 * ((s - p) * s) - 21 * (w * s)) by (nonlinear_arith)
        requires
            t == p + w,
    ;
    assert((4 * w + 1) * wide == 4 * w * wide + wide) by (nonlinear_arith);
    assert((4 * w + 1) * wide >= c * wide - 21 * ((s - t) * s));
    assert(h * wide >= (107 * s + 2413 * t) * s) by (nonlinear_arith)
        requires
            (4 * w + 1) * wide >= c * wide - 21 * ((s - t) * s),
            h == s - c + 4 * w + 1,
            wide == 128 * s + 2392 * t,
    ;
    fixed_point::lemma_real_product(h, wide);
    fixed_point::lemma_real_product(107 * s + 2413 * t, s);
    let (rh, rt, rs) = (h as real, t as real, s as real);
    assert(wide as real == 128real * rs + 2392real * rt);
    assert((107 * s + 2413 * t) as real == 107real * rs + 2413real * rt);
    let (x, y) = (rh / rs, rt / rs);
    assert(x * rs == rh && y * rs == rt) by (nonlinear_arith)
        requires
            x == rh / rs,
            y == rt / rs,
            rs > 0real,
    ;
    assert(107real + 2413real * y <= x * (128real + 2392real * y)) by (nonlinear_arith)
        requires
            rh * (128real * rs + 2392real * rt) >= (107real * rs + 2413real * rt) * rs,
            x * rs == rh,
            y * rs == rt,
            rs > 0real,
    ;
}

/// `(1 + h)^n <= 1 + 2 n h` as long as `n h` stays below one half.
proof fn lemma_growth(h: real, n: nat, limit: nat)
    requires
        0real <= h,
        n <= limit,
        (limit as real) * h <= 1real / 2real,
    ensures
        real_power::rpow(1real + h, n) <= 1real + 2real * (n as real) * h,
    decreases n,
{
    if n > 0 {
        let m = (n - 1) as nat;
        lemma_growth(h, m, limit);
        let (rm, rl) = (m as real, limit as real);
        let a = real_power::rpow(1real + h, m);
        assert(rm * h <= 1real / 2real) by (nonlinear_arith)
            requires
                rm <= rl,
                0real <= h,
                rl * h <= 1real / 2real,
        ;
        assert((1real + h) * a <= 1real + 2real * (rm + 1real) * h) by (nonlinear_arith)
            requires
                a <= 1real + 2real * rm * h,
                0real <= h,
                rm * h <= 1real / 2real,
        ;
        assert(n as real == rm + 1real);
    } else {
        assert(0real * h == 0real) by (nonlinear_arith);
    }
}

/// How far the true PQ value can lie above [`pq_value`], when `t` can lie `w`
/// above its fixed-point value.
pub open spec fn value_width(w: nat) -> nat {
    800 * w + 4800
}

/// The slack of [`pq_code_is_nearest`] for a `t` that can lie `w` above its
/// fixed-point value.
pub open spec fn code_slack(w: nat) -> real {
    65535real * fixed_point::to_real(value_width(w))
}

/// The final power keeps what is known of the ratio.
proof fn lemma_final_power(g: nat, gw: nat)
    requires
        5 * g >= 4 * ONE,
        g <= ONE,
        gw <= 0x10_0000_0000_0000,
    ensures
        real_power::rpow(fixed_point::to_real(g + gw), 2523) <= real_power::rpow(
            fixed_point::to_real(
                fixed_point::fraction_power(g, ONE as nat, 2523, 5) + 200 * gw + 4600,
            ),
            32,
        ),
        real_power::rpow(
            fixed_point::to_real(fixed_point::fraction_power(g, ONE as nat, 2523, 5)),
            32,
        ) <= real_power::rpow(fixed_point::to_real(g), 2523),
{
    let s = ONE as nat;
    let v = fixed_point::fraction_power(g, s, 2523, 5);
    vstd::arithmetic::power2::lemma2_to64();
    assert(2523nat / pow2(5) == 78);
    fixed_point::lemma_power_lower(g, s, 2523, 5);
    fixed_point::lemma_power_upper(g, s, false, 2523, 5);
    let vw = fixed_point::power_width(false, 2523, 5);
    assert(vw == 3309);
    fixed_point::lemma_fraction_power_at_most_one(g, s, 2523, 5);
    let (rg, rw, rs) = (g as real, gw as real, s as real);
    let h = rw / rg;
    assert(0real <= h && h * rg == rw) by (nonlinear_arith)
        requires
            h == rw / rg,
            rg > 0real,
            rw >= 0real,
    ;
    assert(79real * h <= 1real / 2real) by (nonlinear_arith)
        requires
            h * rg == rw,
            158real * rw <= rg,
            rg > 0real,
    ;
    lemma_growth(h, 79, 79);
    // to_real(g + gw) == to_real(g) * (1 + h)
    let x = rg / rs;
    assert((rg + rw) / rs == x * (1real + h)) by (nonlinear_arith)
        requires
            x == rg / rs,
            h * rg == rw,
            rs > 0real,
    ;
    assert((g + gw) as real == rg + rw);
    real_power::lemma_rpow_mul(x, 1real + h, 2523);
    // (1 + h)^2523 <= (1 + h)^2528 == ((1 + h)^79)^32 <= (1 + 158 h)^32
    let a = real_power::rpow(1real + h, 2523);
    real_power::lemma_rpow_add(1real + h, 2523, 5);
    real_power::lemma_rpow_monotone(1real, 1real + h, 5);
    real_power::lemma_rpow_base_one(5);
    real_power::lemma_rpow_nonneg(1real + h, 2523);
    let five = real_power::rpow(1real + h, 5);
    assert(a <= a * five) by (nonlinear_arith)
        requires
            0real <= a,
            1real <= five,
    ;
    real_power::lemma_rpow_product(1real + h, 79, 32);
    let root = real_power::rpow(1real + h, 79);
    real_power::lemma_rpow_nonneg(1real + h, 79);
    real_power::lemma_rpow_monotone(root, 1real + 158real * h, 32);
    let b = real_power::rpow(1real + 158real * h, 32);
    assert(a <= b);
    // Put the two factors together.
    let y = fixed_point::to_real(v + vw);
    let px = real_power::rpow(x, 2523);
    let py = real_power::rpow(y, 32);
    lemma_to_real_is_nonneg(g);
    lemma_to_real_is_nonneg(v + vw);
    real_power::lemma_rpow_nonneg(x, 2523);
    real_power::lemma_rpow_nonneg(y, 32);
    lemma_scale(px, py, a);
    lemma_scale(a, b, py);
    real_power::lemma_rpow_mul(y, 1real + 158real * h, 32);
    // y (1 + 158 h) is within the width.
    let z = fixed_point::to_real(v + 200 * gw + 4600);
    let rv = (v + vw) as real;
    let grown = (v + 200 * gw + 4600) as real;
    assert(grown >= rv + 200real * rw + 90real);
    assert(rv * (158real * h) <= 200real * rw) by (nonlinear_arith)
        requires
            h * rg == rw,
            0real <= h,
            0real <= rv,
            158real * rv <= 200real * rg,
    ;
    assert(y * (1real + 158real * h) <= z) by (nonlinear_arith)
        requires
            y == rv / rs,
            z == grown / rs,
            rs > 0real,
            rv * (158real * h) <= 200real * rw,
            grown >= rv + 200real * rw,
    ;
    assert(0real <= y * (1real + 158real * h)) by (nonlinear_arith)
        requires
            0real <= y,
            0real <= h,
    ;
    real_power::lemma_rpow_monotone(y * (1real + 158real * h), z, 32);
}

proof fn lemma_to_real_is_nonneg(a: nat)
    ensures
        0real <= fixed_point::to_real(a),
{
    let (ra, rs) = (a as real, ONE as real);
    assert(0real <= ra / rs) by (nonlinear_arith)
        requires
            rs > 0real,
            ra >= 0real,
    ;
}

/// How far `t` can lie above its fixed-point value.
pub open spec fn exponent_width(n: nat, tiny: bool, e: nat, k: nat) -> nat {
    if n == 0 {
        0
    } else {
        fixed_point::power_width(tiny, e, k)
    }
}

/// The table code is the PQ value of the fraction's power, rounded to the
/// nearest code.
pub proof fn lemma_pq_code_is_nearest(n: nat, d: nat, tiny: bool, e: nat, k: nat)
    requires
        0 < d,
        n <= d,
        n > 0 ==> fixed_point::fraction_in_range(n, d, tiny),
        tiny ==> 2 * (e % pow2(k)) < pow2(k),
        0 < e,
        k <= 48,
        e / pow2(k) <= 1000,
    ensures
        pq_code_is_nearest(
            fixed_point::ratio(n, d),
            e,
            k,
            pq_code(n, d, e, k),
            code_slack(exponent_width(n, tiny, e, k)),
        ),
{
    let s = ONE as nat;
    let y = fixed_point::ratio(n, d);
    let p = fixed_point::fraction_power(n, d, e, k);
    let w = exponent_width(n, tiny, e, k);
    let g = pq_ratio(p);
    let v = pq_value(n, d, e, k);
    let code = pq_code(n, d, e, k);
    vstd::arithmetic::power2::lemma_pow2_pos(k);
    fixed_point::lemma_fraction_power_at_most_one(n, d, e, k);
    fixed_point::lemma_power_lower(n, d, e, k);
    fixed_point::lemma_power_width_bound(tiny, e, k);
    assert(w <= 3 * 1000 + 27311002 + 400000 * 48);
    assert(real_power::rpow(y, e) <= real_power::rpow(fixed_point::to_real(p + w), pow2(k))) by {
        if n == 0 {
            fixed_point::lemma_fraction_power_of_zero(d, e, k);
            let rd = d as real;
            assert(0real / rd == 0real) by (nonlinear_arith)
                requires
                    rd > 0real,
            ;
            real_power::lemma_rpow_base_zero(e);
            lemma_to_real_is_nonneg(p + w);
            real_power::lemma_rpow_nonneg(fixed_point::to_real(p + w), pow2(k));
        } else {
            fixed_point::lemma_power_upper(n, d, tiny, e, k);
        }
    }
    lemma_pq_ratio_parts(p);
    lemma_ratio_lower(p);
    lemma_ratio_upper(p, w);
    let gw = 4 * w + 1;
    lemma_final_power(g, gw);
    lemma_to_real_is_nonneg(p);
    lemma_to_real_is_nonneg(p + w);
    lemma_to_real_is_nonneg(g);
    lemma_to_real_is_nonneg(v);
    // Below: the curve reaches the fixed-point value.
    let t = fixed_point::to_real(p);
    let x = fixed_point::to_real(v);
    let dt = 128real + 2392real * t;
    real_power::lemma_rpow_positive(dt, 2523);
    let gx = fixed_point::to_real(g);
    lemma_scale(real_power::rpow(x, 32), real_power::rpow(gx, 2523), real_power::rpow(dt, 2523));
    real_power::lemma_rpow_mul(gx, dt, 2523);
    assert(0real <= gx * dt) by (nonlinear_arith)
        requires
            0real <= gx,
            0real < dt,
    ;
    real_power::lemma_rpow_monotone(gx * dt, 107real + 2413real * t, 2523);
    assert(pq_witness_below(y, e, k, x, t));
    // Above: the curve stays within the fixed-point value and its width.
    let u = fixed_point::to_real(p + w);
    let du = 128real + 2392real * u;
    let vw = 200 * gw + 4600;
    assert(vw == value_width(w));
    let z = fixed_point::to_real(v + vw);
    real_power::lemma_rpow_positive(du, 2523);
    let hx = fixed_point::to_real(g + gw);
    real_power::lemma_rpow_monotone(107real + 2413real * u, hx * du, 2523);
    real_power::lemma_rpow_mul(hx, du, 2523);
    lemma_scale(real_power::rpow(hx, 2523), real_power::rpow(z, 32), real_power::rpow(du, 2523));
    lemma_to_real_is_nonneg(v + vw);
    assert(pq_witness_above(y, e, k, z, u));
    // From values to codes.
    let low = (code as real - 1real / 2real) / 65535real;
    let high = (code as real + 1real / 2real + code_slack(w)) / 65535real;
    lemma_code_brackets(v, vw);
    assert(low <= x && z <= high);
    if low > 0real {
        real_power::lemma_rpow_monotone(low, x, 32);
        lemma_scale(
            real_power::rpow(low, 32),
            real_power::rpow(x, 32),
            real_power::rpow(dt, 2523),
        );
        assert(pq_witness_below(y, e, k, low, t));
    }
    real_power::lemma_rpow_monotone(z, high, 32);
    lemma_scale(real_power::rpow(z, 32), real_power::rpow(high, 32), real_power::rpow(du, 2523));
    assert(pq_witness_above(y, e, k, high, u));
}

proof fn lemma_code_brackets(v: nat, vw: nat)
    ensures
        ({
            let code = nearest_code(v) as real;
            &&& (code - 1real / 2real) / 65535real <= fixed_point::to_real(v)
            &&& fixed_point::to_real(v + vw) <= (code + 1real / 2real + 65535real
                * fixed_point::to_real(vw)) / 65535real
        }),
{
    let s = ONE as int;
    let code = nearest_code(v);
    assert(2 * (code * s) <= 2 * (65535 * v) + s < 2 * (code * s) + 2 * s) by {
        let top = 65535 * v + s / 2;
        vstd::arithmetic::div_mod::lemma_fundamental_div_mod(top, s);
        assert(s * code == code * s) by (nonlinear_arith);
    }
    let (rc, rv, rw, rs) = (code as real, v as real, vw as real, ONE as real);
    fixed_point::lemma_real_product(code, s as nat);
    assert(2real * (rc * rs) <= 2real * (65535real * rv) + rs);
    assert(2real * (65535real * rv) + rs <= 2real * (rc * rs) + 2real * rs);
    assert((rc - 1real / 2real) / 65535real <= rv / rs) by (nonlinear_arith)
        requires
            2real * (rc * rs) <= 2real * (65535real * rv) + rs,
            rs > 0real,
    ;
    assert((v + vw) as real == rv + rw);
    assert((rv + rw) / rs <= (rc + 1real / 2real + 65535real * (rw / rs)) / 65535real)
        by (nonlinear_arith)
        requires
            2real * (65535real * rv) + rs <= 2real * (rc * rs) + 2real * rs,
            rs > 0real,
    ;
}

/// A wider slack says less.
pub proof fn lemma_nearest_weakens(
    y: real,
    e: nat,
    k: nat,
    code: nat,
    slack: real,
    wider: real,
)
    requires
        pq_code_is_nearest(y, e, k, code, slack),
        slack <= wider,
    ensures
        pq_code_is_nearest(y, e, k, code, wider),
{
    let b = (code as real + 1real / 2real + slack) / 65535real;
    let c = (code as real + 1real / 2real + wider) / 65535real;
    assert(b <= c);
    let t = choose|t: real| pq_witness_above(y, e, k, b, t);
    real_power::lemma_rpow_monotone(b, c, 32);
    real_power::lemma_rpow_nonneg(128real + 2392real * t, 2523);
    lemma_scale(
        real_power::rpow(b, 32),
        real_power::rpow(c, 32),
        real_power::rpow(128real + 2392real * t, 2523),
    );
    assert(pq_witness_above(y, e, k, c, t));
}

/// The slack of a bounded width.
pub proof fn lemma_code_slack_bound(w: nat, limit: nat, slack: real)
    requires
        w <= limit,
        65535real * (800real * (limit as real) + 4800real) <= slack * (ONE as real),
    ensures
        code_slack(w) <= slack,
{
    let (v, one) = (value_width(w) as real, ONE as real);
    assert(v == 800real * (w as real) + 4800real);
    assert(65535real * (v / one) <= slack) by (nonlinear_arith)
        requires
            65535real * v <= slack * one,
            0real < one,
    ;
}

/// A larger luminance gives a value at least as large.
pub proof fn lemma_larger_luminance_reaches(y: real, z: real, e: nat, k: nat, b: real)
    requires
        0real <= y <= z,
        pq_at_least(y, e, k, b),
    ensures
        pq_at_least(z, e, k, b),
{
    if b > 0real {
        let t = choose|t: real| pq_witness_below(y, e, k, b, t);
        real_power::lemma_rpow_monotone(y, z, e);
        assert(pq_witness_below(z, e, k, b, t));
    }
}

/// `(1 + h)^n >= 1 + n h`.
proof fn lemma_least_growth(h: real, n: nat)
    requires
        0real <= h,
    ensures
        real_power::rpow(1real + h, n) >= 1real + (n as real) * h,
    decreases n,
{
    if n > 0 {
        let m = (n - 1) as nat;
        lemma_least_growth(h, m);
        let rm = m as real;
        let a = real_power::rpow(1real + h, m);
        assert((1real + h) * a >= 1real + (rm + 1real) * h) by (nonlinear_arith)
            requires
                a >= 1real + rm * h,
                0real <= h,
                0real <= rm,
        ;
        assert(n as real == rm + 1real);
    } else {
        assert(0real * h == 0real) by (nonlinear_arith);
    }
}

/// A luminance that exceeds another one by at most a part in `2^28` gives a value that
/// exceeds that of the other one by at most 158 parts in `2^29`.
pub proof fn lemma_nearby_luminance_within(y: real, z: real, b: real)
    requires
        0real <= y,
        0real <= z <= y * (1real + 1real / 268435456real),
        pq_at_most(y, 1305, 13, b),
    ensures
        pq_at_most(z, 1305, 13, b * (1real + 158real / 536870912real)),
{
    let (g, h) = (1real / 268435456real, 1real / 536870912real);
    let t = choose|t: real| pq_witness_above(y, 1305, 13, b, t);
    vstd::arithmetic::power2::lemma2_to64();
    // The exponent
    let u = t * (1real + h);
    assert(0real <= u) by (nonlinear_arith)
        requires
            u == t * (1real + h),
            0real <= t,
            0real <= h,
    ;
    lemma_growth(g, 1305, 1305);
    lemma_least_growth(h, 8192);
    let (wide, narrow) = (real_power::rpow(1real + g, 1305), real_power::rpow(1real + h, 8192));
    assert(wide <= narrow);
    real_power::lemma_rpow_monotone(z, y * (1real + g), 1305);
    real_power::lemma_rpow_mul(y, 1real + g, 1305);
    real_power::lemma_rpow_mul(t, 1real + h, 8192);
    let (py, pt) = (real_power::rpow(y, 1305), real_power::rpow(t, 8192));
    real_power::lemma_rpow_nonneg(y, 1305);
    real_power::lemma_rpow_nonneg(1real + g, 1305);
    real_power::lemma_rpow_nonneg(t, 8192);
    lemma_scale(py, pt, wide);
    lemma_scale(wide, narrow, pt);
    assert(real_power::rpow(z, 1305) <= real_power::rpow(u, 8192));
    // The ratio
    let (nt, nu) = (107real + 2413real * t, 107real + 2413real * u);
    let (dt, du) = (128real + 2392real * t, 128real + 2392real * u);
    assert(t <= u && nu <= nt * (1real + h)) by (nonlinear_arith)
        requires
            u == t * (1real + h),
            nt == 107real + 2413real * t,
            nu == 107real + 2413real * u,
            0real <= t,
            0real <= h,
    ;
    lemma_growth(h, 2523, 2523);
    lemma_least_growth(158real * h, 32);
    let (more, gain) = (
        real_power::rpow(1real + h, 2523),
        real_power::rpow(1real + 158real * h, 32),
    );
    assert(more <= gain);
    real_power::lemma_rpow_monotone(nu, nt * (1real + h), 2523);
    real_power::lemma_rpow_mul(nt, 1real + h, 2523);
    real_power::lemma_rpow_monotone(dt, du, 2523);
    real_power::lemma_rpow_mul(b, 1real + 158real * h, 32);
    let (pnt, pdt, pdu, pb) = (
        real_power::rpow(nt, 2523),
        real_power::rpow(dt, 2523),
        real_power::rpow(du, 2523),
        real_power::rpow(b, 32),
    );
    real_power::lemma_rpow_nonneg(1real + h, 2523);
    real_power::lemma_rpow_nonneg(b, 32);
    real_power::lemma_rpow_nonneg(du, 2523);
    assert(pnt * more <= (pb * gain) * pdu) by {
        lemma_scale(pdt, pdu, pb);
        lemma_scale(pnt, pb * pdu, more);
        assert(0real <= pb * pdu) by (nonlinear_arith)
            requires
                0real <= pb,
                0real <= pdu,
        ;
        lemma_scale(more, gain, pb * pdu);
        assert((pb * pdu) * gain == (pb * gain) * pdu) by (nonlinear_arith);
    }
    let c = b * (1real + 158real * h);
    assert(0real <= c) by (nonlinear_arith)
        requires
            c == b * (1real + 158real * h),
            0real <= b,
            0real <= h,
    ;
    assert(158real * h == 158real / 536870912real);
    assert(pq_witness_above(z, 1305, 13, c, u));
}

proof fn lemma_pq_ratio_rises(t: nat, u: nat)
    requires
        t <= u <= ONE,
    ensures
        pq_ratio(t) <= pq_ratio(u),
{
    lemma_pq_ratio_parts(t);
    lemma_pq_ratio_parts(u);
    let (nt, nu) = (21 * ((ONE - t) * ONE), 21 * ((ONE - u) * ONE));
    let (dt, du) = (128 * ONE + 2392 * t, 128 * ONE + 2392 * u);
    let q = (nt + dt - 1) / dt;
    vstd::arithmetic::div_mod::lemma_fundamental_div_mod(nt + dt - 1, dt);
    vstd::arithmetic::div_mod::lemma_mod_bound(nt + dt - 1, dt);
    vstd::arithmetic::div_mod::lemma_div_pos_is_pos(nt + dt - 1, dt);
    assert(nt <= dt * q);
    assert(dt * q <= q * du) by (nonlinear_arith)
        requires
            dt <= du,
            0 <= q,
    ;
    assert(nu + du - 1 <= du * q + (du - 1));
    vstd::arithmetic::div_mod::lemma_div_is_ordered(nu + du - 1, du * q + (du - 1), du);
    vstd::arithmetic::div_mod::lemma_fundamental_div_mod_converse(
        du * q + (du - 1),
        du,
        q,
        du - 1,
    );
}

/// The curve never falls.
pub proof fn lemma_pq_code_rises(m: nat, n: nat, d: nat, e: nat, k: nat)
    requires
        m <= n <= d,
        0 < d,
    ensures
        pq_code(m, d, e, k) <= pq_code(n, d, e, k),
{
    let (a, b) = (
        fixed_point::fraction_power(m, d, e, k),
        fixed_point::fraction_power(n, d, e, k),
    );
    fixed_point::lemma_fraction_power_rises(m, n, d, e, k);
    fixed_point::lemma_fraction_power_at_most_one(n, d, e, k);
    lemma_pq_ratio_rises(a, b);
    fixed_point::lemma_fraction_power_rises(pq_ratio(a), pq_ratio(b), ONE as nat, 2523, 5);
}

/// A larger exponent never gives a larger code.
pub proof fn lemma_pq_code_falls(n: nat, d: nat, low: nat, high: nat, k: nat)
    requires
        n <= d,
        0 < d,
        low <= high,
    ensures
        pq_code(n, d, high, k) <= pq_code(n, d, low, k),
{
    let (a, b) = (
        fixed_point::fraction_power(n, d, high, k),
        fixed_point::fraction_power(n, d, low, k),
    );
    fixed_point::lemma_fraction_power_falls(n, d, low, high, k);
    fixed_point::lemma_fraction_power_at_most_one(n, d, low, k);
    lemma_pq_ratio_rises(a, b);
    fixed_point::lemma_fraction_power_rises(pq_ratio(a), pq_ratio(b), ONE as nat, 2523, 5);
}

/// The code of the largest luminance is the largest code.
pub proof fn lemma_pq_code_of_one(d: nat, e: nat, k: nat)
    requires
        0 < d,
    ensures
        pq_code(d, d, e, k) == CODE_MAX,
{
    fixed_point::lemma_fraction_power_of_one(d, e, k);
    assert((ONE - ONE) * ONE == 0) by (nonlinear_arith);
    let divisor = 128 * ONE + 2392 * ONE;
    vstd::arithmetic::div_mod::lemma_fundamental_div_mod_converse(
        divisor - 1,
        divisor,
        0,
        divisor - 1,
    );
    assert(pq_ratio(ONE as nat) == ONE);
    fixed_point::lemma_fraction_power_of_one(ONE as nat, 2523, 5);
}

/// The code of black is zero.
pub proof fn lemma_pq_code_of_zero(d: nat, e: nat, k: nat)
    requires
        0 < d,
        0 < e,
    ensures
        pq_code(0, d, e, k) == 0,
{
    fixed_point::lemma_fraction_power_of_zero(d, e, k);
    let g = pq_ratio(0);
    let one = ONE as nat;
    assert((ONE - 0) * ONE == 0x100_0000_0000_0000_0000_0000_0000_0000) by (nonlinear_arith)
        requires
            ONE == 0x1000_0000_0000_0000,
    ;
    let divisor = 128 * ONE as int;
    vstd::arithmetic::div_mod::lemma_fundamental_div_mod_converse(
        21 * 0x100_0000_0000_0000_0000_0000_0000_0000 + divisor - 1,
        divisor,
        21int * 0x20_0000_0000_0000,
        divisor - 1,
    );
    assert(g == 107 * 0x20_0000_0000_0000);
    let v = fixed_point::fraction_power(g, one, 2523, 5);
    vstd::arithmetic::power2::lemma2_to64();
    fixed_point::lemma_power_lower(g, one, 2523, 5);
    if 131070 * v >= ONE {
        // (107 / 128)^4 < 1 / 2, while 1 / 131070 > (1 / 2)^17.
        let x = fixed_point::ratio(g, one);
        let h = 1real / 2real;
        let (p, q) = (g as real, one as real);
        assert(p / q == 107real / 128real) by (nonlinear_arith)
            requires
                p == 963770320257286144real,
                q == 1152921504606846976real,
        ;
        assert(x * x <= 179real / 256real) by (nonlinear_arith)
            requires
                x == 107real / 128real,
        ;
        real_power::lemma_rpow_square(x);
        real_power::lemma_rpow_double(x, 2);
        real_power::lemma_rpow_square(x * x);
        let z = x * x;
        assert(0real <= z) by (nonlinear_arith)
            requires
                z == x * x,
        ;
        assert(z * z < 1real / 2real) by (nonlinear_arith)
            requires
                0real <= z <= 179real / 256real,
        ;
        assert(real_power::rpow(x, 4) < h);
        real_power::lemma_rpow_product(x, 4, 630);
        real_power::lemma_rpow_nonneg(x, 4);
        real_power::lemma_rpow_monotone(real_power::rpow(x, 4), h, 630);
        real_power::lemma_rpow_add(x, 2520, 3);
        real_power::lemma_rpow_at_most_one(x, 3);
        real_power::lemma_rpow_nonneg(x, 2520);
        lemma_scale(real_power::rpow(x, 3), 1real, real_power::rpow(x, 2520));
        let y = fixed_point::to_real(v);
        let q = real_power::rpow(h, 17);
        assert(q == 1real / 131072real) by {
            reveal_with_fuel(real_power::rpow, 18);
        }
        let (a, b) = (v as real, ONE as real);
        assert(a / b >= 1real / 131072real) by (nonlinear_arith)
            requires
                131070real * a >= b,
                b > 0real,
        ;
        assert(y >= q);
        real_power::lemma_rpow_monotone(q, y, 32);
        real_power::lemma_rpow_product(h, 17, 32);
        real_power::lemma_rpow_add(h, 544, 86);
        assert(real_power::rpow(h, 86) < 1real) by {
            real_power::lemma_rpow_strict(h, 1real, 86);
            real_power::lemma_rpow_base_one(86);
        }
        real_power::lemma_rpow_positive(h, 544);
        let (p, r) = (real_power::rpow(h, 544), real_power::rpow(h, 86));
        assert(p * r < p) by (nonlinear_arith)
            requires
                0real < p,
                r < 1real,
        ;
        assert(false);
    }
}

// ---------------------------------------------------------------------------
// Laws of the curve
// ---------------------------------------------------------------------------

/// The curve is that of the standard, with `c1 = 3424 / 4096`, `c2 = 2413 / 4096 * 32`,
/// `c3 = 2392 / 4096 * 32` and `m2 = 2523 / 4096 * 128`: the two sides of its value are taken
/// at `4096 c1 + 4096 c2 t` over `4096 + 4096 c3 t`.
pub proof fn lemma_curve_is_the_standard_one(t: real, b: real)
    requires
        0real <= t,
        0real <= b,
    ensures
        ratio_reaches(t, b) <==> real_power::rpow(b, 32) * real_power::rpow(
            4096real + (2392real * 32real) * t,
            2523,
        ) <= real_power::rpow(3424real + (2413real * 32real) * t, 2523),
        ratio_within(t, b) <==> real_power::rpow(3424real + (2413real * 32real) * t, 2523)
            <= real_power::rpow(b, 32) * real_power::rpow(
            4096real + (2392real * 32real) * t,
            2523,
        ),
{
    let (n, d) = (107real + 2413real * t, 128real + 2392real * t);
    let (wide_n, wide_d) = (
        3424real + (2413real * 32real) * t,
        4096real + (2392real * 32real) * t,
    );
    assert(wide_n == 32real * n);
    assert(wide_d == 32real * d);
    real_power::lemma_rpow_mul(32real, n, 2523);
    real_power::lemma_rpow_mul(32real, d, 2523);
    real_power::lemma_rpow_positive(32real, 2523);
    let (s, p, q, r) = (
        real_power::rpow(32real, 2523),
        real_power::rpow(n, 2523),
        real_power::rpow(d, 2523),
        real_power::rpow(b, 32),
    );
    assert(r * (s * q) == (r * q) * s && s * p == p * s) by (nonlinear_arith);
    if r * q <= p {
        lemma_scale(r * q, p, s);
    }
    if (r * q) * s <= p * s {
        lemma_cancel(r * q, p, s);
    }
    if p <= r * q {
        lemma_scale(p, r * q, s);
    }
    if p * s <= (r * q) * s {
        lemma_cancel(p, r * q, s);
    }
}

/// The curve is taken at the power of the luminance: where `t` is `y ^ (e / 2^k)`, the two
/// sides of the value are those at `t`.
pub proof fn lemma_curve_is_taken_at_the_power(y: real, e: nat, k: nat, b: real, t: real)
    requires
        0real <= y,
        0real <= t,
        real_power::rpow(t, pow2(k)) == real_power::rpow(y, e),
    ensures
        0real < b ==> (pq_at_least(y, e, k, b) <==> ratio_reaches(t, b)),
        0real <= b ==> (pq_at_most(y, e, k, b) <==> ratio_within(t, b)),
        b <= 0real ==> pq_at_least(y, e, k, b),
        b < 0real ==> !pq_at_most(y, e, k, b),
{
    vstd::arithmetic::power2::lemma_pow2_pos(k);
    if 0real < b && pq_at_least(y, e, k, b) {
        let u = choose|u: real| pq_witness_below(y, e, k, b, u);
        real_power::lemma_rpow_order(u, t, pow2(k));
        lemma_reach_grows(u, t, b);
    }
    if 0real < b && ratio_reaches(t, b) {
        assert(pq_witness_below(y, e, k, b, t));
    }
    if 0real <= b && pq_at_most(y, e, k, b) {
        let u = choose|u: real| pq_witness_above(y, e, k, b, u);
        real_power::lemma_rpow_order(t, u, pow2(k));
        lemma_within_shrinks(t, u, b);
    }
    if 0real <= b && ratio_within(t, b) {
        assert(pq_witness_above(y, e, k, b, t));
    }
}

/// What the curve reaches at a luminance it reaches at every larger one.
proof fn lemma_reach_grows(t: real, u: real, b: real)
    requires
        0real <= t <= u,
        0real <= b,
        ratio_reaches(t, b),
    ensures
        ratio_reaches(u, b),
{
    let (nt, dt) = (107real + 2413real * t, 128real + 2392real * t);
    let (nu, du) = (107real + 2413real * u, 128real + 2392real * u);
    lemma_crossed_powers(t, u);
    let (pnt, pdt) = (real_power::rpow(nt, 2523), real_power::rpow(dt, 2523));
    let (pnu, pdu) = (real_power::rpow(nu, 2523), real_power::rpow(du, 2523));
    let a = real_power::rpow(b, 32);
    lemma_scale(a * pdt, pnt, pdu);
    assert((a * pdt) * pdu == (a * pdu) * pdt) by (nonlinear_arith);
    lemma_cancel(a * pdu, pnu, pdt);
}

/// What the curve stays within at a luminance it stays within at every smaller one.
proof fn lemma_within_shrinks(t: real, u: real, b: real)
    requires
        0real <= t <= u,
        0real <= b,
        ratio_within(u, b),
    ensures
        ratio_within(t, b),
{
    let (nt, dt) = (107real + 2413real * t, 128real + 2392real * t);
    let (nu, du) = (107real + 2413real * u, 128real + 2392real * u);
    lemma_crossed_powers(t, u);
    let (pnt, pdt) = (real_power::rpow(nt, 2523), real_power::rpow(dt, 2523));
    let (pnu, pdu) = (real_power::rpow(nu, 2523), real_power::rpow(du, 2523));
    let a = real_power::rpow(b, 32);
    lemma_scale(pnu, a * pdu, pdt);
    assert((a * pdu) * pdt == (a * pdt) * pdu) by (nonlinear_arith);
    lemma_cancel(pnt, a * pdt, pdu);
}

proof fn lemma_crossed_powers(t: real, u: real)
    requires
        0real <= t <= u,
    ensures
        real_power::rpow(107real + 2413real * t, 2523) * real_power::rpow(
            128real + 2392real * u,
            2523,
        ) <= real_power::rpow(107real + 2413real * u, 2523) * real_power::rpow(
            128real + 2392real * t,
            2523,
        ),
        real_power::rpow(128real + 2392real * t, 2523) > 0real,
        real_power::rpow(128real + 2392real * u, 2523) > 0real,
{
    let (nt, dt) = (107real + 2413real * t, 128real + 2392real * t);
    let (nu, du) = (107real + 2413real * u, 128real + 2392real * u);
    lemma_ratio_grows(t, u);
    real_power::lemma_rpow_positive(dt, 2523);
    real_power::lemma_rpow_positive(du, 2523);
    assert(0real <= nt * du) by (nonlinear_arith)
        requires
            0real <= nt,
            0real <= du,
    ;
    real_power::lemma_rpow_monotone(nt * du, nu * dt, 2523);
    real_power::lemma_rpow_mul(nt, du, 2523);
    real_power::lemma_rpow_mul(nu, dt, 2523);
}

/// Two codes that are nearest to the same value are the same or next to each other.
pub proof fn lemma_nearest_codes_agree(
    y: real,
    e: nat,
    k: nat,
    a: nat,
    b: nat,
    slack: real,
)
    requires
        0real <= slack < 1real,
        pq_code_is_nearest(y, e, k, a, slack),
        pq_code_is_nearest(y, e, k, b, slack),
    ensures
        a <= b + 1,
        b <= a + 1,
{
    lemma_pq_sides_agree(
        y,
        e,
        k,
        (a as real - 1real / 2real) / 65535real,
        (b as real + 1real / 2real + slack) / 65535real,
    );
    lemma_pq_sides_agree(
        y,
        e,
        k,
        (b as real - 1real / 2real) / 65535real,
        (a as real + 1real / 2real + slack) / 65535real,
    );
    lemma_code_distance(a, b, slack);
    lemma_code_distance(b, a, slack);
}

proof fn lemma_code_distance(a: nat, b: nat, slack: real)
    requires
        slack < 1real,
        (a as real - 1real / 2real) / 65535real <= (b as real + 1real / 2real + slack) / 65535real,
    ensures
        a <= b + 1,
{
    let (x, y) = (a as real, b as real);
    assert(x <= y + 1real + slack);
    if a > b + 1 {
        assert(a >= b + 2);
        assert(x >= y + 2real);
    }
}

} // verus!
