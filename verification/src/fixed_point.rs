//! Fractional powers of fractions in fixed point.
//!
//! A fraction `n / d` of at most one is raised to a power whose exponent is a
//! whole number of `2^k`-ths. The whole part of the exponent is a product. For the
//! rest, the range of exponents between zero and one is halved `k` times: the power
//! in the middle of a range is the geometric mean of those at its ends. Every step
//! rounds down, and the error that this adds up to is bounded by [`power_width`].
//! A mean lies between its two numbers, so the power never grows with the exponent.
use vstd::arithmetic::power2::{lemma_pow2_pos, lemma_pow2_unfold, pow2};
use vstd::prelude::*;

use crate::real_power;

verus! {

/// The fixed-point representation of one: sixty fractional bits.
pub const ONE: u64 = 0x1000_0000_0000_0000;

/// `r` is the square root of `x`, rounded down.
pub open spec fn is_floor_sqrt(x: nat, r: nat) -> bool {
    r * r <= x < (r + 1) * (r + 1)
}

/// The square root of `x`, rounded down.
pub open spec fn floor_sqrt(x: nat) -> nat {
    choose|r: nat| is_floor_sqrt(x, r)
}

proof fn lemma_floor_sqrt_exists(x: nat)
    ensures
        exists|r: nat| is_floor_sqrt(x, r),
    decreases x,
{
    if x == 0 {
        assert(0nat * 0nat == 0 && (0nat + 1) * (0nat + 1) == 1) by (nonlinear_arith);
        assert(is_floor_sqrt(0, 0));
    } else {
        let y = (x - 1) as nat;
        lemma_floor_sqrt_exists(y);
        let r = choose|r: nat| is_floor_sqrt(y, r);
        if (r + 1) * (r + 1) <= x {
            assert((r + 2) * (r + 2) > (r + 1) * (r + 1)) by (nonlinear_arith)
                requires
                    r >= 0,
            ;
            assert(is_floor_sqrt(x, r + 1));
        } else {
            assert(is_floor_sqrt(x, r));
        }
    }
}

pub proof fn lemma_floor_sqrt(x: nat)
    ensures
        is_floor_sqrt(x, floor_sqrt(x)),
{
    lemma_floor_sqrt_exists(x);
}

pub proof fn lemma_floor_sqrt_unique(x: nat, r: nat)
    requires
        is_floor_sqrt(x, r),
    ensures
        r == floor_sqrt(x),
{
    lemma_floor_sqrt(x);
    let s = floor_sqrt(x);
    if s < r {
        assert((s + 1) * (s + 1) <= r * r) by (nonlinear_arith)
            requires
                0 <= s < r,
        ;
    }
    if r < s {
        assert((r + 1) * (r + 1) <= s * s) by (nonlinear_arith)
            requires
                0 <= r < s,
        ;
    }
}

/// The square root of `x`, rounded down.
pub fn integer_sqrt(x: u128) -> (root: u64)
    requires
        x < ONE * ONE * 4,
    ensures
        root == floor_sqrt(x as nat),
        root < 2 * ONE,
{
    let mut low: u64 = 0;
    let mut high: u64 = 2 * ONE;
    assert(2 * ONE * (2 * ONE) == ONE * ONE * 4);
    while low + 1 < high
        invariant
            low < high <= 2 * ONE,
            low * low <= x < high * high,
        decreases high - low,
    {
        let mid: u64 = low + (high - low) / 2;
        assert(mid * mid < u128::MAX) by (nonlinear_arith)
            requires
                0 <= mid <= 0x2000_0000_0000_0000,
        ;
        if (mid as u128) * (mid as u128) <= x {
            low = mid;
        } else {
            high = mid;
        }
    }
    proof {
        assert(high == low + 1);
        assert(is_floor_sqrt(x as nat, low as nat));
        lemma_floor_sqrt_unique(x as nat, low as nat);
    }
    low
}

/// `n / d` in fixed point, rounded down.
pub open spec fn scaled(n: nat, d: nat) -> nat {
    n * ONE as nat / d
}

/// The square root of `n / d` in fixed point, rounded down. It starts from twice as
/// many fractional bits, so that small fractions keep their precision.
pub open spec fn scaled_root(n: nat, d: nat) -> nat {
    floor_sqrt(n * (ONE as nat * ONE as nat) / d)
}

/// What lies `f / 2^k` of the way from `a` to `b`, where the middle of a range is the
/// geometric mean of its ends, rounded down.
pub open spec fn between(a: nat, b: nat, f: nat, k: nat) -> nat
    decreases k,
{
    if k == 0 {
        a
    } else {
        let half = pow2((k - 1) as nat);
        let middle = floor_sqrt(a * b);
        if f < half {
            between(a, middle, f, (k - 1) as nat)
        } else {
            between(middle, b, (f - half) as nat, (k - 1) as nat)
        }
    }
}

/// `n / d` to the power `f / 2^k` of at most one in fixed point.
pub open spec fn proper_power(n: nat, d: nat, f: nat, k: nat) -> nat {
    if k == 0 {
        ONE as nat
    } else {
        let half = pow2((k - 1) as nat);
        if f < half {
            between(ONE as nat, scaled_root(n, d), f, (k - 1) as nat)
        } else {
            between(scaled_root(n, d), scaled(n, d), (f - half) as nat, (k - 1) as nat)
        }
    }
}

/// `base` to a whole power in fixed point, every product rounded down.
pub open spec fn whole_power(base: nat, e: nat) -> nat
    decreases e,
{
    if e == 0 {
        ONE as nat
    } else {
        whole_power(base, (e - 1) as nat) * base / ONE as nat
    }
}

/// `n / d` to the power `e / 2^k` in fixed point.
pub open spec fn fraction_power(n: nat, d: nat, e: nat, k: nat) -> nat {
    whole_power(scaled(n, d), e / pow2(k)) * proper_power(n, d, e % pow2(k), k) / ONE as nat
}

proof fn lemma_square_at_most(a: nat, b: nat)
    requires
        a * a <= b * b,
    ensures
        a <= b,
{
    if a > b {
        assert(a * a > b * b) by (nonlinear_arith)
            requires
                a > b,
                b >= 0,
        ;
    }
}

proof fn lemma_scaled_floor_bound(n: nat, d: nat, s: nat)
    requires
        n <= d,
        0 < d,
    ensures
        n * s / d <= s,
        n * s / d * d <= n * s < (n * s / d + 1) * d,
{
    assert(n * s <= s * d) by (nonlinear_arith)
        requires
            n <= d,
    ;
    let q = n * s / d;
    assert(q * d <= n * s < (q + 1) * d) by (nonlinear_arith)
        requires
            d > 0,
            q == n * s / d,
    ;
    if q > s {
        assert(q * d > s * d) by (nonlinear_arith)
            requires
                q > s,
                d > 0,
        ;
    }
}

/// The geometric mean lies between its two numbers.
proof fn lemma_mean(a: nat, b: nat)
    requires
        b <= a,
    ensures
        b <= floor_sqrt(a * b) <= a,
        is_floor_sqrt(a * b, floor_sqrt(a * b)),
{
    let m = floor_sqrt(a * b);
    lemma_floor_sqrt(a * b);
    assert(b * b <= a * b <= a * a) by (nonlinear_arith)
        requires
            b <= a,
    ;
    lemma_square_at_most(m, a);
    if m < b {
        assert((m + 1) * (m + 1) <= b * b) by (nonlinear_arith)
            requires
                m + 1 <= b,
        ;
    }
}

/// What lies between two numbers does not leave their range.
pub proof fn lemma_between_in_range(a: nat, b: nat, f: nat, k: nat)
    requires
        b <= a,
    ensures
        b <= between(a, b, f, k) <= a,
    decreases k,
{
    if k > 0 {
        lemma_mean(a, b);
        let half = pow2((k - 1) as nat);
        let m = floor_sqrt(a * b);
        if f < half {
            lemma_between_in_range(a, m, f, (k - 1) as nat);
        } else {
            lemma_between_in_range(m, b, (f - half) as nat, (k - 1) as nat);
        }
    }
}

/// The fraction, its root and one are in order.
proof fn lemma_scaled_in_order(n: nat, d: nat)
    requires
        n <= d,
        0 < d,
    ensures
        scaled(n, d) <= scaled_root(n, d) <= ONE,
        is_floor_sqrt(n * (ONE as nat * ONE as nat) / d, scaled_root(n, d)),
{
    let s = ONE as nat;
    let x = n * (s * s) / d;
    let (y, r) = (scaled(n, d), scaled_root(n, d));
    lemma_scaled_floor_bound(n, d, s);
    lemma_scaled_floor_bound(n, d, s * s);
    lemma_floor_sqrt(x);
    lemma_square_at_most(r, s);
    assert(y * y <= x) by {
        assert(y * y * d <= n * (s * s)) by (nonlinear_arith)
            requires
                y * d <= n * s,
                y <= s,
        ;
        if x < y * y {
            assert((x + 1) * d <= y * y * d) by (nonlinear_arith)
                requires
                    x + 1 <= y * y,
            ;
        }
    }
    if r < y {
        assert((r + 1) * (r + 1) <= y * y) by (nonlinear_arith)
            requires
                r + 1 <= y,
        ;
    }
}

/// A proper power lies between the fraction and one.
pub proof fn lemma_proper_power_in_range(n: nat, d: nat, f: nat, k: nat)
    requires
        n <= d,
        0 < d,
    ensures
        scaled(n, d) <= proper_power(n, d, f, k) <= ONE,
{
    lemma_scaled_in_order(n, d);
    if k > 0 {
        let half = pow2((k - 1) as nat);
        if f < half {
            lemma_between_in_range(ONE as nat, scaled_root(n, d), f, (k - 1) as nat);
        } else {
            lemma_between_in_range(
                scaled_root(n, d),
                scaled(n, d),
                (f - half) as nat,
                (k - 1) as nat,
            );
        }
    }
}

proof fn lemma_product_at_most_one(a: nat, b: nat)
    requires
        a <= ONE,
        b <= ONE,
    ensures
        a * b <= ONE as nat * ONE as nat,
        a * b / ONE as nat <= ONE,
        a * b / ONE as nat <= a,
{
    let s = ONE as nat;
    assert(a * b <= s * s) by (nonlinear_arith)
        requires
            a <= s,
            b <= s,
    ;
    assert(a * b <= a * s) by (nonlinear_arith)
        requires
            b <= s,
    ;
    assert(a * b / s <= a) by (nonlinear_arith)
        requires
            a * b <= a * s,
            s > 0,
    ;
}

pub proof fn lemma_whole_power_at_most_one(base: nat, e: nat)
    requires
        base <= ONE,
    ensures
        whole_power(base, e) <= ONE,
    decreases e,
{
    if e > 0 {
        lemma_whole_power_at_most_one(base, (e - 1) as nat);
        lemma_product_at_most_one(whole_power(base, (e - 1) as nat), base);
    }
}

/// Powers of a fraction of at most one are at most one.
pub proof fn lemma_fraction_power_at_most_one(n: nat, d: nat, e: nat, k: nat)
    requires
        n <= d,
        0 < d,
    ensures
        fraction_power(n, d, e, k) <= ONE,
{
    lemma_scaled_floor_bound(n, d, ONE as nat);
    lemma_whole_power_at_most_one(scaled(n, d), e / pow2(k));
    lemma_proper_power_in_range(n, d, e % pow2(k), k);
    lemma_product_at_most_one(
        whole_power(scaled(n, d), e / pow2(k)),
        proper_power(n, d, e % pow2(k), k),
    );
}

/// `a * b` in fixed point, rounded down.
pub fn multiply(a: u64, b: u64) -> (product: u64)
    requires
        a <= ONE,
        b <= ONE,
    ensures
        product == a * b / ONE as int,
        product <= ONE,
{
    proof {
        lemma_product_at_most_one(a as nat, b as nat);
    }
    ((a as u128) * (b as u128) / (ONE as u128)) as u64
}

/// `n / d` with one hundred and twenty fractional bits, rounded down.
fn divide_wide(n: u64, d: u64) -> (q: u128)
    requires
        n <= d <= ONE,
        0 < d,
    ensures
        q == n * (ONE * ONE) / d as int,
        q <= ONE * ONE,
{
    let s: u128 = ONE as u128;
    let wide_d: u128 = d as u128;
    proof {
        lemma_scaled_floor_bound(n as nat, d as nat, ONE as nat);
        assert(n * ONE <= ONE * ONE) by (nonlinear_arith)
            requires
                n <= ONE,
        ;
    }
    let top: u128 = (n as u128) * s;
    let q1: u128 = top / wide_d;
    let r1: u128 = top % wide_d;
    proof {
        assert(r1 * s <= ONE * ONE) by (nonlinear_arith)
            requires
                r1 < d <= ONE,
                s == ONE,
        ;
        assert(q1 * s <= ONE * ONE) by (nonlinear_arith)
            requires
                q1 <= ONE,
                s == ONE,
        ;
    }
    let q2: u128 = r1 * s / wide_d;
    proof {
        lemma_scaled_floor_bound(r1 as nat, d as nat, ONE as nat);
        lemma_scaled_floor_bound(n as nat, d as nat, ONE as nat * ONE as nat);
        vstd::arithmetic::div_mod::lemma_fundamental_div_mod(n * ONE, d as int);
        vstd::arithmetic::div_mod::lemma_fundamental_div_mod(r1 * s, d as int);
        assert(n * ONE == q1 * d + r1) by (nonlinear_arith)
            requires
                n * ONE == d * q1 + r1,
        ;
        assert(r1 * s == q2 * d + (r1 * s) % d as int) by (nonlinear_arith)
            requires
                r1 * s == d * q2 + (r1 * s) % d as int,
        ;
        assert(n * (ONE * ONE) == (q1 * s + q2) * d + (r1 * s) % d as int) by (nonlinear_arith)
            requires
                n * ONE == q1 * d + r1,
                r1 * s == q2 * d + (r1 * s) % d as int,
                s == ONE,
        ;
        vstd::arithmetic::div_mod::lemma_fundamental_div_mod_converse(
            n * (ONE * ONE),
            d as int,
            q1 * s + q2,
            (r1 * s) % d as int,
        );
    }
    q1 * s + q2
}

/// The top digit of a remainder says in which half of the range it lies.
proof fn lemma_top_digit(e: nat, k: nat)
    requires
        k > 0,
    ensures
        ({
            let half = pow2((k - 1) as nat);
            let rest = e % pow2(k);
            &&& (e / half) % 2 == 0 ==> rest < half && rest == e % half
            &&& (e / half) % 2 == 1 ==> rest >= half && rest - half == e % half
        }),
{
    let half = pow2((k - 1) as nat);
    lemma_pow2_unfold(k);
    lemma_pow2_pos((k - 1) as nat);
    vstd::arithmetic::div_mod::lemma_mod_breakdown(e as int, half as int, 2);
    vstd::arithmetic::div_mod::lemma_mod_bound(e as int, half as int);
    assert(half * 2 == pow2(k));
    assert(half * 0 == 0);
    assert(half * 1 == half);
}

/// What lies `(e % 2^k) / 2^k` of the way from `a` to `b`.
fn way_between(a: u64, b: u64, e: u64, k: u32) -> (power: u64)
    requires
        b <= a <= ONE,
        k < 64,
    ensures
        power == between(a as nat, b as nat, e as nat % pow2(k as nat), k as nat),
        power <= ONE,
{
    let mut high: u64 = a;
    let mut low: u64 = b;
    let mut j: u32 = k;
    while j > 0
        invariant
            j <= k < 64,
            low <= high <= ONE,
            between(a as nat, b as nat, e as nat % pow2(k as nat), k as nat) == between(
                high as nat,
                low as nat,
                e as nat % pow2(j as nat),
                j as nat,
            ),
        decreases j,
    {
        let next: u32 = j - 1;
        proof {
            lemma_pow2_pos(j as nat);
            lemma_pow2_pos(next as nat);
            lemma_mean(high as nat, low as nat);
            lemma_top_digit(e as nat, j as nat);
            vstd::bits::lemma_u64_shr_is_div(e, next as u64);
            assert(high * low <= ONE * ONE) by (nonlinear_arith)
                requires
                    high <= ONE,
                    low <= ONE,
            ;
        }
        let mean: u64 = integer_sqrt((high as u128) * (low as u128));
        let digits: u64 = e >> next;
        assert(digits == e as nat / pow2(next as nat));
        if digits % 2 == 1 {
            high = mean;
        } else {
            low = mean;
        }
        j = next;
    }
    proof {
        lemma_pow2_pos(0);
    }
    high
}

/// `n / d` to the power `(e % 2^k) / 2^k`, in fixed point.
fn proper_power_of_fraction(n: u64, d: u64, e: u64, k: u32) -> (power: u64)
    requires
        n <= d <= ONE,
        0 < d,
        k < 64,
    ensures
        power == proper_power(n as nat, d as nat, e as nat % pow2(k as nat), k as nat),
        power <= ONE,
{
    if k == 0 {
        return ONE;
    }
    let next: u32 = k - 1;
    proof {
        lemma_scaled_floor_bound(n as nat, d as nat, ONE as nat);
        lemma_scaled_in_order(n as nat, d as nat);
        lemma_top_digit(e as nat, k as nat);
        vstd::bits::lemma_u64_shr_is_div(e, next as u64);
        assert(n * ONE <= ONE * ONE) by (nonlinear_arith)
            requires
                n <= ONE,
        ;
    }
    let middle: u64 = integer_sqrt(divide_wide(n, d));
    let digits: u64 = e >> next;
    assert(digits == e as nat / pow2(next as nat));
    if digits % 2 == 1 {
        way_between(middle, ((n as u128) * (ONE as u128) / (d as u128)) as u64, e, next)
    } else {
        way_between(ONE, middle, e, next)
    }
}

/// `n / d` to the power `e / 2^k`, in fixed point.
pub fn power_of_fraction(n: u64, d: u64, e: u64, k: u32) -> (power: u64)
    requires
        n <= d <= ONE,
        0 < d,
        k < 64,
    ensures
        power == fraction_power(n as nat, d as nat, e as nat, k as nat),
        power <= ONE,
{
    proof {
        lemma_scaled_floor_bound(n as nat, d as nat, ONE as nat);
        assert(n * ONE <= ONE * ONE) by (nonlinear_arith)
            requires
                n <= ONE,
        ;
    }
    let first: u64 = ((n as u128) * (ONE as u128) / (d as u128)) as u64;
    let whole: u64 = e >> k;
    let mut power: u64 = ONE;
    let mut i: u64 = 0;
    while i < whole && power > 0
        invariant
            i <= whole,
            first <= ONE,
            power <= ONE,
            power == whole_power(first as nat, i as nat),
        decreases whole - i,
    {
        power = multiply(power, first);
        i = i + 1;
    }
    proof {
        if power == 0 {
            lemma_whole_power_stays_zero(first as nat, i as nat, whole as nat);
        }
        vstd::bits::lemma_u64_shr_is_div(e, k as u64);
        lemma_pow2_pos(k as nat);
    }
    multiply(power, proper_power_of_fraction(n, d, e, k))
}

proof fn lemma_whole_power_stays_zero(base: nat, i: nat, e: nat)
    requires
        i <= e,
        whole_power(base, i) == 0,
    ensures
        whole_power(base, e) == 0,
    decreases e,
{
    if i < e {
        lemma_whole_power_stays_zero(base, i, (e - 1) as nat);
        assert(0 * base == 0) by (nonlinear_arith);
    }
}

// ---------------------------------------------------------------------------
// Accuracy
// ---------------------------------------------------------------------------

/// The real number that a fixed-point value stands for.
pub open spec fn to_real(x: nat) -> real {
    (x as real) / (ONE as real)
}

/// `n / d` as a real number.
pub open spec fn ratio(n: nat, d: nat) -> real {
    (n as real) / (d as real)
}

/// How small a fraction may be: `tiny` ones reach down to `2^-60`, the others
/// to `2^-32`.
pub open spec fn fraction_in_range(n: nat, d: nat, tiny: bool) -> bool {
    &&& 0 < d
    &&& n <= d
    &&& d <= n * (if tiny {
        ONE as nat
    } else {
        0x1_0000_0000nat
    })
}

/// How far apart the ends of a range are after `j` halvings: a bound of their ratio, as
/// a numerator over [`spread_unit`].
pub open spec fn spread(tiny: bool, j: nat) -> nat {
    if tiny {
        if j <= 1 {
            0x4000_0000
        } else if j == 2 {
            32769
        } else if j == 3 {
            182
        } else if j == 4 {
            14
        } else if j == 5 {
            4
        } else if j == 6 {
            9
        } else if j == 7 {
            8
        } else {
            13
        }
    } else {
        if j <= 1 {
            65537
        } else if j == 2 {
            257
        } else if j == 3 {
            17
        } else if j <= 5 {
            5
        } else if j == 6 {
            8
        } else {
            13
        }
    }
}

pub open spec fn spread_unit(tiny: bool, j: nat) -> nat {
    if tiny {
        if j <= 5 {
            1
        } else if j == 6 {
            4
        } else if j == 7 {
            5
        } else {
            10
        }
    } else {
        if j <= 4 {
            1
        } else if j == 5 {
            2
        } else if j == 6 {
            5
        } else {
            10
        }
    }
}

/// How far the true powers can lie above the ends of a range after `j` halvings.
pub open spec fn range_width(tiny: bool, j: nat) -> nat {
    if j == 0 {
        0
    } else if j == 1 {
        1
    } else if tiny {
        if j == 2 {
            16386
        } else if j == 3 {
            1483200
        } else if j == 4 {
            10060000
        } else if j == 5 {
            20165000
        } else if j == 6 {
            25210000
        } else if j == 7 {
            27311000
        } else {
            24870000 + 400000 * j
        }
    } else {
        if j == 2 {
            130
        } else if j == 3 {
            1048
        } else if j == 4 {
            2289
        } else if j == 5 {
            3073
        } else if j == 6 {
            3403
        } else {
            3149 + 50 * j
        }
    }
}

/// How far the true power can lie above [`fraction_power`].
pub open spec fn power_width(tiny: bool, e: nat, k: nat) -> nat {
    3 * (e / pow2(k)) + range_width(tiny, k) + 2
}

/// Multiplying commutes with the passage to the reals.
pub proof fn lemma_real_product(a: nat, b: nat)
    ensures
        (a * b) as real == (a as real) * (b as real),
    decreases a,
{
    if a > 0 {
        let c = (a - 1) as nat;
        lemma_real_product(c, b);
        assert(a * b == c * b + b) by (nonlinear_arith)
            requires
                a == c + 1,
        ;
        assert((c * b + b) as real == (c * b) as real + b as real);
        let (rc, rb) = (c as real, b as real);
        assert((rc + 1real) * rb == rc * rb + rb) by (nonlinear_arith);
        assert(a as real == rc + 1real);
    } else {
        assert(0 * b == 0) by (nonlinear_arith);
        let rb = b as real;
        assert(0real * rb == 0real) by (nonlinear_arith);
    }
}

proof fn lemma_real_ratio_le(a: nat, b: nat, n: nat, d: nat)
    requires
        b > 0,
        d > 0,
        a * d <= n * b,
    ensures
        ratio(a, b) <= ratio(n, d),
{
    let (ra, rb, rn, rd) = (a as real, b as real, n as real, d as real);
    assert(ra * rd <= rn * rb) by {
        lemma_real_product(a, d);
        lemma_real_product(n, b);
    }
    assert(ra / rb <= rn / rd) by (nonlinear_arith)
        requires
            rb > 0real,
            rd > 0real,
            ra * rd <= rn * rb,
    ;
}

/// The square of a fixed-point value against a fraction.
proof fn lemma_square_ratio(a: nat, n: nat, d: nat)
    requires
        0 < d,
    ensures
        a * a * d <= n * (ONE as nat * ONE as nat) ==> to_real(a) * to_real(a) <= ratio(n, d),
        a * a * d >= n * (ONE as nat * ONE as nat) ==> to_real(a) * to_real(a) >= ratio(n, d),
{
    let (ra, rn, rd, rs) = (a as real, n as real, d as real, ONE as real);
    lemma_real_product(a, a);
    lemma_real_product(a * a, d);
    lemma_real_product(ONE as nat, ONE as nat);
    lemma_real_product(n, ONE as nat * ONE as nat);
    if a * a * d <= n * (ONE as nat * ONE as nat) {
        assert((ra / rs) * (ra / rs) <= rn / rd) by (nonlinear_arith)
            requires
                rs > 0real,
                rd > 0real,
                ra * ra * rd <= rn * (rs * rs),
        ;
    }
    if a * a * d >= n * (ONE as nat * ONE as nat) {
        assert((ra / rs) * (ra / rs) >= rn / rd) by (nonlinear_arith)
            requires
                rs > 0real,
                rd > 0real,
                ra * ra * rd >= rn * (rs * rs),
        ;
    }
}

proof fn lemma_to_real_nonneg(a: nat)
    ensures
        0real <= to_real(a),
{
    let (ra, rs) = (a as real, ONE as real);
    assert(0real <= ra / rs) by (nonlinear_arith)
        requires
            rs > 0real,
            ra >= 0real,
    ;
}

proof fn lemma_to_real_product(a: nat, b: nat, c: nat)
    ensures
        a * b <= c * ONE as nat ==> to_real(a) * to_real(b) <= to_real(c),
        a * b >= c * ONE as nat ==> to_real(a) * to_real(b) >= to_real(c),
{
    let (ra, rb, rc, rs) = (a as real, b as real, c as real, ONE as real);
    lemma_real_product(a, b);
    lemma_real_product(c, ONE as nat);
    if a * b <= c * ONE as nat {
        assert((ra / rs) * (rb / rs) <= rc / rs) by (nonlinear_arith)
            requires
                rs > 0real,
                ra * rb <= rc * rs,
        ;
    }
    if a * b >= c * ONE as nat {
        assert((ra / rs) * (rb / rs) >= rc / rs) by (nonlinear_arith)
            requires
                rs > 0real,
                ra * rb >= rc * rs,
        ;
    }
}

/// A product rounded down, against the product of the real numbers.
proof fn lemma_product_bounds(p: nat, r: nat, pw: nat, rw: nat)
    requires
        p <= ONE,
        r <= ONE,
        pw * rw <= ONE,
    ensures
        to_real(p * r / ONE as nat) <= to_real(p) * to_real(r),
        to_real(p + pw) * to_real(r + rw) <= to_real(p * r / ONE as nat + pw + rw + 2),
{
    let s = ONE as nat;
    let q = p * r / s;
    assert(q * s <= p * r < (q + 1) * s) by (nonlinear_arith)
        requires
            q == p * r / s,
            s > 0,
    ;
    lemma_to_real_product(p, r, q);
    assert(p * rw <= s * rw) by (nonlinear_arith)
        requires
            p <= s,
    ;
    assert(pw * r <= pw * s) by (nonlinear_arith)
        requires
            r <= s,
    ;
    assert((p + pw) * (r + rw) == p * r + p * rw + pw * r + pw * rw) by (nonlinear_arith);
    assert((q + 1) * s + s * rw + pw * s + s == (q + pw + rw + 2) * s) by (nonlinear_arith);
    lemma_to_real_product(p + pw, r + rw, q + pw + rw + 2);
}

proof fn lemma_real_factors(a: real, b: real, c: real, d: real)
    requires
        0real <= a <= b,
        0real <= c <= d,
    ensures
        a * c <= b * d,
{
    assert(a * c <= b * d) by (nonlinear_arith)
        requires
            0real <= a <= b,
            0real <= c <= d,
    ;
}

proof fn lemma_whole_power_bounds(n: nat, d: nat, e: nat)
    requires
        0 < d,
        n <= d,
        3 * e <= ONE,
    ensures
        to_real(whole_power(scaled(n, d), e)) <= real_power::rpow(ratio(n, d), e),
        real_power::rpow(ratio(n, d), e) <= to_real(whole_power(scaled(n, d), e) + 3 * e),
    decreases e,
{
    let s = ONE as nat;
    let r = scaled(n, d);
    let y = ratio(n, d);
    lemma_scaled_floor_bound(n, d, s);
    lemma_real_ratio_le(r, s, n, d);
    lemma_real_ratio_le(n, d, r + 1, s);
    lemma_to_real_nonneg(r);
    if e == 0 {
        let rs = ONE as real;
        assert(rs / rs == 1real) by (nonlinear_arith)
            requires
                rs > 0real,
        ;
    } else {
        let f = (e - 1) as nat;
        let p = whole_power(r, f);
        lemma_whole_power_bounds(n, d, f);
        lemma_whole_power_at_most_one(r, f);
        lemma_product_bounds(p, r, 3 * f, 1);
        lemma_to_real_nonneg(p);
        real_power::lemma_rpow_nonneg(y, f);
        lemma_real_factors(to_real(p), real_power::rpow(y, f), to_real(r), y);
        lemma_real_factors(real_power::rpow(y, f), to_real(p + 3 * f), y, to_real(r + 1));
        let z = real_power::rpow(y, f);
        assert(z * y == y * z) by (nonlinear_arith);
    }
}

/// A geometric mean, rounded down, does not exceed the true mean.
proof fn lemma_mean_lower(a: nat, b: nat, m: nat)
    requires
        m * m <= a * b,
    ensures
        to_real(m) * to_real(m) <= to_real(a) * to_real(b),
{
    let (ra, rb, rm, rs) = (a as real, b as real, m as real, ONE as real);
    lemma_real_product(a, b);
    lemma_real_product(m, m);
    assert((rm / rs) * (rm / rs) <= (ra / rs) * (rb / rs)) by (nonlinear_arith)
        requires
            rs > 0real,
            rm * rm <= ra * rb,
    ;
}

/// From a range to its middle: `x` is at most the mean of what `a` and `b` are at most.
proof fn lemma_halved_lower(x: real, a: real, b: real, y: real, i: nat, p: nat)
    requires
        0real <= x,
        0real <= a,
        0real <= b,
        0real <= y,
        x * x <= a * b,
        real_power::rpow(a, p) <= real_power::rpow(y, i),
        real_power::rpow(b, p) <= real_power::rpow(y, i + 1),
    ensures
        real_power::rpow(a, 2 * p) <= real_power::rpow(y, 2 * i),
        real_power::rpow(x, 2 * p) <= real_power::rpow(y, 2 * i + 1),
        real_power::rpow(b, 2 * p) <= real_power::rpow(y, 2 * i + 2),
{
    let (pa, pb) = (real_power::rpow(a, p), real_power::rpow(b, p));
    let (ya, yb) = (real_power::rpow(y, i), real_power::rpow(y, i + 1));
    real_power::lemma_rpow_double(a, p);
    real_power::lemma_rpow_double(b, p);
    real_power::lemma_rpow_double(x, p);
    real_power::lemma_rpow_mul(a, b, p);
    real_power::lemma_rpow_nonneg(a, p);
    real_power::lemma_rpow_nonneg(b, p);
    assert(0real <= x * x) by (nonlinear_arith);
    real_power::lemma_rpow_monotone(x * x, a * b, p);
    real_power::lemma_rpow_add(y, i, i);
    real_power::lemma_rpow_add(y, i, i + 1);
    real_power::lemma_rpow_add(y, i + 1, i + 1);
    lemma_real_factors(pa, ya, pa, ya);
    lemma_real_factors(pa, ya, pb, yb);
    lemma_real_factors(pb, yb, pb, yb);
    assert(i + (i + 1) == 2 * i + 1);
    assert((i + 1) + (i + 1) == 2 * i + 2);
    assert(i + i == 2 * i);
}

/// [`between`] does not exceed the true power, where its ends do not.
proof fn lemma_between_lower(a: nat, b: nat, f: nat, k: nat, y: real, i: nat, j: nat)
    requires
        f < pow2(k),
        0real <= y,
        real_power::rpow(to_real(a), pow2(j)) <= real_power::rpow(y, i),
        real_power::rpow(to_real(b), pow2(j)) <= real_power::rpow(y, i + 1),
    ensures
        real_power::rpow(to_real(between(a, b, f, k)), pow2(j + k)) <= real_power::rpow(
            y,
            i * pow2(k) + f,
        ),
    decreases k,
{
    vstd::arithmetic::power2::lemma2_to64();
    if k == 0 {
        assert(i * 1 == i);
    } else {
        let less = (k - 1) as nat;
        let half = pow2(less);
        let m = floor_sqrt(a * b);
        lemma_floor_sqrt(a * b);
        lemma_mean_lower(a, b, m);
        lemma_to_real_nonneg(a);
        lemma_to_real_nonneg(b);
        lemma_to_real_nonneg(m);
        lemma_pow2_unfold(k);
        lemma_pow2_unfold(j + 1);
        lemma_halved_lower(to_real(m), to_real(a), to_real(b), y, i, pow2(j));
        assert((2 * i) * half == i * (2 * half)) by (nonlinear_arith);
        assert((2 * i + 1) * half == i * (2 * half) + half) by (nonlinear_arith);
        assert((j + 1) + less == j + k);
        if f < half {
            lemma_between_lower(a, m, f, less, y, 2 * i, j + 1);
        } else {
            lemma_between_lower(m, b, (f - half) as nat, less, y, 2 * i + 1, j + 1);
        }
    }
}

/// [`proper_power`] does not exceed the true power.
proof fn lemma_proper_power_lower(n: nat, d: nat, f: nat, k: nat)
    requires
        0 < d,
        n <= d,
        f < pow2(k),
    ensures
        real_power::rpow(to_real(proper_power(n, d, f, k)), pow2(k)) <= real_power::rpow(
            ratio(n, d),
            f,
        ),
{
    let s = ONE as nat;
    let y = ratio(n, d);
    vstd::arithmetic::power2::lemma2_to64();
    let rs = ONE as real;
    assert(rs / rs == 1real) by (nonlinear_arith)
        requires
            rs > 0real,
    ;
    real_power::lemma_rpow_base_one(pow2(k));
    real_power::lemma_rpow_base_one(2);
    if k > 0 {
        let less = (k - 1) as nat;
        let half = pow2(less);
        let (r, z) = (scaled_root(n, d), scaled(n, d));
        lemma_pow2_unfold(k);
        lemma_scaled_in_order(n, d);
        lemma_scaled_floor_bound(n, d, s);
        lemma_scaled_floor_bound(n, d, s * s);
        let x = n * (s * s) / d;
        assert(r * r * d <= x * d) by (nonlinear_arith)
            requires
                r * r <= x,
        ;
        lemma_square_ratio(r, n, d);
        real_power::lemma_rpow_square(to_real(r));
        lemma_to_real_nonneg(z);
        lemma_real_ratio_le(z, s, n, d);
        lemma_ratio_in_unit(n, d);
        real_power::lemma_rpow_monotone(to_real(z), y, 2);
        assert(real_power::rpow(y, 0) == 1real);
        assert(real_power::rpow(y, 1) == y * real_power::rpow(y, 0));
        assert(1 + less == k);
        assert(0 * half == 0 && 1 * half == half);
        if f < half {
            lemma_between_lower(s, r, f, less, y, 0, 1);
        } else {
            lemma_between_lower(r, z, (f - half) as nat, less, y, 1, 1);
        }
    }
}

/// [`fraction_power`] does not exceed the true power.
pub proof fn lemma_power_lower(n: nat, d: nat, e: nat, k: nat)
    requires
        0 < d,
        n <= d,
        3 * (e / pow2(k)) <= ONE,
    ensures
        real_power::rpow(to_real(fraction_power(n, d, e, k)), pow2(k)) <= real_power::rpow(
            ratio(n, d),
            e,
        ),
{
    let y = ratio(n, d);
    let p = pow2(k);
    lemma_pow2_pos(k);
    vstd::arithmetic::div_mod::lemma_fundamental_div_mod(e as int, p as int);
    vstd::arithmetic::div_mod::lemma_mod_bound(e as int, p as int);
    let (w, f) = (e / p, e % p);
    let (a, b) = (whole_power(scaled(n, d), w), proper_power(n, d, f, k));
    lemma_whole_power_bounds(n, d, w);
    lemma_proper_power_lower(n, d, f, k);
    lemma_scaled_floor_bound(n, d, ONE as nat);
    lemma_whole_power_at_most_one(scaled(n, d), w);
    lemma_proper_power_in_range(n, d, f, k);
    assert(0 * 0 == 0);
    lemma_product_bounds(a, b, 0, 0);
    let (x, z) = (to_real(a), to_real(b));
    lemma_to_real_nonneg(a);
    lemma_to_real_nonneg(b);
    lemma_to_real_nonneg(fraction_power(n, d, e, k));
    real_power::lemma_rpow_monotone(to_real(fraction_power(n, d, e, k)), x * z, p);
    real_power::lemma_rpow_mul(x, z, p);
    real_power::lemma_rpow_monotone(x, real_power::rpow(y, w), p);
    real_power::lemma_rpow_product(y, w, p);
    real_power::lemma_rpow_nonneg(x, p);
    real_power::lemma_rpow_nonneg(z, p);
    lemma_real_factors(
        real_power::rpow(x, p),
        real_power::rpow(y, w * p),
        real_power::rpow(z, p),
        real_power::rpow(y, f),
    );
    real_power::lemma_rpow_add(y, w * p, f);
    assert(w * p + f == e) by (nonlinear_arith)
        requires
            e == p * w + f,
    ;
}

/// The ends of a range are at most as far apart as after `j` halvings.
spec fn within_spread(tiny: bool, j: nat, a: nat, b: nat) -> bool {
    &&& 0x1000_0000 <= b <= a
    &&& a * spread_unit(tiny, j) <= spread(tiny, j) * b
}

proof fn lemma_difference_product(a: int, b: int, c: int, d: int)
    ensures
        (a - b) * (c - d) == a * c - a * d - b * c + b * d,
{
    assert((a - b) * (c - d) == a * c - a * d - b * c + b * d) by (nonlinear_arith);
}

/// The sum of two numbers, against their mean.
proof fn lemma_sum_of_spread(a: int, b: int, p: int, q: int)
    requires
        0 < b <= a,
        0 < q <= p,
        a * q <= p * b,
    ensures
        ((a + b) * (a + b)) * (p * q) <= ((p + q) * (p + q)) * (a * b),
{
    let x = p * b - a * q;
    let z = a * p - b * q;
    assert(z >= 0) by (nonlinear_arith)
        requires
            z == a * p - b * q,
            0 < b <= a,
            0 < q <= p,
    ;
    assert(0 <= x * z) by (nonlinear_arith)
        requires
            0 <= x,
            0 <= z,
    ;
    let (aa, bb, ab) = (a * a, b * b, a * b);
    let (pp, qq, pq) = (p * p, q * q, p * q);
    assert((p * b) * (a * p) == ab * pp) by (nonlinear_arith)
        requires
            ab == a * b,
            pp == p * p,
    ;
    assert((p * b) * (b * q) == bb * pq) by (nonlinear_arith)
        requires
            bb == b * b,
            pq == p * q,
    ;
    assert((a * q) * (a * p) == aa * pq) by (nonlinear_arith)
        requires
            aa == a * a,
            pq == p * q,
    ;
    assert((a * q) * (b * q) == ab * qq) by (nonlinear_arith)
        requires
            ab == a * b,
            qq == q * q,
    ;
    lemma_difference_product(p * b, a * q, a * p, b * q);
    assert((a + b) * (a + b) == aa + 2 * ab + bb) by (nonlinear_arith)
        requires
            aa == a * a,
            bb == b * b,
            ab == a * b,
    ;
    assert((p + q) * (p + q) == pp + 2 * pq + qq) by (nonlinear_arith)
        requires
            pp == p * p,
            qq == q * q,
            pq == p * q,
    ;
    assert((pp + 2 * pq + qq) * ab == ab * pp + 2 * (ab * pq) + ab * qq) by (nonlinear_arith);
    assert((aa + 2 * ab + bb) * pq == aa * pq + 2 * (ab * pq) + bb * pq) by (nonlinear_arith);
}

/// A spread of `p / q` and a width of `w` lead to a spread of `r / s` and a width of
/// `u + 1` after another halving.
#[verifier::inline]
spec fn rows_agree(p: int, q: int, r: int, s: int, w: int, u: int) -> bool {
    &&& 0 < q <= p
    &&& 0 < s <= r
    &&& 0 <= w <= u
    &&& (w * w) * ((p + q) * (p + q)) <= 4 * (u * u) * (p * q)
    &&& p * (s * s) * 0x100_0000_2000_0001 <= q * (r * r) * 0x100_0000_0000_0000
}

/// The tables of [`spread`] and [`range_width`] go together.
proof fn lemma_tables(tiny: bool, j: nat)
    requires
        1 <= j < 48,
    ensures
        rows_agree(
            spread(tiny, j) as int,
            spread_unit(tiny, j) as int,
            spread(tiny, j + 1) as int,
            spread_unit(tiny, j + 1) as int,
            range_width(tiny, j) as int,
            range_width(tiny, j + 1) - 1,
        ),
{
    if j >= 8 || !tiny && j >= 7 {
        let w = range_width(tiny, j) as int;
        let step: int = if tiny {
            399999
        } else {
            49
        };
        lemma_last_row(w, w + step, step);
        assert(rows_agree(13, 10, 13, 10, w, w + step));
    } else if tiny && j == 1 {
        assert(rows_agree(1073741824, 1, 32769, 1, 1, 16385));
    } else if tiny && j == 2 {
        assert(rows_agree(32769, 1, 182, 1, 16386, 1483199));
    } else if tiny && j == 3 {
        assert(rows_agree(182, 1, 14, 1, 1483200, 10059999));
    } else if tiny && j == 4 {
        assert(rows_agree(14, 1, 4, 1, 10060000, 20164999));
    } else if tiny && j == 5 {
        assert(rows_agree(4, 1, 9, 4, 20165000, 25209999));
    } else if tiny && j == 6 {
        assert(rows_agree(9, 4, 8, 5, 25210000, 27310999));
    } else if tiny && j == 7 {
        assert(rows_agree(8, 5, 13, 10, 27311000, 28069999));
    } else if !tiny && j == 1 {
        assert(rows_agree(65537, 1, 257, 1, 1, 129));
    } else if !tiny && j == 2 {
        assert(rows_agree(257, 1, 17, 1, 130, 1047));
    } else if !tiny && j == 3 {
        assert(rows_agree(17, 1, 5, 1, 1048, 2288));
    } else if !tiny && j == 4 {
        assert(rows_agree(5, 1, 5, 2, 2289, 3072));
    } else if !tiny && j == 5 {
        assert(rows_agree(5, 2, 8, 5, 3073, 3402));
    } else if !tiny && j == 6 {
        assert(rows_agree(8, 5, 13, 10, 3403, 3498));
    }
}

proof fn lemma_last_row(w: int, u: int, step: int)
    requires
        0 <= w,
        0 <= step,
        u == w + step,
        9 * w <= 1040 * step,
    ensures
        (w * w) * 529 <= 4 * (u * u) * 130,
{
    assert(9 * (w * w) <= 1040 * step * w) by (nonlinear_arith)
        requires
            0 <= w,
            9 * w <= 1040 * step,
    ;
    assert((w * w) * 529 <= 4 * (u * u) * 130) by (nonlinear_arith)
        requires
            u == w + step,
            0 <= step,
            9 * (w * w) <= 1040 * step * w,
    ;
}

proof fn lemma_int_square_at_most(a: int, b: int)
    requires
        0 <= b,
        a * a <= b * b,
    ensures
        a <= b,
{
    if a > b {
        assert(a * a > b * b) by (nonlinear_arith)
            requires
                a > b,
                b >= 0,
        ;
    }
}

proof fn lemma_cancel_factor(a: int, b: int, c: int)
    requires
        0 < c,
        a * c <= b * c,
    ensures
        a <= b,
{
    assert(a <= b) by (nonlinear_arith)
        requires
            0 < c,
            a * c <= b * c,
    ;
}

proof fn lemma_times(a: int, b: int, c: int)
    requires
        0 <= c,
        a <= b,
    ensures
        a * c <= b * c,
        c * a <= c * b,
{
    assert(a * c <= b * c && c * a <= c * b) by (nonlinear_arith)
        requires
            0 <= c,
            a <= b,
    ;
}

proof fn lemma_width_grows(sum: int, product: int, pq: int, square: int, w: int, u: int)
    requires
        0 < pq,
        0 <= product,
        (sum * sum) * pq <= square * product,
        (w * w) * square <= 4 * (u * u) * pq,
    ensures
        (w * w) * (sum * sum) <= 4 * (u * u) * product,
{
    let (ww, ss, uu) = (w * w, sum * sum, 4 * (u * u));
    assert(0 <= ww) by (nonlinear_arith)
        requires
            ww == w * w,
    ;
    lemma_times(ss * pq, square * product, ww);
    lemma_times(ww * square, uu * pq, product);
    assert((ww * ss) * pq == ww * (ss * pq)) by (nonlinear_arith);
    assert(ww * (square * product) == (ww * square) * product) by (nonlinear_arith);
    assert((uu * pq) * product == (uu * product) * pq) by (nonlinear_arith);
    lemma_cancel_factor(ww * ss, uu * product, pq);
}

proof fn lemma_upper_half_spread(a: int, b: int, m: int, p: int, q: int, r: int, s: int)
    requires
        0 < b,
        0 <= m,
        0 < q,
        m * m <= a * b,
        a * q <= p * b,
        p * (s * s) <= q * (r * r),
    ensures
        (m * s) * (m * s) <= (r * b) * (r * b),
{
    let (ss, rr, bb) = (s * s, r * r, b * b);
    assert(0 <= ss && 0 <= bb) by (nonlinear_arith)
        requires
            ss == s * s,
            bb == b * b,
    ;
    lemma_times(a * q, p * b, b);
    assert((a * q) * b == (a * b) * q) by (nonlinear_arith);
    assert((p * b) * b == p * bb) by (nonlinear_arith)
        requires
            bb == b * b,
    ;
    lemma_times(m * m, a * b, q);
    lemma_times((m * m) * q, p * bb, ss);
    lemma_times(p * ss, q * rr, bb);
    assert(((m * m) * q) * ss == ((m * m) * ss) * q) by (nonlinear_arith);
    assert((p * bb) * ss == (p * ss) * bb) by (nonlinear_arith);
    assert((q * rr) * bb == (rr * bb) * q) by (nonlinear_arith);
    lemma_cancel_factor((m * m) * ss, rr * bb, q);
    assert((m * s) * (m * s) == (m * m) * ss) by (nonlinear_arith)
        requires
            ss == s * s,
    ;
    assert((r * b) * (r * b) == rr * bb) by (nonlinear_arith)
        requires
            rr == r * r,
            bb == b * b,
    ;
}

proof fn lemma_lower_half_spread(a: int, b: int, m: int, p: int, q: int, r: int, s: int)
    requires
        0 < b <= a,
        0x1000_0000 <= m,
        0 < q <= p,
        a * b <= (m + 1) * (m + 1),
        a * q <= p * b,
        p * (s * s) * 0x100_0000_2000_0001 <= q * (r * r) * 0x100_0000_0000_0000,
    ensures
        (a * s) * (a * s) <= (r * m) * (r * m),
{
    let (ss, rr, aa, mm) = (s * s, r * r, a * a, m * m);
    let l = 0x100_0000_0000_0000int;
    let next = (m + 1) * (m + 1);
    assert(0 <= ss && 0 <= mm && 0 <= aa) by (nonlinear_arith)
        requires
            ss == s * s,
            mm == m * m,
            aa == a * a,
    ;
    lemma_times(a * q, p * b, a);
    assert((a * q) * a == aa * q) by (nonlinear_arith)
        requires
            aa == a * a,
    ;
    assert((p * b) * a == p * (a * b)) by (nonlinear_arith);
    lemma_times(a * b, next, p);
    assert(next * l <= mm * 0x100_0000_2000_0001) by (nonlinear_arith)
        requires
            next == (m + 1) * (m + 1),
            mm == m * m,
            0x1000_0000 <= m,
            l == 0x100_0000_0000_0000,
    ;
    // aa q l <= p next l <= p mm (l + 2^29 + 1)
    lemma_times(aa * q, p * next, l);
    lemma_times(next * l, mm * 0x100_0000_2000_0001, p);
    assert((p * next) * l == p * (next * l)) by (nonlinear_arith);
    lemma_times((aa * q) * l, p * (mm * 0x100_0000_2000_0001), ss);
    lemma_times((p * ss) * 0x100_0000_2000_0001, (q * rr) * l, mm);
    assert((p * (mm * 0x100_0000_2000_0001)) * ss == ((p * ss) * 0x100_0000_2000_0001) * mm)
        by (nonlinear_arith);
    assert(((aa * q) * l) * ss == (aa * ss) * (q * l)) by (nonlinear_arith);
    assert(((q * rr) * l) * mm == (rr * mm) * (q * l)) by (nonlinear_arith);
    assert(0 < q * l) by (nonlinear_arith)
        requires
            0 < q,
            0 < l,
    ;
    lemma_cancel_factor(aa * ss, rr * mm, q * l);
    assert((a * s) * (a * s) == aa * ss) by (nonlinear_arith)
        requires
            aa == a * a,
            ss == s * s,
    ;
    assert((r * m) * (r * m) == rr * mm) by (nonlinear_arith)
        requires
            rr == r * r,
            mm == m * m,
    ;
}

/// From a range to its middle, for the true powers.
proof fn lemma_halved_upper(a: nat, b: nat, m: nat, tiny: bool, j: nat)
    requires
        1 <= j < 48,
        within_spread(tiny, j, a, b),
        is_floor_sqrt(a * b, m),
        b <= m <= a,
    ensures
        within_spread(tiny, j + 1, a, m),
        within_spread(tiny, j + 1, m, b),
        ({
            let (w, v) = (range_width(tiny, j), range_width(tiny, j + 1));
            w <= v && (a + w) * (b + w) <= (m + v) * (m + v)
        }),
{
    lemma_tables(tiny, j);
    let (ip, iq) = (spread(tiny, j) as int, spread_unit(tiny, j) as int);
    let (ir, iu) = (spread(tiny, j + 1) as int, spread_unit(tiny, j + 1) as int);
    let w = range_width(tiny, j) as int;
    let u = range_width(tiny, j + 1) - 1;
    let (x, y, z) = (a as int, b as int, m as int);
    // The width
    lemma_sum_of_spread(x, y, ip, iq);
    let sum = x + y;
    let t = z + 1;
    assert(0 < ip * iq) by (nonlinear_arith)
        requires
            0 < iq <= ip,
    ;
    lemma_width_grows(sum, x * y, ip * iq, (ip + iq) * (ip + iq), w, u);
    assert(w * sum <= 2 * u * t) by {
        if w * sum > 2 * u * t {
            assert((w * sum) * (w * sum) > (2 * u * t) * (2 * u * t)) by (nonlinear_arith)
                requires
                    w * sum > 2 * u * t,
                    0 <= 2 * u * t,
            ;
            assert((w * sum) * (w * sum) == (w * w) * (sum * sum)) by (nonlinear_arith);
            assert((2 * u * t) * (2 * u * t) == 4 * (u * u) * (t * t)) by (nonlinear_arith);
            assert(4 * (u * u) * (x * y) <= 4 * (u * u) * (t * t)) by (nonlinear_arith)
                requires
                    x * y <= t * t,
            ;
        }
    }
    assert((x + w) * (y + w) == x * y + w * sum + w * w) by (nonlinear_arith)
        requires
            sum == x + y,
    ;
    assert((t + u) * (t + u) == t * t + 2 * u * t + u * u) by (nonlinear_arith);
    assert(w * w <= u * u) by (nonlinear_arith)
        requires
            0 <= w <= u,
    ;
    // The upper half of the range
    assert((z * iu) * (z * iu) <= (ir * y) * (ir * y)) by {
        lemma_upper_half_spread(x, y, z, ip, iq, ir, iu);
    }
    lemma_int_square_at_most(z * iu, ir * y);
    // The lower half
    assert((x * iu) * (x * iu) <= (ir * z) * (ir * z)) by {
        lemma_lower_half_spread(x, y, z, ip, iq, ir, iu);
    }
    lemma_int_square_at_most(x * iu, ir * z);
}

/// A geometric mean with its width is at least the true mean.
proof fn lemma_mean_upper(a: nat, b: nat, m: nat)
    requires
        a * b <= m * m,
    ensures
        to_real(a) * to_real(b) <= to_real(m) * to_real(m),
{
    let (ra, rb, rm, rs) = (a as real, b as real, m as real, ONE as real);
    lemma_real_product(a, b);
    lemma_real_product(m, m);
    assert((ra / rs) * (rb / rs) <= (rm / rs) * (rm / rs)) by (nonlinear_arith)
        requires
            rs > 0real,
            ra * rb <= rm * rm,
    ;
}

pub proof fn lemma_to_real_rises(a: nat, b: nat)
    requires
        a <= b,
    ensures
        0real <= to_real(a) <= to_real(b),
{
    let (ra, rb, rs) = (a as real, b as real, ONE as real);
    assert(0real <= ra / rs <= rb / rs) by (nonlinear_arith)
        requires
            rs > 0real,
            0real <= ra <= rb,
    ;
}

/// From a range to its middle: `x` is at least the mean of what `a` and `b` are at least.
proof fn lemma_means_upper(x: real, a: real, b: real, y: real, i: nat, p: nat)
    requires
        0real <= x,
        0real <= a,
        0real <= b,
        0real <= y,
        a * b <= x * x,
        real_power::rpow(y, i) <= real_power::rpow(a, p),
        real_power::rpow(y, i + 1) <= real_power::rpow(b, p),
    ensures
        real_power::rpow(y, 2 * i) <= real_power::rpow(a, 2 * p),
        real_power::rpow(y, 2 * i + 1) <= real_power::rpow(x, 2 * p),
        real_power::rpow(y, 2 * i + 2) <= real_power::rpow(b, 2 * p),
{
    let (pa, pb) = (real_power::rpow(a, p), real_power::rpow(b, p));
    let (ya, yb) = (real_power::rpow(y, i), real_power::rpow(y, i + 1));
    real_power::lemma_rpow_double(a, p);
    real_power::lemma_rpow_double(b, p);
    real_power::lemma_rpow_double(x, p);
    real_power::lemma_rpow_mul(a, b, p);
    real_power::lemma_rpow_nonneg(y, i);
    real_power::lemma_rpow_nonneg(y, i + 1);
    assert(0real <= a * b) by (nonlinear_arith)
        requires
            0real <= a,
            0real <= b,
    ;
    real_power::lemma_rpow_monotone(a * b, x * x, p);
    real_power::lemma_rpow_add(y, i, i);
    real_power::lemma_rpow_add(y, i, i + 1);
    real_power::lemma_rpow_add(y, i + 1, i + 1);
    lemma_real_factors(ya, pa, ya, pa);
    lemma_real_factors(ya, pa, yb, pb);
    lemma_real_factors(yb, pb, yb, pb);
    assert(i + (i + 1) == 2 * i + 1);
    assert((i + 1) + (i + 1) == 2 * i + 2);
    assert(i + i == 2 * i);
}

/// The true power exceeds [`between`] by at most [`range_width`], where it does so at
/// the ends.
proof fn lemma_between_upper(
    a: nat,
    b: nat,
    f: nat,
    k: nat,
    tiny: bool,
    y: real,
    i: nat,
    j: nat,
)
    requires
        f < pow2(k),
        1 <= j,
        j + k <= 48,
        within_spread(tiny, j, a, b),
        0real <= y,
        real_power::rpow(y, i) <= real_power::rpow(
            to_real(a + range_width(tiny, j)),
            pow2(j),
        ),
        real_power::rpow(y, i + 1) <= real_power::rpow(
            to_real(b + range_width(tiny, j)),
            pow2(j),
        ),
    ensures
        real_power::rpow(y, i * pow2(k) + f) <= real_power::rpow(
            to_real(between(a, b, f, k) + range_width(tiny, j + k)),
            pow2(j + k),
        ),
    decreases k,
{
    vstd::arithmetic::power2::lemma2_to64();
    if k == 0 {
        assert(i * 1 == i);
    } else {
        let less = (k - 1) as nat;
        let half = pow2(less);
        let m = floor_sqrt(a * b);
        let (w, v) = (range_width(tiny, j), range_width(tiny, j + 1));
        lemma_mean(a, b);
        lemma_halved_upper(a, b, m, tiny, j);
        lemma_mean_upper(a + w, b + w, m + v);
        lemma_to_real_rises(a + w, a + v);
        lemma_to_real_rises(b + w, b + v);
        lemma_to_real_nonneg(m + v);
        lemma_pow2_unfold(k);
        lemma_pow2_unfold(j + 1);
        let p = pow2(j + 1);
        lemma_means_upper(to_real(m + v), to_real(a + w), to_real(b + w), y, i, pow2(j));
        real_power::lemma_rpow_monotone(to_real(a + w), to_real(a + v), p);
        real_power::lemma_rpow_monotone(to_real(b + w), to_real(b + v), p);
        assert((2 * i) * half == i * (2 * half)) by (nonlinear_arith);
        assert((2 * i + 1) * half == i * (2 * half) + half) by (nonlinear_arith);
        assert((j + 1) + less == j + k);
        if f < half {
            lemma_between_upper(a, m, f, less, tiny, y, 2 * i, j + 1);
        } else {
            lemma_between_upper(m, b, (f - half) as nat, less, tiny, y, 2 * i + 1, j + 1);
        }
    }
}

/// The fraction, its root and one are not too far apart.
proof fn lemma_first_spread(n: nat, d: nat, tiny: bool)
    requires
        fraction_in_range(n, d, tiny),
    ensures
        within_spread(tiny, 1, ONE as nat, scaled_root(n, d)),
        !tiny ==> within_spread(tiny, 1, scaled_root(n, d), scaled(n, d)),
{
    let s = ONE as nat;
    let (r, z) = (scaled_root(n, d), scaled(n, d));
    let x = n * (s * s) / d;
    lemma_scaled_in_order(n, d);
    lemma_scaled_floor_bound(n, d, s);
    lemma_scaled_floor_bound(n, d, s * s);
    let l: nat = if tiny {
        0x4000_0000
    } else {
        0x1000_0000_0000
    };
    let b: nat = if tiny {
        s
    } else {
        0x1_0000_0000
    };
    assert(l * l * b == s * s);
    assert(l * l * d <= n * (s * s)) by (nonlinear_arith)
        requires
            l * l * b == s * s,
            d <= n * b,
    ;
    if x < l * l {
        assert((x + 1) * d <= l * l * d) by (nonlinear_arith)
            requires
                x + 1 <= l * l,
        ;
    }
    if r < l {
        assert((r + 1) * (r + 1) <= l * l) by (nonlinear_arith)
            requires
                r + 1 <= l,
        ;
    }
    if !tiny {
        assert(0x1000_0000 * d <= n * s) by (nonlinear_arith)
            requires
                d <= n * 0x1_0000_0000,
                s == 0x1000_0000_0000_0000,
        ;
        if z < 0x1000_0000 {
            assert((z + 1) * d <= 0x1000_0000 * d) by (nonlinear_arith)
                requires
                    z + 1 <= 0x1000_0000,
            ;
        }
        // r r <= x < (z + 1) s
        assert(x < (z + 1) * s) by {
            if x >= (z + 1) * s {
                assert(x * d >= (z + 1) * s * d) by (nonlinear_arith)
                    requires
                        x >= (z + 1) * s,
                ;
                assert((n * s) * s < ((z + 1) * d) * s) by (nonlinear_arith)
                    requires
                        n * s < (z + 1) * d,
                        s > 0,
                ;
                assert((n * s) * s == n * (s * s)) by (nonlinear_arith);
                assert(((z + 1) * d) * s == (z + 1) * s * d) by (nonlinear_arith);
            }
        }
        assert((z + 1) * s <= (65537 * z) * (65537 * z)) by (nonlinear_arith)
            requires
                z >= 0x1000_0000,
                s == 0x1000_0000_0000_0000,
        ;
        lemma_square_at_most(r, 65537 * z);
    }
}

/// The true power exceeds [`proper_power`] by at most [`range_width`].
proof fn lemma_proper_power_upper(n: nat, d: nat, tiny: bool, f: nat, k: nat)
    requires
        fraction_in_range(n, d, tiny),
        k <= 48,
        f < pow2(k),
        tiny ==> 2 * f < pow2(k),
    ensures
        real_power::rpow(ratio(n, d), f) <= real_power::rpow(
            to_real(proper_power(n, d, f, k) + range_width(tiny, k)),
            pow2(k),
        ),
{
    let s = ONE as nat;
    let y = ratio(n, d);
    vstd::arithmetic::power2::lemma2_to64();
    let rs = ONE as real;
    assert(rs / rs == 1real) by (nonlinear_arith)
        requires
            rs > 0real,
    ;
    real_power::lemma_rpow_base_one(pow2(k));
    real_power::lemma_rpow_base_one(2);
    if k > 0 {
        let less = (k - 1) as nat;
        let half = pow2(less);
        let (r, z) = (scaled_root(n, d), scaled(n, d));
        lemma_pow2_unfold(k);
        lemma_scaled_in_order(n, d);
        lemma_first_spread(n, d, tiny);
        lemma_scaled_floor_bound(n, d, s);
        lemma_scaled_floor_bound(n, d, s * s);
        let x = n * (s * s) / d;
        assert((r + 1) * (r + 1) * d >= (x + 1) * d) by (nonlinear_arith)
            requires
                (r + 1) * (r + 1) >= x + 1,
        ;
        lemma_square_ratio(r + 1, n, d);
        real_power::lemma_rpow_square(to_real(r + 1));
        lemma_real_ratio_le(n, d, z + 1, s);
        lemma_ratio_in_unit(n, d);
        real_power::lemma_rpow_monotone(y, to_real(z + 1), 2);
        lemma_to_real_rises(s, s + 1);
        real_power::lemma_rpow_monotone(1real, to_real(s + 1), 2);
        assert(real_power::rpow(y, 0) == 1real);
        assert(real_power::rpow(y, 1) == y * real_power::rpow(y, 0));
        assert(1 + less == k);
        assert(0 * half == 0 && 1 * half == half);
        if f < half {
            lemma_between_upper(s, r, f, less, tiny, y, 0, 1);
        } else {
            lemma_between_upper(r, z, (f - half) as nat, less, tiny, y, 1, 1);
        }
    }
}

/// [`power_width`] is small for the exponents in use.
pub proof fn lemma_power_width_bound(tiny: bool, e: nat, k: nat)
    requires
        k <= 48,
    ensures
        power_width(tiny, e, k) <= 3 * (e / pow2(k)) + (if tiny {
            27311002 + 400000 * k
        } else {
            5551nat
        }),
        range_width(tiny, k) <= 44070000,
{
}

/// The true power exceeds [`fraction_power`] by at most [`power_width`].
pub proof fn lemma_power_upper(n: nat, d: nat, tiny: bool, e: nat, k: nat)
    requires
        fraction_in_range(n, d, tiny),
        tiny ==> 2 * (e % pow2(k)) < pow2(k),
        k <= 48,
        e / pow2(k) <= 1000,
    ensures
        real_power::rpow(ratio(n, d), e) <= real_power::rpow(
            to_real(fraction_power(n, d, e, k) + power_width(tiny, e, k)),
            pow2(k),
        ),
{
    let y = ratio(n, d);
    let p = pow2(k);
    lemma_pow2_pos(k);
    vstd::arithmetic::div_mod::lemma_fundamental_div_mod(e as int, p as int);
    vstd::arithmetic::div_mod::lemma_mod_bound(e as int, p as int);
    let (w, f) = (e / p, e % p);
    let (a, b) = (whole_power(scaled(n, d), w), proper_power(n, d, f, k));
    let (u, v) = (3 * w, range_width(tiny, k));
    lemma_whole_power_bounds(n, d, w);
    lemma_proper_power_upper(n, d, tiny, f, k);
    lemma_scaled_floor_bound(n, d, ONE as nat);
    lemma_whole_power_at_most_one(scaled(n, d), w);
    lemma_proper_power_in_range(n, d, f, k);
    lemma_power_width_bound(tiny, e, k);
    assert(u * v <= 0x1000_0000_0000_0000) by (nonlinear_arith)
        requires
            0 <= u <= 3000,
            0 <= v <= 44070000,
    ;
    lemma_product_bounds(a, b, u, v);
    let (x, z) = (to_real(a + u), to_real(b + v));
    let top = fraction_power(n, d, e, k) + power_width(tiny, e, k);
    lemma_to_real_nonneg(a + u);
    lemma_to_real_nonneg(b + v);
    lemma_real_ratio_nonneg(n, d);
    assert(0real <= x * z) by (nonlinear_arith)
        requires
            0real <= x,
            0real <= z,
    ;
    real_power::lemma_rpow_monotone(x * z, to_real(top), p);
    real_power::lemma_rpow_mul(x, z, p);
    real_power::lemma_rpow_nonneg(y, w);
    real_power::lemma_rpow_nonneg(y, w * p);
    real_power::lemma_rpow_nonneg(y, f);
    real_power::lemma_rpow_monotone(real_power::rpow(y, w), x, p);
    real_power::lemma_rpow_product(y, w, p);
    lemma_real_factors(
        real_power::rpow(y, w * p),
        real_power::rpow(x, p),
        real_power::rpow(y, f),
        real_power::rpow(z, p),
    );
    real_power::lemma_rpow_add(y, w * p, f);
    assert(w * p + f == e) by (nonlinear_arith)
        requires
            e == p * w + f,
    ;
}

pub proof fn lemma_real_ratio_nonneg(n: nat, d: nat)
    requires
        0 < d,
    ensures
        0real <= ratio(n, d),
{
    let (rn, rd) = (n as real, d as real);
    assert(0real <= rn / rd) by (nonlinear_arith)
        requires
            rd > 0real,
            rn >= 0real,
    ;
}

/// A fraction of at most one lies in the unit interval.
pub proof fn lemma_ratio_in_unit(n: nat, d: nat)
    requires
        0 < d,
        n <= d,
    ensures
        0real <= ratio(n, d) <= 1real,
{
    let (a, b) = (n as real, d as real);
    assert(0real <= a / b <= 1real) by (nonlinear_arith)
        requires
            0real <= a <= b,
            0real < b,
    ;
}

proof fn lemma_floor_sqrt_rises(x: nat, y: nat)
    requires
        x <= y,
    ensures
        floor_sqrt(x) <= floor_sqrt(y),
{
    lemma_floor_sqrt(x);
    lemma_floor_sqrt(y);
    let (a, b) = (floor_sqrt(x), floor_sqrt(y));
    if a > b {
        assert((b + 1) * (b + 1) <= a * a) by (nonlinear_arith)
            requires
                b + 1 <= a,
        ;
    }
}

proof fn lemma_scaled_rises(m: nat, n: nat, s: nat, d: nat)
    requires
        m <= n,
        0 < d,
    ensures
        m * s / d <= n * s / d,
{
    assert(m * s <= n * s) by (nonlinear_arith)
        requires
            m <= n,
    ;
    vstd::arithmetic::div_mod::lemma_div_is_ordered((m * s) as int, (n * s) as int, d as int);
}

proof fn lemma_product_rises(a: nat, b: nat, c: nat, d: nat)
    requires
        a <= b,
        c <= d,
    ensures
        a * c / ONE as nat <= b * d / ONE as nat,
{
    assert(a * c <= b * d) by (nonlinear_arith)
        requires
            a <= b,
            c <= d,
    ;
}

proof fn lemma_whole_power_rises(a: nat, b: nat, e: nat)
    requires
        a <= b,
    ensures
        whole_power(a, e) <= whole_power(b, e),
    decreases e,
{
    if e > 0 {
        let less = (e - 1) as nat;
        lemma_whole_power_rises(a, b, less);
        lemma_product_rises(whole_power(a, less), whole_power(b, less), a, b);
    }
}

proof fn lemma_between_rises(a: nat, b: nat, c: nat, d: nat, f: nat, k: nat)
    requires
        a <= c,
        b <= d,
    ensures
        between(a, b, f, k) <= between(c, d, f, k),
    decreases k,
{
    if k > 0 {
        let less = (k - 1) as nat;
        let half = pow2(less);
        assert(a * b <= c * d) by (nonlinear_arith)
            requires
                a <= c,
                b <= d,
        ;
        lemma_floor_sqrt_rises(a * b, c * d);
        let (m, l) = (floor_sqrt(a * b), floor_sqrt(c * d));
        if f < half {
            lemma_between_rises(a, m, c, l, f, less);
        } else {
            lemma_between_rises(m, b, l, d, (f - half) as nat, less);
        }
    }
}

/// A power grows with its base.
pub proof fn lemma_fraction_power_rises(m: nat, n: nat, d: nat, e: nat, k: nat)
    requires
        m <= n,
        0 < d,
    ensures
        fraction_power(m, d, e, k) <= fraction_power(n, d, e, k),
{
    let one = ONE as nat;
    let f = e % pow2(k);
    lemma_scaled_rises(m, n, one, d);
    lemma_scaled_rises(m, n, one * one, d);
    lemma_floor_sqrt_rises(m * (one * one) / d, n * (one * one) / d);
    lemma_whole_power_rises(scaled(m, d), scaled(n, d), e / pow2(k));
    if k > 0 {
        let less = (k - 1) as nat;
        let half = pow2(less);
        let (a, b) = (scaled_root(m, d), scaled_root(n, d));
        if f < half {
            lemma_between_rises(one, a, one, b, f, less);
        } else {
            lemma_between_rises(a, scaled(m, d), b, scaled(n, d), (f - half) as nat, less);
        }
    }
    lemma_product_rises(
        whole_power(scaled(m, d), e / pow2(k)),
        whole_power(scaled(n, d), e / pow2(k)),
        proper_power(m, d, f, k),
        proper_power(n, d, f, k),
    );
}

proof fn lemma_between_falls(a: nat, b: nat, f: nat, g: nat, k: nat)
    requires
        b <= a,
        f <= g,
    ensures
        between(a, b, g, k) <= between(a, b, f, k),
    decreases k,
{
    if k > 0 {
        let less = (k - 1) as nat;
        let half = pow2(less);
        let m = floor_sqrt(a * b);
        lemma_mean(a, b);
        if g < half {
            lemma_between_falls(a, m, f, g, less);
        } else if f < half {
            lemma_between_in_range(a, m, f, less);
            lemma_between_in_range(m, b, (g - half) as nat, less);
        } else {
            lemma_between_falls(m, b, (f - half) as nat, (g - half) as nat, less);
        }
    }
}

proof fn lemma_proper_power_falls(n: nat, d: nat, f: nat, g: nat, k: nat)
    requires
        n <= d,
        0 < d,
        f <= g,
    ensures
        proper_power(n, d, g, k) <= proper_power(n, d, f, k),
{
    if k > 0 {
        let less = (k - 1) as nat;
        let half = pow2(less);
        let (one, r, y) = (ONE as nat, scaled_root(n, d), scaled(n, d));
        lemma_scaled_in_order(n, d);
        if g < half {
            lemma_between_falls(one, r, f, g, less);
        } else if f < half {
            lemma_between_in_range(one, r, f, less);
            lemma_between_in_range(r, y, (g - half) as nat, less);
        } else {
            lemma_between_falls(r, y, (f - half) as nat, (g - half) as nat, less);
        }
    }
}

proof fn lemma_whole_power_falls(base: nat, i: nat, j: nat)
    requires
        base <= ONE,
        i <= j,
    ensures
        whole_power(base, j) <= whole_power(base, i),
    decreases j,
{
    if i < j {
        let less = (j - 1) as nat;
        lemma_whole_power_falls(base, i, less);
        lemma_whole_power_at_most_one(base, less);
        lemma_product_at_most_one(whole_power(base, less), base);
    }
}

/// A power of a fraction of at most one never grows with the exponent.
pub proof fn lemma_fraction_power_falls(n: nat, d: nat, low: nat, high: nat, k: nat)
    requires
        n <= d,
        0 < d,
        low <= high,
    ensures
        fraction_power(n, d, high, k) <= fraction_power(n, d, low, k),
{
    let p = pow2(k);
    let y = scaled(n, d);
    lemma_pow2_pos(k);
    let (v, w) = (low / p, high / p);
    let (f, g) = (low % p, high % p);
    vstd::arithmetic::div_mod::lemma_fundamental_div_mod(low as int, p as int);
    vstd::arithmetic::div_mod::lemma_fundamental_div_mod(high as int, p as int);
    vstd::arithmetic::div_mod::lemma_div_is_ordered(low as int, high as int, p as int);
    lemma_scaled_floor_bound(n, d, ONE as nat);
    lemma_proper_power_in_range(n, d, f, k);
    lemma_proper_power_in_range(n, d, g, k);
    lemma_whole_power_at_most_one(y, w);
    if v == w {
        lemma_proper_power_falls(n, d, f, g, k);
        lemma_product_rises(
            whole_power(y, w),
            whole_power(y, v),
            proper_power(n, d, g, k),
            proper_power(n, d, f, k),
        );
    } else {
        lemma_whole_power_falls(y, v + 1, w);
        lemma_product_rises(whole_power(y, v), whole_power(y, v), y, proper_power(n, d, f, k));
        lemma_product_at_most_one(whole_power(y, w), proper_power(n, d, g, k));
    }
}

/// Zeros at the end of the exponent's digits count for nothing.
proof fn lemma_between_of_shifted(a: nat, b: nat, f: nat, k: nat, steps: nat)
    requires
        f < pow2(k),
    ensures
        between(a, b, f * pow2(steps), k + steps) == between(a, b, f, k),
    decreases k + steps,
{
    lemma_pow2_pos(steps);
    vstd::arithmetic::power2::lemma2_to64();
    if k == 0 {
        assert(0 * pow2(steps) == 0);
        if steps > 0 {
            let less = (steps - 1) as nat;
            lemma_pow2_pos(less);
            assert(0 * pow2(less) == 0);
            lemma_between_of_shifted(a, floor_sqrt(a * b), 0, 0, less);
        }
    } else {
        let less = (k - 1) as nat;
        let (half, q) = (pow2(less), pow2(steps));
        lemma_pow2_unfold(k);
        vstd::arithmetic::power2::lemma_pow2_adds(less, steps);
        assert((k + steps - 1) as nat == less + steps);
        let m = floor_sqrt(a * b);
        if f < half {
            assert(f * q < half * q) by (nonlinear_arith)
                requires
                    f < half,
                    0 < q,
            ;
            lemma_between_of_shifted(a, m, f, less, steps);
        } else {
            assert(f * q >= half * q && f * q - half * q == (f - half) * q) by (nonlinear_arith)
                requires
                    f >= half,
            ;
            lemma_between_of_shifted(m, b, (f - half) as nat, less, steps);
        }
    }
}

/// A common factor of two in numerator and denominator of the exponent counts for
/// nothing.
pub proof fn lemma_power_of_shifted_exponent(n: nat, d: nat, e: nat, k: nat, steps: nat)
    ensures
        fraction_power(n, d, e * pow2(steps), k + steps) == fraction_power(n, d, e, k),
{
    let (p, q) = (pow2(k), pow2(steps));
    lemma_pow2_pos(k);
    lemma_pow2_pos(steps);
    vstd::arithmetic::power2::lemma_pow2_adds(k, steps);
    vstd::arithmetic::power2::lemma2_to64();
    vstd::arithmetic::div_mod::lemma_fundamental_div_mod(e as int, p as int);
    vstd::arithmetic::div_mod::lemma_mod_bound(e as int, p as int);
    let (w, f) = (e / p, e % p);
    assert(e * q == w * (p * q) + f * q) by (nonlinear_arith)
        requires
            e == p * w + f,
    ;
    assert(f * q < p * q) by (nonlinear_arith)
        requires
            f < p,
            0 < q,
    ;
    vstd::arithmetic::div_mod::lemma_fundamental_div_mod_converse(
        (e * q) as int,
        (p * q) as int,
        w as int,
        (f * q) as int,
    );
    let (one, r, y) = (ONE as nat, scaled_root(n, d), scaled(n, d));
    if k == 0 {
        assert(0 * q == 0);
        if steps > 0 {
            let less = (steps - 1) as nat;
            lemma_pow2_pos(less);
            assert(0 * pow2(less) == 0);
            lemma_between_of_shifted(one, r, 0, 0, less);
        }
    } else {
        let less = (k - 1) as nat;
        let half = pow2(less);
        lemma_pow2_unfold(k);
        vstd::arithmetic::power2::lemma_pow2_adds(less, steps);
        assert((k + steps - 1) as nat == less + steps);
        if f < half {
            assert(f * q < half * q) by (nonlinear_arith)
                requires
                    f < half,
                    0 < q,
            ;
            lemma_between_of_shifted(one, r, f, less, steps);
        } else {
            assert(f * q >= half * q && f * q - half * q == (f - half) * q) by (nonlinear_arith)
                requires
                    f >= half,
            ;
            lemma_between_of_shifted(r, y, (f - half) as nat, less, steps);
        }
    }
}

proof fn lemma_between_equal(a: nat, f: nat, k: nat)
    ensures
        between(a, a, f, k) == a,
{
    lemma_between_in_range(a, a, f, k);
}

proof fn lemma_whole_power_of_one(e: nat)
    ensures
        whole_power(ONE as nat, e) == ONE,
    decreases e,
{
    if e > 0 {
        lemma_whole_power_of_one((e - 1) as nat);
    }
}

/// Every power of one is one.
pub proof fn lemma_fraction_power_of_one(d: nat, e: nat, k: nat)
    requires
        0 < d,
    ensures
        fraction_power(d, d, e, k) == ONE,
{
    let one = ONE as nat;
    vstd::arithmetic::div_mod::lemma_div_multiples_vanish(one as int, d as int);
    assert(scaled(d, d) == one);
    lemma_proper_power_in_range(d, d, e % pow2(k), k);
    lemma_whole_power_of_one(e / pow2(k));
}

proof fn lemma_between_one_and_zero(a: nat, f: nat, k: nat)
    requires
        0 < f < pow2(k),
    ensures
        between(a, 0, f, k) == 0,
    decreases k,
{
    vstd::arithmetic::power2::lemma2_to64();
    assert(k > 0);
    let less = (k - 1) as nat;
    let half = pow2(less);
    lemma_mean(a, 0);
    assert(a * 0 == 0);
    let m = floor_sqrt(0);
    lemma_floor_sqrt(0);
    if m > 0 {
        assert(m * m >= 1) by (nonlinear_arith)
            requires
                m >= 1,
        ;
    }
    if f < half {
        lemma_between_one_and_zero(a, f, less);
    } else {
        lemma_between_equal(0, (f - half) as nat, less);
    }
}

/// Every power of zero is zero.
pub proof fn lemma_fraction_power_of_zero(d: nat, e: nat, k: nat)
    requires
        0 < d,
        0 < e,
    ensures
        fraction_power(0, d, e, k) == 0,
{
    let s = ONE as nat;
    let p = pow2(k);
    lemma_pow2_pos(k);
    vstd::arithmetic::power2::lemma2_to64();
    vstd::arithmetic::div_mod::lemma_div_basics(d as int);
    assert(0 * s == 0 && 0 * (s * s) == 0);
    assert(scaled(0, d) == 0);
    lemma_scaled_in_order(0, d);
    assert(scaled_root(0, d) == 0) by {
        let r = scaled_root(0, d);
        if r > 0 {
            assert(r * r >= 1) by (nonlinear_arith)
                requires
                    r >= 1,
            ;
        }
    }
    let (w, f) = (e / p, e % p);
    vstd::arithmetic::div_mod::lemma_fundamental_div_mod(e as int, p as int);
    vstd::arithmetic::div_mod::lemma_mod_bound(e as int, p as int);
    let (x, y) = (whole_power(0, w), proper_power(0, d, f, k));
    if w > 0 {
        let before = whole_power(0, (w - 1) as nat);
        assert(before * 0 == 0);
        assert(0 * y == 0);
    } else {
        assert(p * 0 == 0);
        assert(k > 0);
        let less = (k - 1) as nat;
        let half = pow2(less);
        lemma_pow2_unfold(k);
        if f < half {
            lemma_between_one_and_zero(s, f, less);
        } else {
            lemma_between_equal(0, (f - half) as nat, less);
        }
        assert(x * 0 == 0);
    }
}

} // verus!
