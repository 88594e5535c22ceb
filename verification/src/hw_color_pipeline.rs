//! Contents of the kernel's color pipeline: `DEGAMMA_LUT`, `CTM`, `GAMMA_LUT`.
//!
//! ```text
//! framebuffer (sRGB-encoded RGB) -> DEGAMMA_LUT -> CTM -> GAMMA_LUT -> scanout
//! ```
//!
//! The degamma table decodes sRGB, the matrix remaps the gamut and mixes in the
//! saturation, and the gamma table applies the midtone gamma and the tone map
//! and encodes with the PQ curve.
use vstd::arithmetic::power::pow;
use vstd::arithmetic::power2::pow2;
use vstd::prelude::*;

use crate::clipped_surface;
use crate::drm_helpers::HdrColorContainer;
use crate::fixed_point;
use crate::fixed_point::ONE;
use crate::natural::Natural;
use crate::perceptual_quantizer;
use crate::perceptual_quantizer::CODE_MAX;
use crate::real_power;

verus! {

/// An entry of a table: the kernel's `struct drm_color_lut`. The last field is
/// reserved and must be zero.
#[derive(Clone, Copy, Debug, Default, PartialEq, Eq, Structural)]
pub struct DrmColorLutEntry {
    pub red: u16,
    pub green: u16,
    pub blue: u16,
    pub reserved: u16,
}

/// A tuning factor: an unsigned fixed-point number with 28 fractional bits.
#[derive(Clone, Copy, Debug, PartialEq, Eq, Structural)]
pub struct Factor {
    pub bits: u32,
}

/// The bits of a factor of one.
pub const FACTOR_ONE: u32 = 0x1000_0000;

/// The bits of the smallest midtone gamma, one tenth.
pub const GAMMA_MIN: u32 = 26843546;

/// An entry with the same value in all three channels.
pub open spec fn gray_entry(code: nat) -> DrmColorLutEntry {
    DrmColorLutEntry {
        red: code as u16,
        green: code as u16,
        blue: code as u16,
        reserved: 0,
    }
}

fn gray(code: u16) -> (entry: DrmColorLutEntry)
    ensures
        entry == gray_entry(code as nat),
{
    DrmColorLutEntry { red: code, green: code, blue: code, reserved: 0 }
}

// ---------------------------------------------------------------------------
// sRGB decode
// ---------------------------------------------------------------------------

/// `half_steps / 131070` is at most `((n / d + 0.055) / 1.055) ^ 2.4`.
pub open spec fn srgb_power_reaches(n: int, d: int, half_steps: int) -> bool {
    pow(half_steps, 5) * pow(1055 * d, 12) <= pow(131070, 5) * pow(1000 * n + 55 * d, 12)
}

/// `code` is the linear value of the sRGB-encoded `n / d`, in steps of
/// `1 / 65535` and rounded to the nearest step:
///
/// ```text
/// linear(v) = v / 12.92                          if v <= 0.04045
///           = ((v + 0.055) / 1.055) ^ 2.4        otherwise
/// ```
pub open spec fn srgb_code_is_nearest(n: int, d: int, code: int) -> bool {
    if 100000 * n <= 4045 * d {
        // A value x of the form a / b, rounded, is (2 a + b) / (2 b).
        code == (13107000 * n + 1292 * d) / (2584 * d)
    } else {
        &&& code <= CODE_MAX
        &&& code == 0 || srgb_power_reaches(n, d, 2 * code - 1)
        &&& code == CODE_MAX || !srgb_power_reaches(n, d, 2 * code + 1)
    }
}

proof fn lemma_pow_base_grows(a: int, b: int, e: nat)
    requires
        0 <= a <= b,
    ensures
        0 <= pow(a, e) <= pow(b, e),
    decreases e,
{
    reveal(pow);
    if e > 0 {
        let less = (e - 1) as nat;
        lemma_pow_base_grows(a, b, less);
        let (p, q) = (pow(a, less), pow(b, less));
        assert(0 <= a * p <= b * q) by (nonlinear_arith)
            requires
                0 <= a <= b,
                0 <= p <= q,
        ;
    }
}

proof fn lemma_srgb_reach_shrinks(n: int, d: int, a: int, b: int)
    requires
        0 <= d,
        0 <= a <= b,
        srgb_power_reaches(n, d, b),
    ensures
        srgb_power_reaches(n, d, a),
{
    lemma_pow_base_grows(a, b, 5);
    let (pa, pb, q) = (pow(a, 5), pow(b, 5), pow(1055 * d, 12));
    lemma_pow_base_grows(0, 1055 * d, 12);
    assert(pa * q <= pb * q) by (nonlinear_arith)
        requires
            pa <= pb,
            0 <= q,
    ;
}

/// Whether `half_steps / 131070` is at most the decoded value; `divisor` and
/// `reach` are the two powers that do not depend on it.
fn srgb_reaches(
    divisor: &Natural,
    reach: &Natural,
    half_steps: u64,
    n: Ghost<int>,
    d: Ghost<int>,
) -> (yes: bool)
    requires
        divisor@ == pow(1055 * d@, 12),
        reach@ == pow(131070, 5) * pow(1000 * n@ + 55 * d@, 12),
    ensures
        yes == srgb_power_reaches(n@, d@, half_steps as int),
{
    let left: Natural = divisor.times_power(half_steps, 5);
    proof {
        let (a, b) = (divisor@, pow(half_steps as int, 5));
        assert(a * b == b * a) by (nonlinear_arith);
    }
    left.at_most(reach)
}

/// The linear value of the sRGB-encoded `n / d`.
fn srgb_decode(n: u64, d: u64) -> (code: u16)
    requires
        n <= d,
        0 < d <= 0xFFFF_FFFF,
    ensures
        srgb_code_is_nearest(n as int, d as int, code as int),
{
    if 100000 * n <= 4045 * d {
        let code: u64 = (13107000 * n + 1292 * d) / (2584 * d);
        proof {
            let (a, b) = (13107000 * n + 1292 * d, 2584 * d);
            assert(a <= 0xFFFF * b);
            vstd::arithmetic::div_mod::lemma_div_is_ordered(a, 0xFFFF * b, b);
            vstd::arithmetic::div_mod::lemma_div_multiples_vanish(0xFFFF, b);
            assert(b * 0xFFFF == 0xFFFF * b);
        }
        return code as u16;
    }
    let one: Natural = Natural::one();
    let divisor: Natural = one.times_power(1055 * d, 12);
    let reach: Natural = one.times_power(131070, 5).times_power(1000 * n + 55 * d, 12);
    proof {
        assert(1 * pow(131070, 5) == pow(131070, 5));
        assert(1 * pow(1055 * d, 12) == pow(1055 * d, 12));
    }
    let mut low: u64 = 0;
    let mut high: u64 = 0xFFFF;
    while low < high
        invariant
            low <= high <= 0xFFFF,
            divisor@ == pow(1055 * d, 12),
            reach@ == pow(131070, 5) * pow(1000 * n + 55 * d, 12),
            low == 0 || srgb_power_reaches(n as int, d as int, 2 * low - 1),
            high == 0xFFFF || !srgb_power_reaches(n as int, d as int, 2 * high + 1),
        decreases high - low,
    {
        let middle: u64 = (low + high + 1) / 2;
        if srgb_reaches(
            &divisor,
            &reach,
            2 * middle - 1,
            Ghost(n as int),
            Ghost(d as int),
        ) {
            low = middle;
        } else {
            high = middle - 1;
            assert(2 * middle - 1 == 2 * high + 1);
        }
    }
    low as u16
}

/// The code of an encoded value is the only one that is nearest.
pub proof fn lemma_srgb_code_is_unique(n: int, d: int, a: int, b: int)
    requires
        0 < d,
        0 <= a,
        0 <= b,
        srgb_code_is_nearest(n, d, a),
        srgb_code_is_nearest(n, d, b),
    ensures
        a == b,
{
    if 100000 * n > 4045 * d {
        if a < b {
            lemma_srgb_reach_shrinks(n, d, 2 * a + 1, 2 * b - 1);
        } else if b < a {
            lemma_srgb_reach_shrinks(n, d, 2 * b + 1, 2 * a - 1);
        }
    }
}

/// The `DEGAMMA_LUT` that maps sRGB-encoded values to linear light, with `size`
/// entries that are evenly spaced over the input range.
pub fn srgb_decode_lut(size: u32) -> (lut: Vec<DrmColorLutEntry>)
    requires
        size >= 2,
    ensures
        lut@.len() == size,
        forall|i: int|
            0 <= i < size ==> {
                &&& #[trigger] lut@[i] == gray_entry(lut@[i].red as nat)
                &&& srgb_code_is_nearest(i, size - 1, lut@[i].red as int)
            },
{
    let mut lut: Vec<DrmColorLutEntry> = Vec::new();
    let mut i: u32 = 0;
    while i < size
        invariant
            2 <= size,
            i <= size,
            lut@.len() == i,
            forall|j: int|
                0 <= j < i ==> {
                    &&& #[trigger] lut@[j] == gray_entry(lut@[j].red as nat)
                    &&& srgb_code_is_nearest(j, size - 1, lut@[j].red as int)
                },
        decreases size - i,
    {
        let code: u16 = srgb_decode(i as u64, (size - 1) as u64);
        lut.push(gray(code));
        i += 1;
    }
    lut
}

// ---------------------------------------------------------------------------
// PQ encode
// ---------------------------------------------------------------------------

/// The midtone gamma that takes effect, as the numerator of a fraction over
/// `2^29`. Half of the distance from neutral counts: a slider at 1.10 gives an
/// effective gamma of 1.05. The slider is at least one tenth.
pub open spec fn effective_gamma(gamma_raw: Factor) -> nat {
    FACTOR_ONE as nat + if gamma_raw.bits < GAMMA_MIN {
        GAMMA_MIN as nat
    } else {
        gamma_raw.bits as nat
    }
}

fn gamma_numerator(gamma_raw: Factor) -> (gamma: u64)
    ensures
        gamma == effective_gamma(gamma_raw),
        gamma <= 0x1_1000_0000,
{
    if gamma_raw.bits < GAMMA_MIN {
        FACTOR_ONE as u64 + GAMMA_MIN as u64
    } else {
        FACTOR_ONE as u64 + gamma_raw.bits as u64
    }
}

/// An entry of the table with a midtone gamma: `pq((n / d) ^ gamma)`. The two
/// exponents `gamma / 2^29` and `1305 / 2^13` are taken together.
pub open spec fn pq_gamma_code(n: nat, d: nat, gamma_raw: Factor) -> nat {
    perceptual_quantizer::pq_code(n, d, effective_gamma(gamma_raw) * 1305, 42)
}

/// `code` is the value of the curve `pq((n / d) ^ gamma)`, rounded to the nearest code.
pub open spec fn is_gamma_entry(n: nat, d: nat, gamma_raw: Factor, code: nat) -> bool {
    perceptual_quantizer::pq_code_is_nearest(
        fixed_point::ratio(n, d),
        effective_gamma(gamma_raw) * 1305,
        42,
        code,
        1real / 131072real,
    )
}

/// The `GAMMA_LUT` that maps linear light to PQ values; the input range `0..=1`
/// stands for `0..=10000 cd/m²`.
pub fn pq_encode_lut(size: u32) -> (lut: Vec<DrmColorLutEntry>)
    requires
        size >= 2,
    ensures
        lut@.len() == size,
        forall|i: int|
            0 <= i < size ==> #[trigger] lut@[i] == gray_entry(
                perceptual_quantizer::pq_code(i as nat, (size - 1) as nat, 1305, 13),
            ),
        // Over the reals, each entry is the value of the curve.
        forall|i: int|
            0 <= i < size ==> perceptual_quantizer::pq_code_is_nearest(
                fixed_point::ratio(i as nat, (size - 1) as nat),
                1305,
                13,
                (#[trigger] lut@[i]).red as nat,
                1real / 131072real,
            ),
{
    let lut: Vec<DrmColorLutEntry> = pq_encode_lut_with_gamma(size, Factor { bits: FACTOR_ONE });
    proof {
        assert forall|i: int| 0 <= i < size implies #[trigger] lut@[i] == gray_entry(
            perceptual_quantizer::pq_code(i as nat, (size - 1) as nat, 1305, 13),
        ) by {
            lemma_gamma_one_is_plain(i as nat, (size - 1) as nat);
        }
        assert forall|i: int| 0 <= i < size implies perceptual_quantizer::pq_code_is_nearest(
            fixed_point::ratio(i as nat, (size - 1) as nat),
            1305,
            13,
            (#[trigger] lut@[i]).red as nat,
            1real / 131072real,
        ) by {
            lemma_gamma_one_is_plain(i as nat, (size - 1) as nat);
            lemma_code_in_range(i as nat, (size - 1) as nat, 1305, 13);
            lemma_plain_entry_is_nearest(size as nat, i as nat);
        }
    }
    lut
}

/// The `GAMMA_LUT` that applies a midtone gamma per channel and then encodes
/// with the PQ curve.
pub fn pq_encode_lut_with_gamma(size: u32, gamma_raw: Factor) -> (lut: Vec<DrmColorLutEntry>)
    requires
        size >= 2,
    ensures
        lut@.len() == size,
        forall|i: int|
            0 <= i < size ==> #[trigger] lut@[i] == gray_entry(
                pq_gamma_code(i as nat, (size - 1) as nat, gamma_raw),
            ),
        // Over the reals, each entry is the value of the curve.
        forall|i: int|
            0 <= i < size ==> is_gamma_entry(
                i as nat,
                (size - 1) as nat,
                gamma_raw,
                (#[trigger] lut@[i]).red as nat,
            ),
        // The exponent is that of the slider: `(1 + g) / 2`, times `1305 / 2^13` of the curve.
        gamma_raw.bits >= 26843546 ==> forall|i: int|
            0 <= i < size ==> perceptual_quantizer::pq_code_is_nearest(
                fixed_point::ratio(i as nat, (size - 1) as nat),
                (0x1000_0000 + gamma_raw.bits as nat) * 1305,
                42,
                (#[trigger] lut@[i]).red as nat,
                1real / 131072real,
            ),
{
    let exponent: u64 = gamma_numerator(gamma_raw) * 1305;
    let mut lut: Vec<DrmColorLutEntry> = Vec::new();
    let mut i: u32 = 0;
    while i < size
        invariant
            2 <= size,
            i <= size,
            exponent == effective_gamma(gamma_raw) * 1305,
            lut@.len() == i,
            forall|j: int|
                0 <= j < i ==> #[trigger] lut@[j] == gray_entry(
                    pq_gamma_code(j as nat, (size - 1) as nat, gamma_raw),
                ),
        decreases size - i,
    {
        let code: u16 = perceptual_quantizer::encode(i as u64, (size - 1) as u64, exponent, 42);
        lut.push(gray(code));
        i += 1;
    }
    proof {
        assert forall|i: int| 0 <= i < size implies is_gamma_entry(
            i as nat,
            (size - 1) as nat,
            gamma_raw,
            (#[trigger] lut@[i]).red as nat,
        ) by {
            lemma_code_in_range(
                i as nat,
                (size - 1) as nat,
                effective_gamma(gamma_raw) * 1305,
                42,
            );
            lemma_gamma_entry_is_nearest(size as nat, i as nat, gamma_raw);
        }
    }
    lut
}

proof fn lemma_code_in_range(n: nat, d: nat, e: nat, k: nat)
    requires
        n <= d,
        0 < d,
    ensures
        perceptual_quantizer::pq_code(n, d, e, k) <= CODE_MAX,
{
    perceptual_quantizer::lemma_pq_code_rises(n, d, d, e, k);
    perceptual_quantizer::lemma_pq_code_of_one(d, e, k);
}

/// A neutral midtone gamma leaves the standard curve, whose exponent is
/// `m1 = 1305 / 8192`.
pub proof fn lemma_gamma_one_is_plain(n: nat, d: nat)
    ensures
        pq_gamma_code(n, d, (Factor { bits: FACTOR_ONE })) == perceptual_quantizer::pq_code(
            n,
            d,
            1305,
            13,
        ),
{
    vstd::arithmetic::power2::lemma2_to64();
    fixed_point::lemma_power_of_shifted_exponent(n, d, 1305, 13, 29);
    assert(1305 * pow2(29) == effective_gamma(Factor { bits: FACTOR_ONE }) * 1305);
}

/// Each entry of the table is the code nearest to the curve: over the reals,
/// `pq((i / (size - 1)) ^ gamma)` lies within half a step of it, up to a small
/// fraction of a step on one side.
pub proof fn lemma_gamma_entry_is_nearest(size: nat, i: nat, gamma_raw: Factor)
    requires
        2 <= size <= 0xFFFF_FFFF,
        i < size,
    ensures
        is_gamma_entry(
            i,
            (size - 1) as nat,
            gamma_raw,
            pq_gamma_code(i, (size - 1) as nat, gamma_raw),
        ),
{
    let d = (size - 1) as nat;
    let e = effective_gamma(gamma_raw) * 1305;
    vstd::arithmetic::power2::lemma2_to64_rest();
    assert(e / pow2(42) <= 1);
    if i > 0 {
        assert(d <= i * 0x1_0000_0000);
    }
    fixed_point::lemma_power_width_bound(false, e, 42);
    perceptual_quantizer::lemma_pq_code_is_nearest(i, d, false, e, 42);
    let w = perceptual_quantizer::exponent_width(i, false, e, 42);
    perceptual_quantizer::lemma_code_slack_bound(w, 5554, 1real / 131072real);
    perceptual_quantizer::lemma_nearest_weakens(
        fixed_point::ratio(i, d),
        e,
        42,
        pq_gamma_code(i, d, gamma_raw),
        perceptual_quantizer::code_slack(w),
        1real / 131072real,
    );
}

/// Each entry of the plain table is the code nearest to the curve.
pub proof fn lemma_plain_entry_is_nearest(size: nat, i: nat)
    requires
        2 <= size <= 0xFFFF_FFFF,
        i < size,
    ensures
        perceptual_quantizer::pq_code_is_nearest(
            fixed_point::ratio(i, (size - 1) as nat),
            1305,
            13,
            perceptual_quantizer::pq_code(i, (size - 1) as nat, 1305, 13),
            1real / 131072real,
        ),
{
    let d = (size - 1) as nat;
    vstd::arithmetic::power2::lemma2_to64();
    if i > 0 {
        assert(d <= i * 0x1_0000_0000);
    }
    fixed_point::lemma_power_width_bound(false, 1305, 13);
    perceptual_quantizer::lemma_pq_code_is_nearest(i, d, false, 1305, 13);
    let w = perceptual_quantizer::exponent_width(i, false, 1305, 13);
    perceptual_quantizer::lemma_code_slack_bound(w, 5554, 1real / 131072real);
    perceptual_quantizer::lemma_nearest_weakens(
        fixed_point::ratio(i, d),
        1305,
        13,
        perceptual_quantizer::pq_code(i, d, 1305, 13),
        perceptual_quantizer::code_slack(w),
        1real / 131072real,
    );
}

/// Whatever the gamma, black stays at zero and white at the largest code.
pub proof fn lemma_gamma_table_endpoints(d: nat, gamma_raw: Factor)
    requires
        0 < d,
    ensures
        pq_gamma_code(0, d, gamma_raw) == 0,
        pq_gamma_code(d, d, gamma_raw) == CODE_MAX,
{
    perceptual_quantizer::lemma_pq_code_of_zero(d, effective_gamma(gamma_raw) * 1305, 42);
    perceptual_quantizer::lemma_pq_code_of_one(d, effective_gamma(gamma_raw) * 1305, 42);
}

/// The table never falls.
pub proof fn lemma_gamma_table_rises(m: nat, n: nat, d: nat, gamma_raw: Factor)
    requires
        m <= n <= d,
        0 < d,
    ensures
        pq_gamma_code(m, d, gamma_raw) <= pq_gamma_code(n, d, gamma_raw),
{
    perceptual_quantizer::lemma_pq_code_rises(m, n, d, effective_gamma(gamma_raw) * 1305, 42);
}

/// A larger midtone gamma never brightens: it raises no entry.
pub proof fn lemma_larger_gamma_darkens(n: nat, d: nat, less: Factor, more: Factor)
    requires
        n <= d,
        0 < d,
        less.bits <= more.bits,
    ensures
        pq_gamma_code(n, d, more) <= pq_gamma_code(n, d, less),
{
    let (low, high) = (effective_gamma(less) * 1305, effective_gamma(more) * 1305);
    perceptual_quantizer::lemma_pq_code_falls(n, d, low, high, 42);
}

// ---------------------------------------------------------------------------
// Tone mapping
// ---------------------------------------------------------------------------

/// The tone-mapped luminance of the relative luminance `r`, both in units of
/// `1 / ONE`; one stands for the reference white on input and for 10000 cd/m²
/// on output. The curve is a modified Reinhard curve whose source peak is the
/// reference white:
///
/// ```text
/// v  = 2 * peak / ref - 1
/// x' = x * (1 + x * v) / (1 + x)
/// ```
///
/// and its result, `ref * x'`, is capped at the panel's peak and at 10000 cd/m².
pub open spec fn tone_mapped(r: nat, ref_white: nat, peak: nat) -> nat {
    let curve = tone_curve(r, ref_white, peak);
    let cap = tone_cap(peak);
    if curve < cap {
        curve
    } else {
        cap
    }
}

/// The curve without its cap.
pub open spec fn tone_curve(r: nat, ref_white: nat, peak: nat) -> nat {
    (r * (ref_white * (ONE - r) + 2 * peak * r) / (10000 * (ONE + r))) as nat
}

/// The largest luminance that the curve gives.
pub open spec fn tone_cap(peak: nat) -> nat {
    if peak < 10000 {
        peak * ONE as nat / 10000
    } else {
        ONE as nat
    }
}

/// `a * b / d`, rounded down, where the product may exceed 128 bits.
fn multiply_divide(a: u64, b: u128, d: u128) -> (q: u128)
    requires
        0 < d,
        2 * d + b <= u128::MAX,
        a * b / (d as int) <= u128::MAX,
    ensures
        q == a * b / (d as int),
{
    let mut prefix: Ghost<int> = Ghost(0);
    let mut q: u128 = 0;
    let mut rest: u128 = 0;
    let mut bits: u32 = 64;
    proof {
        vstd::arithmetic::power2::lemma2_to64();
        vstd::arithmetic::power2::lemma2_to64_rest();
    }
    while bits > 0
        invariant
            bits <= 64,
            0 < d,
            2 * d + b <= u128::MAX,
            a * b / (d as int) <= u128::MAX,
            prefix@ == a as int / pow2(bits as nat) as int,
            0 <= prefix@ <= a,
            prefix@ * b == q * d + rest,
            rest < d,
        decreases bits,
    {
        let less: u32 = bits - 1;
        let bit: u64 = (a >> less) & 1;
        let ghost next: int = a as int / pow2(less as nat) as int;
        proof {
            vstd::bits::lemma_u64_shr_is_div(a, less as u64);
            assert((a >> less) == (a >> (less as u64)));
            let shifted = a >> less;
            assert(shifted & 1 == shifted % 2) by (bit_vector);
            vstd::arithmetic::power2::lemma_pow2_unfold(bits as nat);
            vstd::arithmetic::power2::lemma_pow2_pos(less as nat);
            let p = pow2(less as nat) as int;
            vstd::arithmetic::div_mod::lemma_div_denominator(a as int, p, 2);
            assert(p * 2 == 2 * p);
            assert(next == 2 * prefix@ + bit);
            vstd::arithmetic::div_mod::lemma_div_is_ordered_by_denominator(a as int, 1, p);
            assert(a as int / 1 == a);
            assert(next <= a);
        }
        let addend: u128 = if bit == 1 {
            b
        } else {
            0
        };
        let sum: u128 = 2 * rest + addend;
        proof {
            let (x, s, w) = (prefix@, sum as int, d as int);
            assert(addend == bit * b) by (nonlinear_arith)
                requires
                    bit == 1 && addend == b || bit == 0 && addend == 0,
            ;
            assert((2 * x + bit) * b == 2 * (x * b) + bit * b) by (nonlinear_arith);
            vstd::arithmetic::div_mod::lemma_fundamental_div_mod(s, w);
            let t = s / w;
            assert(next * b == (2 * q + t) * d + s % w) by (nonlinear_arith)
                requires
                    next * b == 2 * (x * b) + addend,
                    x * b == q * d + rest,
                    s == 2 * rest + addend,
                    s == w * t + s % w,
                    w == d,
            ;
            vstd::arithmetic::div_mod::lemma_mod_bound(s, w);
            vstd::arithmetic::div_mod::lemma_fundamental_div_mod_converse(
                next * b,
                w,
                2 * q + t,
                s % w,
            );
            assert(next * b <= a * b) by (nonlinear_arith)
                requires
                    next <= a,
                    0 <= b,
            ;
            vstd::arithmetic::div_mod::lemma_div_is_ordered(next * b, a * b, w);
            assert(0 <= t) by (nonlinear_arith)
                requires
                    s == w * t + s % w,
                    s % w < w,
                    0 <= s,
                    0 < w,
            ;
        }
        q = 2 * q + sum / d;
        rest = sum % d;
        proof {
            prefix@ = next;
        }
        bits = less;
    }
    proof {
        assert(a as int / 1 == a);
        vstd::arithmetic::div_mod::lemma_fundamental_div_mod_converse(
            a * b,
            d as int,
            q as int,
            rest as int,
        );
    }
    q
}

fn tone_map(r: u64, ref_white: u16, peak: u16) -> (y: u64)
    requires
        r <= ONE,
    ensures
        y == tone_mapped(r as nat, ref_white as nat, peak as nat),
        y <= ONE,
{
    proof {
        let (x, y) = (ref_white as int, ONE - r);
        assert(0 <= x * y <= 0xFFFF * ONE) by (nonlinear_arith)
            requires
                0 <= x <= 0xFFFF,
                0 <= y <= ONE,
        ;
        let (z, w) = (2 * peak as int, r as int);
        assert(0 <= z * w <= 0x1_FFFE * ONE) by (nonlinear_arith)
            requires
                0 <= z <= 0x1_FFFE,
                0 <= w <= ONE,
        ;
    }
    let gain: u128 = ref_white as u128 * (ONE - r) as u128 + 2 * peak as u128 * r as u128;
    let divisor: u128 = 10000 * (ONE as u128 + r as u128);
    proof {
        let w = r as int;
        let (g, d) = (gain as int, divisor as int);
        assert(w * g <= u128::MAX * d) by (nonlinear_arith)
            requires
                0 <= w <= ONE,
                0 <= g <= 0x2_FFFD * ONE,
                d >= 10000 * ONE,
        ;
        vstd::arithmetic::div_mod::lemma_div_is_ordered(w * g, u128::MAX * d, d);
        vstd::arithmetic::div_mod::lemma_div_multiples_vanish(u128::MAX as int, d);
        assert(d * u128::MAX == u128::MAX * d) by (nonlinear_arith);
        vstd::arithmetic::div_mod::lemma_div_pos_is_pos(w * g, d);
    }
    let curve: u128 = multiply_divide(r, gain, divisor);
    let cap: u64 = if peak < 10000 {
        ((peak as u128 * ONE as u128) / 10000) as u64
    } else {
        ONE
    };
    if curve < cap as u128 {
        curve as u64
    } else {
        cap
    }
}

/// An entry of the table with a midtone gamma and a tone map:
/// `pq(tone_mapped((n / d) ^ gamma))`.
pub open spec fn pq_tonemap_code(
    n: nat,
    d: nat,
    gamma_raw: Factor,
    ref_white: nat,
    peak: nat,
) -> nat {
    let lifted = fixed_point::fraction_power(n, d, effective_gamma(gamma_raw), 29);
    perceptual_quantizer::pq_code(tone_mapped(lifted, ref_white, peak), ONE as nat, 1305, 13)
}

/// `lifted` is `(n / d) ^ gamma` in units of `1 / ONE`, rounded down, up to 8192 units.
pub open spec fn is_lifted(lifted: nat, n: nat, d: nat, gamma_raw: Factor) -> bool {
    let exact = real_power::rpow(fixed_point::ratio(n, d), effective_gamma(gamma_raw));
    &&& lifted <= ONE
    &&& real_power::rpow(fixed_point::to_real(lifted), pow2(29)) <= exact
    &&& exact <= real_power::rpow(fixed_point::to_real(lifted + 8192), pow2(29))
}

/// `code` is the value of the PQ curve at the tone-mapped luminance, rounded to the
/// nearest code.
pub open spec fn is_mapped_entry(lifted: nat, ref_white: nat, peak: nat, code: nat) -> bool {
    perceptual_quantizer::pq_code_is_nearest(
        fixed_point::ratio(tone_mapped(lifted, ref_white, peak), ONE as nat),
        1305,
        13,
        code,
        1real / 512real,
    )
}

/// `code` is the value of `pq(tone_mapped((n / d) ^ gamma))`, rounded to the nearest
/// code.
pub open spec fn is_tonemap_entry(
    n: nat,
    d: nat,
    gamma_raw: Factor,
    ref_white: nat,
    peak: nat,
    code: nat,
) -> bool {
    exists|lifted: nat| #[trigger]
        is_lifted(lifted, n, d, gamma_raw) && is_mapped_entry(lifted, ref_white, peak, code)
}

/// The `GAMMA_LUT` that applies a midtone gamma, a tone map from the reference
/// white to the panel's peak, and the PQ curve. Without a reference white or a
/// peak there is nothing to map against, and the table is that of
/// `pq_encode_lut_with_gamma`.
pub fn pq_encode_lut_with_tonemap(
    size: u32,
    gamma_raw: Factor,
    ref_white_nits: u16,
    panel_peak_nits: u16,
) -> (lut: Vec<DrmColorLutEntry>)
    requires
        size >= 2,
    ensures
        lut@.len() == size,
        forall|i: int|
            0 <= i < size ==> #[trigger] lut@[i] == gray_entry(
                if panel_peak_nits == 0 || ref_white_nits == 0 {
                    pq_gamma_code(i as nat, (size - 1) as nat, gamma_raw)
                } else {
                    pq_tonemap_code(
                        i as nat,
                        (size - 1) as nat,
                        gamma_raw,
                        ref_white_nits as nat,
                        panel_peak_nits as nat,
                    )
                },
            ),
        // Over the reals, each entry is the value of the curve.
        forall|i: int|
            0 <= i < size ==> if panel_peak_nits == 0 || ref_white_nits == 0 {
                is_gamma_entry(
                    i as nat,
                    (size - 1) as nat,
                    gamma_raw,
                    (#[trigger] lut@[i]).red as nat,
                )
            } else {
                is_tonemap_entry(
                    i as nat,
                    (size - 1) as nat,
                    gamma_raw,
                    ref_white_nits as nat,
                    panel_peak_nits as nat,
                    lut@[i].red as nat,
                )
            },
{
    if panel_peak_nits == 0 || ref_white_nits == 0 {
        return pq_encode_lut_with_gamma(size, gamma_raw);
    }
    let exponent: u64 = gamma_numerator(gamma_raw);
    let mut lut: Vec<DrmColorLutEntry> = Vec::new();
    let mut i: u32 = 0;
    while i < size
        invariant
            2 <= size,
            i <= size,
            exponent == effective_gamma(gamma_raw),
            lut@.len() == i,
            forall|j: int|
                0 <= j < i ==> #[trigger] lut@[j] == gray_entry(
                    pq_tonemap_code(
                        j as nat,
                        (size - 1) as nat,
                        gamma_raw,
                        ref_white_nits as nat,
                        panel_peak_nits as nat,
                    ),
                ),
        decreases size - i,
    {
        let lifted: u64 = fixed_point::power_of_fraction(
            i as u64,
            (size - 1) as u64,
            exponent,
            29,
        );
        let mapped: u64 = tone_map(lifted, ref_white_nits, panel_peak_nits);
        let code: u16 = perceptual_quantizer::encode(mapped, ONE, 1305, 13);
        lut.push(gray(code));
        i += 1;
    }
    proof {
        let (w, p) = (ref_white_nits as nat, panel_peak_nits as nat);
        assert forall|i: int| 0 <= i < size implies is_tonemap_entry(
            i as nat,
            (size - 1) as nat,
            gamma_raw,
            w,
            p,
            (#[trigger] lut@[i]).red as nat,
        ) by {
            lemma_tonemap_entry_is_nearest(size as nat, i as nat, gamma_raw, w, p);
        }
    }
    lut
}

/// With the peak at the reference white the tone map is the identity: it only
/// turns a relative luminance into an absolute one.
pub proof fn lemma_tone_map_is_identity(r: nat, ref_white: nat)
    requires
        r <= ONE,
        ref_white <= 10000,
    ensures
        tone_mapped(r, ref_white, ref_white) == r * ref_white / 10000,
{
    let w = ref_white;
    let s = (ONE + r) as int;
    assert(w * (ONE - r) + 2 * w * r == w * s) by (nonlinear_arith)
        requires
            s == ONE + r,
    ;
    assert(r * (w * s) == s * (r * w)) by (nonlinear_arith);
    assert(10000 * s == s * 10000);
    vstd::arithmetic::div_mod::lemma_div_denominator(s * (r * w), s, 10000);
    vstd::arithmetic::div_mod::lemma_div_multiples_vanish((r * w) as int, s);
    assert(r * w <= w * ONE) by (nonlinear_arith)
        requires
            r <= ONE,
    ;
}

/// No entry exceeds the panel's peak, and the source's peak maps to it.
pub proof fn lemma_tone_map_reaches_peak(r: nat, ref_white: nat, peak: nat)
    ensures
        tone_mapped(r, ref_white, peak) <= tone_cap(peak),
        tone_mapped(ONE as nat, ref_white, peak) == tone_cap(peak),
{
    let one = ONE as int;
    assert(ref_white * (one - one) == 0);
    assert(one * (2 * peak * one) == (peak * one) * (2 * one)) by (nonlinear_arith);
    assert(10000 * (one + one) == (2 * one) * 10000);
    vstd::arithmetic::div_mod::lemma_div_denominator((2 * one) * (peak * one), 2 * one, 10000);
    vstd::arithmetic::div_mod::lemma_div_multiples_vanish(peak * one, 2 * one);
    assert((2 * one) * (peak * one) == (peak * one) * (2 * one)) by (nonlinear_arith);
}

/// A larger peak never gives a smaller luminance. So a peak below the reference white
/// compresses, and one above it expands, as against the identity.
pub proof fn lemma_larger_peak_expands(r: nat, ref_white: nat, less: nat, more: nat)
    requires
        r <= ONE,
        less <= more,
    ensures
        tone_mapped(r, ref_white, less) <= tone_mapped(r, ref_white, more),
        ref_white <= 10000 && more <= ref_white ==> tone_mapped(r, ref_white, more) <= r * ref_white
            / 10000,
        ref_white <= 10000 && ref_white <= less ==> r * ref_white / 10000 <= tone_mapped(
            r,
            ref_white,
            less,
        ),
{
    lemma_curve_grows_with_peak(r, ref_white, less, more);
    if ref_white <= 10000 {
        lemma_tone_map_is_identity(r, ref_white);
        if more <= ref_white {
            lemma_curve_grows_with_peak(r, ref_white, more, ref_white);
        }
        if ref_white <= less {
            lemma_curve_grows_with_peak(r, ref_white, ref_white, less);
        }
    }
}

proof fn lemma_curve_grows_with_peak(r: nat, ref_white: nat, less: nat, more: nat)
    requires
        r <= ONE,
        less <= more,
    ensures
        tone_mapped(r, ref_white, less) <= tone_mapped(r, ref_white, more),
{
    let base = ref_white * (ONE - r);
    let unit = 10000 * (ONE + r);
    let (a, b) = (r * (base + 2 * less * r), r * (base + 2 * more * r));
    assert(0 <= base) by (nonlinear_arith)
        requires
            base == ref_white * (ONE - r),
            r <= ONE,
    ;
    assert(0 <= a <= b) by (nonlinear_arith)
        requires
            a == r * (base + 2 * less * r),
            b == r * (base + 2 * more * r),
            0 <= base,
            less <= more,
    ;
    vstd::arithmetic::div_mod::lemma_div_is_ordered(a, b, unit);
    vstd::arithmetic::div_mod::lemma_div_pos_is_pos(a, unit);
    assert(less * ONE as nat <= more * ONE as nat) by (nonlinear_arith)
        requires
            less <= more,
    ;
}

/// A larger peak never darkens an entry of the table.
pub proof fn lemma_larger_peak_brightens(
    n: nat,
    d: nat,
    gamma_raw: Factor,
    ref_white: nat,
    less: nat,
    more: nat,
)
    requires
        n <= d,
        0 < d,
        less <= more,
    ensures
        pq_tonemap_code(n, d, gamma_raw, ref_white, less) <= pq_tonemap_code(
            n,
            d,
            gamma_raw,
            ref_white,
            more,
        ),
{
    let lifted = fixed_point::fraction_power(n, d, effective_gamma(gamma_raw), 29);
    fixed_point::lemma_fraction_power_at_most_one(n, d, effective_gamma(gamma_raw), 29);
    lemma_curve_grows_with_peak(lifted, ref_white, less, more);
    perceptual_quantizer::lemma_pq_code_rises(
        tone_mapped(lifted, ref_white, less),
        tone_mapped(lifted, ref_white, more),
        ONE as nat,
        1305,
        13,
    );
}

/// The tone map never falls. The curve itself does, where the peak is below a third of
/// the reference white, but only beyond the point where it reaches its cap.
pub proof fn lemma_tone_map_rises(r: nat, s: nat, ref_white: nat, peak: nat)
    requires
        r <= s <= ONE,
    ensures
        tone_mapped(r, ref_white, peak) <= tone_mapped(s, ref_white, peak),
{
    let (o, w, p) = (ONE as int, ref_white as int, peak as int);
    let (x, y) = (r as int, s as int);
    let k = 2 * p - w;
    let (f, g) = (x * (w * (o - x) + 2 * p * x), y * (w * (o - y) + 2 * p * y));
    let (d, e) = (10000 * (o + x), 10000 * (o + y));
    if tone_curve(s, ref_white, peak) < tone_cap(peak) && r < s {
        assert(f == w * o * x + k * (x * x)) by (nonlinear_arith)
            requires
                f == x * (w * (o - x) + 2 * p * x),
                k == 2 * p - w,
        ;
        assert(g == w * o * y + k * (y * y)) by (nonlinear_arith)
            requires
                g == y * (w * (o - y) + 2 * p * y),
                k == 2 * p - w,
        ;
        assert(0 <= f && 0 <= g) by (nonlinear_arith)
            requires
                f == x * (w * (o - x) + 2 * p * x),
                g == y * (w * (o - y) + 2 * p * y),
                0 <= x <= o,
                0 <= y <= o,
                0 <= w,
                0 <= p,
        ;
        lemma_below_cap(g, e, p * o);
        assert(10000 * g < (p * o) * e);
        assert(g < p * o * (o + y)) by (nonlinear_arith)
            requires
                10000 * g < (p * o) * e,
                e == 10000 * (o + y),
        ;
        // What is left to the cap has the factors `o - y` and `k y + p o`.
        lemma_rest_to_cap(y, w, p, k, o);
        let (left, slope) = (o - y, k * y + p * o);
        assert(0 < slope) by (nonlinear_arith)
            requires
                0 < left * slope,
                0 <= left,
        ;
        lemma_slope(x, y, w, p, k, o);
        let bracket = w * (o * o) + k * (o * (x + y) + x * y);
        assert((y - x) * bracket >= 0) by (nonlinear_arith)
            requires
                bracket >= 0,
                x <= y,
        ;
        lemma_cross_difference(x, y, w, k, o);
        assert(f * e <= g * d) by (nonlinear_arith)
            requires
                f * (o + y) <= g * (o + x),
                d == 10000 * (o + x),
                e == 10000 * (o + y),
        ;
        lemma_quotient_order(f, d, g, e);
    }
}

proof fn lemma_rest_to_cap(y: int, w: int, p: int, k: int, o: int)
    requires
        k == 2 * p - w,
    ensures
        p * o * (o + y) - (w * o * y + k * (y * y)) == (o - y) * (k * y + p * o),
{
    let (po, oy) = (p * o, o * y);
    assert(po * (o + y) == po * o + po * y) by (nonlinear_arith);
    assert((o - y) * (k * y + po) == k * oy + po * o - k * (y * y) - po * y) by (nonlinear_arith)
        requires
            oy == o * y,
    ;
    assert(k * oy == 2 * (p * oy) - w * oy) by (nonlinear_arith)
        requires
            k == 2 * p - w,
    ;
    assert(p * oy == po * y && w * oy == w * o * y) by (nonlinear_arith)
        requires
            oy == o * y,
            po == p * o,
    ;
}

/// A quotient that is less than a cap, both rounded down, is less than the cap.
proof fn lemma_below_cap(g: int, e: int, top: int)
    requires
        0 <= g,
        0 < e,
        0 <= top,
        g / e < top / 10000,
    ensures
        10000 * g < top * e,
{
    vstd::arithmetic::div_mod::lemma_fundamental_div_mod(g, e);
    vstd::arithmetic::div_mod::lemma_mod_bound(g, e);
    let (q, t) = (g / e, top / 10000);
    assert(g < (q + 1) * e) by (nonlinear_arith)
        requires
            g == e * q + g % e,
            g % e < e,
    ;
    assert((q + 1) * e <= t * e) by (nonlinear_arith)
        requires
            q + 1 <= t,
            0 < e,
    ;
    assert((10000 * t) * e <= top * e) by (nonlinear_arith)
        requires
            10000 * t <= top,
            0 < e,
    ;
    assert((10000 * t) * e == 10000 * (t * e)) by (nonlinear_arith);
}

proof fn lemma_slope(x: int, y: int, w: int, p: int, k: int, o: int)
    requires
        0 <= x <= y <= o,
        0 <= w,
        0 <= p,
        k == 2 * p - w,
        0 < k * y + p * o,
    ensures
        w * (o * o) + k * (o * (x + y) + x * y) >= 0,
{
    let reach = o * (x + y) + x * y;
    assert(0 <= reach <= 2 * (o * y) + y * y) by (nonlinear_arith)
        requires
            reach == o * (x + y) + x * y,
            0 <= x <= y <= o,
    ;
    if k >= 0 {
        assert(k * reach >= 0 && w * (o * o) >= 0) by (nonlinear_arith)
            requires
                0 <= k,
                0 <= reach,
                0 <= w,
        ;
    } else {
        let u = -k;
        assert(k * y == -(u * y)) by (nonlinear_arith)
            requires
                u == -k,
        ;
        let most = 2 * (o * y) + y * y;
        assert(u * reach <= u * most) by (nonlinear_arith)
            requires
                0 <= u,
                reach <= most,
        ;
        assert((u * y) * o <= (p * o) * o) by (nonlinear_arith)
            requires
                u * y <= p * o,
                0 <= o,
        ;
        assert(u * (y * y) <= u * (o * o)) by (nonlinear_arith)
            requires
                0 <= u,
                0 <= y <= o,
        ;
        assert(u * most == 2 * ((u * y) * o) + u * (y * y)) by (nonlinear_arith)
            requires
                most == 2 * (o * y) + y * y,
        ;
        assert(2 * ((p * o) * o) + u * (o * o) == w * (o * o)) by (nonlinear_arith)
            requires
                u == w - 2 * p,
        ;
        assert(k * reach == -(u * reach)) by (nonlinear_arith)
            requires
                u == -k,
        ;
    }
}

proof fn lemma_cross_difference(x: int, y: int, w: int, k: int, o: int)
    ensures
        (w * o * y + k * (y * y)) * (o + x) - (w * o * x + k * (x * x)) * (o + y) == (y - x) * (w
            * (o * o) + k * (o * (x + y) + x * y)),
{
    let (wo, xx, yy, xy) = (w * o, x * x, y * y, x * y);
    assert((wo * y) * (o + x) == (wo * o) * y + wo * xy) by (nonlinear_arith)
        requires
            xy == x * y,
    ;
    assert((wo * x) * (o + y) == (wo * o) * x + wo * xy) by (nonlinear_arith)
        requires
            xy == x * y,
    ;
    assert((k * yy) * (o + x) == k * (o * yy) + k * (yy * x)) by (nonlinear_arith);
    assert((k * xx) * (o + y) == k * (o * xx) + k * (xx * y)) by (nonlinear_arith);
    assert((wo * y + k * yy) * (o + x) == (wo * y) * (o + x) + (k * yy) * (o + x))
        by (nonlinear_arith);
    assert((wo * x + k * xx) * (o + y) == (wo * x) * (o + y) + (k * xx) * (o + y))
        by (nonlinear_arith);
    let inner = o * (x + y) + xy;
    assert((y - x) * inner == o * yy - o * xx + yy * x - xx * y) by (nonlinear_arith)
        requires
            inner == o * (x + y) + xy,
            xy == x * y,
            xx == x * x,
            yy == y * y,
    ;
    assert((y - x) * (k * inner) == k * ((y - x) * inner)) by (nonlinear_arith);
    assert(k * (o * yy - o * xx + yy * x - xx * y) == k * (o * yy) - k * (o * xx) + k * (yy * x) - k
        * (xx * y)) by (nonlinear_arith);
    assert((y - x) * (w * (o * o)) == (wo * o) * y - (wo * o) * x) by (nonlinear_arith)
        requires
            wo == w * o,
    ;
    assert((y - x) * (w * (o * o) + k * inner) == (y - x) * (w * (o * o)) + (y - x) * (k * inner))
        by (nonlinear_arith);
}

proof fn lemma_quotient_order(f: int, d: int, g: int, e: int)
    requires
        0 <= f,
        0 <= g,
        0 < d,
        0 < e,
        f * e <= g * d,
    ensures
        0 <= f / d <= g / e,
{
    vstd::arithmetic::div_mod::lemma_fundamental_div_mod(f, d);
    vstd::arithmetic::div_mod::lemma_mod_bound(f, d);
    vstd::arithmetic::div_mod::lemma_fundamental_div_mod(g, e);
    vstd::arithmetic::div_mod::lemma_mod_bound(g, e);
    vstd::arithmetic::div_mod::lemma_div_pos_is_pos(f, d);
    let (p, q) = (f / d, g / e);
    if p > q {
        assert(d * p == p * d && (q + 1) * e == e * q + e) by (nonlinear_arith);
        assert(f * e >= (p * d) * e) by (nonlinear_arith)
            requires
                f >= p * d,
                0 < e,
        ;
        assert(g * d < ((q + 1) * e) * d) by (nonlinear_arith)
            requires
                g < (q + 1) * e,
                0 < d,
        ;
        assert(((q + 1) * e) * d <= (p * e) * d) by (nonlinear_arith)
            requires
                q + 1 <= p,
                0 < e,
                0 < d,
        ;
        assert((p * d) * e == (p * e) * d) by (nonlinear_arith);
    }
}

/// The tone-mapped table never falls.
pub proof fn lemma_tonemap_table_rises(
    m: nat,
    n: nat,
    d: nat,
    gamma_raw: Factor,
    ref_white: nat,
    peak: nat,
)
    requires
        m <= n <= d,
        0 < d,
    ensures
        pq_tonemap_code(m, d, gamma_raw, ref_white, peak) <= pq_tonemap_code(
            n,
            d,
            gamma_raw,
            ref_white,
            peak,
        ),
{
    let e = effective_gamma(gamma_raw);
    let (a, b) = (
        fixed_point::fraction_power(m, d, e, 29),
        fixed_point::fraction_power(n, d, e, 29),
    );
    fixed_point::lemma_fraction_power_rises(m, n, d, e, 29);
    fixed_point::lemma_fraction_power_at_most_one(n, d, e, 29);
    lemma_tone_map_rises(a, b, ref_white, peak);
    assert(tone_cap(peak) <= ONE);
    perceptual_quantizer::lemma_pq_code_rises(
        tone_mapped(a, ref_white, peak),
        tone_mapped(b, ref_white, peak),
        ONE as nat,
        1305,
        13,
    );
}

/// A larger midtone gamma never brightens an entry of the tone-mapped table.
pub proof fn lemma_larger_gamma_darkens_mapped(
    n: nat,
    d: nat,
    less: Factor,
    more: Factor,
    ref_white: nat,
    peak: nat,
)
    requires
        n <= d,
        0 < d,
        less.bits <= more.bits,
    ensures
        pq_tonemap_code(n, d, more, ref_white, peak) <= pq_tonemap_code(
            n,
            d,
            less,
            ref_white,
            peak,
        ),
{
    let (low, high) = (effective_gamma(less), effective_gamma(more));
    let (a, b) = (
        fixed_point::fraction_power(n, d, high, 29),
        fixed_point::fraction_power(n, d, low, 29),
    );
    fixed_point::lemma_fraction_power_falls(n, d, low, high, 29);
    fixed_point::lemma_fraction_power_at_most_one(n, d, low, 29);
    lemma_tone_map_rises(a, b, ref_white, peak);
    assert(tone_cap(peak) <= ONE);
    perceptual_quantizer::lemma_pq_code_rises(
        tone_mapped(a, ref_white, peak),
        tone_mapped(b, ref_white, peak),
        ONE as nat,
        1305,
        13,
    );
}

/// Near black the tone map keeps the slope of the reference white: it departs
/// from `r * ref_white` by a term that is quadratic in `r`.
pub proof fn lemma_tone_curve_near_black(r: nat, ref_white: nat, peak: nat)
    requires
        r <= ONE,
    ensures
        ({
            let exact = r * ref_white * (ONE + r) + 2 * (peak - ref_white) * (r * r);
            let unit = 10000 * (ONE + r);
            unit * tone_curve(r, ref_white, peak) <= exact < unit * (tone_curve(
                r,
                ref_white,
                peak,
            ) + 1)
        }),
{
    let unit = 10000 * (ONE + r);
    let product = r * (ref_white * (ONE - r) + 2 * peak * r);
    let exact = r * ref_white * (ONE + r) + 2 * (peak - ref_white) * (r * r);
    assert(product == exact) by (nonlinear_arith)
        requires
            product == r * (ref_white * (ONE - r) + 2 * peak * r),
            exact == r * ref_white * (ONE + r) + 2 * (peak - ref_white) * (r * r),
    ;
    assert(0 <= product) by (nonlinear_arith)
        requires
            product == r * (ref_white * (ONE - r) + 2 * peak * r),
            r <= ONE,
    ;
    vstd::arithmetic::div_mod::lemma_fundamental_div_mod(product, unit);
    vstd::arithmetic::div_mod::lemma_mod_bound(product, unit);
    vstd::arithmetic::div_mod::lemma_div_pos_is_pos(product, unit);
    let q = product / unit;
    assert(unit * (q + 1) == unit * q + unit) by (nonlinear_arith);
}

/// The fixed-point power of an entry is the true power, rounded down.
pub proof fn lemma_lifted(size: nat, i: nat, gamma_raw: Factor)
    requires
        2 <= size <= 0xFFFF_FFFF,
        i < size,
    ensures
        is_lifted(
            fixed_point::fraction_power(i, (size - 1) as nat, effective_gamma(gamma_raw), 29),
            i,
            (size - 1) as nat,
            gamma_raw,
        ),
{
    let d = (size - 1) as nat;
    let e = effective_gamma(gamma_raw);
    let lifted = fixed_point::fraction_power(i, d, e, 29);
    vstd::arithmetic::power2::lemma2_to64();
    assert(e / pow2(29) <= 8);
    fixed_point::lemma_fraction_power_at_most_one(i, d, e, 29);
    fixed_point::lemma_power_lower(i, d, e, 29);
    let top = fixed_point::to_real(lifted + 8192);
    if i == 0 {
        let rd = d as real;
        assert(0real / rd == 0real) by (nonlinear_arith)
            requires
                rd > 0real,
        ;
        real_power::lemma_rpow_base_zero(e);
        fixed_point::lemma_to_real_rises(0, lifted + 8192);
        real_power::lemma_rpow_nonneg(top, pow2(29));
    } else {
        assert(d <= i * 0x1_0000_0000);
        let w = fixed_point::power_width(false, e, 29);
        fixed_point::lemma_power_width_bound(false, e, 29);
        fixed_point::lemma_power_upper(i, d, false, e, 29);
        fixed_point::lemma_to_real_rises(lifted + w, lifted + 8192);
        real_power::lemma_rpow_monotone(fixed_point::to_real(lifted + w), top, pow2(29));
    }
}

/// Each entry of the tone-mapped table is the code nearest to the curve at the
/// mapped luminance, up to a small fraction of a step on one side.
pub proof fn lemma_tonemap_entry_is_nearest(
    size: nat,
    i: nat,
    gamma_raw: Factor,
    ref_white: nat,
    peak: nat,
)
    requires
        2 <= size <= 0xFFFF_FFFF,
        i < size,
    ensures
        is_mapped_entry(
            fixed_point::fraction_power(i, (size - 1) as nat, effective_gamma(gamma_raw), 29),
            ref_white,
            peak,
            pq_tonemap_code(i, (size - 1) as nat, gamma_raw, ref_white, peak),
        ),
        is_tonemap_entry(
            i,
            (size - 1) as nat,
            gamma_raw,
            ref_white,
            peak,
            pq_tonemap_code(i, (size - 1) as nat, gamma_raw, ref_white, peak),
        ),
        pq_tonemap_code(i, (size - 1) as nat, gamma_raw, ref_white, peak) <= CODE_MAX,
{
    let d = (size - 1) as nat;
    let lifted = fixed_point::fraction_power(i, d, effective_gamma(gamma_raw), 29);
    let y = tone_mapped(lifted, ref_white, peak);
    let one = ONE as nat;
    vstd::arithmetic::power2::lemma2_to64();
    lemma_lifted(size, i, gamma_raw);
    assert(tone_cap(peak) <= ONE);
    lemma_code_in_range(y, one, 1305, 13);
    fixed_point::lemma_power_width_bound(true, 1305, 13);
    perceptual_quantizer::lemma_pq_code_is_nearest(y, one, true, 1305, 13);
    let w = perceptual_quantizer::exponent_width(y, true, 1305, 13);
    perceptual_quantizer::lemma_code_slack_bound(w, 32511002, 1real / 512real);
    perceptual_quantizer::lemma_nearest_weakens(
        fixed_point::ratio(y, one),
        1305,
        13,
        pq_tonemap_code(i, d, gamma_raw, ref_white, peak),
        perceptual_quantizer::code_slack(w),
        1real / 512real,
    );
}

/// With a neutral gamma, and with the reference white and the peak at 10000 cd/m², the
/// table is the plain one, up to the last step.
pub proof fn lemma_neutral_tone_map_is_plain(size: nat, i: nat)
    requires
        2 <= size <= 0xFFFF_FFFF,
        i < size,
    ensures
        ({
            let d = (size - 1) as nat;
            let mapped = pq_tonemap_code(i, d, (Factor { bits: FACTOR_ONE }), 10000, 10000);
            let plain = perceptual_quantizer::pq_code(i, d, 1305, 13);
            mapped <= plain + 1 && plain <= mapped + 1
        }),
{
    let d = (size - 1) as nat;
    let one = ONE as nat;
    let neutral = Factor { bits: FACTOR_ONE };
    let q = i * one / d;
    let (mapped, plain) = (
        pq_tonemap_code(i, d, neutral, 10000, 10000),
        perceptual_quantizer::pq_code(i, d, 1305, 13),
    );
    // The lifted luminance is the input, rounded down.
    vstd::arithmetic::power2::lemma2_to64();
    fixed_point::lemma_power_of_shifted_exponent(i, d, 1, 0, 29);
    assert(1 * pow2(29) == effective_gamma(neutral));
    reveal_with_fuel(fixed_point::whole_power, 2);
    assert(1nat / pow2(0) == 1 && 1nat % pow2(0) == 0);
    assert(one * q == q * one) by (nonlinear_arith);
    vstd::arithmetic::div_mod::lemma_div_multiples_vanish(q as int, one as int);
    assert(fixed_point::whole_power(q, 1) == q);
    assert(fixed_point::fraction_power(i, d, 1, 0) == q);
    vstd::arithmetic::div_mod::lemma_fundamental_div_mod(i * one as int, d as int);
    vstd::arithmetic::div_mod::lemma_mod_bound(i * one as int, d as int);
    assert(q * d <= i * one < (q + 1) * d) by (nonlinear_arith)
        requires
            i * one == d * q + (i * one) % d,
            0 <= (i * one) % d < d,
    ;
    assert(q <= one) by (nonlinear_arith)
        requires
            q * d <= i * one,
            i <= d,
            0 < d,
    ;
    lemma_tone_map_is_identity(q, 10000);
    vstd::arithmetic::div_mod::lemma_div_multiples_vanish(q as int, 10000);
    assert(q * 10000 / 10000 == q);
    // Both codes are nearest, to luminances that hardly differ.
    lemma_tonemap_entry_is_nearest(size, i, neutral, 10000, 10000);
    if i == 0 {
        assert(q == 0) by (nonlinear_arith)
            requires
                q * d <= 0,
                0 < d,
        ;
        perceptual_quantizer::lemma_pq_code_of_zero(d, 1305, 13);
        perceptual_quantizer::lemma_pq_code_of_zero(one, 1305, 13);
    } else {
        lemma_close_luminances(q, i, d);
        let (y, z) = (fixed_point::ratio(q, one), fixed_point::ratio(i, d));
        let slack = 1real / 131072real;
        fixed_point::lemma_ratio_in_unit(q, one);
        lemma_plain_entry_is_nearest(size, i);
        let low = (mapped as real - 1real / 2real) / 65535real;
        perceptual_quantizer::lemma_larger_luminance_reaches(y, z, 1305, 13, low);
        perceptual_quantizer::lemma_pq_sides_agree(
            z,
            1305,
            13,
            low,
            (plain as real + 1real / 2real + slack) / 65535real,
        );
        let high = (mapped as real + 1real / 2real + 1real / 512real) / 65535real;
        perceptual_quantizer::lemma_nearby_luminance_within(y, z, high);
        perceptual_quantizer::lemma_pq_sides_agree(
            z,
            1305,
            13,
            (plain as real - 1real / 2real) / 65535real,
            high * (1real + 158real / 536870912real),
        );
        perceptual_quantizer::lemma_pq_code_rises(q, one, one, 1305, 13);
        perceptual_quantizer::lemma_pq_code_of_one(one, 1305, 13);
        let (rm, rp) = (mapped as real, plain as real);
        assert(rm <= rp + 1real + slack);
        assert(rp <= rm + 3real / 2real) by (nonlinear_arith)
            requires
                (rp - 1real / 2real) / 65535real <= high * (1real + 158real / 536870912real),
                high == (rm + 1real / 2real + 1real / 512real) / 65535real,
                0real <= rm <= 65535real,
        ;
    }
}

proof fn lemma_close_luminances(q: nat, n: nat, d: nat)
    requires
        0 < n <= d <= 0xFFFF_FFFF,
        q * d <= n * (ONE as nat) < (q + 1) * d,
    ensures
        fixed_point::ratio(q, ONE as nat) <= fixed_point::ratio(n, d),
        fixed_point::ratio(n, d) <= fixed_point::ratio(q, ONE as nat) * (1real + 1real
            / 268435456real),
{
    let one = ONE as nat;
    assert(q >= 0x1000_0000) by (nonlinear_arith)
        requires
            n * one < (q + 1) * d,
            0 < n,
            0 < d <= 0xFFFF_FFFF,
            one == 0x1000_0000_0000_0000,
    ;
    let (rq, rn, rd, rs) = (q as real, n as real, d as real, one as real);
    fixed_point::lemma_real_product(q, d);
    fixed_point::lemma_real_product(n, one);
    fixed_point::lemma_real_product(q + 1, d);
    assert((q + 1) as real == rq + 1real);
    let (y, z) = (rq / rs, rn / rd);
    assert(y * rs == rq && z * rd == rn) by (nonlinear_arith)
        requires
            y == rq / rs,
            z == rn / rd,
            rs > 0real,
            rd > 0real,
    ;
    // Both sides times the two divisors.
    assert(y <= z) by (nonlinear_arith)
        requires
            y * rs == rq,
            z * rd == rn,
            rq * rd <= rn * rs,
            rs > 0real,
            rd > 0real,
    ;
    assert(z * rs <= rq + 1real) by (nonlinear_arith)
        requires
            z * rd == rn,
            rn * rs <= (rq + 1real) * rd,
            rd > 0real,
    ;
    assert(z * rs <= (y * (1real + 1real / 268435456real)) * rs) by (nonlinear_arith)
        requires
            z * rs <= rq + 1real,
            y * rs == rq,
            rq >= 268435456real,
    ;
    assert(z <= y * (1real + 1real / 268435456real)) by (nonlinear_arith)
        requires
            z * rs <= (y * (1real + 1real / 268435456real)) * rs,
            rs > 0real,
    ;
}

// ---------------------------------------------------------------------------
// Color transformation matrix
// ---------------------------------------------------------------------------

/// The linear-light matrix from Rec.709 to the container's gamut, in units of
/// `10^-11`.
pub open spec fn gamut_remap(container: HdrColorContainer, r: int, c: int) -> int {
    match container {
        HdrColorContainer::Bt2020 => if r == 0 {
            if c == 0 {
                62740389896
            } else if c == 1 {
                32928303525
            } else {
                4331306579
            }
        } else if r == 1 {
            if c == 0 {
                6909728935
            } else if c == 1 {
                91954039517
            } else {
                1136231548
            }
        } else {
            if c == 0 {
                1639143887
            } else if c == 1 {
                8801330593
            } else {
                89559525520
            }
        },
        HdrColorContainer::DciP3 => if r == 0 {
            if c == 0 {
                82246197000
            } else if c == 1 {
                17753803000
            } else {
                0
            }
        } else if r == 1 {
            if c == 0 {
                3319420000
            } else if c == 1 {
                96680580000
            } else {
                0
            }
        } else {
            if c == 0 {
                1708263000
            } else if c == 1 {
                7239738000
            } else {
                91051999000
            }
        },
    }
}

/// The BT.2020 luma weights, in units of `10^-4`.
pub open spec fn luma_weight(c: int) -> int {
    if c == 0 {
        2627
    } else if c == 1 {
        6780
    } else {
        593
    }
}

pub open spec fn identity_entry(r: int, c: int) -> int {
    if r == c {
        1
    } else {
        0
    }
}

/// The bits of a gamut mix, which is at most one.
pub open spec fn clamped_mix(gamut_mix: Factor) -> int {
    if gamut_mix.bits < FACTOR_ONE {
        gamut_mix.bits as int
    } else {
        FACTOR_ONE as int
    }
}

/// The gamut matrix, interpolated between the identity and the full remap, as
/// a numerator over `2^28 * 10^11`.
pub open spec fn mixed_gamut(
    container: HdrColorContainer,
    gamut_mix: Factor,
    r: int,
    c: int,
) -> int {
    let mix = clamped_mix(gamut_mix);
    (if r == c {
        100000000000 * (FACTOR_ONE - mix)
    } else {
        0
    }) + gamut_remap(container, r, c) * mix
}

/// The saturation matrix `sat * I + (1 - sat) * 1 * w^T`, as a numerator over
/// `2^28 * 10^4`.
pub open spec fn saturation_entry(saturation: Factor, r: int, c: int) -> int {
    (if r == c {
        10000 * saturation.bits
    } else {
        0
    }) + (FACTOR_ONE - saturation.bits) * luma_weight(c)
}

/// The denominator of the combined matrix, `2^56 * 10^15`.
pub open spec fn combined_unit() -> int {
    0x100_0000_0000_0000int * 1000000000000000int
}

/// The combined matrix, saturation after gamut, as a numerator over
/// `combined_unit()`.
pub open spec fn combined_entry(
    container: HdrColorContainer,
    gamut_mix: Factor,
    saturation: Factor,
    r: int,
    c: int,
) -> int {
    saturation_entry(saturation, r, 0) * mixed_gamut(container, gamut_mix, 0, c)
        + saturation_entry(saturation, r, 1) * mixed_gamut(container, gamut_mix, 1, c)
        + saturation_entry(saturation, r, 2) * mixed_gamut(container, gamut_mix, 2, c)
}

/// The kernel's sign-magnitude form of `n / d`: the sign in bit 63, and below it
/// the magnitude with 32 fractional bits, rounded toward zero and saturated.
pub open spec fn s31_32(n: int, d: int) -> int {
    let magnitude = (if n < 0 {
        -n
    } else {
        n
    }) * 0x1_0000_0000 / d;
    let saturated = if magnitude < 0x8000_0000_0000_0000 {
        magnitude
    } else {
        0x7FFF_FFFF_FFFF_FFFF
    };
    if n < 0 {
        0x8000_0000_0000_0000 + saturated
    } else {
        saturated
    }
}

/// The sign-magnitude form of a number of less than `2^31`: bit 63 is set exactly for a
/// negative number, the bits below it are the magnitude, rounded toward zero to a
/// multiple of `2^-32`, and the opposite number differs in bit 63 alone.
pub proof fn lemma_sign_magnitude(n: int, d: int)
    requires
        0 < d,
        -0x8000_0000 * d < n < 0x8000_0000 * d,
    ensures
        ({
            let bits = s31_32(n, d);
            let magnitude = bits % 0x8000_0000_0000_0000;
            let size = if n < 0 {
                -n
            } else {
                n
            };
            &&& 0 <= bits <= u64::MAX
            &&& bits >= 0x8000_0000_0000_0000 <==> n < 0
            &&& (bits as u64) >> 63 == 1 <==> n < 0
            &&& (bits as u64) & 0x7FFF_FFFF_FFFF_FFFF == magnitude
            &&& magnitude * d <= size * 0x1_0000_0000 < (magnitude + 1) * d
            &&& n != 0 ==> s31_32(-n, d) == (bits as u64) ^ 0x8000_0000_0000_0000
        }),
{
    let size = if n < 0 {
        -n
    } else {
        n
    };
    let m = size * 0x1_0000_0000 / d;
    vstd::arithmetic::div_mod::lemma_fundamental_div_mod(size * 0x1_0000_0000, d);
    vstd::arithmetic::div_mod::lemma_mod_bound(size * 0x1_0000_0000, d);
    vstd::arithmetic::div_mod::lemma_div_pos_is_pos(size * 0x1_0000_0000, d);
    assert(d * m == m * d && (m + 1) * d == m * d + d) by (nonlinear_arith);
    assert(m < 0x8000_0000_0000_0000) by (nonlinear_arith)
        requires
            m * d <= size * 0x1_0000_0000,
            size < 0x8000_0000 * d,
            0 < d,
    ;
    let bits = s31_32(n, d) as u64;
    let other = s31_32(-n, d) as u64;
    assert(bits >> 63 == 1 <==> bits >= 0x8000_0000_0000_0000) by (bit_vector);
    assert(bits & 0x7FFF_FFFF_FFFF_FFFF == bits % 0x8000_0000_0000_0000) by (bit_vector);
    assert(bits < 0x8000_0000_0000_0000 ==> bits ^ 0x8000_0000_0000_0000 == bits
        + 0x8000_0000_0000_0000) by (bit_vector);
    assert(bits >= 0x8000_0000_0000_0000 ==> bits ^ 0x8000_0000_0000_0000 == bits
        - 0x8000_0000_0000_0000) by (bit_vector);
}

/// The number `n / d` in the kernel's sign-magnitude form.
pub fn encode_s31_32_sign_magnitude(n: i128, d: u128) -> (bits: u64)
    requires
        0 < d <= 0x4000_0000_0000_0000_0000_0000_0000_0000,
        i128::MIN < n,
    ensures
        bits == s31_32(n as int, d as int),
        bits >> 63 == 1 <==> n < 0,
        // Below `2^31` the magnitude is rounded toward zero.
        -0x8000_0000 * d < n < 0x8000_0000 * d ==> {
            let magnitude = (bits & 0x7FFF_FFFF_FFFF_FFFF) as int;
            let size = if n < 0 {
                -n
            } else {
                n as int
            };
            magnitude * d <= size * 0x1_0000_0000 < (magnitude + 1) * d
        },
{
    let size: u128 = if n < 0 {
        (-n) as u128
    } else {
        n as u128
    };
    let large: bool = size / d >= 0x8000_0000;
    let saturated: u64 = if large {
        proof {
            lemma_large_magnitude(size as int, d as int);
        }
        0x7FFF_FFFF_FFFF_FFFF
    } else {
        proof {
            lemma_small_magnitude(size as int, d as int);
        }
        multiply_divide(0x1_0000_0000, size, d) as u64
    };
    let bits: u64 = if n < 0 {
        0x8000_0000_0000_0000 + saturated
    } else {
        saturated
    };
    proof {
        assert(bits >> 63 == 1 <==> bits >= 0x8000_0000_0000_0000) by (bit_vector);
        if -0x8000_0000 * d < n < 0x8000_0000 * d {
            lemma_sign_magnitude(n as int, d as int);
        }
    }
    bits
}

proof fn lemma_large_magnitude(size: int, d: int)
    requires
        0 <= size,
        0 < d,
        size / d >= 0x8000_0000,
    ensures
        size * 0x1_0000_0000 / d >= 0x8000_0000_0000_0000,
{
    vstd::arithmetic::div_mod::lemma_fundamental_div_mod(size, d);
    vstd::arithmetic::div_mod::lemma_mod_bound(size, d);
    let q = size / d;
    assert(0x8000_0000_0000_0000 * d <= size * 0x1_0000_0000) by (nonlinear_arith)
        requires
            d * q <= size,
            q >= 0x8000_0000,
            0 < d,
    ;
    vstd::arithmetic::div_mod::lemma_div_is_ordered(
        0x8000_0000_0000_0000 * d,
        size * 0x1_0000_0000,
        d,
    );
    vstd::arithmetic::div_mod::lemma_div_multiples_vanish(0x8000_0000_0000_0000, d);
    assert(d * 0x8000_0000_0000_0000 == 0x8000_0000_0000_0000 * d);
}

proof fn lemma_small_magnitude(size: int, d: int)
    requires
        0 <= size,
        0 < d,
        size / d < 0x8000_0000,
    ensures
        0 <= size * 0x1_0000_0000 / d < 0x8000_0000_0000_0000,
{
    vstd::arithmetic::div_mod::lemma_fundamental_div_mod(size, d);
    vstd::arithmetic::div_mod::lemma_mod_bound(size, d);
    vstd::arithmetic::div_mod::lemma_fundamental_div_mod(size * 0x1_0000_0000, d);
    vstd::arithmetic::div_mod::lemma_mod_bound(size * 0x1_0000_0000, d);
    vstd::arithmetic::div_mod::lemma_div_pos_is_pos(size * 0x1_0000_0000, d);
    let q = size / d;
    let m = size * 0x1_0000_0000 / d;
    assert(size < 0x8000_0000 * d) by (nonlinear_arith)
        requires
            size == d * q + size % d,
            size % d < d,
            q + 1 <= 0x8000_0000,
            0 < d,
    ;
    assert(m < 0x8000_0000_0000_0000) by (nonlinear_arith)
        requires
            d * m <= size * 0x1_0000_0000,
            size < 0x8000_0000 * d,
            0 < d,
    ;
}

fn remap_entry(container: HdrColorContainer, r: usize, c: usize) -> (entry: i128)
    requires
        r < 3,
        c < 3,
    ensures
        entry == gamut_remap(container, r as int, c as int),
        0 <= entry <= 100000000000,
{
    let row: [i128; 3] = match container {
        HdrColorContainer::Bt2020 => if r == 0 {
            [62740389896, 32928303525, 4331306579]
        } else if r == 1 {
            [6909728935, 91954039517, 1136231548]
        } else {
            [1639143887, 8801330593, 89559525520]
        },
        HdrColorContainer::DciP3 => if r == 0 {
            [82246197000, 17753803000, 0]
        } else if r == 1 {
            [3319420000, 96680580000, 0]
        } else {
            [1708263000, 7239738000, 91051999000]
        },
    };
    row[c]
}

fn mixed_gamut_entry(container: HdrColorContainer, gamut_mix: Factor, r: usize, c: usize) -> (entry:
    i128)
    requires
        r < 3,
        c < 3,
    ensures
        entry == mixed_gamut(container, gamut_mix, r as int, c as int),
        0 <= entry <= 53687091200000000000,
{
    let mix: i128 = if gamut_mix.bits < FACTOR_ONE {
        gamut_mix.bits as i128
    } else {
        FACTOR_ONE as i128
    };
    let remap: i128 = remap_entry(container, r, c);
    proof {
        assert(0 <= remap * mix <= 26843545600000000000) by (nonlinear_arith)
            requires
                0 <= remap <= 100000000000,
                0 <= mix <= 0x1000_0000,
        ;
    }
    if r == c {
        100000000000 * (FACTOR_ONE as i128 - mix) + remap * mix
    } else {
        remap * mix
    }
}

fn saturation_matrix_entry(saturation: Factor, r: usize, c: usize) -> (entry: i128)
    requires
        r < 3,
        c < 3,
    ensures
        entry == saturation_entry(saturation, r as int, c as int),
        -42949672960000 <= entry <= 45634027520000,
{
    let weights: [i128; 3] = [2627, 6780, 593];
    let weight: i128 = weights[c];
    let rest: i128 = FACTOR_ONE as i128 - saturation.bits as i128;
    proof {
        assert(-42949672960000 <= rest * weight <= 2684354560000) by (nonlinear_arith)
            requires
                -0x1_0000_0000 <= rest <= 0x1000_0000,
                0 <= weight <= 10000,
        ;
    }
    if r == c {
        10000 * saturation.bits as i128 + rest * weight
    } else {
        rest * weight
    }
}

proof fn lemma_combined_product_bound(s: int, g: int)
    requires
        -42949672960000 <= s <= 45634027520000,
        0 <= g <= 53687091200000000000,
    ensures
        -2449958197289549824000000000000000 <= s * g <= 2449958197289549824000000000000000,
{
    assert(s * g <= 45634027520000 * g) by (nonlinear_arith)
        requires
            s <= 45634027520000,
            0 <= g,
    ;
    assert(-45634027520000 * g <= s * g) by (nonlinear_arith)
        requires
            -45634027520000 <= s,
            0 <= g,
    ;
}

fn combined_matrix_entry(
    container: HdrColorContainer,
    gamut_mix: Factor,
    saturation: Factor,
    r: usize,
    c: usize,
) -> (bits: u64)
    requires
        r < 3,
        c < 3,
    ensures
        bits == s31_32(
            combined_entry(container, gamut_mix, saturation, r as int, c as int),
            combined_unit(),
        ),
{
    let s0: i128 = saturation_matrix_entry(saturation, r, 0);
    let s1: i128 = saturation_matrix_entry(saturation, r, 1);
    let s2: i128 = saturation_matrix_entry(saturation, r, 2);
    let g0: i128 = mixed_gamut_entry(container, gamut_mix, 0, c);
    let g1: i128 = mixed_gamut_entry(container, gamut_mix, 1, c);
    let g2: i128 = mixed_gamut_entry(container, gamut_mix, 2, c);
    proof {
        lemma_combined_product_bound(s0 as int, g0 as int);
        lemma_combined_product_bound(s1 as int, g1 as int);
        lemma_combined_product_bound(s2 as int, g2 as int);
    }
    let entry: i128 = s0 * g0 + s1 * g1 + s2 * g2;
    encode_s31_32_sign_magnitude(entry, 0x100_0000_0000_0000 * 1000000000000000)
}

/// The `CTM` of the kernel, row by row: the gamut remap first, interpolated
/// between the identity and the full remap by the mix, then the saturation.
///
/// The reference white has no part in it. The `GAMMA_LUT` alone maps it to an
/// absolute luminance, so that the table's whole input range stays in use.
pub fn gamut_ctm_with_ref_white(
    container: HdrColorContainer,
    ref_white_nits: u16,
    gamut_mix: Factor,
    saturation: Factor,
) -> (ctm: [u64; 9])
    ensures
        forall|i: int|
            0 <= i < 9 ==> #[trigger] ctm@[i] == s31_32(
                combined_entry(container, gamut_mix, saturation, i / 3, i % 3),
                combined_unit(),
            ),
{
    let ctm: [u64; 9] = [
        combined_matrix_entry(container, gamut_mix, saturation, 0, 0),
        combined_matrix_entry(container, gamut_mix, saturation, 0, 1),
        combined_matrix_entry(container, gamut_mix, saturation, 0, 2),
        combined_matrix_entry(container, gamut_mix, saturation, 1, 0),
        combined_matrix_entry(container, gamut_mix, saturation, 1, 1),
        combined_matrix_entry(container, gamut_mix, saturation, 1, 2),
        combined_matrix_entry(container, gamut_mix, saturation, 2, 0),
        combined_matrix_entry(container, gamut_mix, saturation, 2, 1),
        combined_matrix_entry(container, gamut_mix, saturation, 2, 2),
    ];
    ctm
}

proof fn lemma_gamut_row_sum(container: HdrColorContainer, gamut_mix: Factor, r: int)
    requires
        0 <= r < 3,
    ensures
        mixed_gamut(container, gamut_mix, r, 0) + mixed_gamut(container, gamut_mix, r, 1)
            + mixed_gamut(container, gamut_mix, r, 2) == 26843545600000000000,
{
    let m = clamped_mix(gamut_mix);
    let (x, y, z) = (
        gamut_remap(container, r, 0),
        gamut_remap(container, r, 1),
        gamut_remap(container, r, 2),
    );
    assert(x * m + y * m + z * m == 100000000000 * m) by (nonlinear_arith)
        requires
            x + y + z == 100000000000,
    ;
}

proof fn lemma_saturation_row_sum(saturation: Factor, r: int)
    requires
        0 <= r < 3,
    ensures
        saturation_entry(saturation, r, 0) + saturation_entry(saturation, r, 1)
            + saturation_entry(saturation, r, 2) == 2684354560000,
{
    let t = FACTOR_ONE - saturation.bits;
    assert(t * 2627 + t * 6780 + t * 593 == t * 10000);
}

/// White stays white: whatever the mix and the saturation, each row of the
/// combined matrix sums to one.
pub proof fn lemma_ctm_keeps_white(
    container: HdrColorContainer,
    gamut_mix: Factor,
    saturation: Factor,
    r: int,
)
    requires
        0 <= r < 3,
    ensures
        combined_entry(container, gamut_mix, saturation, r, 0) + combined_entry(
            container,
            gamut_mix,
            saturation,
            r,
            1,
        ) + combined_entry(container, gamut_mix, saturation, r, 2) == combined_unit(),
{
    lemma_saturation_row_sum(saturation, r);
    lemma_gamut_row_sum(container, gamut_mix, 0);
    lemma_gamut_row_sum(container, gamut_mix, 1);
    lemma_gamut_row_sum(container, gamut_mix, 2);
    let s0 = saturation_entry(saturation, r, 0);
    let s1 = saturation_entry(saturation, r, 1);
    let s2 = saturation_entry(saturation, r, 2);
    lemma_scaled_sum(
        s0,
        mixed_gamut(container, gamut_mix, 0, 0),
        mixed_gamut(container, gamut_mix, 0, 1),
        mixed_gamut(container, gamut_mix, 0, 2),
    );
    lemma_scaled_sum(
        s1,
        mixed_gamut(container, gamut_mix, 1, 0),
        mixed_gamut(container, gamut_mix, 1, 1),
        mixed_gamut(container, gamut_mix, 1, 2),
    );
    lemma_scaled_sum(
        s2,
        mixed_gamut(container, gamut_mix, 2, 0),
        mixed_gamut(container, gamut_mix, 2, 1),
        mixed_gamut(container, gamut_mix, 2, 2),
    );
    assert(s0 * 26843545600000000000 + s1 * 26843545600000000000 + s2 * 26843545600000000000
        == 2684354560000 * 26843545600000000000);
}

proof fn lemma_scaled_sum(s: int, a: int, b: int, c: int)
    ensures
        s * a + s * b + s * c == s * (a + b + c),
{
    assert(s * a + s * b + s * c == s * (a + b + c)) by (nonlinear_arith);
}

/// The gamut matrix without a mix is the identity.
proof fn lemma_gamut_without_mix(container: HdrColorContainer, r: int, c: int)
    ensures
        mixed_gamut(container, (Factor { bits: 0 }), r, c) == (if r == c {
            26843545600000000000int
        } else {
            0
        }),
{
    let x = gamut_remap(container, r, c);
    assert(x * 0 == 0);
}

/// Without a gamut mix the matrix is the saturation matrix alone.
pub proof fn lemma_ctm_without_mix(
    container: HdrColorContainer,
    saturation: Factor,
    r: int,
    c: int,
)
    requires
        0 <= c < 3,
    ensures
        combined_entry(container, (Factor { bits: 0 }), saturation, r, c) == saturation_entry(
            saturation,
            r,
            c,
        ) * (100000000000 * FACTOR_ONE),
{
    let none = Factor { bits: 0 };
    lemma_gamut_without_mix(container, 0, c);
    lemma_gamut_without_mix(container, 1, c);
    lemma_gamut_without_mix(container, 2, c);
    let s0 = saturation_entry(saturation, r, 0);
    let s1 = saturation_entry(saturation, r, 1);
    let s2 = saturation_entry(saturation, r, 2);
    assert(s0 * 0 == 0 && s1 * 0 == 0 && s2 * 0 == 0);
    let k = 26843545600000000000int;
    assert(100000000000 * FACTOR_ONE == k);
    assert(c == 0 || c == 1 || c == 2);
}

/// At a saturation of one the matrix is the gamut matrix alone, and without a
/// gamut mix it is then the identity.
pub proof fn lemma_ctm_at_saturation_one(
    container: HdrColorContainer,
    gamut_mix: Factor,
    r: int,
    c: int,
)
    requires
        0 <= r < 3,
        0 <= c < 3,
    ensures
        combined_entry(container, gamut_mix, (Factor { bits: FACTOR_ONE }), r, c) == 10000
            * FACTOR_ONE * mixed_gamut(container, gamut_mix, r, c),
        gamut_mix.bits == 0 ==> s31_32(
            combined_entry(container, gamut_mix, (Factor { bits: FACTOR_ONE }), r, c),
            combined_unit(),
        ) == identity_entry(r, c) * 0x1_0000_0000,
{
    let one = Factor { bits: FACTOR_ONE };
    let (g0, g1, g2) = (
        mixed_gamut(container, gamut_mix, 0, c),
        mixed_gamut(container, gamut_mix, 1, c),
        mixed_gamut(container, gamut_mix, 2, c),
    );
    assert(0 * g0 == 0 && 0 * g1 == 0 && 0 * g2 == 0);
    assert(saturation_entry(one, r, 0) == if r == 0 { 2684354560000int } else { 0int });
    assert(saturation_entry(one, r, 1) == if r == 1 { 2684354560000int } else { 0int });
    assert(saturation_entry(one, r, 2) == if r == 2 { 2684354560000int } else { 0int });
    assert(r == 0 || r == 1 || r == 2);
    if gamut_mix.bits == 0 {
        lemma_gamut_without_mix(container, r, c);
        assert(gamut_mix == Factor { bits: 0 });
        vstd::arithmetic::div_mod::lemma_div_multiples_vanish(0x1_0000_0000, combined_unit());
    }
}

/// Without saturation every row of the matrix is the same, and without a gamut
/// mix it is the row of luma weights.
pub proof fn lemma_ctm_at_saturation_zero(
    container: HdrColorContainer,
    gamut_mix: Factor,
    r: int,
    q: int,
    c: int,
)
    requires
        0 <= r < 3,
        0 <= q < 3,
        0 <= c < 3,
    ensures
        combined_entry(container, gamut_mix, (Factor { bits: 0 }), r, c) == combined_entry(
            container,
            gamut_mix,
            (Factor { bits: 0 }),
            q,
            c,
        ),
        gamut_mix.bits == 0 ==> 10000 * combined_entry(
            container,
            gamut_mix,
            (Factor { bits: 0 }),
            r,
            c,
        ) == luma_weight(c) * combined_unit(),
{
    if gamut_mix.bits == 0 {
        assert(gamut_mix == Factor { bits: 0 });
        lemma_ctm_without_mix(container, Factor { bits: 0 }, r, c);
        let w = luma_weight(c);
        let entry = saturation_entry(Factor { bits: 0 }, r, c);
        assert(entry == 268435456 * w);
        assert(100000000000 * FACTOR_ONE == 26843545600000000000);
        assert(10000 * (entry * 26843545600000000000) == w * combined_unit()) by (nonlinear_arith)
            requires
                entry == 268435456 * w,
                combined_unit() == 72057594037927936000000000000000,
        ;
    }
}

/// Above a saturation of one, without a gamut mix, what is off the diagonal is
/// negative, and bit 63 of its encoding is set.
pub proof fn lemma_ctm_boost_is_negative_off_diagonal(
    container: HdrColorContainer,
    saturation: Factor,
    r: int,
    c: int,
)
    requires
        0 <= r < 3,
        0 <= c < 3,
        r != c,
        saturation.bits > FACTOR_ONE,
    ensures
        combined_entry(container, (Factor { bits: 0 }), saturation, r, c) < 0,
        s31_32(
            combined_entry(container, (Factor { bits: 0 }), saturation, r, c),
            combined_unit(),
        ) >= 0x8000_0000_0000_0000,
{
    lemma_ctm_without_mix(container, saturation, r, c);
    let (t, w) = (FACTOR_ONE - saturation.bits, luma_weight(c));
    assert(t * w < 0) by (nonlinear_arith)
        requires
            t < 0,
            w > 0,
    ;
    let n = combined_entry(container, Factor { bits: 0 }, saturation, r, c);
    vstd::arithmetic::div_mod::lemma_div_pos_is_pos(-n * 0x1_0000_0000, combined_unit());
}

// ---------------------------------------------------------------------------
// Laws of the sliders
// ---------------------------------------------------------------------------

/// Half of the slider's distance from neutral counts: over `2^29` the exponent is
/// `(1 + g) / 2` for every slider `g` of at least one tenth, which is the least. So two
/// sliders differ by twice as much as their exponents.
pub proof fn lemma_half_of_the_slider_counts(a: Factor, b: Factor)
    ensures
        a.bits >= 26843546 ==> effective_gamma(a) == 0x1000_0000 + a.bits,
        a.bits <= 26843546 ==> effective_gamma(a) == 0x1000_0000 + 26843546,
        a.bits >= 26843546 && b.bits >= 26843546 ==> effective_gamma(a) - effective_gamma(b)
            == a.bits - b.bits,
        a.bits >= 26843546 ==> (effective_gamma(a) as real) / 536870912real == (1real
            + (a.bits as real) / 268435456real) / 2real,
{
}

/// Each entry of the gamma table is the code nearest to `pq((i / (size - 1)) ^ ((1 + g) / 2))`,
/// with `g` as the slider gives it.
pub proof fn lemma_entries_follow_the_slider(size: nat, i: nat, gamma_raw: Factor)
    requires
        2 <= size <= 0xFFFF_FFFF,
        i < size,
        gamma_raw.bits >= 26843546,
    ensures
        perceptual_quantizer::pq_code_is_nearest(
            fixed_point::ratio(i, (size - 1) as nat),
            (0x1000_0000 + gamma_raw.bits as nat) * 1305,
            42,
            pq_gamma_code(i, (size - 1) as nat, gamma_raw),
            1real / 131072real,
        ),
{
    lemma_gamma_entry_is_nearest(size, i, gamma_raw);
}

/// The same of the tone-mapped table: what is mapped is `(i / (size - 1)) ^ ((1 + g) / 2)`,
/// and the entry is the code nearest to the curve at the luminance that comes out.
pub proof fn lemma_mapped_entries_follow_the_slider(
    size: nat,
    i: nat,
    gamma_raw: Factor,
    ref_white: nat,
    peak: nat,
)
    requires
        2 <= size <= 0xFFFF_FFFF,
        i < size,
        gamma_raw.bits >= 26843546,
    ensures
        exists|lifted: nat|
            #![trigger tone_mapped(lifted, ref_white, peak)]
            {
                let d = (size - 1) as nat;
                let exact = real_power::rpow(
                    fixed_point::ratio(i, d),
                    0x1000_0000 + gamma_raw.bits as nat,
                );
                &&& lifted <= ONE
                &&& real_power::rpow(fixed_point::to_real(lifted), pow2(29)) <= exact
                &&& exact <= real_power::rpow(fixed_point::to_real(lifted + 8192), pow2(29))
                &&& perceptual_quantizer::pq_code_is_nearest(
                    fixed_point::ratio(tone_mapped(lifted, ref_white, peak), ONE as nat),
                    1305,
                    13,
                    pq_tonemap_code(i, d, gamma_raw, ref_white, peak),
                    1real / 512real,
                )
            },
{
    let d = (size - 1) as nat;
    let lifted = fixed_point::fraction_power(i, d, effective_gamma(gamma_raw), 29);
    lemma_lifted(size, i, gamma_raw);
    lemma_tonemap_entry_is_nearest(size, i, gamma_raw, ref_white, peak);
    assert(is_lifted(lifted, i, d, gamma_raw));
    assert(is_mapped_entry(
        lifted,
        ref_white,
        peak,
        pq_tonemap_code(i, d, gamma_raw, ref_white, peak),
    ));
    assert(tone_mapped(lifted, ref_white, peak) == tone_mapped(lifted, ref_white, peak));
}

/// The tone map in full: with `x` for `r / ONE`, it is `ref x (1 + x v) / (1 + x)` with
/// `v = 2 peak / ref - 1`, rounded down, wherever that stays below the panel's peak and
/// below 10000 cd/m², and the lower of these two otherwise.
pub proof fn lemma_tone_map_follows_the_curve(r: nat, ref_white: nat, peak: nat)
    requires
        r <= ONE,
    ensures
        ({
            let mapped = tone_mapped(r, ref_white, peak);
            let unit = 10000 * (ONE + r);
            let exact = r * ref_white * (ONE + r) + 2 * (peak - ref_white) * (r * r);
            let top: int = if peak <= 10000 {
                peak as int
            } else {
                10000
            };
            let below = unit * mapped <= exact < unit * (mapped + 1);
            let at_top = 10000 * mapped <= top * ONE < 10000 * (mapped + 1);
            &&& below || at_top
            &&& unit * mapped <= exact
            &&& 10000 * mapped <= top * ONE
        }),
{
    lemma_tone_curve_near_black(r, ref_white, peak);
    let unit = 10000 * (ONE + r);
    let (mapped, curve) = (tone_mapped(r, ref_white, peak), tone_curve(r, ref_white, peak));
    assert(unit * mapped <= unit * curve) by (nonlinear_arith)
        requires
            mapped <= curve,
            0 <= unit,
    ;
    let one = ONE as int;
    vstd::arithmetic::div_mod::lemma_fundamental_div_mod(peak * one, 10000);
    assert((peak * ONE as nat) as int == peak * one);
    if peak >= 10000 {
        assert(tone_cap(peak) == ONE);
    } else {
        assert(tone_cap(peak) == peak * one / 10000);
        assert(peak * ONE == peak * one);
    }
}

/// White is the largest code in the gamma table, and the code of the panel's peak in the
/// tone-mapped one. Black stays black.
pub proof fn lemma_white_goes_to_the_peak(d: nat, gamma_raw: Factor, ref_white: nat, peak: nat)
    requires
        0 < d,
    ensures
        pq_gamma_code(d, d, gamma_raw) == CODE_MAX,
        pq_tonemap_code(d, d, gamma_raw, ref_white, peak) == perceptual_quantizer::pq_code(
            tone_cap(peak),
            ONE as nat,
            1305,
            13,
        ),
        pq_tonemap_code(0, d, gamma_raw, ref_white, peak) == 0,
{
    lemma_gamma_table_endpoints(d, gamma_raw);
    fixed_point::lemma_fraction_power_of_one(d, effective_gamma(gamma_raw), 29);
    lemma_tone_map_reaches_peak(ONE as nat, ref_white, peak);
    fixed_point::lemma_fraction_power_of_zero(d, effective_gamma(gamma_raw), 29);
    let base = ref_white * (ONE - 0) + 2 * peak * 0;
    assert(0 * base == 0) by (nonlinear_arith);
    vstd::arithmetic::div_mod::lemma_div_basics(10000 * (ONE + 0));
    assert(tone_mapped(0, ref_white, peak) == 0);
    perceptual_quantizer::lemma_pq_code_of_zero(ONE as nat, 1305, 13);
}

proof fn lemma_mixed_gamut_is_straight(
    container: HdrColorContainer,
    gamut_mix: Factor,
    r: int,
    c: int,
)
    requires
        gamut_mix.bits <= 0x1000_0000,
    ensures
        0x1000_0000 * mixed_gamut(container, gamut_mix, r, c) == (0x1000_0000 - gamut_mix.bits)
            * mixed_gamut(container, (Factor { bits: 0 }), r, c) + gamut_mix.bits * mixed_gamut(
            container,
            (Factor { bits: 0x1000_0000 }),
            r,
            c,
        ),
{
    let m = gamut_mix.bits as int;
    let g = gamut_remap(container, r, c);
    assert(g * 0 == 0);
    assert(clamped_mix(gamut_mix) == m);
    let id: int = if r == c {
        100000000000
    } else {
        0
    };
    assert(mixed_gamut(container, gamut_mix, r, c) == id * (0x1000_0000 - m) + g * m);
    assert(mixed_gamut(container, Factor { bits: 0 }, r, c) == id * 0x1000_0000);
    assert(mixed_gamut(container, Factor { bits: 0x1000_0000 }, r, c) == g * 0x1000_0000);
    assert(0x1000_0000 * (id * (0x1000_0000 - m) + g * m) == (0x1000_0000 - m) * (id * 0x1000_0000)
        + m * (g * 0x1000_0000)) by (nonlinear_arith);
}

/// The matrix runs straight from that without a gamut remap to that with the full one,
/// as the mix goes from zero to one: at every saturation, and entry by entry. A mix above
/// one counts as one.
pub proof fn lemma_ctm_is_straight_in_the_mix(
    container: HdrColorContainer,
    gamut_mix: Factor,
    saturation: Factor,
    r: int,
    c: int,
)
    ensures
        gamut_mix.bits <= 0x1000_0000 ==> 0x1000_0000 * combined_entry(
            container,
            gamut_mix,
            saturation,
            r,
            c,
        ) == (0x1000_0000 - gamut_mix.bits) * combined_entry(
            container,
            (Factor { bits: 0 }),
            saturation,
            r,
            c,
        ) + gamut_mix.bits * combined_entry(
            container,
            (Factor { bits: 0x1000_0000 }),
            saturation,
            r,
            c,
        ),
        gamut_mix.bits >= 0x1000_0000 ==> combined_entry(container, gamut_mix, saturation, r, c)
            == combined_entry(container, (Factor { bits: 0x1000_0000 }), saturation, r, c),
{
    if gamut_mix.bits <= 0x1000_0000 {
        lemma_mixed_gamut_is_straight(container, gamut_mix, 0, c);
        lemma_mixed_gamut_is_straight(container, gamut_mix, 1, c);
        lemma_mixed_gamut_is_straight(container, gamut_mix, 2, c);
        let (none, full) = (Factor { bits: 0 }, Factor { bits: 0x1000_0000 });
        let m = gamut_mix.bits as int;
        lemma_straight_product(
            saturation_entry(saturation, r, 0),
            mixed_gamut(container, gamut_mix, 0, c),
            mixed_gamut(container, none, 0, c),
            mixed_gamut(container, full, 0, c),
            m,
        );
        lemma_straight_product(
            saturation_entry(saturation, r, 1),
            mixed_gamut(container, gamut_mix, 1, c),
            mixed_gamut(container, none, 1, c),
            mixed_gamut(container, full, 1, c),
            m,
        );
        lemma_straight_product(
            saturation_entry(saturation, r, 2),
            mixed_gamut(container, gamut_mix, 2, c),
            mixed_gamut(container, none, 2, c),
            mixed_gamut(container, full, 2, c),
            m,
        );
        let (a, b, d) = (
            saturation_entry(saturation, r, 0) * mixed_gamut(container, none, 0, c),
            saturation_entry(saturation, r, 1) * mixed_gamut(container, none, 1, c),
            saturation_entry(saturation, r, 2) * mixed_gamut(container, none, 2, c),
        );
        let (x, y, z) = (
            saturation_entry(saturation, r, 0) * mixed_gamut(container, full, 0, c),
            saturation_entry(saturation, r, 1) * mixed_gamut(container, full, 1, c),
            saturation_entry(saturation, r, 2) * mixed_gamut(container, full, 2, c),
        );
        lemma_scaled_sum(0x1000_0000 - m, a, b, d);
        lemma_scaled_sum(m, x, y, z);
    }
}

/// A factor keeps a straight line straight.
proof fn lemma_straight_product(s: int, middle: int, low: int, high: int, m: int)
    requires
        0x1000_0000 * middle == (0x1000_0000 - m) * low + m * high,
    ensures
        0x1000_0000 * (s * middle) == (0x1000_0000 - m) * (s * low) + m * (s * high),
{
    assert(0x1000_0000 * (s * middle) == s * (0x1000_0000 * middle)) by (nonlinear_arith);
    assert(s * ((0x1000_0000 - m) * low + m * high) == (0x1000_0000 - m) * (s * low) + m * (s
        * high)) by (nonlinear_arith);
}

/// The matrix is straight in the saturation too: from every channel at the luma, over the
/// gamut matrix alone at one, and on beyond.
pub proof fn lemma_ctm_is_straight_in_the_saturation(
    container: HdrColorContainer,
    gamut_mix: Factor,
    saturation: Factor,
    r: int,
    c: int,
)
    ensures
        0x1000_0000 * combined_entry(container, gamut_mix, saturation, r, c) == (0x1000_0000
            - saturation.bits) * combined_entry(
            container,
            gamut_mix,
            (Factor { bits: 0 }),
            r,
            c,
        ) + saturation.bits * combined_entry(
            container,
            gamut_mix,
            (Factor { bits: 0x1000_0000 }),
            r,
            c,
        ),
{
    let (none, full) = (Factor { bits: 0 }, Factor { bits: 0x1000_0000 });
    let m = saturation.bits as int;
    lemma_saturation_is_straight(saturation, r, 0);
    lemma_saturation_is_straight(saturation, r, 1);
    lemma_saturation_is_straight(saturation, r, 2);
    let (g0, g1, g2) = (
        mixed_gamut(container, gamut_mix, 0, c),
        mixed_gamut(container, gamut_mix, 1, c),
        mixed_gamut(container, gamut_mix, 2, c),
    );
    let (s0, s1, s2) = (
        saturation_entry(saturation, r, 0),
        saturation_entry(saturation, r, 1),
        saturation_entry(saturation, r, 2),
    );
    let (l0, l1, l2) = (
        saturation_entry(none, r, 0),
        saturation_entry(none, r, 1),
        saturation_entry(none, r, 2),
    );
    let (h0, h1, h2) = (
        saturation_entry(full, r, 0),
        saturation_entry(full, r, 1),
        saturation_entry(full, r, 2),
    );
    lemma_straight_product(g0, s0, l0, h0, m);
    lemma_straight_product(g1, s1, l1, h1, m);
    lemma_straight_product(g2, s2, l2, h2, m);
    assert(g0 * s0 == s0 * g0 && g1 * s1 == s1 * g1 && g2 * s2 == s2 * g2) by (nonlinear_arith);
    assert(g0 * l0 == l0 * g0 && g1 * l1 == l1 * g1 && g2 * l2 == l2 * g2) by (nonlinear_arith);
    assert(g0 * h0 == h0 * g0 && g1 * h1 == h1 * g1 && g2 * h2 == h2 * g2) by (nonlinear_arith);
    lemma_scaled_sum(0x1000_0000 - m, l0 * g0, l1 * g1, l2 * g2);
    lemma_scaled_sum(m, h0 * g0, h1 * g1, h2 * g2);
}

proof fn lemma_saturation_is_straight(saturation: Factor, r: int, c: int)
    ensures
        0x1000_0000 * saturation_entry(saturation, r, c) == (0x1000_0000 - saturation.bits)
            * saturation_entry((Factor { bits: 0 }), r, c) + saturation.bits * saturation_entry(
            (Factor { bits: 0x1000_0000 }),
            r,
            c,
        ),
{
    let (m, w) = (saturation.bits as int, luma_weight(c));
    let id: int = if r == c {
        10000
    } else {
        0
    };
    assert(0 * w == 0);
    assert(saturation_entry(saturation, r, c) == id * m + (0x1000_0000 - m) * w);
    assert(saturation_entry(Factor { bits: 0 }, r, c) == 0x1000_0000 * w);
    assert(saturation_entry(Factor { bits: 0x1000_0000 }, r, c) == id * 0x1000_0000);
    assert(0x1000_0000 * (id * m + (0x1000_0000 - m) * w) == (0x1000_0000 - m) * (0x1000_0000 * w)
        + m * (id * 0x1000_0000)) by (nonlinear_arith);
}

/// Without saturation each channel is the BT.2020 luma of what the gamut matrix gives.
pub proof fn lemma_desaturated_channels_are_luma(
    container: HdrColorContainer,
    gamut_mix: Factor,
    r: int,
    c: int,
)
    requires
        0 <= r < 3,
        0 <= c < 3,
    ensures
        ({
            let one = Factor { bits: 0x1000_0000 };
            10000 * combined_entry(container, gamut_mix, (Factor { bits: 0 }), r, c) == 2627
                * combined_entry(container, gamut_mix, one, 0, c) + 6780 * combined_entry(
                container,
                gamut_mix,
                one,
                1,
                c,
            ) + 593 * combined_entry(container, gamut_mix, one, 2, c)
        }),
{
    lemma_ctm_at_saturation_one(container, gamut_mix, 0, c);
    lemma_ctm_at_saturation_one(container, gamut_mix, 1, c);
    lemma_ctm_at_saturation_one(container, gamut_mix, 2, c);
    let none = Factor { bits: 0 };
    let (g0, g1, g2) = (
        mixed_gamut(container, gamut_mix, 0, c),
        mixed_gamut(container, gamut_mix, 1, c),
        mixed_gamut(container, gamut_mix, 2, c),
    );
    assert(saturation_entry(none, r, 0) == 2627 * 0x1000_0000);
    assert(saturation_entry(none, r, 1) == 6780 * 0x1000_0000);
    assert(saturation_entry(none, r, 2) == 593 * 0x1000_0000);
    let one = Factor { bits: FACTOR_ONE };
    assert(combined_entry(container, gamut_mix, none, r, c) == (2627 * 0x1000_0000) * g0 + (6780
        * 0x1000_0000) * g1 + (593 * 0x1000_0000) * g2);
    assert(combined_entry(container, gamut_mix, one, 0, c) == (10000 * 0x1000_0000) * g0);
    assert(combined_entry(container, gamut_mix, one, 1, c) == (10000 * 0x1000_0000) * g1);
    assert(combined_entry(container, gamut_mix, one, 2, c) == (10000 * 0x1000_0000) * g2);
}

/// A number of `2^31` and more is encoded as the largest magnitude, with its sign.
pub proof fn lemma_large_numbers_saturate(n: int, d: int)
    requires
        0 < d,
        n >= 0x8000_0000 * d || n <= -0x8000_0000 * d,
    ensures
        n > 0 ==> s31_32(n, d) == 0x7FFF_FFFF_FFFF_FFFF,
        n < 0 ==> s31_32(n, d) == 0xFFFF_FFFF_FFFF_FFFF,
{
    let size = if n < 0 {
        -n
    } else {
        n
    };
    vstd::arithmetic::div_mod::lemma_div_is_ordered(0x8000_0000 * d, size, d);
    vstd::arithmetic::div_mod::lemma_div_multiples_vanish(0x8000_0000, d);
    assert(d * 0x8000_0000 == 0x8000_0000 * d);
    lemma_large_magnitude(size, d);
}

// ---------------------------------------------------------------------------
// Laws of the sRGB table
// ---------------------------------------------------------------------------

/// Only the ratio counts: an entry halfway through a table is the same in a table of any
/// size.
pub proof fn lemma_srgb_code_depends_on_the_ratio(n: int, d: int, k: int, code: int)
    requires
        0 <= n <= d,
        0 < d,
        0 < k,
    ensures
        srgb_code_is_nearest(n, d, code) <==> srgb_code_is_nearest(k * n, k * d, code),
{
    assert(100000 * n <= 4045 * d <==> 100000 * (k * n) <= 4045 * (k * d)) by (nonlinear_arith)
        requires
            0 < k,
    ;
    let (a, b) = (13107000 * n + 1292 * d, 2584 * d);
    assert(13107000 * (k * n) + 1292 * (k * d) == k * a) by (nonlinear_arith)
        requires
            a == 13107000 * n + 1292 * d,
    ;
    assert(2584 * (k * d) == k * b) by (nonlinear_arith)
        requires
            b == 2584 * d,
    ;
    vstd::arithmetic::div_mod::lemma_div_denominator(k * a, k, b);
    vstd::arithmetic::div_mod::lemma_div_multiples_vanish(a, k);
    lemma_srgb_reach_scales(n, d, k, 2 * code - 1);
    lemma_srgb_reach_scales(n, d, k, 2 * code + 1);
    assert(k * d > 0) by (nonlinear_arith)
        requires
            0 < k,
            0 < d,
    ;
}

proof fn lemma_srgb_reach_scales(n: int, d: int, k: int, half_steps: int)
    requires
        0 <= n,
        0 < d,
        0 < k,
    ensures
        srgb_power_reaches(n, d, half_steps) <==> srgb_power_reaches(k * n, k * d, half_steps),
{
    let (x, y) = (1055 * d, 1000 * n + 55 * d);
    assert(1055 * (k * d) == k * x && 1000 * (k * n) + 55 * (k * d) == k * y) by (nonlinear_arith)
        requires
            x == 1055 * d,
            y == 1000 * n + 55 * d,
    ;
    vstd::arithmetic::power::lemma_pow_distributes(k, x, 12);
    vstd::arithmetic::power::lemma_pow_distributes(k, y, 12);
    vstd::arithmetic::power::lemma_pow_positive(k, 12);
    let (p, q, r) = (pow(k, 12), pow(x, 12), pow(y, 12));
    let (h, m) = (pow(half_steps, 5), pow(131070, 5));
    assert(h * (p * q) == p * (h * q) && m * (p * r) == p * (m * r)) by (nonlinear_arith);
    assert(h * q <= m * r <==> p * (h * q) <= p * (m * r)) by (nonlinear_arith)
        requires
            0 < p,
    ;
}

/// The table never falls.
pub proof fn lemma_srgb_table_rises(m: int, n: int, d: int, a: int, b: int)
    requires
        0 <= m <= n <= d,
        0 < d,
        0 <= a,
        0 <= b,
        srgb_code_is_nearest(m, d, a),
        srgb_code_is_nearest(n, d, b),
        (100000 * m <= 4045 * d) == (100000 * n <= 4045 * d),
    ensures
        a <= b,
{
    if 100000 * m <= 4045 * d {
        let (x, y) = (13107000 * m + 1292 * d, 13107000 * n + 1292 * d);
        vstd::arithmetic::div_mod::lemma_div_is_ordered(x, y, 2584 * d);
    } else if a > b {
        // The larger value reaches what the smaller one does.
        lemma_pow_base_grows(1000 * m + 55 * d, 1000 * n + 55 * d, 12);
        let (p, q, top) = (
            pow(1000 * m + 55 * d, 12),
            pow(1000 * n + 55 * d, 12),
            pow(131070, 5),
        );
        lemma_pow_base_grows(0, 131070, 5);
        assert(top * p <= top * q) by (nonlinear_arith)
            requires
                p <= q,
                0 <= top,
        ;
        assert(srgb_power_reaches(n, d, 2 * a - 1));
        lemma_srgb_reach_shrinks(n, d, 2 * b + 1, 2 * a - 1);
    }
}

/// In the toe the code is the nearest to a straight line through black, and beyond it
/// to the power curve, both over the whole range of sizes.
pub proof fn lemma_srgb_code_meets_the_curve(n: int, d: int, code: int)
    requires
        0 <= n <= d,
        0 < d,
        0 <= code,
        srgb_code_is_nearest(n, d, code),
    ensures
        100000 * n <= 4045 * d ==> -1292 * d < 2584 * d * code - 13107000 * n <= 1292 * d,
        100000 * n > 4045 * d && code > 0 ==> pow(2 * code - 1, 5) * pow(1055 * d, 12) <= pow(
            131070,
            5,
        ) * pow(1000 * n + 55 * d, 12),
        100000 * n > 4045 * d && code < 65535 ==> pow(2 * code + 1, 5) * pow(1055 * d, 12) > pow(
            131070,
            5,
        ) * pow(1000 * n + 55 * d, 12),
        n == 0 ==> code == 0,
        n == d ==> code == 65535,
{
    let (a, b) = (13107000 * n + 1292 * d, 2584 * d);
    vstd::arithmetic::div_mod::lemma_fundamental_div_mod(a, b);
    vstd::arithmetic::div_mod::lemma_mod_bound(a, b);
    if n == 0 {
        vstd::arithmetic::div_mod::lemma_fundamental_div_mod_converse(a, b, 0, a);
    }
    if n == d && code < 65535 {
        lemma_pow_base_grows(2 * code + 1, 131070, 5);
        lemma_pow_base_grows(0, 1055 * d, 12);
        let (p, q, r) = (pow(2 * code + 1, 5), pow(131070, 5), pow(1055 * d, 12));
        assert(p * r <= q * r) by (nonlinear_arith)
            requires
                p <= q,
                0 <= r,
        ;
    }
}

// ---------------------------------------------------------------------------
// Laws of the gamut matrices
// ---------------------------------------------------------------------------

/// The full remap takes BT.709 to the container that the surface shader converts from: the
/// remap to BT.2020 is the shader's own conversion, up to a hundred-millionth, and that to
/// P3 is undone by the shader's conversion back, up to a millionth.
pub proof fn lemma_remap_agrees_with_the_shader(r: int, c: int)
    requires
        0 <= r < 3,
        0 <= c < 3,
    ensures
        ({
            let shader = clipped_surface::bt709_to_bt2020()[r + 3 * c];
            let remap = gamut_remap(HdrColorContainer::Bt2020, r, c);
            100 * shader - 1000 <= remap <= 100 * shader + 1000
        }),
        ({
            let back = clipped_surface::p3_to_bt709();
            let p3 = HdrColorContainer::DciP3;
            let entry = back[r] * gamut_remap(p3, 0, c) + back[r + 3] * gamut_remap(p3, 1, c)
                + back[r + 6] * gamut_remap(p3, 2, c);
            let exact: int = if r == c {
                100000000000000000000
            } else {
                0
            };
            exact - 100000000000000 <= entry <= exact + 100000000000000
        }),
{
    assert(r == 0 || r == 1 || r == 2);
    assert(c == 0 || c == 1 || c == 2);
}

/// At a full mix and a neutral saturation the matrix is the remap to the container, and
/// without a mix it is the identity; a saturation of zero leaves the luma weights, which sum
/// to one.
pub proof fn lemma_ctm_at_the_ends(container: HdrColorContainer, r: int, c: int)
    requires
        0 <= r < 3,
        0 <= c < 3,
    ensures
        ({
            let (none, one) = (Factor { bits: 0 }, Factor { bits: 0x1000_0000 });
            let unit = combined_unit();
            &&& unit == 72057594037927936int * 1000000000000000
            &&& 100000000000 * combined_entry(container, one, one, r, c) == unit * gamut_remap(
                container,
                r,
                c,
            )
            &&& combined_entry(container, none, one, r, c) == if r == c {
                unit
            } else {
                0
            }
            &&& 10000 * combined_entry(container, none, none, r, c) == unit * luma_weight(c)
            &&& luma_weight(0) == 2627 && luma_weight(1) == 6780 && luma_weight(2) == 593
        }),
{
    let (none, one) = (Factor { bits: 0 }, Factor { bits: FACTOR_ONE });
    lemma_ctm_at_saturation_one(container, one, r, c);
    lemma_ctm_at_saturation_one(container, none, r, c);
    lemma_ctm_at_saturation_one(container, none, 0, c);
    lemma_ctm_at_saturation_one(container, none, 1, c);
    lemma_ctm_at_saturation_one(container, none, 2, c);
    lemma_gamut_without_mix(container, r, c);
    lemma_gamut_without_mix(container, 0, c);
    lemma_gamut_without_mix(container, 1, c);
    lemma_gamut_without_mix(container, 2, c);
    lemma_desaturated_channels_are_luma(container, none, r, c);
    let g = gamut_remap(container, r, c);
    assert(mixed_gamut(container, one, r, c) == g * 0x1000_0000);
    assert(combined_unit() == 72057594037927936000000000000000int);
    let (unit, weight) = (combined_unit(), luma_weight(c));
    assert(unit * g == 72057594037927936000000000000000int * g && unit * weight
        == 72057594037927936000000000000000int * weight) by (nonlinear_arith)
        requires
            unit == 72057594037927936000000000000000int,
    ;
    let scale = 10000 * FACTOR_ONE;
    assert(scale == 2684354560000);
    assert(combined_entry(container, one, one, r, c) == 2684354560000 * (g * 0x1000_0000));
    let full = combined_entry(container, one, one, r, c);
    assert(full == 720575940379279360000int * g) by (nonlinear_arith)
        requires
            full == 2684354560000 * (g * 0x1000_0000),
    ;
    assert(100000000000 * full == 72057594037927936000000000000000int * g);
    assert(100000000000 * full == unit * g);
    let here = mixed_gamut(container, none, r, c);
    assert(combined_entry(container, none, one, r, c) == 2684354560000 * here);
    assert(c == 0 || c == 1 || c == 2);
    let (a, b, d) = (
        mixed_gamut(container, none, 0, c),
        mixed_gamut(container, none, 1, c),
        mixed_gamut(container, none, 2, c),
    );
    assert(combined_entry(container, none, one, 0, c) == 2684354560000 * a);
    assert(combined_entry(container, none, one, 1, c) == 2684354560000 * b);
    assert(combined_entry(container, none, one, 2, c) == 2684354560000 * d);
}

/// Entries are gray: all three channels hold the code, and the filler is zero.
pub proof fn lemma_entries_are_gray(code: nat)
    requires
        code <= 65535,
    ensures
        gray_entry(code).red == code,
        gray_entry(code).green == code,
        gray_entry(code).blue == code,
        gray_entry(code).reserved == 0,
{
}

/// The remaps by their columns: what red, green and blue of BT.709 turn into.
pub proof fn lemma_remaps_by_columns()
    ensures
        ({
            let to = HdrColorContainer::Bt2020;
            &&& gamut_remap(to, 0, 0) == 62740389896 && gamut_remap(to, 1, 0) == 6909728935
                && gamut_remap(to, 2, 0) == 1639143887
            &&& gamut_remap(to, 0, 1) == 32928303525 && gamut_remap(to, 1, 1) == 91954039517
                && gamut_remap(to, 2, 1) == 8801330593
            &&& gamut_remap(to, 0, 2) == 4331306579 && gamut_remap(to, 1, 2) == 1136231548
                && gamut_remap(to, 2, 2) == 89559525520
        }),
        ({
            let to = HdrColorContainer::DciP3;
            &&& gamut_remap(to, 0, 0) == 82246197000 && gamut_remap(to, 1, 0) == 3319420000
                && gamut_remap(to, 2, 0) == 1708263000
            &&& gamut_remap(to, 0, 1) == 17753803000 && gamut_remap(to, 1, 1) == 96680580000
                && gamut_remap(to, 2, 1) == 7239738000
            &&& gamut_remap(to, 0, 2) == 0 && gamut_remap(to, 1, 2) == 0 && gamut_remap(to, 2, 2)
                == 91051999000
        }),
{
}

} // verus!
