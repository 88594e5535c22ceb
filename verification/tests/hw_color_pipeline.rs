use cosmic_comp::drm_helpers::HdrColorContainer;
use cosmic_comp::hw_color_pipeline::{
    encode_s31_32_sign_magnitude, gamut_ctm_with_ref_white, pq_encode_lut, pq_encode_lut_with_gamma, pq_encode_lut_with_tonemap,
    srgb_decode_lut, DrmColorLutEntry, Factor, FACTOR_ONE, GAMMA_MIN,
};

fn red_of(e: DrmColorLutEntry) -> u16 {
    e.red
}

/// The factor that stands for a value with at most 28 fractional bits.
fn factor(value: f64) -> Factor {
    let bits = value * 268435456.0;
    assert_eq!(bits, bits.trunc());
    Factor { bits: bits as u32 }
}

#[test]
fn srgb_decode_lut_endpoints() {
    let lut = srgb_decode_lut(129);
    assert_eq!(lut.len(), 129);
    assert_eq!(red_of(lut[0]), 0);
    assert_eq!(red_of(lut[128]), 65535);
    // mid-gray (0.5 sRGB) decodes to ~0.214 linear
    let mid_idx = 64;
    let mid_val = red_of(lut[mid_idx]) as f64 / 65535.0;
    let expected_input: f64 = mid_idx as f64 / 128.0;
    let expected_linear = if expected_input <= 0.04045 {
        expected_input / 12.92
    } else {
        ((expected_input + 0.055) / 1.055).powf(2.4)
    };
    assert!(
        (mid_val - expected_linear).abs() < 1e-3,
        "mid-gray decode mismatch: {} vs {}",
        mid_val,
        expected_linear
    );
}

#[test]
fn pq_encode_lut_endpoints() {
    let lut = pq_encode_lut(1024);
    assert_eq!(lut.len(), 1024);
    assert!(red_of(lut[0]) < 100);
    assert!(red_of(lut[1023]) > 65500);
}

#[test]
fn pq_encode_lut_known_values() {
    // PQ encode of 100 nits = linear 0.01 should give ~0.502.
    let lut = pq_encode_lut(1024);
    let idx: usize = (0.01_f64 * 1023.0).round() as usize;
    let v = red_of(lut[idx]) as f64 / 65535.0;
    assert!(
        (v - 0.502).abs() < 0.02,
        "PQ at 100 nits should be ~0.502, got {}",
        v
    );
}

#[test]
fn ctm_identity_at_full_scale() {
    // Test pure passthrough — Rec.709 to itself with ref_white = 10000
    // would be identity scaled by 1.0. We don't expose Rec.709 as a
    // target, but we can test that BT.2020 identity-element diagonal
    // is reasonable.
    let ctm = gamut_ctm_with_ref_white(HdrColorContainer::Bt2020, 10000, factor(1.0), factor(1.0));
    // Diagonal entries should be positive
    assert_eq!(ctm[0] >> 63, 0); // [0][0] is positive
    assert_eq!(ctm[4] >> 63, 0); // [1][1] is positive
    assert_eq!(ctm[8] >> 63, 0); // [2][2] is positive
    // Magnitude of [0][0] should be ~0.6274 * 2^32 (sat=1 → S=I, so the
    // composed matrix is just the gamut remap)
    let expected = (0.62740389896 * 4_294_967_296.0) as u64;
    let actual = ctm[0] & !(1u64 << 63);
    let diff = if actual > expected {
        actual - expected
    } else {
        expected - actual
    };
    assert!(diff < 1024, "[0][0] off by more than 1024 ulps: {}", diff);
}

#[test]
fn ctm_ignores_ref_white_param() {
    // ref_white was previously baked into the CTM as a scale factor;
    // it now lives in the GAMMA_LUT (see pq_encode_lut_with_tonemap).
    // CTMs for any two ref_white values with the same gamut_mix + sat
    // must be byte-identical.
    let ctm_a = gamut_ctm_with_ref_white(HdrColorContainer::Bt2020, 200, factor(1.0), factor(1.0));
    let ctm_b = gamut_ctm_with_ref_white(HdrColorContainer::Bt2020, 10000, factor(1.0), factor(1.0));
    assert_eq!(ctm_a, ctm_b, "CTM must not depend on ref_white anymore");
}

#[test]
fn ctm_gamut_mix_zero_is_identity() {
    // gamut_mix = 0 → 709 passthrough, no scale.
    // [0][0] should be exactly 1.0, [0][1] should be 0.
    let ctm = gamut_ctm_with_ref_white(HdrColorContainer::Bt2020, 1000, factor(0.0), factor(1.0));
    let m00 = (ctm[0] & !(1u64 << 63)) as f64 / 4_294_967_296.0;
    let m01 = (ctm[1] & !(1u64 << 63)) as f64 / 4_294_967_296.0;
    assert!((m00 - 1.0).abs() < 1e-5, "[0][0] should be 1.0, got {}", m00);
    assert!(m01 < 1e-5, "[0][1] should be ~0, got {}", m01);
}

#[test]
fn ctm_gamut_mix_half() {
    // gamut_mix = 0.5 → halfway between identity and full BT.2020 remap.
    // [0][0] should be (1.0 + 0.6274) / 2 = 0.8137, no scaling now.
    let ctm = gamut_ctm_with_ref_white(HdrColorContainer::Bt2020, 1000, factor(0.5), factor(1.0));
    let m00 = (ctm[0] & !(1u64 << 63)) as f64 / 4_294_967_296.0;
    let expected = (1.0 + 0.62740389896) / 2.0;
    assert!(
        (m00 - expected).abs() < 1e-5,
        "[0][0] half-mix should be {}, got {}",
        expected,
        m00
    );
}

/// Helper — read the magnitude of an S31.32 sign-magnitude entry as f64.
fn ctm_entry(ctm: &[u64; 9], i: usize) -> f64 {
    let mag = (ctm[i] & !(1u64 << 63)) as f64 / 4_294_967_296.0;
    if ctm[i] >> 63 != 0 { -mag } else { mag }
}

#[test]
fn ctm_saturation_one_is_identity() {
    // sat=1 with gamut_mix=0 (709 passthrough) and ref_white=10000 should
    // give a pure identity matrix. Diagonal=1.0, off-diagonal=0.
    let ctm = gamut_ctm_with_ref_white(HdrColorContainer::Bt2020, 10000, factor(0.0), factor(1.0));
    for i in 0..3 {
        for j in 0..3 {
            let v = ctm_entry(&ctm, i * 3 + j);
            let expected = if i == j { 1.0 } else { 0.0 };
            assert!(
                (v - expected).abs() < 1e-5,
                "sat=1 ctm[{},{}] = {} (want {})",
                i, j, v, expected
            );
        }
    }
}

#[test]
fn ctm_saturation_zero_collapses_to_luma() {
    // sat=0 with gamut_mix=0 means every output channel is the BT.2020
    // luma of the input — every row should be the luma weight vector.
    let ctm = gamut_ctm_with_ref_white(HdrColorContainer::Bt2020, 10000, factor(0.0), factor(0.0));
    const W: [f64; 3] = [0.2627, 0.6780, 0.0593];
    for i in 0..3 {
        for j in 0..3 {
            let v = ctm_entry(&ctm, i * 3 + j);
            assert!(
                (v - W[j]).abs() < 1e-5,
                "sat=0 ctm[{},{}] = {} (want {})",
                i, j, v, W[j]
            );
        }
    }
}

#[test]
fn ctm_saturation_boost_off_diagonal_negative() {
    // sat>1 amplifies chroma; off-diagonal entries become negative
    // (the formula gives (1-sat)·w_j which is negative when sat>1).
    // sat=2 with gamut_mix=0 ref_white=10000: off-diag[0][1] = -1·0.678
    let ctm = gamut_ctm_with_ref_white(HdrColorContainer::Bt2020, 10000, factor(0.0), factor(2.0));
    let m01 = ctm_entry(&ctm, 1);
    assert!(m01 < 0.0, "sat=2 ctm[0][1] should be negative, got {}", m01);
    assert!(
        (m01 - (-0.678)).abs() < 1e-5,
        "sat=2 ctm[0][1] should be ~-0.678, got {}",
        m01
    );
}

#[test]
fn pq_lut_with_gamma_one_matches_plain() {
    // gamma=1.0 should produce the exact same LUT as pq_encode_lut.
    let plain = pq_encode_lut(1024);
    let baked = pq_encode_lut_with_gamma(1024, factor(1.0));
    assert_eq!(plain.len(), baked.len());
    for i in 0..plain.len() {
        assert_eq!(red_of(plain[i]), red_of(baked[i]),
            "diverged at entry {}", i);
    }
}

#[test]
fn pq_lut_with_gamma_punch_darkens_midtones() {
    // gamma > 1 (more punch / contrast) should DARKEN linear-domain
    // midtones before PQ-encoding them, so the PQ output for a given
    // input bin is lower than the plain LUT.
    let plain = pq_encode_lut(1024);
    let punched = pq_encode_lut_with_gamma(1024, factor(1.5));
    // pick a midtone bin (index ~10 = linear 0.01 = 100 nits with
    // ref_white scaling — solidly in the SDR midtone region).
    let mid_idx: usize = 10;
    assert!(red_of(punched[mid_idx]) < red_of(plain[mid_idx]),
        "punch (gamma>1) should lower midtone PQ output: plain={} punched={}",
        red_of(plain[mid_idx]), red_of(punched[mid_idx]));
    // Endpoints stay pinned: 0→0, 1→max.
    assert_eq!(red_of(punched[0]), red_of(plain[0]));
    assert_eq!(red_of(punched[1023]), red_of(plain[1023]));
}

// ---------------------------------------------------------------------------
// Against floating-point reference formulas
// ---------------------------------------------------------------------------

fn srgb_reference(v: f64) -> u16 {
    let linear = if v <= 0.04045 {
        v / 12.92
    } else {
        ((v + 0.055) / 1.055).powf(2.4)
    };
    (linear.clamp(0.0, 1.0) * 65535.0).round() as u16
}

fn pq_reference(y: f64) -> u16 {
    let ym = y.powf(0.1593017578125);
    let v = ((0.8359375 + 18.8515625 * ym) / (1.0 + 18.6875 * ym)).powf(78.84375);
    (v.clamp(0.0, 1.0) * 65535.0).round() as u16
}

fn gamma_reference(i: usize, n: usize, gamma: f64) -> u16 {
    let g_eff = 1.0 + (gamma - 1.0) * 0.5;
    pq_reference((i as f64 / (n - 1) as f64).powf(g_eff))
}

fn tonemap_reference(i: usize, n: usize, gamma: f64, ref_white: u16, peak: u16) -> u16 {
    let g_eff = 1.0 + (gamma - 1.0) * 0.5;
    let rel = (i as f64 / (n - 1) as f64).powf(g_eff);
    let v = peak as f64 / ref_white as f64 * 2.0 - 1.0;
    let rel_out = rel * (1.0 + rel * v) / (1.0 + rel);
    let nits = (rel_out * ref_white as f64).min(peak as f64);
    pq_reference((nits / 10000.0).clamp(0.0, 1.0))
}

fn is_gray(e: &DrmColorLutEntry) -> bool {
    e.green == e.red && e.blue == e.red && e.reserved == 0
}

#[test]
fn srgb_decode_matches_the_reference() {
    for size in [2u32, 3, 17, 129, 256] {
        let lut = srgb_decode_lut(size);
        assert_eq!(lut.len(), size as usize);
        for (i, entry) in lut.iter().enumerate() {
            assert!(is_gray(entry));
            assert_eq!(entry.red, srgb_reference(i as f64 / (size - 1) as f64), "entry {}", i);
        }
    }
}

#[test]
fn srgb_decode_linear_toe_exact_values() {
    // 1 / 128 / 12.92 * 65535 = 39.63, 5 / 128 / 12.92 * 65535 = 198.14
    let lut = srgb_decode_lut(129);
    assert_eq!(lut[1].red, 40);
    assert_eq!(lut[5].red, 198);
}

#[test]
fn pq_tables_match_the_reference() {
    let lut = pq_encode_lut(256);
    for (i, entry) in lut.iter().enumerate() {
        assert!(is_gray(entry));
        assert_eq!(entry.red, gamma_reference(i, 256, 1.0), "entry {}", i);
    }
    for gamma in [0.25f64, 0.75, 1.5, 2.0, 15.0] {
        let lut = pq_encode_lut_with_gamma(65, factor(gamma));
        for (i, entry) in lut.iter().enumerate() {
            assert_eq!(entry.red, gamma_reference(i, 65, gamma), "entry {} at {}", i, gamma);
        }
    }
}

#[test]
fn gamma_below_a_tenth_counts_as_a_tenth() {
    let least = pq_encode_lut_with_gamma(33, Factor { bits: GAMMA_MIN });
    assert_eq!(pq_encode_lut_with_gamma(33, Factor { bits: 0 }), least);
    assert_eq!(pq_encode_lut_with_gamma(33, Factor { bits: GAMMA_MIN - 1 }), least);
    assert_eq!(GAMMA_MIN as f64 / FACTOR_ONE as f64, 0.1f32 as f64);
    assert_eq!(least[16].red, gamma_reference(16, 33, 0.1f32 as f64));
}

#[test]
fn tables_rise_and_keep_their_endpoints() {
    for gamma in [0.5f64, 1.0, 1.5] {
        let lut = pq_encode_lut_with_gamma(100, factor(gamma));
        assert_eq!(lut[0].red, 0);
        assert_eq!(lut[99].red, 65535);
        for i in 1..lut.len() {
            assert!(lut[i - 1].red <= lut[i].red);
        }
    }
}

#[test]
fn tonemap_matches_the_reference() {
    for (gamma, ref_white, peak) in [
        (1.0f64, 203u16, 1500u16),
        (1.5, 250, 525),
        (0.75, 10000, 1500),
        (1.0, 400, 65535),
        (1.0, 65535, 1),
    ] {
        let lut = pq_encode_lut_with_tonemap(129, factor(gamma), ref_white, peak);
        assert_eq!(lut.len(), 129);
        for (i, entry) in lut.iter().enumerate() {
            assert!(is_gray(entry));
            let expected = tonemap_reference(i, 129, gamma, ref_white, peak);
            assert!(
                (entry.red as i32 - expected as i32).abs() <= 1,
                "entry {} at {} {} {}: {} and {}",
                i,
                gamma,
                ref_white,
                peak,
                entry.red,
                expected
            );
        }
    }
}

#[test]
fn tonemap_without_a_range_is_the_gamma_table() {
    let plain = pq_encode_lut_with_gamma(64, factor(1.5));
    assert_eq!(pq_encode_lut_with_tonemap(64, factor(1.5), 0, 1000), plain);
    assert_eq!(pq_encode_lut_with_tonemap(64, factor(1.5), 203, 0), plain);
}

#[test]
fn tonemap_at_the_reference_range_is_the_plain_table() {
    assert_eq!(pq_encode_lut_with_tonemap(1024, factor(1.0), 10000, 10000), pq_encode_lut(1024));
}

#[test]
fn tonemap_last_entry_is_the_panel_peak() {
    let lut = pq_encode_lut_with_tonemap(1024, factor(1.0), 203, 1500);
    assert_eq!(lut[1023].red, pq_reference(0.15));
    assert_eq!(lut[0].red, 0);
    let top = pq_encode_lut_with_tonemap(64, factor(1.0), 203, 20000);
    assert_eq!(top[63].red, 65535);
}

fn ctm_reference(p3: bool, mix: f64, sat: f64) -> [f64; 9] {
    let remap = if p3 {
        [0.82246197, 0.17753803, 0.0, 0.03319420, 0.96680580, 0.0, 0.01708263, 0.07239738, 0.91051999]
    } else {
        [
            0.62740389896,
            0.32928303525,
            0.04331306579,
            0.06909728935,
            0.91954039517,
            0.01136231548,
            0.01639143887,
            0.08801330593,
            0.89559525520,
        ]
    };
    let w = [0.2627, 0.6780, 0.0593];
    let id = |r: usize, c: usize| if r == c { 1.0 } else { 0.0 };
    let mut out = [0.0; 9];
    for r in 0..3 {
        for c in 0..3 {
            for k in 0..3 {
                let s = sat * id(r, k) + (1.0 - sat) * w[k];
                let g = id(k, c) * (1.0 - mix) + remap[3 * k + c] * mix;
                out[3 * r + c] += s * g;
            }
        }
    }
    out
}

#[test]
fn ctm_matches_the_reference() {
    for p3 in [false, true] {
        let container = if p3 { HdrColorContainer::DciP3 } else { HdrColorContainer::Bt2020 };
        for mix in [0.0, 0.25, 0.5, 1.0] {
            for sat in [0.0, 0.5, 1.0, 1.25, 2.0, 15.5] {
                let ctm = gamut_ctm_with_ref_white(container, 203, factor(mix), factor(sat));
                let expected = ctm_reference(p3, mix, sat);
                for i in 0..9 {
                    assert!((ctm_entry(&ctm, i) - expected[i]).abs() < 1e-8);
                }
            }
        }
    }
}

#[test]
fn ctm_mix_above_one_counts_as_one() {
    assert_eq!(
        gamut_ctm_with_ref_white(HdrColorContainer::DciP3, 100, factor(3.0), factor(1.25)),
        gamut_ctm_with_ref_white(HdrColorContainer::DciP3, 100, factor(1.0), factor(1.25))
    );
}

#[test]
fn ctm_exact_fixed_point_values() {
    let ctm = gamut_ctm_with_ref_white(HdrColorContainer::DciP3, 100, factor(1.0), factor(1.0));
    // 0.82246197 * 2^32 and 0.17753803 * 2^32, rounded toward zero
    assert_eq!(ctm[0], 3532447263);
    assert_eq!(ctm[1], 762520032);
    assert_eq!(ctm[2], 0);
    let boost = gamut_ctm_with_ref_white(HdrColorContainer::Bt2020, 100, factor(0.0), factor(2.0));
    // -0.678 * 2^32, rounded toward zero
    assert_eq!(boost[1], (1u64 << 63) | 2911987826);
}

#[test]
fn ctm_rows_keep_white() {
    let ctm = gamut_ctm_with_ref_white(HdrColorContainer::Bt2020, 100, factor(0.5), factor(1.5));
    for r in 0..3 {
        let sum = ctm_entry(&ctm, 3 * r) + ctm_entry(&ctm, 3 * r + 1) + ctm_entry(&ctm, 3 * r + 2);
        assert!((sum - 1.0).abs() < 1e-8);
    }
}

#[test]
fn larger_gamma_never_brightens() {
    // Neighboring sliders, where the curves hardly differ.
    for bits in [GAMMA_MIN, FACTOR_ONE - 1, FACTOR_ONE, FACTOR_ONE + 12345, 15 * FACTOR_ONE] {
        for size in [2u32, 37, 64] {
            let mut before = pq_encode_lut_with_gamma(size, Factor { bits });
            for step in 1..4 {
                let after = pq_encode_lut_with_gamma(size, Factor { bits: bits + step });
                for i in 0..size as usize {
                    assert!(after[i].red <= before[i].red);
                }
                assert_eq!(after[0].red, 0);
                assert_eq!(after[size as usize - 1].red, 65535);
                before = after;
            }
        }
    }
}

#[test]
fn matrix_entries_are_in_sign_magnitude_form() {
    let one = gamut_ctm_with_ref_white(HdrColorContainer::Bt2020, 100, factor(0.0), factor(1.0));
    assert_eq!(one[0], 1 << 32);
    // Off the diagonal (1 - saturation) * w: opposite numbers at 0.5 and 1.5.
    let less = gamut_ctm_with_ref_white(HdrColorContainer::Bt2020, 100, factor(0.0), factor(0.5));
    let more = gamut_ctm_with_ref_white(HdrColorContainer::Bt2020, 100, factor(0.0), factor(1.5));
    for i in [1, 2, 3, 5, 6, 7] {
        assert_eq!(less[i] ^ more[i], 1 << 63);
        assert_eq!(more[i] >> 63, 1);
    }
    // 0.339 * 2^32 = 1455993913.4
    assert_eq!(less[1], 1455993913);
    assert_eq!(more[1], (1 << 63) | 1455993913);
}

#[test]
fn sign_magnitude_encoding() {
    let encode = encode_s31_32_sign_magnitude;
    assert_eq!(encode(1, 1), 1 << 32);
    assert_eq!(encode(-1, 2), 0x8000_0000_8000_0000);
    assert_eq!(encode(0, 7), 0);
    // Rounded toward zero: a third is 0x5555_5555.5
    assert_eq!(encode(1, 3), 0x5555_5555);
    assert_eq!(encode(-1, 3), (1 << 63) | 0x5555_5555);
    // Too small to show, but the sign stays.
    assert_eq!(encode(-1, 1 << 40), 1 << 63);
    // Saturated
    assert_eq!(encode((1 << 31) - 1, 1), ((1 << 31) - 1) << 32);
    assert_eq!(encode(1 << 31, 1), u64::MAX >> 1);
    assert_eq!(encode(i128::MIN + 1, 1), u64::MAX);
    for (n, d) in [(1, 1), (5, 3), (123456789, 1000), (i128::MAX, 1 << 100)] {
        assert_eq!(encode(n, d) ^ encode(-n, d), 1 << 63);
    }
}

#[test]
fn peaks_compress_and_expand() {
    let table = |gamma, peak| pq_encode_lut_with_tonemap(65, factor(gamma), 1000, peak);
    for gamma in [0.5, 1.0, 2.0] {
        let peaks = [1, 100, 300, 333, 334, 500, 1000, 1500, 10000, 65535];
        for pair in peaks.windows(2) {
            let (less, more) = (table(gamma, pair[0]), table(gamma, pair[1]));
            for i in 0..65 {
                assert!(less[i].red <= more[i].red);
            }
            // Each table rises, also below a third of the reference white.
            for i in 1..65 {
                assert!(less[i - 1].red <= less[i].red);
            }
        }
    }
    let (plain, low, high) = (table(1.0, 1000), table(1.0, 500), table(1.0, 1500));
    assert!(low[40].red < plain[40].red && plain[40].red < high[40].red);
    let darker = table(1.5, 500);
    for i in 0..65 {
        assert!(darker[i].red <= low[i].red);
    }
}
