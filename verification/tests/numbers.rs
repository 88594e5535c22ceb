use cosmic_comp::fixed_point::{integer_sqrt, multiply, power_of_fraction, ONE};
use cosmic_comp::natural::Natural;
use cosmic_comp::perceptual_quantizer::encode;
use cosmic_comp::text::{decimal_text, parse_u32, same_text};

#[test]
fn integer_square_roots() {
    assert_eq!(integer_sqrt(0), 0);
    assert_eq!(integer_sqrt(1), 1);
    assert_eq!(integer_sqrt(15), 3);
    assert_eq!(integer_sqrt(16), 4);
    assert_eq!(integer_sqrt(ONE as u128 * ONE as u128), ONE);
    assert_eq!(integer_sqrt(ONE as u128 * ONE as u128 - 1), ONE - 1);
}

#[test]
fn fixed_point_products_and_powers() {
    assert_eq!(multiply(ONE / 2, ONE / 2), ONE / 4);
    assert_eq!(multiply(ONE, ONE), ONE);
    // (1/4)^(1/2) = 1/2 and (1/2)^3 = 1/8
    assert_eq!(power_of_fraction(1, 4, 1, 1), ONE / 2);
    assert_eq!(power_of_fraction(1, 2, 3, 0), ONE / 8);
    assert_eq!(power_of_fraction(0, 7, 5, 3), 0);
    assert_eq!(power_of_fraction(7, 7, 5, 3), ONE);
    // (1/16)^(3/4) = 1/8
    assert_eq!(power_of_fraction(1, 16, 3, 2), ONE / 8);
    // 0.3^(5/8) = 0.4712...
    let p = power_of_fraction(3, 10, 5, 3) as f64 / ONE as f64;
    assert!((p - 0.3f64.powf(0.625)).abs() < 1e-14);
}

#[test]
fn natural_numbers_compare_past_machine_words() {
    let big = Natural::one().times_power(u64::MAX, 5);
    let bigger = big.times(2);
    assert!(big.at_most(&bigger));
    assert!(!bigger.at_most(&big));
    assert!(big.at_most(&big));
    // 10^20 = 2^20 * 5^20
    let a = Natural::one().times_power(10, 20);
    let b = Natural::one().times_power(2, 20).times_power(5, 20);
    assert!(a.at_most(&b) && b.at_most(&a));
    assert!(Natural::one().times(0).at_most(&Natural::one()));
    assert!(!Natural::one().at_most(&Natural::one().times(0)));
}

#[test]
fn pq_of_known_luminances() {
    // 100 cd/m2 encodes to 0.5080784..., 1000 cd/m2 to 0.7518271...
    assert_eq!(encode(100, 10000, 1305, 13), 33297);
    assert_eq!(encode(1000, 10000, 1305, 13), 49271);
    assert_eq!(encode(0, 1, 1305, 13), 0);
    assert_eq!(encode(1, 1, 1305, 13), 65535);
}

#[test]
fn decimal_notation() {
    assert_eq!(decimal_text(0), "0");
    assert_eq!(decimal_text(7), "7");
    assert_eq!(decimal_text(10), "10");
    assert_eq!(decimal_text(4294967295), "4294967295");
}

#[test]
fn numbers_are_parsed_like_the_standard_library_does() {
    for text in [
        "0", "24", "+24", "007", "4294967295", "4294967296", "99999999999999999999", "", "+", "-1",
        " 24", "24 ", "2_4", "0x18", "++1", "1+", "\u{0663}",
    ] {
        assert_eq!(parse_u32(text), text.parse::<u32>().ok(), "{:?}", text);
    }
}

#[test]
fn printed_numbers_parse_back() {
    for n in [0u32, 9, 10, 12345, u32::MAX] {
        assert_eq!(parse_u32(&decimal_text(n)), Some(n));
    }
}

#[test]
fn text_comparison() {
    assert!(same_text("CTM", "CTM"));
    assert!(!same_text("CTM", "ctm"));
    assert!(!same_text("CTM", "CTM_SIZE"));
}
