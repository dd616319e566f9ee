use retro_aio::single::{
    half_even_of, push_tenths, round_ratio_of, round_signed_of, round_single_of, Reading,
};
use retro_aio::text::{parse_u64, push_decimal, push_hex, same_text};

fn reading(v: f32) -> Reading {
    Reading { bits: v.to_bits() }
}

fn gib(v: f32) -> String {
    let mut s = String::new();
    reading(v).push_gib(&mut s);
    s
}

#[test]
fn rounding_to_single_matches_the_hardware() {
    let mut n: u64 = 1;
    for k in 0..200_000u64 {
        n = n.wrapping_mul(6364136223846793005).wrapping_add(1442695040888963407);
        let m = n >> (k % 60);
        assert_eq!(round_single_of(m), (m as f32) as u128);
    }
    for m in [0u64, 1, 0xff_ffff, 0x100_0000, 0x100_0001, 0x100_0003, u64::MAX] {
        assert_eq!(round_single_of(m), (m as f32) as u128);
    }
    assert_eq!(round_signed_of(-0x100_0001), -0x100_0000);
    assert_eq!(round_signed_of(-0x100_0003), -0x100_0004);
}

#[test]
fn ratios_round_like_single_precision_division() {
    for len in 40..=150u32 {
        for dy in 1..len {
            let q = round_ratio_of((dy as u128) << 40, len as u128);
            let f = dy as f32 / len as f32;
            assert_eq!(q as f64 / (1u64 << 40) as f64, f as f64);
        }
    }
}

#[test]
fn halves_go_to_even() {
    assert_eq!(half_even_of(40_500, 1000), 40);
    assert_eq!(half_even_of(41_500, 1000), 42);
    assert_eq!(half_even_of(40_501, 1000), 41);
    assert_eq!(half_even_of(40_499, 1000), 40);
}

#[test]
fn vram_text_matches_float_formatting() {
    let g = 1024.0f32 * 1024.0 * 1024.0;
    let samples = [
        0.0f32, 1.0, 1e9, 1.5e9, 8_589_934_592.0, 8_053_063_680.0, 53_687_091.2, 123_456_789.0,
        17_179_869_184.0, 1e20, 3e38, 1e-40, -1e9, -0.0, f32::INFINITY, f32::NEG_INFINITY, f32::NAN,
    ];
    for v in samples {
        assert_eq!(gib(v), format!("{:.1}", v / g), "{v}");
    }
    for k in 0..4000u32 {
        let v = k as f32 * 13_421_772.8;
        assert_eq!(gib(v), format!("{:.1}", v / g), "{v}");
    }
}

#[test]
fn thresholds_match_float_comparison() {
    for v in [
        0.0f32, 49.999996, 50.0, 50.5, 79.99999, 80.0, 80.00001, 100.0, -80.0, f32::NAN,
        f32::INFINITY, f32::NEG_INFINITY,
    ] {
        assert_eq!(reading(v).at_least_fifty(), v >= 50.0, "{v}");
        assert_eq!(reading(v).at_least_eighty(), v >= 80.0, "{v}");
    }
}

#[test]
fn maximum_skips_what_is_no_number() {
    for a in [0.0f32, 3.5, 99.0, -4.0, f32::NAN, f32::INFINITY] {
        for b in [1.0f32, 3.5, -7.0, f32::NAN, f32::NEG_INFINITY] {
            let m = f32::from_bits(reading(a).max(reading(b)).bits);
            let e = a.max(b);
            assert!(m == e || (m.is_nan() && e.is_nan()));
        }
    }
    assert_eq!(Reading::zero().bits, 0);
    assert!(reading(2.0).at_least(reading(2.0)));
    assert!(!reading(1.0).at_least(reading(2.0)));
}

#[test]
fn decimal_and_hexadecimal_text() {
    let mut s = String::new();
    push_decimal(&mut s, 0);
    push_decimal(&mut s, 1234567890);
    push_hex(&mut s, 0x70db, 4);
    push_hex(&mut s, 0x1, 2);
    push_tenths(&mut s, 79);
    assert_eq!(s, "0123456789070db017.9");
    let mut t = String::new();
    push_decimal(&mut t, u128::MAX);
    assert_eq!(t, u128::MAX.to_string());
}

#[test]
fn numbers_parse_as_the_standard_library_does() {
    for s in [
        "42", " 42 \n", "+7", "-1", "", " ", "1 2", "18446744073709551615", "18446744073709551616",
        "007", "+", "0x10", "45000\n", "٣",
    ] {
        assert_eq!(parse_u64(s), s.trim().parse::<u64>().ok(), "{s:?}");
    }
    for n in [0u64, 9, 10, 99, 100, 12345, u64::MAX] {
        assert_eq!(parse_u64(&n.to_string()), Some(n));
    }
}

#[test]
fn text_comparison() {
    assert!(same_text("angry", "angry"));
    assert!(!same_text("angry", "angry_scream"));
    assert!(!same_text("привет", "Привет"));
    assert!(same_text("", ""));
}
