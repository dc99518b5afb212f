use process_hits::score::{score_is_nan, score_less, score_rank, INFINITY_BITS, SIGN_BIT};

fn samples() -> Vec<f32> {
    vec![
        f32::NEG_INFINITY,
        f32::MIN,
        -1.0e10,
        -2.5,
        -1.0,
        -0.75,
        -f32::MIN_POSITIVE,
        -1.0e-45,
        -0.0,
        0.0,
        1.0e-45,
        f32::MIN_POSITIVE,
        0.1,
        0.75,
        1.0,
        1.0000001,
        2.5,
        1.0e10,
        f32::MAX,
        f32::INFINITY,
    ]
}

#[test]
fn rank_orders_bits_as_the_numbers_are_ordered() {
    let values = samples();
    for a in &values {
        for b in &values {
            let (ra, rb) = (score_rank(a.to_bits()), score_rank(b.to_bits()));
            assert_eq!(ra < rb, a < b, "{} < {}", a, b);
            assert_eq!(ra == rb, a == b, "{} == {}", a, b);
            assert_eq!(score_less(a.to_bits(), b.to_bits()), a < b, "{} < {}", a, b);
        }
    }
}

#[test]
fn rank_of_given_bits() {
    assert_eq!(score_rank(0), 0);
    assert_eq!(score_rank(SIGN_BIT), 0);
    assert_eq!(score_rank(1), 1);
    assert_eq!(score_rank(SIGN_BIT + 1), -1);
    assert_eq!(score_rank(1.0f32.to_bits()), 0x3f80_0000);
    assert_eq!(score_rank((-1.0f32).to_bits()), -0x3f80_0000);
    assert_eq!(score_rank(INFINITY_BITS), 0x7f80_0000);
    assert_eq!(score_rank(f32::NEG_INFINITY.to_bits()), -0x7f80_0000);
    assert_eq!(score_rank(u32::MAX), -0x7fff_ffff);
}

#[test]
fn both_zeros_rank_equal() {
    assert_eq!(score_rank(0.0f32.to_bits()), score_rank((-0.0f32).to_bits()));
    assert!(!score_less(0.0f32.to_bits(), (-0.0f32).to_bits()));
    assert!(!score_less((-0.0f32).to_bits(), 0.0f32.to_bits()));
}

#[test]
fn not_a_number_is_told_from_numbers() {
    assert!(score_is_nan(f32::NAN.to_bits()));
    assert!(score_is_nan((-f32::NAN).to_bits()));
    assert!(score_is_nan(0x7f80_0001));
    assert!(score_is_nan(0xff80_0001));
    assert!(score_is_nan(0x7fff_ffff));
    assert!(score_is_nan(u32::MAX));
    assert!(!score_is_nan(INFINITY_BITS));
    assert!(!score_is_nan(f32::NEG_INFINITY.to_bits()));
    for v in samples() {
        assert_eq!(score_is_nan(v.to_bits()), v.is_nan());
    }
}

#[test]
fn not_a_number_is_never_less_and_never_greater() {
    let nan = f32::NAN.to_bits();
    for v in samples() {
        assert!(!score_less(nan, v.to_bits()));
        assert!(!score_less(v.to_bits(), nan));
    }
    assert!(!score_less(nan, nan));
}
