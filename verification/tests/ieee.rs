use rdp::ieee::{exceeds, finite, magnitude_of, nan, rank_of, INFINITY, NAN_RANK, SIGN_BIT};

fn samples() -> Vec<f64> {
    let mut values = vec![
        0.0,
        -0.0,
        f64::MIN_POSITIVE,
        -f64::MIN_POSITIVE,
        5e-324,
        -5e-324,
        1.0,
        -1.0,
        1.0 + f64::EPSILON,
        0.1,
        17.3,
        -27.8,
        1.0e300,
        -1.0e300,
        f64::MAX,
        f64::MIN,
        f64::INFINITY,
        f64::NEG_INFINITY,
    ];
    let mut state: u64 = 99;
    for _ in 0..200 {
        state = state.wrapping_mul(6364136223846793005).wrapping_add(1442695040888963407);
        let value = f64::from_bits(state);
        if !value.is_nan() {
            values.push(value);
        }
    }
    values
}

#[test]
fn constants_are_the_patterns_they_name() {
    assert_eq!(INFINITY, f64::INFINITY.to_bits());
    assert_eq!(SIGN_BIT, (-0.0_f64).to_bits());
    assert_eq!(NAN_RANK, 0x7FF0_0000_0000_0001);
}

#[test]
fn classification_is_that_of_the_values() {
    for value in samples() {
        assert_eq!(nan(value.to_bits()), value.is_nan());
        assert_eq!(finite(value.to_bits()), value.is_finite());
        assert_eq!(magnitude_of(value.to_bits()), value.abs().to_bits());
    }
    for pattern in [f64::NAN.to_bits(), 0x7FF0_0000_0000_0001, 0xFFFF_FFFF_FFFF_FFFF, 0xFFF8_0000_0000_0000] {
        assert!(nan(pattern));
        assert!(!finite(pattern));
        assert!(f64::from_bits(pattern).is_nan());
    }
}

#[test]
fn rank_orders_numbers_as_they_are_ordered() {
    let values = samples();
    for a in values.iter() {
        for b in values.iter() {
            let (ra, rb) = (rank_of(a.to_bits()), rank_of(b.to_bits()));
            assert_eq!(ra < rb, a < b);
            assert_eq!(ra == rb, a == b);
            assert_eq!(exceeds(a.to_bits(), b.to_bits()), a > b);
        }
    }
}

#[test]
fn rank_has_the_stated_values() {
    assert_eq!(rank_of(0.0_f64.to_bits()), 0);
    assert_eq!(rank_of((-0.0_f64).to_bits()), 0);
    assert_eq!(rank_of(1.0_f64.to_bits()), 0x3FF0_0000_0000_0000);
    assert_eq!(rank_of((-1.0_f64).to_bits()), -0x3FF0_0000_0000_0000);
    assert_eq!(rank_of(f64::INFINITY.to_bits()), 0x7FF0_0000_0000_0000);
    assert_eq!(rank_of(f64::NEG_INFINITY.to_bits()), -0x7FF0_0000_0000_0000);
    assert_eq!(rank_of(f64::NAN.to_bits()), NAN_RANK);
    assert_eq!(rank_of(0xFFFF_FFFF_FFFF_FFFF), NAN_RANK);
}

#[test]
fn no_number_ranks_above_every_number() {
    for value in samples() {
        assert!(exceeds(f64::NAN.to_bits(), value.to_bits()));
        assert!(exceeds((-f64::NAN).to_bits(), value.to_bits()));
        assert!(!exceeds(value.to_bits(), f64::NAN.to_bits()));
    }
    assert!(!exceeds(f64::NAN.to_bits(), 0x7FF8_0000_0000_0001));
}
