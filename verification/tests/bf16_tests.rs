use systile::bf16::Bf16;

#[test]
fn constants() {
    assert_eq!(Bf16::one().to_bits(), 0x3f80);
    assert_eq!(Bf16::zero().to_bits(), 0);
    assert_eq!(Bf16::neg_one().to_bits(), 0xbf80);
    assert!(Bf16::infinity().is_infinite());
    assert!(Bf16::neg_infinity().is_infinite());
    assert!(Bf16::nan().is_nan());
    assert!(!Bf16::nan().is_finite());
    assert!(Bf16::max_value().is_finite());
    assert!(Bf16::min_value().is_finite());
    assert!(Bf16::min_positive().is_finite());
    assert_eq!(Bf16::from_bits(0x1234).to_bits(), 0x1234);
}

#[test]
fn narrowing_rounds_to_nearest_even() {
    assert_eq!(Bf16::from_f32_bits(1.0f32.to_bits()), Bf16::one());
    assert_eq!(Bf16::from_f32_bits((-1.0f32).to_bits()), Bf16::neg_one());
    // Exactly half-way: ties go to the even neighbour.
    assert_eq!(Bf16::from_f32_bits(0x3f80_8000).to_bits(), 0x3f80);
    assert_eq!(Bf16::from_f32_bits(0x3f81_8000).to_bits(), 0x3f82);
    // Above and below half-way.
    assert_eq!(Bf16::from_f32_bits(0x3f80_8001).to_bits(), 0x3f81);
    assert_eq!(Bf16::from_f32_bits(0x3f80_7fff).to_bits(), 0x3f80);
    // The largest finite f32 rounds up to infinity.
    assert_eq!(Bf16::from_f32_bits(f32::MAX.to_bits()), Bf16::infinity());
    assert_eq!(Bf16::from_f32_bits(f32::INFINITY.to_bits()), Bf16::infinity());
    assert_eq!(Bf16::from_f32_bits(f32::NEG_INFINITY.to_bits()), Bf16::neg_infinity());
}

#[test]
fn nan_survives_narrowing() {
    // A NaN whose payload lives only in the low half keeps a quiet bit.
    let b = Bf16::from_f32_bits(0x7f80_0001);
    assert!(b.is_nan());
    assert_eq!(b.to_bits(), 0x7fc0);
    assert!(Bf16::from_f32_bits(f32::NAN.to_bits()).is_nan());
    assert!(Bf16::from_f32_bits(0xff80_0001).is_nan());
}

#[test]
fn widening_is_exact_and_round_trips() {
    assert_eq!(Bf16::one().to_f32_bits(), 1.0f32.to_bits());
    for bits in 0..=u16::MAX {
        let b = Bf16::from_bits(bits);
        let back = Bf16::from_f32_bits(b.to_f32_bits());
        if b.is_nan() {
            assert_eq!(back.to_bits(), bits | 0x0040);
        } else {
            assert_eq!(back, b);
        }
    }
}

#[test]
fn dynamic_range_survives() {
    assert!(Bf16::from_f32_bits(1e30f32.to_bits()).is_finite());
    let tiny = Bf16::from_f32_bits(1e-30f32.to_bits());
    assert!(f32::from_bits(tiny.to_f32_bits()) > 0.0);
}
