use spectral_prosody::order::Level;

fn level(x: f64) -> Level {
    Level::from_bits(x.to_bits())
}

#[test]
fn levels_follow_the_order_of_the_reals() {
    let values = [f64::NEG_INFINITY, -1e300, -1.0, -1e-300, 0.0, 1e-300, 0.5, 1.0, 1e300, f64::INFINITY];
    for a in 0..values.len() {
        for b in 0..values.len() {
            assert_eq!(
                level(values[a]).exceeds(&level(values[b])),
                values[a] > values[b],
                "{} vs {}",
                values[a],
                values[b]
            );
        }
    }
}

#[test]
fn both_zeros_share_a_level() {
    assert_eq!(level(0.0), level(-0.0));
    assert_eq!(level(0.0), Level::Ordered(0x8000_0000_0000_0000));
    assert!(!level(0.0).exceeds(&level(-0.0)));
    assert!(!level(-0.0).exceeds(&level(0.0)));
}

#[test]
fn nan_is_unordered() {
    assert_eq!(level(f64::NAN), Level::Unordered);
    assert_eq!(Level::from_bits(0xFFF8_0000_0000_0001), Level::Unordered);
    assert!(!level(f64::NAN).exceeds(&level(1.0)));
    assert!(!level(1.0).exceeds(&level(f64::NAN)));
    assert!(!level(f64::NAN).exceeds(&level(f64::NAN)));
}

#[test]
fn level_keys_are_offset_sign_magnitude() {
    assert_eq!(Level::from_bits(0x3FF0_0000_0000_0000), Level::Ordered(0xBFF0_0000_0000_0000));
    assert_eq!(Level::from_bits(0xBFF0_0000_0000_0000), Level::Ordered(0x4010_0000_0000_0000));
    assert_eq!(Level::from_bits(0x7FF0_0000_0000_0000), Level::Ordered(0xFFF0_0000_0000_0000));
    assert_eq!(Level::from_bits(0x7FF0_0000_0000_0001), Level::Unordered);
}
