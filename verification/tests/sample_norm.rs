//! Normalization exactness, checked exhaustively against real float
//! arithmetic: the library computes bit patterns by integer logic alone,
//! and every one of them must equal what the hardware computes.

use tts_bridge::sample::{normalize_i16, normalize_i8};

#[test]
fn i16_normalization_is_exact_for_all_inputs() {
    for s in i16::MIN..=i16::MAX {
        let expected = (s as f32 / 32768.0).to_bits();
        assert_eq!(normalize_i16(s), expected, "sample {}", s);
    }
}

#[test]
fn i8_normalization_is_exact_for_all_inputs() {
    for s in i8::MIN..=i8::MAX {
        let expected = (s as f32 / 256.0).to_bits();
        assert_eq!(normalize_i8(s), expected, "sample {}", s);
    }
}

#[test]
fn extreme_samples_normalize_to_documented_values() {
    assert_eq!(normalize_i16(i16::MIN), (-1.0f32).to_bits());
    assert_eq!(normalize_i16(0), 0.0f32.to_bits());
    assert_eq!(normalize_i16(1), (1.0f32 / 32768.0).to_bits());
    assert_eq!(normalize_i8(i8::MIN), (-0.5f32).to_bits());
    assert_eq!(normalize_i8(0), 0.0f32.to_bits());
}
