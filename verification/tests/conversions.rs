use bae_utils::sample::{Sample, SAMPLE_SCALE};
use bae_utils::sample_conversion::{
    sample_from_i16, sample_from_i16_bytes, sample_from_i24, sample_from_i24_bytes,
    sample_from_u8, sample_from_u8_bytes, sample_to_i16, sample_to_i16_bytes, sample_to_i24,
    sample_to_i24_bytes, sample_to_u8, sample_to_u8_bytes,
};

#[test]
fn u8_round_trip_all_values() {
    for v in 0..=255u8 {
        assert_eq!(sample_to_u8(sample_from_u8(v)), v);
    }
}

#[test]
fn i16_round_trip_all_values() {
    for v in i16::MIN..=i16::MAX {
        assert_eq!(sample_to_i16(sample_from_i16(v)), v);
    }
}

#[test]
fn i24_round_trip_sampled_values() {
    let mut v: i32 = -0x80_0000;
    while v <= 0x7F_FFFF {
        assert_eq!(sample_to_i24(sample_from_i24(v)), v);
        v += 4099;
    }
    for v in [-0x80_0000, -1, 0, 1, 0x7F_FFFF] {
        assert_eq!(sample_to_i24(sample_from_i24(v)), v);
    }
}

#[test]
fn u8_zero_point_is_128() {
    assert_eq!(sample_from_u8(128).num(), 0);
    assert_eq!(sample_to_u8(Sample::zero()), 128);
}

#[test]
fn u8_extremes() {
    // The minimum maps to exactly -1.0; the maximum to 127/128.
    assert_eq!(sample_from_u8(0).num(), -SAMPLE_SCALE);
    assert_eq!(sample_from_u8(255).num(), 127 * 0x2_0000);
    // An amplitude of exactly 1.0 saturates to 255 (round(1.0 * 128 + 128)
    // is 256, one past the top).
    assert_eq!(sample_to_u8(Sample::from_num(SAMPLE_SCALE)), 255);
}

#[test]
fn i16_full_scale() {
    // +1.0 maps to the maximum representable word, by the 32767 divisor.
    assert_eq!(sample_from_i16(0x7FFF).num(), SAMPLE_SCALE);
    assert_eq!(sample_to_i16(Sample::from_num(SAMPLE_SCALE)), 0x7FFF);
    // -32768 decodes to slightly below -1.0.
    assert_eq!(sample_from_i16(-0x8000).num(), -16777728);
}

#[test]
fn i24_full_scale() {
    assert_eq!(sample_from_i24(0x7F_FFFF).num(), SAMPLE_SCALE);
    assert_eq!(sample_to_i24(Sample::from_num(SAMPLE_SCALE)), 0x7F_FFFF);
}

#[test]
fn encode_saturates_out_of_range_amplitudes() {
    // 1.5 in fixed point.
    let loud = Sample::from_num(3 * SAMPLE_SCALE / 2);
    assert_eq!(sample_to_u8(loud), 255);
    assert_eq!(sample_to_i16(loud), 0x7FFF);
    assert_eq!(sample_to_i24(loud), 0x7F_FFFF);
    let quiet = Sample::from_num(-3 * SAMPLE_SCALE / 2);
    assert_eq!(sample_to_u8(quiet), 0);
    assert_eq!(sample_to_i16(quiet), -0x8000);
    assert_eq!(sample_to_i24(quiet), -0x80_0000);
}

#[test]
fn u8_bytes_match_words() {
    for v in [0u8, 1, 127, 128, 129, 255] {
        assert_eq!(sample_from_u8_bytes([v]).num(), sample_from_u8(v).num());
        let s = sample_from_u8(v);
        assert_eq!(sample_to_u8_bytes(s), [sample_to_u8(s)]);
    }
}

#[test]
fn i16_bytes_are_little_endian() {
    assert_eq!(
        sample_from_i16_bytes([0x34, 0x12]).num(),
        sample_from_i16(0x1234).num()
    );
    assert_eq!(
        sample_from_i16_bytes([0xFF, 0xFF]).num(),
        sample_from_i16(-1).num()
    );
    assert_eq!(sample_to_i16_bytes(sample_from_i16(0x1234)), [0x34, 0x12]);
    assert_eq!(sample_to_i16_bytes(sample_from_i16(-1)), [0xFF, 0xFF]);
    assert_eq!(
        sample_to_i16_bytes(sample_from_i16(-0x8000)),
        [0x00, 0x80]
    );
}

#[test]
fn i24_bytes_are_little_endian_and_sign_extended() {
    assert_eq!(
        sample_from_i24_bytes([0x56, 0x34, 0x12]).num(),
        sample_from_i24(0x123456).num()
    );
    assert_eq!(
        sample_from_i24_bytes([0xFF, 0xFF, 0xFF]).num(),
        sample_from_i24(-1).num()
    );
    assert_eq!(
        sample_to_i24_bytes(sample_from_i24(0x123456)),
        [0x56, 0x34, 0x12]
    );
    assert_eq!(sample_to_i24_bytes(sample_from_i24(-1)), [0xFF, 0xFF, 0xFF]);
}
