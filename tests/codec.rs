use steganography::converter::{Converter, SimpleConverter};
use steganography::steganography::{adjust_color, image_capacity, ColorChannel, EncodingLimit};

#[test]
fn to_binary_is_msb_first() {
    let c = SimpleConverter::new();
    assert_eq!(
        c.to_binary("A"),
        vec![false, true, false, false, false, false, false, true]
    );
    assert_eq!(c.to_binary("").len(), 0);
    assert_eq!(c.to_binary("é").len(), 16);
}

#[test]
fn to_string_inverts_to_binary() {
    let c = SimpleConverter::new();
    for text in ["Hi", "hello, world", "ünïcödé ✓", ""] {
        let bits = c.to_binary(text);
        assert_eq!(c.to_string(&bits).unwrap(), text);
    }
}

#[test]
fn to_string_pads_last_chunk_with_zeros() {
    let c = SimpleConverter::new();
    let bits = vec![false, true, false, false, false, false, false, true, false];
    assert_eq!(c.to_string(&bits).unwrap(), "A\u{0}");
}

#[test]
fn to_string_rejects_invalid_utf8() {
    let c = SimpleConverter::new();
    assert!(c.to_string(&[true]).is_err());
    assert!(c.to_string(&[true; 16]).is_err());
}

#[test]
fn encoding_limit_values() {
    assert_eq!(EncodingLimit::B8.max(), 255);
    assert_eq!(EncodingLimit::B16.max(), 65535);
    assert_eq!(EncodingLimit::B32.max(), 4294967295);
    assert_eq!(EncodingLimit::B8.bits(), 8);
    assert_eq!(EncodingLimit::B16.bits(), 16);
    assert_eq!(EncodingLimit::B32.bits(), 32);
}

#[test]
fn to_bool_vec_writes_low_bits_msb_first() {
    assert_eq!(
        EncodingLimit::B8.to_bool_vec(5),
        vec![false, false, false, false, false, true, false, true]
    );
    assert_eq!(EncodingLimit::B8.to_bool_vec(256), vec![false; 8]);
    let v = EncodingLimit::B16.to_bool_vec(32);
    assert_eq!(v.len(), 16);
    assert_eq!(v.iter().filter(|b| **b).count(), 1);
    assert!(v[10]);
    assert_eq!(EncodingLimit::B32.to_bool_vec(u32::MAX), vec![true; 32]);
}

#[test]
fn color_channels() {
    assert_eq!(ColorChannel::RGB.get(), vec![0, 1, 2]);
    assert_eq!(ColorChannel::RGBA.get(), vec![0, 1, 2, 3]);
    assert_eq!(ColorChannel::RGB.color_count(), 3);
    assert_eq!(ColorChannel::RGBA.color_count(), 4);
}

#[test]
fn adjust_color_sets_parity() {
    assert_eq!(adjust_color(4, true), 5);
    assert_eq!(adjust_color(5, true), 5);
    assert_eq!(adjust_color(4, false), 4);
    assert_eq!(adjust_color(5, false), 6);
    assert_eq!(adjust_color(255, false), 254);
    assert_eq!(adjust_color(255, true), 255);
    assert_eq!(adjust_color(254, true), 255);
    assert_eq!(adjust_color(0, false), 0);
}

#[test]
fn parity_symmetry_for_every_byte() {
    for v in 0..=255u8 {
        for b in [false, true] {
            let w = adjust_color(v, b);
            assert_eq!(w % 2 == 1, b);
            assert!((w as i32 - v as i32).abs() <= 1);
        }
    }
}

#[test]
fn capacity_formula() {
    assert_eq!(image_capacity((4, 4), 4), 64);
    assert_eq!(image_capacity((3, 7), 3), 63);
    assert_eq!(image_capacity((0, 7), 3), 0);
}
