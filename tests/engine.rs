use steganography::raster::RasterImage;
use steganography::steganography::{ColorChannel, EncodingLimit, StegoError, Steganography};

fn patterned(width: u32, height: u32) -> RasterImage {
    let n = (width * height * 4) as usize;
    let pixels: Vec<u8> = (0..n).map(|k| ((k * 37 + 11) % 256) as u8).collect();
    RasterImage::from_rgba(width, height, pixels).unwrap()
}

fn stego(key: &str, limit: EncodingLimit, channel: ColorChannel) -> Steganography {
    Steganography::new(Some(key.to_string()), Some(limit), Some(channel))
}

#[test]
fn hi_round_trips_in_four_by_four_rgba() {
    let s = stego("test", EncodingLimit::B16, ColorChannel::RGBA);
    let mut img = patterned(4, 4);
    let before = img.pixels.clone();
    let e = s.encode(&mut img, "Hi", false).unwrap();
    assert_eq!(e.capacity, 64);
    assert_eq!(e.used, 32);
    assert!(e.map.is_none());
    let changed = before.iter().zip(img.pixels.iter()).filter(|(a, b)| a != b).count();
    assert!(changed <= 32);
    for (a, b) in before.iter().zip(img.pixels.iter()) {
        assert!((*a as i32 - *b as i32).abs() <= 1);
    }
    assert_eq!(s.decode(&img), Ok("Hi".to_string()));
}

#[test]
fn defaults_are_sixteen_bits_and_rgba() {
    let a = Steganography::new(None, None, None);
    let b = Steganography::new(Some(String::new()), Some(EncodingLimit::B16), Some(ColorChannel::RGBA));
    let mut img = patterned(4, 4);
    let e = a.encode(&mut img, "Hi", false).unwrap();
    assert_eq!(e.capacity, 64);
    assert_eq!(e.used, 32);
    assert_eq!(b.decode(&img), Ok("Hi".to_string()));
}

#[test]
fn frame_of_exactly_capacity_encodes() {
    let s = stego("edge", EncodingLimit::B8, ColorChannel::RGBA);
    let mut img = patterned(4, 4);
    let e = s.encode(&mut img, "seven!!", false).unwrap();
    assert_eq!(e.used, 64);
    assert_eq!(e.capacity, 64);
    assert_eq!(s.decode(&img), Ok("seven!!".to_string()));
}

#[test]
fn frame_one_over_capacity_fails_untouched() {
    let s = stego("edge", EncodingLimit::B8, ColorChannel::RGB);
    let mut img = patterned(3, 7);
    let before = img.pixels.clone();
    assert_eq!(s.encode(&mut img, "seven!!", true).err(), Some(StegoError::CapacityExceeded));
    assert_eq!(img.pixels, before);
}

#[test]
fn oversized_payload_fails_before_any_write() {
    let s = stego("test", EncodingLimit::B16, ColorChannel::RGBA);
    let mut img = patterned(4, 4);
    let before = img.pixels.clone();
    assert_eq!(s.encode(&mut img, "Hello!!", false).err(), Some(StegoError::CapacityExceeded));
    assert_eq!(img.pixels, before);
}

#[test]
fn empty_image_is_refused() {
    let s = stego("k", EncodingLimit::B8, ColorChannel::RGBA);
    let mut img = RasterImage::from_rgba(0, 0, Vec::new()).unwrap();
    assert_eq!(s.encode(&mut img, "x", false).err(), Some(StegoError::EmptyImage));
    assert_eq!(s.decode(&img), Err(StegoError::EmptyImage));
}

#[test]
fn empty_payload_is_refused() {
    let s = stego("k", EncodingLimit::B8, ColorChannel::RGBA);
    let mut img = patterned(2, 2);
    assert_eq!(s.encode(&mut img, "", false).err(), Some(StegoError::EmptyPayload));
}

#[test]
fn payload_beyond_prefix_range_is_refused() {
    let s = stego("k", EncodingLimit::B8, ColorChannel::RGBA);
    let mut img = patterned(40, 40);
    let before = img.pixels.clone();
    let text = "x".repeat(32);
    assert_eq!(s.encode(&mut img, &text, false).err(), Some(StegoError::PayloadTooLarge));
    assert_eq!(img.pixels, before);
    let ok = "x".repeat(31);
    assert!(s.encode(&mut img, &ok, false).is_ok());
    assert_eq!(s.decode(&img), Ok(ok));
}

#[test]
fn decode_length_beyond_capacity_fails() {
    let s = stego("k", EncodingLimit::B8, ColorChannel::RGBA);
    let img = RasterImage::from_rgba(4, 4, vec![255; 64]).unwrap();
    assert_eq!(s.decode(&img), Err(StegoError::CapacityExceeded));
}

#[test]
fn decode_prefix_beyond_capacity_fails() {
    let s = stego("k", EncodingLimit::B8, ColorChannel::RGB);
    let img = RasterImage::from_rgba(1, 1, vec![1, 2, 3, 4]).unwrap();
    assert_eq!(s.decode(&img), Err(StegoError::CapacityExceeded));
}

#[test]
fn decode_invalid_utf8_fails() {
    let s = stego("k", EncodingLimit::B8, ColorChannel::RGBA);
    let img = RasterImage::from_rgba(9, 9, vec![255; 324]).unwrap();
    assert_eq!(s.decode(&img), Err(StegoError::InvalidUtf8));
}

#[test]
fn wrong_key_does_not_recover_payload() {
    let enc = stego("A", EncodingLimit::B16, ColorChannel::RGBA);
    let dec = stego("B", EncodingLimit::B16, ColorChannel::RGBA);
    let mut img = patterned(8, 8);
    enc.encode(&mut img, "secret", false).unwrap();
    assert_ne!(dec.decode(&img), Ok("secret".to_string()));
    assert_eq!(enc.decode(&img), Ok("secret".to_string()));
}

#[test]
fn wrong_settings_do_not_recover_payload() {
    let enc = stego("k", EncodingLimit::B16, ColorChannel::RGBA);
    let mut img = patterned(8, 8);
    enc.encode(&mut img, "secret", false).unwrap();
    let other = stego("k", EncodingLimit::B16, ColorChannel::RGB);
    assert_ne!(other.decode(&img), Ok("secret".to_string()));
}

#[test]
fn diff_map_marks_each_written_channel() {
    let s = stego("map", EncodingLimit::B16, ColorChannel::RGBA);
    let mut img = patterned(4, 4);
    let e = s.encode(&mut img, "Hi", true).unwrap();
    let map = e.map.unwrap();
    assert_eq!((map.width, map.height), (4, 4));
    let mut marked = 0;
    for (k, v) in map.pixels.iter().enumerate() {
        let black = if k % 4 == 3 { 255 } else { 0 };
        if *v != black {
            marked += 1;
            assert_eq!(*v, if k % 4 == 3 { 80 } else { 175 });
        }
    }
    assert_eq!(marked, 32);
}

#[test]
fn raster_rejects_wrong_byte_count() {
    assert!(RasterImage::from_rgba(2, 2, vec![0; 15]).is_none());
    assert!(RasterImage::from_rgba(2, 2, vec![0; 16]).is_some());
    let f = RasterImage::filled(2, 1, [1, 2, 3, 4]);
    assert_eq!(f.pixels, vec![1, 2, 3, 4, 1, 2, 3, 4]);
}
