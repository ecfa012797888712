use steganography::transformer::{b64_to_bytes, bytes_to_b64};

#[test]
fn file_bytes_round_trip_through_text() {
    let data: Vec<u8> = (0..1000u32).map(|k| (k % 251) as u8).collect();
    let text = bytes_to_b64(&data).unwrap();
    assert!(text.starts_with("eJ"));
    assert!(text.chars().all(|c| c.is_ascii_alphanumeric() || c == '+' || c == '/' || c == '='));
    assert_eq!(b64_to_bytes(&text).unwrap(), data);
}

#[test]
fn empty_bytes_round_trip() {
    let text = bytes_to_b64(&[]).unwrap();
    assert!(!text.is_empty());
    assert_eq!(b64_to_bytes(&text).unwrap(), Vec::<u8>::new());
}

#[test]
fn invalid_text_is_refused() {
    assert!(b64_to_bytes("!!!").is_none());
    assert!(b64_to_bytes("aGVsbG8=").is_none());
}
