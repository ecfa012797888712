use sha2::{Digest, Sha256};
use std::collections::HashSet;
use steganography::traverser::Traverser;

fn drain(t: &mut Traverser) -> Vec<(u32, u32, u8)> {
    let mut out = Vec::new();
    while let Some(p) = t.next() {
        out.push(p);
    }
    out
}

#[test]
fn same_setup_same_sequence() {
    let mut a = Traverser::new((5, 3, vec![0, 1, 2, 3]), Some("key".to_string()));
    let mut b = Traverser::new((5, 3, vec![0, 1, 2, 3]), Some("key".to_string()));
    assert_eq!(drain(&mut a), drain(&mut b));
}

#[test]
fn missing_key_is_empty_key() {
    let mut a = Traverser::new((4, 4, vec![0, 1, 2]), None);
    let mut b = Traverser::new((4, 4, vec![0, 1, 2]), Some(String::new()));
    assert_eq!(drain(&mut a), drain(&mut b));
}

#[test]
fn other_key_other_sequence() {
    let mut a = Traverser::new((4, 4, vec![0, 1, 2, 3]), Some("A".to_string()));
    let mut b = Traverser::new((4, 4, vec![0, 1, 2, 3]), Some("B".to_string()));
    assert_ne!(drain(&mut a), drain(&mut b));
}

#[test]
fn full_traversal_covers_every_position_once() {
    let mut t = Traverser::new((4, 4, vec![0, 1, 2, 3]), Some("test".to_string()));
    let all = drain(&mut t);
    assert_eq!(all.len(), 64);
    let set: HashSet<_> = all.iter().cloned().collect();
    assert_eq!(set.len(), 64);
    for (x, y, c) in all {
        assert!(x < 4 && y < 4 && c < 4);
    }
    assert_eq!(t.next(), None);
}

#[test]
fn full_traversal_rgb_non_square() {
    let mut t = Traverser::new((7, 3, vec![0, 1, 2]), None);
    let all = drain(&mut t);
    assert_eq!(all.len(), 63);
    let set: HashSet<_> = all.iter().cloned().collect();
    assert_eq!(set.len(), 63);
    for (x, y, c) in all {
        assert!(x < 7 && y < 3 && c < 3);
    }
}

#[test]
fn empty_image_yields_nothing() {
    let mut t = Traverser::new((0, 5, vec![0, 1, 2]), None);
    assert_eq!(t.next(), None);
}

#[test]
fn take_at_removes_the_chosen_channel() {
    let mut t = Traverser::new((4, 4, vec![0, 1, 2, 3]), None);
    assert_eq!(t.take_at(5, 2), (1, 1, 2));
    assert_eq!(t.take_at(5, 2), (1, 1, 3));
    assert_eq!(t.take_at(5, 0), (1, 1, 0));
    assert_eq!(t.take_at(5, 0), (1, 1, 1));
    // Pixel 5 is used up, so entry 5 now names pixel 6.
    assert_eq!(t.take_at(5, 0), (2, 1, 0));
    assert_eq!(t.take_at(14, 3), (3, 3, 3));
}

#[test]
fn key_seed_is_sha256_of_key() {
    let seed: [u8; 32] = Sha256::digest(b"test").into();
    let mut a = Traverser::new((3, 3, vec![0, 1, 2, 3]), Some("test".to_string()));
    let mut b = Traverser::with_seed((3, 3, vec![0, 1, 2, 3]), seed);
    assert_eq!(drain(&mut a), drain(&mut b));
    let mut c = Traverser::with_seed((3, 3, vec![0, 1, 2, 3]), *b"test\0\0\0\0\0\0\0\0\0\0\0\0\0\0\0\0\0\0\0\0\0\0\0\0\0\0\0\0");
    let mut d = Traverser::new((3, 3, vec![0, 1, 2, 3]), Some("test".to_string()));
    assert_ne!(drain(&mut c), drain(&mut d));
}

#[test]
fn with_seed_walks_every_pixel() {
    let mut t = Traverser::with_seed((2, 1, vec![0]), [0; 32]);
    let mut all = drain(&mut t);
    all.sort();
    assert_eq!(all, vec![(0, 0, 0), (1, 0, 0)]);
}
