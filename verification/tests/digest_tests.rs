use pdf_scanner::digest::full_fingerprint;
use pdf_scanner::digest::partial_fingerprint;

#[test]
fn full_fingerprint_is_the_known_md5_hex() {
    let content: Vec<u8> = b"abc".to_vec();
    assert_eq!(full_fingerprint(&content), "900150983cd24fb0d6963f7d28e17f72");

    let empty: Vec<u8> = Vec::new();
    assert_eq!(full_fingerprint(&empty), "d41d8cd98f00b204e9800998ecf8427e");
}

#[test]
fn full_fingerprint_matches_the_md5_crate() {
    let content: Vec<u8> = (0..=255u8).cycle().take(10_000).collect();
    let expected = format!("{:x}", md5::compute(&content));
    assert_eq!(full_fingerprint(&content), expected);
}

#[test]
fn partial_fingerprint_digests_head_then_tail() {
    let head: Vec<u8> = vec![1u8; 4096];
    let tail: Vec<u8> = vec![2u8; 4096];
    let mut joined = head.clone();
    joined.extend_from_slice(&tail);
    let expected = format!("{:x}", md5::compute(&joined));
    assert_eq!(partial_fingerprint(&head, &Some(tail)), expected);
}

#[test]
fn partial_fingerprint_without_tail_digests_the_head_alone() {
    let head: Vec<u8> = b"some short file".to_vec();
    let expected = format!("{:x}", md5::compute(&head));
    assert_eq!(partial_fingerprint(&head, &None), expected);
}

#[test]
fn partial_fingerprint_depends_on_chunk_order() {
    let head: Vec<u8> = vec![1u8; 8];
    let tail: Vec<u8> = vec![2u8; 8];
    let a = partial_fingerprint(&head, &Some(tail.clone()));
    let b = partial_fingerprint(&tail, &Some(head));
    assert_ne!(a, b);
}
