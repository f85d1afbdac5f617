use runsvdir::Shash;
use sha2::Digest;

#[test]
fn shash_display_test() {
    let digest: Vec<u8> = vec![
        27, 71, 26, 187, 63, 147, 245, 247, 19, 51, 76, 49, 61, 10, 111, 254, 80, 125, 141, 73,
        195, 219, 77, 157, 188, 235, 73, 136, 149, 249, 104, 111,
    ];
    let hash = Shash::from_digest(digest, String::from("test_res/c/run")).unwrap();
    assert_eq!(
        &hash.display_string(),
        "G0cauz+T9fcTM0wxPQpv/lB9jUnD202dvOtJiJX5aG8 [\"test_res/c/run\"]"
    );
}

#[test]
fn fingerprint_deterministic_test() {
    let content: Vec<u8> = b"#!/bin/sh\nexec sleep 5\n".to_vec();
    let a = Shash::new(String::from("svc/a/run"), &content);
    let b = Shash::new(String::from("svc/a/run"), &content);
    assert_eq!(a, b);
    assert_eq!(a.display_string(), b.display_string());
}

#[test]
fn fingerprint_content_changes_digest_test() {
    let c1: Vec<u8> = b"#!/bin/sh\nexec sleep 5\n".to_vec();
    let mut c2 = c1.clone();
    c2[0] = b'%';
    let a = Shash::new(String::from("svc/a/run"), &c1);
    let b = Shash::new(String::from("svc/a/run"), &c2);
    assert_ne!(a, b);
}

#[test]
fn fingerprint_path_changes_digest_test() {
    let content: Vec<u8> = b"#!/bin/sh\nexec sleep 5\n".to_vec();
    let a = Shash::new(String::from("svc/a/run"), &content);
    let b = Shash::new(String::from("svc/b/run"), &content);
    assert_ne!(a, b);
}

#[test]
fn fingerprint_framing_test() {
    // The digest must equal a SHA-512/256 streamed over the path bytes, a
    // zero, the path length, a zero, the content, a zero, and the content
    // length, as little-endian 64-bit counts.
    let path = "svc/a/run";
    let content: Vec<u8> = b"#!/bin/sh\nexec sleep 5\n".to_vec();
    let mut hasher = sha2::Sha512_256::new();
    hasher.update(path.as_bytes());
    hasher.update([0u8]);
    hasher.update((path.len() as u64).to_le_bytes());
    hasher.update([0u8]);
    hasher.update(&content);
    hasher.update([0u8]);
    hasher.update((content.len() as u64).to_le_bytes());
    let expected: Vec<u8> = hasher.finalize().to_vec();

    let computed = Shash::new(String::from(path), &content);
    let reference = Shash::from_digest(expected, String::from(path)).unwrap();
    assert_eq!(computed, reference);
}

#[test]
fn empty_content_fingerprint_test() {
    // Even an empty script at an empty path hashes the full framing: four
    // separators around two zero-valued counts.
    let mut hasher = sha2::Sha512_256::new();
    hasher.update([0u8]);
    hasher.update(0u64.to_le_bytes());
    hasher.update([0u8]);
    hasher.update([0u8]);
    hasher.update(0u64.to_le_bytes());
    let expected: Vec<u8> = hasher.finalize().to_vec();

    let computed = Shash::new(String::new(), &Vec::new());
    let reference = Shash::from_digest(expected, String::new()).unwrap();
    assert_eq!(computed, reference);
}

#[test]
fn from_digest_wrong_size_test() {
    assert!(Shash::from_digest(vec![1, 2, 3], String::from("x")).is_none());
}

#[test]
fn equality_ignores_path_test() {
    let digest: Vec<u8> = (0u8..32u8).collect();
    let a = Shash::from_digest(digest.clone(), String::from("svc/a/run")).unwrap();
    let b = Shash::from_digest(digest, String::from("svc/b/run")).unwrap();
    assert_eq!(a, b);
}
