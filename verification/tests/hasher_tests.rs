use hashmyfiles::hasher::{digest_hex, HashAlgorithm};

#[test]
fn algorithm_names() {
    assert_eq!(HashAlgorithm::Sha256.as_str(), "sha256");
    assert_eq!(HashAlgorithm::Sha512.as_str(), "sha512");
    assert_eq!(HashAlgorithm::Blake3.as_str(), "blake3");
}

#[test]
fn from_str_ignores_case() {
    assert_eq!(HashAlgorithm::from_str("sha256"), Some(HashAlgorithm::Sha256));
    assert_eq!(HashAlgorithm::from_str("SHA512"), Some(HashAlgorithm::Sha512));
    assert_eq!(HashAlgorithm::from_str("Blake3"), Some(HashAlgorithm::Blake3));
    assert_eq!(HashAlgorithm::from_str("md5"), None);
    assert_eq!(HashAlgorithm::from_str(""), None);
    assert_eq!(HashAlgorithm::from_str(" sha256"), None);
    assert_eq!(HashAlgorithm::from_str("sha-256"), None);
}

#[test]
fn from_str_kelvin_sign_lowercases_to_k() {
    // U+212A KELVIN SIGN lower-cases to an ASCII `k`.
    assert_eq!(HashAlgorithm::from_str("blA\u{212A}e3"), Some(HashAlgorithm::Blake3));
}

#[test]
fn from_str_reads_back_as_str() {
    for a in [HashAlgorithm::Sha256, HashAlgorithm::Sha512, HashAlgorithm::Blake3] {
        assert_eq!(HashAlgorithm::from_str(a.as_str()), Some(a));
    }
}

#[test]
fn detect_from_hash_by_length() {
    assert_eq!(HashAlgorithm::detect_from_hash(&"a".repeat(64)), Some(HashAlgorithm::Sha256));
    assert_eq!(HashAlgorithm::detect_from_hash(&"b".repeat(128)), Some(HashAlgorithm::Sha512));
    assert_eq!(HashAlgorithm::detect_from_hash(&"c".repeat(63)), None);
    assert_eq!(HashAlgorithm::detect_from_hash(&"c".repeat(65)), None);
    assert_eq!(HashAlgorithm::detect_from_hash(""), None);
}

#[test]
fn detect_from_hash_counts_bytes() {
    // 32 two-byte characters are 64 bytes.
    assert_eq!(HashAlgorithm::detect_from_hash(&"\u{e9}".repeat(32)), Some(HashAlgorithm::Sha256));
    assert_eq!(HashAlgorithm::detect_from_hash(&"\u{e9}".repeat(64)), Some(HashAlgorithm::Sha512));
}

#[test]
fn sha256_known_digests() {
    assert_eq!(
        digest_hex(HashAlgorithm::Sha256, b""),
        "e3b0c44298fc1c149afbf4c8996fb92427ae41e4649b934ca495991b7852b855"
    );
    assert_eq!(
        digest_hex(HashAlgorithm::Sha256, b"abc"),
        "ba7816bf8f01cfea414140de5dae2223b00361a396177a9cb410ff61f20015ad"
    );
}

#[test]
fn sha512_known_digest() {
    assert_eq!(
        digest_hex(HashAlgorithm::Sha512, b"abc"),
        "ddaf35a193617abacc417349ae20413112e6fa4e89a97ea20a9eeee64b55d39a\
         2192992a274fc1a836ba3c23a3feebbd454d4423643ce80e2a9ac94fa54ca49f"
    );
}

#[test]
fn blake3_known_digests() {
    assert_eq!(
        digest_hex(HashAlgorithm::Blake3, b""),
        "af1349b9f5f9a1a6a0404dea36dcc9499bcb25c9adc112b7cc9a93cae41f3262"
    );
    assert_eq!(
        digest_hex(HashAlgorithm::Blake3, b"abc"),
        "6437b3ac38465133ffb63b75273a8db548c558465d79db03fd359c6cd5bd9d85"
    );
}

#[test]
fn digest_is_detected_back() {
    let data = b"some file contents\n";
    assert_eq!(
        HashAlgorithm::detect_from_hash(&digest_hex(HashAlgorithm::Sha256, data)),
        Some(HashAlgorithm::Sha256)
    );
    assert_eq!(
        HashAlgorithm::detect_from_hash(&digest_hex(HashAlgorithm::Sha512, data)),
        Some(HashAlgorithm::Sha512)
    );
    // BLAKE3 digests have the length of SHA-256 ones.
    assert_eq!(
        HashAlgorithm::detect_from_hash(&digest_hex(HashAlgorithm::Blake3, data)),
        Some(HashAlgorithm::Sha256)
    );
}

#[test]
fn digest_hex_is_lower_case_hex() {
    let h = digest_hex(HashAlgorithm::Sha512, b"xyz");
    assert_eq!(h.len(), 128);
    assert!(h.chars().all(|c| c.is_ascii_digit() || ('a'..='f').contains(&c)));
}

#[test]
fn from_str_upper_case_names() {
    assert_eq!(HashAlgorithm::from_str("SHA256"), Some(HashAlgorithm::Sha256));
    assert_eq!(HashAlgorithm::from_str("SHA512"), Some(HashAlgorithm::Sha512));
    assert_eq!(HashAlgorithm::from_str("BLAKE3"), Some(HashAlgorithm::Blake3));
}
