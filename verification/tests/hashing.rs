use delivery::hash::hash_bytes;
use std::hash::Hasher;

fn content(len: usize) -> Vec<u8> {
    (0..len).map(|i| (i % 251) as u8).collect()
}

fn expected_small(bytes: &[u8]) -> String {
    let mut hasher = seahash::SeaHasher::new();
    hasher.write(bytes);
    base64::encode_config(&hasher.finish().to_le_bytes(), base64::URL_SAFE_NO_PAD)
}

fn expected_wide(bytes: &[u8]) -> String {
    let digest = <meowhash::MeowHasher as digest::Digest>::digest(bytes);
    base64::encode_config(&digest[0..36], base64::URL_SAFE_NO_PAD)
}

#[test]
fn hashing_is_stable_across_calls() {
    for len in [0, 1, 1023, 1024, 1025, 5000] {
        let c = content(len);
        assert_eq!(hash_bytes(&c).as_str(), hash_bytes(&c).as_str());
    }
}

#[test]
fn different_content_gives_different_hashes_around_the_boundary() {
    let texts: Vec<String> = [1023, 1024, 1025]
        .iter()
        .map(|&len| hash_bytes(&content(len)).as_str().to_string())
        .collect();
    assert_ne!(texts[0], texts[1]);
    assert_ne!(texts[1], texts[2]);
    assert_ne!(texts[0], texts[2]);

    let mut changed = content(1024);
    changed[512] ^= 1;
    assert_ne!(
        hash_bytes(&content(1024)).as_str(),
        hash_bytes(&changed).as_str()
    );
}

#[test]
fn small_files_encode_to_eleven_characters() {
    assert_eq!(hash_bytes(&content(0)).as_str().len(), 11);
    assert_eq!(hash_bytes(&content(1023)).as_str().len(), 11);
    assert_eq!(hash_bytes(&content(1024)).as_str().len(), 11);
}

#[test]
fn large_files_encode_to_forty_eight_characters() {
    assert_eq!(hash_bytes(&content(1025)).as_str().len(), 48);
    assert_eq!(hash_bytes(&content(100_000)).as_str().len(), 48);
}

#[test]
fn small_hash_matches_seahash_encoded_as_base64() {
    for len in [0, 1, 500, 1023, 1024] {
        let c = content(len);
        assert_eq!(hash_bytes(&c).as_str(), expected_small(&c));
    }
}

#[test]
fn wide_hash_matches_truncated_meowhash_encoded_as_base64() {
    for len in [1025, 2048, 4097] {
        let c = content(len);
        assert_eq!(hash_bytes(&c).as_str(), expected_wide(&c));
    }
}

#[test]
fn incremental_hashing_matches_whole_content_hashing() {
    let c = content(3000);
    let mut cal = delivery::hash::Calculator::new(c.len() as u64);
    for chunk in c.chunks(1024) {
        cal.write(chunk);
    }
    assert_eq!(cal.finish().as_str(), hash_bytes(&c).as_str());
}

#[test]
fn hash_text_is_url_safe_base64() {
    let text = hash_bytes(&content(5000)).as_str().to_string();
    assert!(text
        .chars()
        .all(|ch| ch.is_ascii_alphanumeric() || ch == '-' || ch == '_'));
}
