use pastry_dht::hasher::Sha256Hasher;
use sha2::Digest;

#[test]
fn test_hash() {
    let key = "key".to_owned();

    assert_eq!(
        Sha256Hasher::hash_once(key.as_bytes()),
        Sha256Hasher::hash_once(key.as_bytes())
    );
    assert_eq!(
        Sha256Hasher::hash_once_to_vec(key.as_bytes()),
        Sha256Hasher::hash_once_to_vec(key.as_bytes())
    );
}

#[test]
fn hash_matches_sha256_prefix() {
    // the id is the first eight digest bytes read big-endian, not the
    // input handed back
    let input = b"key";
    let digest = sha2::Sha256::digest(input);
    assert_eq!(Sha256Hasher::hash_once_to_vec(input), digest[..8].to_vec());
    let expected = u64::from_be_bytes(digest[..8].try_into().unwrap());
    assert_eq!(Sha256Hasher::hash_once(input), expected);
    assert_ne!(Sha256Hasher::hash_once_to_vec(input), input.to_vec());
}
