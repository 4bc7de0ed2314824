use rspack_split_chunks::hash::digest;
use rspack_split_chunks::hash::render_digest;
use rspack_split_chunks::hash::worker_hash_message;
use rspack_split_chunks::options::HashDigest;
use rspack_split_chunks::options::HashFunction;
use rspack_split_chunks::options::HashSalt;

#[test]
fn message_is_salt_then_identifier_then_index() {
    let message = worker_hash_message(&HashSalt::Salt("s".to_string()), &"m".to_string(), 1);
    assert_eq!(message, vec![b's', 0xff, b'm', 0xff, 1, 0, 0, 0, 0, 0, 0, 0]);
}

#[test]
fn message_without_salt_starts_with_identifier() {
    let message = worker_hash_message(&HashSalt::NoSalt, &"ab".to_string(), 258);
    assert_eq!(message, vec![b'a', b'b', 0xff, 2, 1, 0, 0, 0, 0, 0, 0]);
}

#[test]
fn message_holds_utf8_bytes() {
    let message = worker_hash_message(&HashSalt::NoSalt, &"é".to_string(), 0);
    assert_eq!(message, vec![0xc3, 0xa9, 0xff, 0, 0, 0, 0, 0, 0, 0, 0]);
}

#[test]
fn xxhash64_digest_is_little_endian_xxh3() {
    let message = b"hello world".to_vec();
    let expected = xxhash_rust::xxh3::xxh3_64(&message).to_le_bytes().to_vec();
    let bytes = digest(HashFunction::Xxhash64, &message);
    assert_eq!(bytes, expected);
    assert_ne!(bytes, message[..8].to_vec());
}

#[test]
fn md4_digest_of_hello_world() {
    let bytes = digest(HashFunction::MD4, &b"hello world".to_vec());
    assert_eq!(bytes.len(), 16);
    assert_eq!(render_digest(HashDigest::Hex, &bytes, 32), "aa010fbc1d14c795d86ef98c95479d17");
}

#[test]
fn hex_is_lower_case_high_digit_first() {
    assert_eq!(render_digest(HashDigest::Hex, &vec![0xab, 0x01, 0xf0], 100), "ab01f0");
}

#[test]
fn rendering_keeps_the_first_characters() {
    assert_eq!(render_digest(HashDigest::Hex, &vec![0xab, 0x01, 0xf0], 3), "ab0");
    assert_eq!(render_digest(HashDigest::Hex, &vec![0xab, 0x01, 0xf0], 4), "ab01");
    assert_eq!(render_digest(HashDigest::Hex, &vec![0xab, 0x01, 0xf0], 0), "");
    assert_eq!(render_digest(HashDigest::Hex, &vec![], 8), "");
}
