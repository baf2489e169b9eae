use base64::Engine;
use qshard::crypto::{decrypt, encrypt, generate_key};
use qshard::error::QshardError;
use qshard::file::{decode_shard, encode_shard, header_to_bytes, parse_header, ShardHeader};
use qshard::token::{make_token, parse_token};

#[test]
fn header_byte_layout_is_stable() {
    let h = ShardHeader::new(3, 2, b"abc".to_vec(), 10);
    let bytes = header_to_bytes(&h);
    let mut expected = b"QSHARD01".to_vec();
    expected.push(1); // version
    expected.push(3); // threshold
    expected.push(2); // share id
    expected.extend_from_slice(&3u64.to_le_bytes());
    expected.extend_from_slice(b"abc");
    expected.extend_from_slice(&10u16.to_le_bytes());
    assert_eq!(bytes, expected);
}

#[test]
fn header_parses_back() {
    let h = ShardHeader::new(4, 9, b"session one".to_vec(), 513);
    let mut bytes = header_to_bytes(&h);
    bytes.extend_from_slice(&[0xde, 0xad, 0xbe, 0xef]);
    let (parsed, used) = parse_header(&bytes).unwrap();
    assert_eq!(used, bytes.len() - 4);
    assert_eq!(parsed.magic, b"QSHARD01".to_vec());
    assert_eq!(parsed.version, 1);
    assert_eq!(parsed.threshold, 4);
    assert_eq!(parsed.share_id, 9);
    assert_eq!(parsed.common_id, b"session one".to_vec());
    assert_eq!(parsed.secret_len, 513);
    assert!(parsed.validate().is_ok());
    assert!(matches!(
        parse_header(&bytes[..10]),
        Err(QshardError::InvalidShardFile)
    ));
}

#[test]
fn shard_roundtrip() {
    let key = generate_key();
    let value = vec![7u8; 64];
    let container = encode_shard(&value, 2, 3, &b"sess".to_vec(), 12, &key).unwrap();
    let (decoded, header) = decode_shard(&container, &key).unwrap();
    assert_eq!(decoded, value);
    assert_eq!(header.threshold, 3);
    assert_eq!(header.share_id, 2);
    assert_eq!(header.common_id, b"sess".to_vec());
    assert_eq!(header.secret_len, 12);
}

#[test]
fn wrong_key_fails_authentication() {
    let key = generate_key();
    let other = generate_key();
    assert_ne!(key, other);
    let value = vec![1u8, 2, 3, 4];
    let container = encode_shard(&value, 1, 3, &b"s".to_vec(), 4, &key).unwrap();
    assert!(matches!(
        decode_shard(&container, &other),
        Err(QshardError::Crypto)
    ));
}

#[test]
fn corrupted_ciphertext_fails_authentication() {
    let key = generate_key();
    let value = vec![9u8; 32];
    let mut container = encode_shard(&value, 1, 3, &b"s".to_vec(), 32, &key).unwrap();
    let last = container.len() - 1;
    container[last] ^= 0x01;
    assert!(matches!(
        decode_shard(&container, &key),
        Err(QshardError::Crypto)
    ));
}

#[test]
fn altered_magic_is_a_format_error() {
    let key = generate_key();
    let value = vec![5u8; 16];
    let mut container = encode_shard(&value, 1, 3, &b"id".to_vec(), 16, &key).unwrap();
    container[0] ^= 0xff;
    assert!(matches!(
        decode_shard(&container, &key),
        Err(QshardError::InvalidShardFile)
    ));
    // Even with the right key: the format check comes before decryption.
    let other = generate_key();
    assert!(matches!(
        decode_shard(&container, &other),
        Err(QshardError::InvalidShardFile)
    ));
}

#[test]
fn altered_version_is_a_format_error() {
    let key = generate_key();
    let value = vec![5u8; 16];
    let mut container = encode_shard(&value, 1, 3, &b"id".to_vec(), 16, &key).unwrap();
    container[8] = 2;
    assert!(matches!(
        decode_shard(&container, &key),
        Err(QshardError::InvalidShardFile)
    ));
}

#[test]
fn encrypt_changes_and_decrypt_restores() {
    let key = generate_key();
    let plain = b"plaintext fragment".to_vec();
    let sealed = encrypt(&plain, &key).unwrap();
    assert_eq!(sealed.len(), plain.len() + 28);
    assert_ne!(&sealed[12..12 + plain.len()], plain.as_slice());
    assert_eq!(decrypt(&sealed, &key).unwrap(), plain);
    assert!(matches!(decrypt(&sealed[..8], &key), Err(QshardError::Crypto)));
}

#[test]
fn token_roundtrip() {
    let key = generate_key();
    let token = make_token(&key);
    let text = String::from_utf8(token.clone()).unwrap();
    assert!(text.starts_with("QS-TKN-"));
    assert_ne!(token, key);
    assert_eq!(parse_token(&token).unwrap(), key);
    // A bare token without the prefix is accepted too.
    let bare = text.trim_start_matches("QS-TKN-").as_bytes().to_vec();
    assert_eq!(parse_token(&bare).unwrap(), key);
}

#[test]
fn token_with_31_byte_key_rejected() {
    let short = vec![0xabu8; 31];
    let body = base64::engine::general_purpose::STANDARD.encode(&short);
    let mut token = b"QS-TKN-".to_vec();
    token.extend_from_slice(body.as_bytes());
    assert!(matches!(parse_token(&token), Err(QshardError::Base64)));
}

#[test]
fn garbage_token_rejected() {
    assert!(matches!(
        parse_token(b"QS-TKN-@@@not base64@@@"),
        Err(QshardError::Base64)
    ));
}
