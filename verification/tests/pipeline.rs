use qshard::crypto::generate_key;
use qshard::error::QshardError;
use qshard::file::{decode_shard, encode_shard};
use qshard::shamir::split_secret;
use qshard::pipeline::{create_shards, recover_secret, shard_status, verify_shards, ShardStatus};
use qshard::token::parse_token;

fn create(secret: &[u8], id: Option<&[u8]>) -> (Vec<u8>, Vec<Vec<u8>>) {
    create_shards(secret, id.map(|v| v.to_vec())).unwrap()
}

fn key_of(token: &[u8]) -> Vec<u8> {
    parse_token(token).unwrap()
}

#[test]
fn helloworld_three_of_five() {
    let (token, containers) = create(b"helloworld", None);
    assert_eq!(containers.len(), 5);
    let key = key_of(&token);
    // All fragments carry equally long (padded) values.
    for c in &containers {
        let (value, header) = decode_shard(c, &key).unwrap();
        assert_eq!(value.len(), 64);
        assert_eq!(header.threshold, 3);
        assert_eq!(header.secret_len, 10);
    }
    // Any three fragments recover the original ten bytes.
    for picks in [[0usize, 1, 2], [0, 2, 4], [1, 3, 4]] {
        let chosen: Vec<Vec<u8>> = picks.iter().map(|&k| containers[k].clone()).collect();
        let recovered = recover_secret(&chosen, &key).unwrap();
        assert_eq!(recovered, b"helloworld".to_vec());
    }
}

#[test]
fn long_secret_not_padded() {
    let secret: Vec<u8> = (0..200u8).collect();
    let (token, containers) = create(&secret, None);
    let key = key_of(&token);
    let (value, header) = decode_shard(&containers[0], &key).unwrap();
    assert_eq!(value.len(), 200);
    assert_eq!(header.secret_len, 200);
    let recovered = recover_secret(&containers, &key).unwrap();
    assert_eq!(recovered, secret);
}

#[test]
fn session_id_is_kept_or_generated() {
    let (token, containers) = create(b"abc", Some(b"my set"));
    let key = key_of(&token);
    let (_, header) = decode_shard(&containers[0], &key).unwrap();
    assert_eq!(header.common_id, b"my set".to_vec());

    let (token2, containers2) = create(b"abc", None);
    let key2 = key_of(&token2);
    let (_, header2) = decode_shard(&containers2[0], &key2).unwrap();
    assert_eq!(header2.common_id.len(), 16);
    for b in &header2.common_id {
        assert!(b.is_ascii_hexdigit() && !b.is_ascii_uppercase());
    }
}

#[test]
fn mixed_sessions_rejected_before_combining() {
    // Two sessions sealed under one key, differing only in their session
    // identifiers: the recovery pipeline must refuse the pair before any
    // interpolation.
    let key = generate_key();
    let secret = vec![7u8; 64];
    let shares = split_secret(&secret, 2, 3).unwrap();
    let a = encode_shard(&shares[0], 1, 2, &b"set-a".to_vec(), 64, &key).unwrap();
    let b = encode_shard(&shares[1], 2, 2, &b"set-b".to_vec(), 64, &key).unwrap();
    assert!(matches!(
        recover_secret(&vec![a.clone(), b], &key),
        Err(QshardError::InvalidShardFile)
    ));

    // Containers from a session under another key fail authentication.
    let (_token_b, containers_b) = create(b"second secret", Some(b"set-b"));
    let mixed = vec![a, containers_b[0].clone()];
    assert!(matches!(
        recover_secret(&mixed, &key),
        Err(QshardError::Crypto)
    ));

    // A duplicated container of one session: the duplicate fragment index
    // is refused.
    let (token_c, containers_c) = create(b"third secret", Some(b"set-c"));
    let key_c = key_of(&token_c);
    let dup = vec![
        containers_c[0].clone(),
        containers_c[1].clone(),
        containers_c[0].clone(),
    ];
    assert!(matches!(
        recover_secret(&dup, &key_c),
        Err(QshardError::ShareCombinationFailed)
    ));
}

#[test]
fn too_few_containers_rejected() {
    let (token, containers) = create(b"helloworld", None);
    let key = key_of(&token);
    let two = vec![containers[0].clone(), containers[1].clone()];
    assert!(matches!(
        recover_secret(&two, &key),
        Err(QshardError::NotEnoughShares)
    ));
    assert!(matches!(
        recover_secret(&Vec::new(), &key),
        Err(QshardError::NotEnoughShares)
    ));
}

#[test]
fn wrong_key_cannot_recover() {
    let (token, containers) = create(b"helloworld", None);
    let _ = key_of(&token);
    let (other_token, _other) = create(b"other", None);
    let other_key = key_of(&other_token);
    assert!(matches!(
        recover_secret(&containers, &other_key),
        Err(QshardError::Crypto)
    ));
}

#[test]
fn verify_confirms_without_output() {
    let (token, containers) = create(b"check me", None);
    let key = key_of(&token);
    assert!(verify_shards(&containers, &key).is_ok());
    let two = vec![containers[0].clone(), containers[1].clone()];
    assert!(verify_shards(&two, &key).is_err());
}

#[test]
fn status_reports_each_container() {
    let (token, mut containers) = create(b"status check", Some(b"sess"));
    let key = key_of(&token);
    let (statuses, possible) = shard_status(&containers, &key);
    assert_eq!(statuses.len(), 5);
    for (k, st) in statuses.iter().enumerate() {
        assert_eq!(*st, ShardStatus::Valid((k + 1) as u8));
    }
    assert!(possible);

    // Corrupt one container's magic and one ciphertext byte.
    containers[1][0] ^= 0xff;
    let n = containers[2].len() - 1;
    containers[2][n] ^= 0x01;
    let (statuses, possible) = shard_status(&containers, &key);
    assert_eq!(statuses[1], ShardStatus::FormatError);
    assert_eq!(statuses[2], ShardStatus::AuthError);
    assert_eq!(statuses[0], ShardStatus::Valid(1));
    assert!(possible); // three valid fragments remain

    // Drop to two valid fragments: recovery impossible.
    let few = vec![containers[0].clone(), containers[1].clone(), containers[3].clone()];
    let (statuses, possible) = shard_status(&few, &key);
    assert_eq!(statuses.iter().filter(|s| matches!(s, ShardStatus::Valid(_))).count(), 2);
    assert!(!possible);

    // A wrong key opens nothing.
    let (other_token, _) = create(b"x", None);
    let other_key = key_of(&other_token);
    let (statuses, possible) = shard_status(&containers, &other_key);
    assert!(statuses
        .iter()
        .all(|s| matches!(s, ShardStatus::AuthError | ShardStatus::FormatError)));
    assert!(!possible);
}
