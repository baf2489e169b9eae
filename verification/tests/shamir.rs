use qshard::error::QshardError;
use qshard::gf256::{gf_add, gf_div, gf_inv, gf_mul};
use qshard::shamir::{combine_secret, split_secret};

fn pairs_from(shares: &[Vec<u8>], picks: &[usize]) -> Vec<(u8, Vec<u8>)> {
    let mut out = Vec::new();
    for &k in picks {
        out.push(((k + 1) as u8, shares[k].clone()));
    }
    out
}

#[test]
fn gf_mul_known_value() {
    // The classic AES field example: 0x57 * 0x83 == 0xc1.
    assert_eq!(gf_mul(0x57, 0x83), 0xc1);
    assert_eq!(gf_mul(0x57, 0x01), 0x57);
    assert_eq!(gf_mul(0x01, 0x83), 0x83);
    assert_eq!(gf_mul(0x00, 0x83), 0x00);
}

#[test]
fn gf_add_is_xor() {
    assert_eq!(gf_add(0x57, 0x83), 0x57 ^ 0x83);
    assert_eq!(gf_add(0xff, 0xff), 0);
}

#[test]
fn gf_inverse_and_division() {
    assert_eq!(gf_inv(1), 1);
    for a in [0x02u8, 0x53, 0x57, 0x83, 0xff] {
        assert_eq!(gf_mul(a, gf_inv(a)), 1);
        assert_eq!(gf_div(a, a), 1);
    }
    assert_eq!(gf_inv(0), 0);
}

#[test]
fn split_then_combine_all_shares() {
    let secret = b"some secret material 0123456789".to_vec();
    let shares = split_secret(&secret, 3, 5).unwrap();
    assert_eq!(shares.len(), 5);
    for s in &shares {
        assert_eq!(s.len(), secret.len());
    }
    let all = pairs_from(&shares, &[0, 1, 2, 3, 4]);
    let recovered = combine_secret(&all, 3).unwrap();
    assert_eq!(recovered, secret);
}

#[test]
fn any_three_of_five_reconstruct() {
    let secret = vec![0u8, 1, 2, 250, 251, 252, 253, 254, 255];
    let shares = split_secret(&secret, 3, 5).unwrap();
    for picks in [
        [0usize, 1, 2],
        [0, 1, 3],
        [0, 2, 4],
        [1, 3, 4],
        [2, 3, 4],
    ] {
        let chosen = pairs_from(&shares, &picks);
        assert_eq!(combine_secret(&chosen, 3).unwrap(), secret);
    }
}

#[test]
fn different_subsets_agree() {
    let secret = b"subset independence".to_vec();
    let shares = split_secret(&secret, 2, 4).unwrap();
    let a = combine_secret(&pairs_from(&shares, &[0, 1]), 2).unwrap();
    let b = combine_secret(&pairs_from(&shares, &[2, 3]), 2).unwrap();
    let c = combine_secret(&pairs_from(&shares, &[1, 3]), 2).unwrap();
    assert_eq!(a, secret);
    assert_eq!(a, b);
    assert_eq!(b, c);
}

#[test]
fn threshold_one_single_share() {
    let secret = vec![42u8, 7, 0, 255];
    let shares = split_secret(&secret, 1, 3).unwrap();
    for k in 0..3 {
        let one = pairs_from(&shares, &[k]);
        assert_eq!(combine_secret(&one, 1).unwrap(), secret);
    }
}

#[test]
fn too_few_shares_rejected() {
    let secret = b"needs three".to_vec();
    let shares = split_secret(&secret, 3, 5).unwrap();
    let two = pairs_from(&shares, &[0, 4]);
    assert!(matches!(
        combine_secret(&two, 3),
        Err(QshardError::NotEnoughShares)
    ));
}

#[test]
fn bad_split_parameters_rejected() {
    let secret = b"x".to_vec();
    assert!(matches!(split_secret(&secret, 0, 5), Err(QshardError::Shamir)));
    assert!(matches!(split_secret(&secret, 6, 5), Err(QshardError::Shamir)));
    assert!(matches!(split_secret(&secret, 3, 0), Err(QshardError::Shamir)));
}

#[test]
fn duplicate_indices_rejected() {
    let secret = b"dup".to_vec();
    let shares = split_secret(&secret, 2, 3).unwrap();
    let dup = vec![(1u8, shares[0].clone()), (1u8, shares[0].clone())];
    assert!(matches!(
        combine_secret(&dup, 2),
        Err(QshardError::ShareCombinationFailed)
    ));
    let zero = vec![(0u8, shares[0].clone()), (2u8, shares[1].clone())];
    assert!(matches!(
        combine_secret(&zero, 2),
        Err(QshardError::ShareCombinationFailed)
    ));
}

#[test]
fn unequal_share_lengths_rejected() {
    let a = vec![(1u8, vec![1u8, 2]), (2u8, vec![3u8])];
    assert!(matches!(
        combine_secret(&a, 1),
        Err(QshardError::ShareCombinationFailed)
    ));
}
