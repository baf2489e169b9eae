//! The complete sharding pipelines: creating a session's containers,
//! recovering the secret from containers, verifying recoverability, and
//! reporting per-container status.

use crate::crypto::{fill_random, generate_key, wipe, wipe_all, wipe_pairs};
use crate::error::QshardError;
use crate::file::{
    decode_shard, encode_shard, lemma_shard_roundtrip, spec_decode_shard, spec_new_header,
    DecodeOutcome, HeaderView, ShardHeader,
};
use crate::shamir::{combine_secret, distinct_indices, exists_sharing, is_sharing_of, spec_interpolate, split_secret};
use crate::token::{b64_of, make_token, spec_token_prefix};
use vstd::prelude::*;

verus! {

/// Fragments produced per session.
pub const NUM_SHARES: u8 = 5;

/// Fragments required to recover.
pub const THRESHOLD: u8 = 3;

/// Secrets are padded to at least this many bytes before splitting.
pub const MIN_SECRET_LEN: usize = 64;

/// One lowercase hex digit.
pub open spec fn spec_hex_digit(n: u8) -> u8 {
    if n < 10 {
        (48 + n) as u8
    } else {
        (87 + n) as u8
    }
}

/// Lowercase hex encoding, two digits per byte.
pub open spec fn spec_hex(bs: Seq<u8>) -> Seq<u8>
    decreases bs.len(),
{
    if bs.len() == 0 {
        Seq::empty()
    } else {
        spec_hex(bs.drop_last()) + seq![
            spec_hex_digit(bs.last() / 16),
            spec_hex_digit(bs.last() % 16),
        ]
    }
}

pub proof fn lemma_spec_hex_len(bs: Seq<u8>)
    ensures
        spec_hex(bs).len() == 2 * bs.len(),
    decreases bs.len(),
{
    if bs.len() > 0 {
        lemma_spec_hex_len(bs.drop_last());
    }
}

/// Relies on hex::encode: lowercase hex, two digits per byte.
#[verifier::external_body]
fn hex_encode(bs: &[u8]) -> (r: Vec<u8>)
    ensures
        r@ == spec_hex(bs@),
{
    hex::encode(bs).into_bytes()
}

fn bytes_eq(a: &Vec<u8>, b: &Vec<u8>) -> (r: bool)
    ensures
        r == (a@ == b@),
{
    if a.len() != b.len() {
        proof {
            assert(a@ != b@);
        }
        return false;
    }
    let mut i: usize = 0;
    while i < a.len()
        invariant
            i <= a@.len(),
            a@.len() == b@.len(),
            forall|j: int| 0 <= j < i as int ==> a@[j] == b@[j],
        decreases a@.len() - i,
    {
        if a[i] != b[i] {
            return false;
        }
        i = i + 1;
    }
    proof {
        assert(a@ =~= b@);
    }
    true
}

/// The header a container decodes to, where it decodes at all.
pub open spec fn decoded_header(c: Seq<u8>, key: Seq<u8>) -> HeaderView {
    match spec_decode_shard(c, key) {
        DecodeOutcome::Good(h, v) => h,
        _ => HeaderView {
            magic: Seq::empty(),
            version: 0,
            threshold: 0,
            share_id: 0,
            common_id: Seq::empty(),
            secret_len: 0,
        },
    }
}

/// The fragment value a container decodes to, where it decodes at all.
pub open spec fn decoded_value(c: Seq<u8>, key: Seq<u8>) -> Seq<u8> {
    match spec_decode_shard(c, key) {
        DecodeOutcome::Good(h, v) => v,
        _ => Seq::empty(),
    }
}

/// Every container decodes under the key.
pub open spec fn all_decode(cs: Seq<Seq<u8>>, key: Seq<u8>) -> bool {
    forall|k: int| 0 <= k < cs.len() ==> spec_decode_shard(#[trigger] cs[k], key) is Good
}

/// All containers carry the session identifier of the first one.
pub open spec fn one_session(cs: Seq<Seq<u8>>, key: Seq<u8>) -> bool {
    forall|k: int|
        0 <= k < cs.len() ==> decoded_header(#[trigger] cs[k], key).common_id == decoded_header(
            cs[0],
            key,
        ).common_id
}

/// The decoded fragments form a combinable set: nonzero pairwise-distinct
/// indices and values of one length.
pub open spec fn fragments_combinable(cs: Seq<Seq<u8>>, key: Seq<u8>) -> bool {
    &&& distinct_indices(Seq::new(cs.len(), |k: int| decoded_header(cs[k], key).share_id))
    &&& forall|k: int|
        0 <= k < cs.len() ==> decoded_value(#[trigger] cs[k], key).len() == decoded_value(
            cs[0],
            key,
        ).len()
}

/// The recovery pipeline is owed success exactly here: every container
/// decodes under the key, all carry one session identifier, the fragment
/// indices are nonzero and pairwise distinct, the values share one length,
/// and at least `threshold >= 1` fragments are present.
pub open spec fn spec_recoverable(cs: Seq<Seq<u8>>, key: Seq<u8>) -> bool {
    &&& cs.len() >= 1
    &&& all_decode(cs, key)
    &&& one_session(cs, key)
    &&& fragments_combinable(cs, key)
    &&& 1 <= decoded_header(cs[0], key).threshold <= cs.len()
}

/// Decodes every container, refuses fragments of different sessions,
/// checks the threshold from the (shared) header, combines, and cuts the
/// padding off using the stored secret length.
#[verifier::rlimit(100)]
pub fn recover_secret(containers: &Vec<Vec<u8>>, key: &[u8]) -> (r: Result<Vec<u8>, QshardError>)
    requires
        key@.len() == 32,
    ensures
        ({
            let cs = containers@.map_values(|c: Vec<u8>| c@);
            &&& r is Ok <==> spec_recoverable(cs, key@)
            &&& r matches Ok(s) ==> {
                let h0 = decoded_header(cs[0], key@);
                let width = decoded_value(cs[0], key@).len() as int;
                let xs = Seq::new(cs.len(), |k: int| decoded_header(cs[k], key@).share_id);
                &&& s@.len() == (if h0.secret_len as int <= width {
                    h0.secret_len as int
                } else {
                    width
                })
                &&& forall|i: int|
                    0 <= i < s@.len() ==> (#[trigger] s@[i]) == spec_interpolate(
                        xs,
                        Seq::new(cs.len(), |k: int| decoded_value(cs[k], key@)[i]),
                    )
            }
            &&& ((forall|k: int|
                0 <= k < cs.len() ==> spec_decode_shard(#[trigger] cs[k], key@) is Good) && (
            exists|k: int|
                0 <= k < cs.len() && decoded_header(#[trigger] cs[k], key@).common_id
                    != decoded_header(cs[0], key@).common_id)) ==> r == Err::<
                Vec<u8>,
                QshardError,
            >(QshardError::InvalidShardFile)
            &&& cs.len() == 0 ==> r == Err::<Vec<u8>, QshardError>(QshardError::NotEnoughShares)
            &&& r matches Err(e) ==> (e == QshardError::Crypto ==> exists|k: int|
                0 <= k < cs.len() && spec_decode_shard(#[trigger] cs[k], key@)
                    == DecodeOutcome::AuthError)
            &&& r matches Err(e) ==> (e == QshardError::InvalidShardFile ==> (exists|k: int|
                0 <= k < cs.len() && spec_decode_shard(#[trigger] cs[k], key@)
                    == DecodeOutcome::FormatError) || (exists|k: int|
                0 <= k < cs.len() && decoded_header(#[trigger] cs[k], key@).common_id
                    != decoded_header(cs[0], key@).common_id))
            &&& r matches Err(e) ==> (e == QshardError::NotEnoughShares ==> cs.len() == 0 || (
            cs.len() < decoded_header(cs[0], key@).threshold as int))
            &&& r matches Err(e) ==> (e == QshardError::Shamir ==> decoded_header(
                cs[0],
                key@,
            ).threshold == 0)
            &&& (all_decode(cs, key@) && one_session(cs, key@) && 1 <= decoded_header(
                cs[0],
                key@,
            ).threshold && cs.len() < decoded_header(cs[0], key@).threshold as int) ==> r == Err::<
                Vec<u8>,
                QshardError,
            >(QshardError::NotEnoughShares)
            &&& (all_decode(cs, key@) && one_session(cs, key@) && 1 <= decoded_header(
                cs[0],
                key@,
            ).threshold && decoded_header(cs[0], key@).threshold as int <= cs.len()
                && !fragments_combinable(cs, key@)) ==> r == Err::<Vec<u8>, QshardError>(
                QshardError::ShareCombinationFailed,
            )
            &&& (cs.len() >= 1 && all_decode(cs, key@) && one_session(cs, key@) && decoded_header(
                cs[0],
                key@,
            ).threshold == 0) ==> r == Err::<Vec<u8>, QshardError>(QshardError::Shamir)
            &&& r matches Err(e) ==> (e == QshardError::Crypto || e == QshardError::InvalidShardFile
                || e == QshardError::NotEnoughShares || e == QshardError::ShareCombinationFailed
                || e == QshardError::Shamir)
        }),
{
    let ghost cs = containers@.map_values(|c: Vec<u8>| c@);
    if containers.len() == 0 {
        return Err(QshardError::NotEnoughShares);
    }
    let mut pairs: Vec<(u8, Vec<u8>)> = Vec::new();
    let mut threshold: u8 = 0;
    let mut secret_len: u16 = 0;
    let mut sid: Vec<u8> = Vec::new();
    let mut idx: usize = 0;
    while idx < containers.len()
        invariant
            idx <= containers@.len(),
            containers@.len() >= 1,
            cs == containers@.map_values(|c: Vec<u8>| c@),
            key@.len() == 32,
            forall|k: int| 0 <= k < idx as int ==> spec_decode_shard(#[trigger] cs[k], key@) is Good,
            forall|k: int|
                0 <= k < idx as int ==> decoded_header(#[trigger] cs[k], key@).common_id
                    == decoded_header(cs[0], key@).common_id,
            idx > 0 ==> threshold == decoded_header(cs[0], key@).threshold && secret_len
                == decoded_header(cs[0], key@).secret_len && sid@ == decoded_header(
                cs[0],
                key@,
            ).common_id,
            pairs@.len() == idx as int,
            forall|k: int|
                0 <= k < idx as int ==> (#[trigger] pairs@[k]).0 == decoded_header(
                    cs[k],
                    key@,
                ).share_id && pairs@[k].1@ == decoded_value(cs[k], key@),
        decreases containers@.len() - idx,
    {
        proof {
            assert(containers@[idx as int]@ == cs[idx as int]);
        }
        let (mut value, header) = match decode_shard(containers[idx].as_slice(), key) {
            Ok(p) => p,
            Err(e) => {
                proof {
                    assert(!(spec_decode_shard(cs[idx as int], key@) is Good));
                    assert(!all_decode(cs, key@));
                }
                wipe_pairs(&mut pairs);
                return Err(e);
            },
        };
        if idx == 0 {
            threshold = header.threshold;
            secret_len = header.secret_len;
            sid = header.common_id;
            pairs.push((header.share_id, value));
        } else {
            if !bytes_eq(&header.common_id, &sid) {
                proof {
                    assert(!one_session(cs, key@));
                }
                wipe(&mut value);
                wipe_pairs(&mut pairs);
                return Err(QshardError::InvalidShardFile);
            }
            pairs.push((header.share_id, value));
        }
        idx = idx + 1;
    }
    if pairs.len() < threshold as usize {
        wipe_pairs(&mut pairs);
        return Err(QshardError::NotEnoughShares);
    }
    let ghost xs_new = Seq::new(cs.len(), |k: int| decoded_header(cs[k], key@).share_id);
    proof {
        assert(pairs@.map_values(|s: (u8, Vec<u8>)| s.0) =~= xs_new);
        assert(pairs@.map_values(|s: (u8, Vec<u8>)| s.1@) =~= Seq::new(
            cs.len(),
            |k: int| decoded_value(cs[k], key@),
        ));
    }
    let combine_result = combine_secret(&pairs, threshold);
    let combined = match combine_result {
        Ok(c) => c,
        Err(e) => {
            proof {
                if fragments_combinable(cs, key@) && threshold >= 1 {
                    let vals = pairs@.map_values(|s: (u8, Vec<u8>)| s.1@);
                    let xs1 = pairs@.map_values(|s: (u8, Vec<u8>)| s.0);
                    assert(distinct_indices(xs1));
                    assert forall|k: int| 0 <= k < vals.len() implies (#[trigger] vals[k]).len()
                        == vals[0].len() by {
                        assert(vals[k] == decoded_value(cs[k], key@));
                        assert(vals[0] == decoded_value(cs[0], key@));
                    }
                    assert(false);
                }
            }
            wipe_pairs(&mut pairs);
            return Err(e);
        },
    };
    proof {
        let vals = pairs@.map_values(|s: (u8, Vec<u8>)| s.1@);
        assert forall|k: int| 0 <= k < cs.len() implies decoded_value(#[trigger] cs[k], key@).len()
            == decoded_value(cs[0], key@).len() by {
            assert(vals[k] == pairs@[k].1@);
            assert(vals[0] == pairs@[0].1@);
        }
    }
    let cut: usize = if (secret_len as usize) < combined.len() {
        secret_len as usize
    } else {
        combined.len()
    };
    let mut out = combined;
    out.truncate(cut);
    proof {
        let vals = pairs@.map_values(|s: (u8, Vec<u8>)| s.1@);
        assert(vals[0] == decoded_value(cs[0], key@));
        assert forall|i: int| 0 <= i < out@.len() implies (#[trigger] out@[i]) == spec_interpolate(
            xs_new,
            Seq::new(cs.len(), |k: int| decoded_value(cs[k], key@)[i]),
        ) by {
            assert(vals.map_values(|v: Seq<u8>| v[i]) =~= Seq::new(
                cs.len(),
                |k: int| decoded_value(cs[k], key@)[i],
            ));
        }
    }
    wipe_pairs(&mut pairs);
    Ok(out)
}

/// Recovers and discards: confirms that these containers and this key
/// would reconstruct a secret, erasing the reconstruction before
/// returning.
pub fn verify_shards(containers: &Vec<Vec<u8>>, key: &[u8]) -> (r: Result<(), QshardError>)
    requires
        key@.len() == 32,
    ensures
        r is Ok <==> spec_recoverable(containers@.map_values(|c: Vec<u8>| c@), key@),
{
    match recover_secret(containers, key) {
        Ok(mut s) => {
            wipe(&mut s);
            Ok(())
        },
        Err(e) => Err(e),
    }
}

/// Everything a freshly created session promises, spelled out against the
/// chosen key, session identifier, padded secret and fragment values.
pub open spec fn spec_created_with(
    secret: Seq<u8>,
    opt_id: Option<Seq<u8>>,
    token: Seq<u8>,
    cs: Seq<Seq<u8>>,
    key: Seq<u8>,
    sid: Seq<u8>,
    padded: Seq<u8>,
    values: Seq<Seq<u8>>,
) -> bool {
    &&& key.len() == 32
    &&& token == spec_token_prefix() + b64_of(key)
    &&& (opt_id matches Some(v) ==> sid == v)
    &&& (opt_id is None ==> sid.len() == 16 && (exists|raw: Seq<u8>|
        raw.len() == 8 && sid == spec_hex(raw)))
    &&& padded.len() == (if secret.len() < MIN_SECRET_LEN as int {
        MIN_SECRET_LEN as int
    } else {
        secret.len() as int
    })
    &&& padded.subrange(0, secret.len() as int) == secret
    &&& values.len() == cs.len()
    &&& forall|k: int|
        0 <= k < cs.len() ==> #[trigger] spec_decode_shard(cs[k], key) == DecodeOutcome::Good(
            spec_new_header(THRESHOLD, (k + 1) as u8, sid, secret.len() as u16),
            values[k],
        )
    &&& exists_sharing(padded, THRESHOLD as int, values)
}

/// Some key, session identifier, padding and sharing explain the returned
/// token and containers.
pub open spec fn spec_created(
    secret: Seq<u8>,
    opt_id: Option<Seq<u8>>,
    token: Seq<u8>,
    cs: Seq<Seq<u8>>,
) -> bool {
    exists|key: Seq<u8>, sid: Seq<u8>, padded: Seq<u8>, values: Seq<Seq<u8>>|
        spec_created_with(secret, opt_id, token, cs, key, sid, padded, values)
}

/// The whole creation pipeline: draws a session key, encodes it as the
/// recovery token, pads the secret, splits it into `NUM_SHARES` fragments
/// with threshold `THRESHOLD`, and seals each fragment into a container.
/// All secret-bearing buffers are erased before returning.
pub fn create_shards(secret: &[u8], id: Option<Vec<u8>>) -> (r: Result<
    (Vec<u8>, Vec<Vec<u8>>),
    QshardError,
>)
    requires
        1 <= secret@.len() <= 0xffff,
    ensures
        r is Ok,
        r matches Ok(p) ==> p.1@.len() == NUM_SHARES as int && spec_created(
            secret@,
            match id {
                Some(v) => Some(v@),
                None => None,
            },
            p.0@,
            p.1@.map_values(|c: Vec<u8>| c@),
        ),
{
    let mut key = generate_key();
    let token = make_token(key.as_slice());
    let mut padded: Vec<u8> = Vec::new();
    let mut i: usize = 0;
    while i < secret.len()
        invariant
            i <= secret@.len(),
            padded@ =~= secret@.subrange(0, i as int),
        decreases secret@.len() - i,
    {
        padded.push(*vstd::slice::slice_index_get(secret, i));
        i = i + 1;
    }
    proof {
        assert(padded@ =~= secret@);
    }
    if padded.len() < MIN_SECRET_LEN {
        let mut pad = fill_random(MIN_SECRET_LEN - padded.len());
        padded.append(&mut pad);
    }
    proof {
        assert(padded@.subrange(0, secret@.len() as int) =~= secret@);
    }
    let sid: Vec<u8> = match id {
        Some(v) => v,
        None => {
            let rnd = fill_random(8);
            let h = hex_encode(rnd.as_slice());
            proof {
                lemma_spec_hex_len(rnd@);
            }
            h
        },
    };
    let mut shares = match split_secret(padded.as_slice(), THRESHOLD, NUM_SHARES) {
        Ok(s) => s,
        Err(_) => {
            proof {
                assert(false);
            }
            return Err(QshardError::Crypto);
        },
    };
    proof {
        let values = shares@.map_values(|v: Vec<u8>| v@);
        let polys = choose|p: Seq<Seq<u8>>|
            is_sharing_of(p, padded@, THRESHOLD as int, values);
        assert forall|q: int|
            0 <= q < shares@.len() implies (#[trigger] shares@[q])@.len() == padded@.len() by {
            assert(values[q] == shares@[q]@);
            assert(values[q].len() == padded@.len());
        }
    }
    let mut containers: Vec<Vec<u8>> = Vec::new();
    let sid_len: usize = sid.len();
    let mut k: usize = 0;
    while k < shares.len()
        invariant
            sid@.len() == sid_len as int,
            k <= shares@.len(),
            shares@.len() == NUM_SHARES as int,
            key@.len() == 32,
            secret@.len() <= 0xffff,
            padded@.len() <= 0xffff,
            forall|q: int|
                0 <= q < shares@.len() ==> (#[trigger] shares@[q])@.len() == padded@.len(),
            containers@.len() == k as int,
            forall|q: int|
                0 <= q < k as int ==> #[trigger] spec_decode_shard(containers@[q]@, key@)
                    == DecodeOutcome::Good(
                    spec_new_header(THRESHOLD, (q + 1) as u8, sid@, secret@.len() as u16),
                    shares@[q]@,
                ),
        decreases shares@.len() - k,
    {
        let c = match encode_shard(
            shares[k].as_slice(),
            (k + 1) as u8,
            THRESHOLD,
            &sid,
            secret.len() as u16,
            key.as_slice(),
        ) {
            Ok(c) => c,
            Err(e) => {
                proof {
                    assert(false);
                }
                return Err(QshardError::Crypto);
            },
        };
        proof {
            lemma_shard_roundtrip(
                THRESHOLD,
                (k + 1) as u8,
                sid@,
                secret@.len() as u16,
                shares@[k as int]@,
                key@,
                c@,
            );
        }
        containers.push(c);
        k = k + 1;
    }
    proof {
        let values = shares@.map_values(|v: Vec<u8>| v@);
        let gcs = containers@.map_values(|c: Vec<u8>| c@);
        assert(forall|q: int|
            0 <= q < gcs.len() ==> #[trigger] spec_decode_shard(gcs[q], key@)
                == DecodeOutcome::Good(
                spec_new_header(THRESHOLD, (q + 1) as u8, sid@, secret@.len() as u16),
                values[q],
            ));
        assert(spec_created_with(
            secret@,
            match id {
                Some(v) => Some(v@),
                None => None,
            },
            token@,
            gcs,
            key@,
            sid@,
            padded@,
            values,
        ));
    }
    wipe(&mut padded);
    wipe_all(&mut shares);
    wipe(&mut key);
    Ok((token, containers))
}

/// What a status check reports for one container.
#[derive(Clone, Copy, Debug, PartialEq, Eq, Structural)]
pub enum ShardStatus {
    /// Decodes under the key and belongs to the session of the first
    /// decodable container; carries its fragment index.
    Valid(u8),
    /// Decodes, but belongs to a different session.
    WrongSet,
    /// Malformed, or wrong magic or version.
    FormatError,
    /// Held by a different key, or corrupted.
    AuthError,
}

/// The header of the first container that decodes under the key, if any:
/// it defines the session a status check reports against.
pub open spec fn spec_first_good(cs: Seq<Seq<u8>>, key: Seq<u8>) -> Option<HeaderView>
    decreases cs.len(),
{
    if cs.len() == 0 {
        None
    } else if spec_decode_shard(cs[0], key) is Good {
        Some(decoded_header(cs[0], key))
    } else {
        spec_first_good(cs.subrange(1, cs.len() as int), key)
    }
}

proof fn lemma_first_good_skip(cs: Seq<Seq<u8>>, key: Seq<u8>, k: int)
    requires
        0 <= k <= cs.len(),
        forall|j: int| 0 <= j < k ==> !(spec_decode_shard(#[trigger] cs[j], key) is Good),
    ensures
        spec_first_good(cs, key) == spec_first_good(cs.subrange(k, cs.len() as int), key),
    decreases k,
{
    if k == 0 {
        assert(cs.subrange(0, cs.len() as int) =~= cs);
    } else {
        let tail = cs.subrange(1, cs.len() as int);
        lemma_first_good_skip(tail, key, k - 1);
        assert(tail.subrange(k - 1, tail.len() as int) =~= cs.subrange(k, cs.len() as int));
    }
}

/// How many entries report a valid fragment.
pub open spec fn spec_count_valid(s: Seq<ShardStatus>) -> int
    decreases s.len(),
{
    if s.len() == 0 {
        0
    } else {
        spec_count_valid(s.drop_last()) + (if s.last() is Valid {
            1int
        } else {
            0
        })
    }
}

/// The status an individual container gets, judged against the session of
/// the first decodable container.
pub open spec fn spec_status_of(cs: Seq<Seq<u8>>, key: Seq<u8>, k: int) -> ShardStatus {
    match spec_decode_shard(cs[k], key) {
        DecodeOutcome::FormatError => ShardStatus::FormatError,
        DecodeOutcome::AuthError => ShardStatus::AuthError,
        DecodeOutcome::Good(h, v) => {
            if (match spec_first_good(cs, key) {
                Some(h0) => h.common_id == h0.common_id,
                None => false,
            }) {
                ShardStatus::Valid(h.share_id)
            } else {
                ShardStatus::WrongSet
            }
        },
    }
}

/// Attempts to decode every container under the caller's key and reports,
/// per container, whether it is a valid fragment of the first decodable
/// session, a fragment of another session, malformed, or unopenable; the
/// flag says whether the valid fragments reach that session's threshold.
#[verifier::rlimit(100)]
pub fn shard_status(containers: &Vec<Vec<u8>>, key: &[u8]) -> (r: (Vec<ShardStatus>, bool))
    requires
        key@.len() == 32,
    ensures
        ({
            let cs = containers@.map_values(|c: Vec<u8>| c@);
            &&& r.0@.len() == cs.len()
            &&& forall|k: int| 0 <= k < cs.len() ==> #[trigger] r.0@[k] == spec_status_of(cs, key@, k)
            &&& r.1 == (match spec_first_good(cs, key@) {
                Some(h0) => spec_count_valid(r.0@) >= h0.threshold as int,
                None => false,
            })
        }),
{
    let ghost cs = containers@.map_values(|c: Vec<u8>| c@);
    let mut statuses: Vec<ShardStatus> = Vec::new();
    let mut count: usize = 0;
    let mut found = false;
    let mut sess_cid: Vec<u8> = Vec::new();
    let mut sess_t: u8 = 0;
    let mut idx: usize = 0;
    while idx < containers.len()
        invariant
            idx <= containers@.len(),
            cs == containers@.map_values(|c: Vec<u8>| c@),
            key@.len() == 32,
            statuses@.len() == idx as int,
            count as int == spec_count_valid(statuses@),
            count <= idx,
            !found ==> (forall|j: int|
                0 <= j < idx as int ==> !(spec_decode_shard(#[trigger] cs[j], key@) is Good)),
            found ==> (spec_first_good(cs, key@) matches Some(h0) && sess_cid@ == h0.common_id
                && sess_t == h0.threshold),
            forall|j: int| 0 <= j < idx as int ==> #[trigger] statuses@[j] == spec_status_of(cs, key@, j),
        decreases containers@.len() - idx,
    {
        proof {
            assert(containers@[idx as int]@ == cs[idx as int]);
        }
        let ghost old_statuses = statuses@;
        let st: ShardStatus = match decode_shard(containers[idx].as_slice(), key) {
            Ok((mut v, header)) => {
                wipe(&mut v);
                if !found {
                    proof {
                        lemma_first_good_skip(cs, key@, idx as int);
                        assert(cs.subrange(idx as int, cs.len() as int)[0] == cs[idx as int]);
                    }
                    found = true;
                    sess_cid = header.common_id;
                    sess_t = header.threshold;
                    count = count + 1;
                    ShardStatus::Valid(header.share_id)
                } else {
                    if bytes_eq(&header.common_id, &sess_cid) {
                        count = count + 1;
                        ShardStatus::Valid(header.share_id)
                    } else {
                        ShardStatus::WrongSet
                    }
                }
            },
            Err(QshardError::Crypto) => ShardStatus::AuthError,
            Err(_) => ShardStatus::FormatError,
        };
        statuses.push(st);
        proof {
            assert(statuses@.drop_last() =~= old_statuses);
            assert(statuses@.last() == st);
        }
        idx = idx + 1;
    }
    if !found {
        proof {
            lemma_first_good_skip(cs, key@, cs.len() as int);
            assert(cs.subrange(cs.len() as int, cs.len() as int).len() == 0);
        }
        return (statuses, false);
    }
    let possible = count >= sess_t as usize;
    (statuses, possible)
}

} // verus!
