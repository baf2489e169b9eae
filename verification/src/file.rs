//! The fragment container format: a self-describing binary header followed
//! by the sealed fragment value.
//!
//! Layout: `magic(8) ‖ version(1) ‖ threshold(1) ‖ share_id(1) ‖
//! cid_len(8, LE) ‖ common_id(cid_len) ‖ secret_len(2, LE)` then
//! `nonce(12) ‖ ciphertext ‖ tag(16)`.

use crate::crypto::{aead_open, decrypt, encrypt};
use crate::error::QshardError;
use vstd::prelude::*;
use vstd::slice::{slice_index_get, slice_subrange};

verus! {

pub const VERSION: u8 = 1;

/// The magic constant "QSHARD01".
pub open spec fn spec_magic() -> Seq<u8> {
    seq![0x51u8, 0x53, 0x48, 0x41, 0x52, 0x44, 0x30, 0x31]
}

fn magic_vec() -> (r: Vec<u8>)
    ensures
        r@ =~= spec_magic(),
{
    let mut m: Vec<u8> = Vec::new();
    m.push(0x51);
    m.push(0x53);
    m.push(0x48);
    m.push(0x41);
    m.push(0x52);
    m.push(0x44);
    m.push(0x30);
    m.push(0x31);
    m
}

/// The mathematical content of a header.
#[verifier::ext_equal]
pub struct HeaderView {
    pub magic: Seq<u8>,
    pub version: u8,
    pub threshold: u8,
    pub share_id: u8,
    pub common_id: Seq<u8>,
    pub secret_len: u16,
}

/// A fragment container's header: identifies the format revision, the
/// fragment, its session and the secret's true length.
pub struct ShardHeader {
    pub magic: Vec<u8>,
    pub version: u8,
    pub threshold: u8,
    pub share_id: u8,
    pub common_id: Vec<u8>,
    pub secret_len: u16,
}

impl View for ShardHeader {
    type V = HeaderView;

    open spec fn view(&self) -> HeaderView {
        HeaderView {
            magic: self.magic@,
            version: self.version,
            threshold: self.threshold,
            share_id: self.share_id,
            common_id: self.common_id@,
            secret_len: self.secret_len,
        }
    }
}

/// The header a fresh container gets.
pub open spec fn spec_new_header(threshold: u8, share_id: u8, cid: Seq<u8>, secret_len: u16) -> HeaderView {
    HeaderView {
        magic: spec_magic(),
        version: VERSION,
        threshold,
        share_id,
        common_id: cid,
        secret_len,
    }
}

pub open spec fn spec_u16_le(n: u16) -> Seq<u8> {
    seq![(n & 0xff) as u8, ((n >> 8) & 0xff) as u8]
}

pub open spec fn spec_le_u16(b: Seq<u8>) -> u16 {
    (b[0] as u16) | ((b[1] as u16) << 8)
}

pub open spec fn spec_u64_le(n: u64) -> Seq<u8> {
    seq![
        (n & 0xff) as u8,
        ((n >> 8) & 0xff) as u8,
        ((n >> 16) & 0xff) as u8,
        ((n >> 24) & 0xff) as u8,
        ((n >> 32) & 0xff) as u8,
        ((n >> 40) & 0xff) as u8,
        ((n >> 48) & 0xff) as u8,
        ((n >> 56) & 0xff) as u8,
    ]
}

pub open spec fn spec_le_u64(b: Seq<u8>) -> u64 {
    (b[0] as u64) | ((b[1] as u64) << 8) | ((b[2] as u64) << 16) | ((b[3] as u64) << 24) | ((
    b[4] as u64) << 32) | ((b[5] as u64) << 40) | ((b[6] as u64) << 48) | ((b[7] as u64) << 56)
}

pub proof fn lemma_le_u16_roundtrip(n: u16)
    ensures
        spec_le_u16(spec_u16_le(n)) == n,
{
    assert((((n & 0xff) as u8) as u16) | (((((n >> 8) & 0xff) as u8) as u16) << 8) == n)
        by (bit_vector);
}

pub proof fn lemma_le_u64_roundtrip(n: u64)
    ensures
        spec_le_u64(spec_u64_le(n)) == n,
{
    assert((((n & 0xff) as u8) as u64) | (((((n >> 8) & 0xff) as u8) as u64) << 8) | (((((n >> 16)
        & 0xff) as u8) as u64) << 16) | (((((n >> 24) & 0xff) as u8) as u64) << 24) | (((((n >> 32)
        & 0xff) as u8) as u64) << 32) | (((((n >> 40) & 0xff) as u8) as u64) << 40) | (((((n >> 48)
        & 0xff) as u8) as u64) << 48) | (((((n >> 56) & 0xff) as u8) as u64) << 56) == n)
        by (bit_vector);
}

/// The stable byte encoding of a header.
pub open spec fn spec_header_bytes(h: HeaderView) -> Seq<u8> {
    h.magic + seq![h.version, h.threshold, h.share_id] + spec_u64_le(h.common_id.len() as u64)
        + h.common_id + spec_u16_le(h.secret_len)
}

/// Parses a header off the front of `data`; yields the header and how many
/// bytes it occupied.
pub open spec fn spec_parse_header(data: Seq<u8>) -> Option<(HeaderView, int)> {
    if data.len() < 21 {
        None
    } else {
        let cl = spec_le_u64(data.subrange(11, 19)) as int;
        if data.len() < 21 + cl {
            None
        } else {
            Some(
                (
                    HeaderView {
                        magic: data.subrange(0, 8),
                        version: data[8],
                        threshold: data[9],
                        share_id: data[10],
                        common_id: data.subrange(19, 19 + cl),
                        secret_len: spec_le_u16(data.subrange(19 + cl, 21 + cl)),
                    },
                    21 + cl,
                ),
            )
        }
    }
}

impl ShardHeader {
    /// A fresh header with the current magic constant and format version.
    pub fn new(threshold: u8, share_id: u8, common_id: Vec<u8>, secret_len: u16) -> (h: ShardHeader)
        ensures
            h@ == spec_new_header(threshold, share_id, common_id@, secret_len),
    {
        let h = ShardHeader { magic: magic_vec(), version: VERSION, threshold, share_id, common_id, secret_len };
        proof {
            assert(h@ =~= spec_new_header(threshold, share_id, h.common_id@, secret_len));
        }
        h
    }

    /// Accepts exactly the headers carrying the current magic constant and
    /// format version; anything else is a malformed container.
    pub fn validate(&self) -> (r: Result<(), QshardError>)
        ensures
            r is Ok <==> (self@.magic == spec_magic() && self@.version == VERSION),
            r matches Err(e) ==> e == QshardError::InvalidShardFile,
    {
        let m = magic_vec();
        if self.magic.len() != 8 {
            proof {
                assert(self@.magic != spec_magic());
            }
            return Err(QshardError::InvalidShardFile);
        }
        let mut i: usize = 0;
        while i < 8
            invariant
                i <= 8,
                self@.magic.len() == 8,
                m@ =~= spec_magic(),
                forall|j: int| 0 <= j < i as int ==> self@.magic[j] == spec_magic()[j],
            decreases 8 - i,
        {
            if self.magic[i] != m[i] {
                proof {
                    assert(self@.magic[i as int] != spec_magic()[i as int]);
                }
                return Err(QshardError::InvalidShardFile);
            }
            i = i + 1;
        }
        proof {
            assert(self@.magic =~= spec_magic());
        }
        if self.version != VERSION {
            return Err(QshardError::InvalidShardFile);
        }
        Ok(())
    }
}

/// Serializes a header into its stable byte layout.
pub fn header_to_bytes(h: &ShardHeader) -> (r: Vec<u8>)
    ensures
        r@ == spec_header_bytes(h@),
{
    let mut out: Vec<u8> = Vec::new();
    let mut i: usize = 0;
    while i < h.magic.len()
        invariant
            i <= h.magic@.len(),
            out@ =~= h.magic@.subrange(0, i as int),
        decreases h.magic@.len() - i,
    {
        out.push(h.magic[i]);
        i = i + 1;
    }
    proof {
        assert(out@ =~= h.magic@);
    }
    out.push(h.version);
    out.push(h.threshold);
    out.push(h.share_id);
    let n: u64 = h.common_id.len() as u64;
    out.push((n & 0xff) as u8);
    out.push(((n >> 8) & 0xff) as u8);
    out.push(((n >> 16) & 0xff) as u8);
    out.push(((n >> 24) & 0xff) as u8);
    out.push(((n >> 32) & 0xff) as u8);
    out.push(((n >> 40) & 0xff) as u8);
    out.push(((n >> 48) & 0xff) as u8);
    out.push(((n >> 56) & 0xff) as u8);
    let ghost mid = out@;
    let mut j: usize = 0;
    while j < h.common_id.len()
        invariant
            j <= h.common_id@.len(),
            out@ =~= mid + h.common_id@.subrange(0, j as int),
        decreases h.common_id@.len() - j,
    {
        out.push(h.common_id[j]);
        j = j + 1;
    }
    let s: u16 = h.secret_len;
    out.push((s & 0xff) as u8);
    out.push(((s >> 8) & 0xff) as u8);
    proof {
        assert(out@ =~= spec_header_bytes(h@));
    }
    out
}

/// Parses and returns a header and the offset where the sealed payload
/// begins. Fails exactly where `spec_parse_header` does.
pub fn parse_header(data: &[u8]) -> (r: Result<(ShardHeader, usize), QshardError>)
    ensures
        r is Ok <==> spec_parse_header(data@) is Some,
        r matches Ok(p) ==> spec_parse_header(data@) == Some((p.0@, p.1 as int)),
        r matches Err(e) ==> e == QshardError::InvalidShardFile,
{
    if data.len() < 21 {
        return Err(QshardError::InvalidShardFile);
    }
    let cl64: u64 = (*slice_index_get(data, 11) as u64) | ((*slice_index_get(data, 12) as u64)
        << 8) | ((*slice_index_get(data, 13) as u64) << 16) | ((*slice_index_get(data, 14) as u64)
        << 24) | ((*slice_index_get(data, 15) as u64) << 32) | ((*slice_index_get(data, 16) as u64)
        << 40) | ((*slice_index_get(data, 17) as u64) << 48) | ((*slice_index_get(data, 18) as u64)
        << 56);
    proof {
        assert(data@.subrange(11, 19)[0] == data@[11]);
        assert(cl64 == spec_le_u64(data@.subrange(11, 19)));
    }
    let rem: usize = data.len() - 21;
    if cl64 > rem as u64 {
        return Err(QshardError::InvalidShardFile);
    }
    let cl: usize = cl64 as usize;
    let mut magic: Vec<u8> = Vec::new();
    let mut i: usize = 0;
    while i < 8
        invariant
            i <= 8,
            data@.len() >= 21,
            magic@ =~= data@.subrange(0, i as int),
        decreases 8 - i,
    {
        magic.push(*slice_index_get(data, i));
        i = i + 1;
    }
    let mut cid: Vec<u8> = Vec::new();
    let mut j: usize = 0;
    while j < cl
        invariant
            j <= cl,
            cl + 21 <= data@.len(),
            data@.len() <= usize::MAX,
            cid@ =~= data@.subrange(19, 19 + j as int),
        decreases cl - j,
    {
        cid.push(*slice_index_get(data, 19 + j));
        j = j + 1;
    }
    let s0 = *slice_index_get(data, 19 + cl);
    let s1 = *slice_index_get(data, 20 + cl);
    let secret_len: u16 = (s0 as u16) | ((s1 as u16) << 8);
    let h = ShardHeader {
        magic,
        version: *slice_index_get(data, 8),
        threshold: *slice_index_get(data, 9),
        share_id: *slice_index_get(data, 10),
        common_id: cid,
        secret_len,
    };
    proof {
        let parsed = spec_parse_header(data@).unwrap().0;
        assert(data@.subrange(19 + cl as int, 21 + cl as int)[0] == data@[19 + cl as int]);
        assert(data@.subrange(19 + cl as int, 21 + cl as int)[1] == data@[20 + cl as int]);
        assert(h@ =~= parsed);
    }
    Ok((h, 21 + cl))
}

/// The three ways decoding a container can come out.
pub enum DecodeOutcome {
    /// The container is malformed, or magic or version do not match.
    FormatError,
    /// The header is fine but the payload does not open under this key.
    AuthError,
    /// The header and the opened fragment value.
    Good(HeaderView, Seq<u8>),
}

/// What decoding yields for given container bytes and key: the header is
/// parsed and checked before the payload is ever touched, so a format
/// error depends on the bytes alone, never on the key.
pub open spec fn spec_decode_shard(data: Seq<u8>, key: Seq<u8>) -> DecodeOutcome {
    match spec_parse_header(data) {
        Option::None => DecodeOutcome::FormatError,
        Option::Some((h, n)) => {
            if h.magic != spec_magic() || h.version != VERSION {
                DecodeOutcome::FormatError
            } else if data.len() - n < 12 {
                DecodeOutcome::AuthError
            } else {
                match aead_open(key, data.subrange(n, data.len() as int)) {
                    Option::None => DecodeOutcome::AuthError,
                    Option::Some(v) => DecodeOutcome::Good(h, v),
                }
            }
        },
    }
}

/// A container seals `share` under `key` with header `hv`.
pub open spec fn is_sealed_container(c: Seq<u8>, hv: HeaderView, share: Seq<u8>, key: Seq<u8>) -> bool {
    exists|enc: Seq<u8>|
        c == spec_header_bytes(hv) + enc && enc.len() == share.len() + 28 && #[trigger] aead_open(
            key,
            enc,
        ) == Some(share)
}

/// Builds one container: the serialized header followed by the
/// freshly sealed fragment value.
pub fn encode_shard(
    share: &[u8],
    share_id: u8,
    threshold: u8,
    common_id: &Vec<u8>,
    secret_len: u16,
    key: &[u8],
) -> (r: Result<Vec<u8>, QshardError>)
    requires
        key@.len() == 32,
    ensures
        r matches Ok(c) ==> is_sealed_container(
            c@,
            spec_new_header(threshold, share_id, common_id@, secret_len),
            share@,
            key@,
        ),
        r matches Err(e) ==> e == QshardError::Crypto,
        share@.len() <= 0x1000000000 ==> r is Ok,
{
    let mut cid: Vec<u8> = Vec::new();
    let mut i: usize = 0;
    while i < common_id.len()
        invariant
            i <= common_id@.len(),
            cid@ =~= common_id@.subrange(0, i as int),
        decreases common_id@.len() - i,
    {
        cid.push(common_id[i]);
        i = i + 1;
    }
    proof {
        assert(cid@ =~= common_id@);
    }
    let header = ShardHeader::new(threshold, share_id, cid, secret_len);
    let mut out = header_to_bytes(&header);
    let mut enc = match encrypt(share, key) {
        Ok(e) => e,
        Err(e) => { return Err(e); },
    };
    let ghost genc = enc@;
    out.append(&mut enc);
    proof {
        assert(out@ == spec_header_bytes(spec_new_header(threshold, share_id, common_id@, secret_len)) + genc);
    }
    Ok(out)
}

/// Opens one container: parses and validates the header, then decrypts
/// the payload. A bad magic or version fails with a format error before
/// any decryption is attempted; a wrong key or corrupted payload fails
/// with a cryptographic error.
pub fn decode_shard(container: &[u8], key: &[u8]) -> (r: Result<(Vec<u8>, ShardHeader), QshardError>)
    requires
        key@.len() == 32,
    ensures
        match spec_decode_shard(container@, key@) {
            DecodeOutcome::Good(h, v) => r matches Ok(p) && p.0@ == v && p.1@ == h,
            DecodeOutcome::FormatError => r == Err::<(Vec<u8>, ShardHeader), QshardError>(
                QshardError::InvalidShardFile,
            ),
            DecodeOutcome::AuthError => r == Err::<(Vec<u8>, ShardHeader), QshardError>(
                QshardError::Crypto,
            ),
        },
{
    let (header, n) = match parse_header(container) {
        Ok(p) => p,
        Err(e) => { return Err(e); },
    };
    match header.validate() {
        Ok(()) => {},
        Err(e) => { return Err(e); },
    }
    let rest = slice_subrange(container, n, container.len());
    match decrypt(rest, key) {
        Ok(v) => Ok((v, header)),
        Err(e) => Err(e),
    }
}

/// Round trip: a container built by `encode_shard` under `key` decodes
/// under the same `key` back to exactly the fragment value and header it
/// was built from.
pub proof fn lemma_shard_roundtrip(
    threshold: u8,
    share_id: u8,
    cid: Seq<u8>,
    secret_len: u16,
    share: Seq<u8>,
    key: Seq<u8>,
    c: Seq<u8>,
)
    requires
        cid.len() <= u64::MAX,
        is_sealed_container(c, spec_new_header(threshold, share_id, cid, secret_len), share, key),
    ensures
        spec_decode_shard(c, key) == DecodeOutcome::Good(
            spec_new_header(threshold, share_id, cid, secret_len),
            share,
        ),
{
    let hv = spec_new_header(threshold, share_id, cid, secret_len);
    let enc = choose|enc: Seq<u8>|
        c == spec_header_bytes(hv) + enc && enc.len() == share.len() + 28 && #[trigger] aead_open(
            key,
            enc,
        ) == Some(share);
    lemma_header_roundtrip(hv, enc);
    let hb = spec_header_bytes(hv);
    assert(c.subrange(hb.len() as int, c.len() as int) =~= enc);
    assert(c.len() - hb.len() == enc.len() >= 12);
}

/// Parsing inverts serialization: a serialized header followed by any
/// payload parses back to exactly that header.
pub proof fn lemma_header_roundtrip(h: HeaderView, rest: Seq<u8>)
    requires
        h.common_id.len() <= u64::MAX,
        h.magic.len() == 8,
    ensures
        spec_parse_header(spec_header_bytes(h) + rest) == Some(
            (h, spec_header_bytes(h).len() as int),
        ),
{
    let hb = spec_header_bytes(h);
    let data = hb + rest;
    let cl = h.common_id.len() as int;
    assert(hb.len() == 21 + cl);
    lemma_le_u64_roundtrip(cl as u64);
    lemma_le_u16_roundtrip(h.secret_len);
    assert(data.subrange(11, 19) =~= spec_u64_le(cl as u64));
    assert(spec_le_u64(data.subrange(11, 19)) == cl as u64);
    assert(data.len() >= 21 + cl);
    let parsed = spec_parse_header(data).unwrap().0;
    assert(data.subrange(0, 8) =~= h.magic);
    assert(data[8] == h.version);
    assert(data[9] == h.threshold);
    assert(data[10] == h.share_id);
    assert(data.subrange(19, 19 + cl) =~= h.common_id);
    assert(data.subrange(19 + cl, 21 + cl) =~= spec_u16_le(h.secret_len));
    assert(parsed =~= h);
}

} // verus!
