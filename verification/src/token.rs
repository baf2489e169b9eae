//! The recovery token: the session key, base64-encoded behind a fixed
//! recognizable prefix, for human transport.

use crate::error::QshardError;
use base64::Engine;
use vstd::prelude::*;
use vstd::slice::{slice_index_get, slice_subrange};

verus! {

/// What base64 (standard alphabet, padded) encoding returns for a byte
/// sequence; decoding accepts exactly these strings.
pub uninterp spec fn b64_of(bytes: Seq<u8>) -> Seq<u8>;

/// The bytes of the literal token prefix `QS-TKN-`.
pub open spec fn spec_token_prefix() -> Seq<u8> {
    seq![0x51u8, 0x53, 0x2d, 0x54, 0x4b, 0x4e, 0x2d]
}

fn token_prefix() -> (r: Vec<u8>)
    ensures
        r@ =~= spec_token_prefix(),
{
    let mut p: Vec<u8> = Vec::new();
    p.push(0x51);
    p.push(0x53);
    p.push(0x2d);
    p.push(0x54);
    p.push(0x4b);
    p.push(0x4e);
    p.push(0x2d);
    p
}

/// Relies on base64's `STANDARD` engine encode (padded standard
/// alphabet).
#[verifier::external_body]
fn b64_encode(bs: &[u8]) -> (r: Vec<u8>)
    ensures
        r@ == b64_of(bs@),
{
    base64::engine::general_purpose::STANDARD.encode(bs).into_bytes()
}

/// Relies on base64's `STANDARD` engine decode: it requires canonical
/// padding and zero trailing bits, so it accepts exactly the strings
/// `encode` produces and inverts it.
#[verifier::external_body]
fn b64_decode(s: &[u8]) -> (r: Result<Vec<u8>, QshardError>)
    ensures
        r matches Ok(v) ==> s@ == b64_of(v@) && (forall|w: Seq<u8>| s@ == b64_of(w) ==> w == v@),
        r matches Err(e) ==> e == QshardError::Base64 && !(exists|w: Seq<u8>| s@ == b64_of(w)),
        (exists|w: Seq<u8>| s@ == #[trigger] b64_of(w)) ==> r is Ok,
{
    match base64::engine::general_purpose::STANDARD.decode(s) {
        Ok(v) => Ok(v),
        Err(_) => Err(QshardError::Base64),
    }
}

/// Strips the token prefix if it is present; the remainder is the base64
/// body.
pub open spec fn spec_strip_prefix(token: Seq<u8>) -> Seq<u8> {
    if token.len() >= 7 && token.subrange(0, 7) == spec_token_prefix() {
        token.subrange(7, token.len() as int)
    } else {
        token
    }
}

/// Encodes a 32-byte session key as a transportable token with the fixed
/// prefix.
pub fn make_token(key: &[u8]) -> (r: Vec<u8>)
    requires
        key@.len() == 32,
    ensures
        r@ == spec_token_prefix() + b64_of(key@),
{
    let mut out = token_prefix();
    let mut body = b64_encode(key);
    out.append(&mut body);
    out
}

/// Decodes a token back to exactly a 32-byte key. Succeeds precisely when
/// the body (after the optional prefix) is the base64 encoding of some
/// 32-byte sequence; a wrong length or bad encoding is rejected, never
/// truncated or padded.
pub fn parse_token(token: &[u8]) -> (r: Result<Vec<u8>, QshardError>)
    ensures
        r matches Ok(k) ==> k@.len() == 32 && spec_strip_prefix(token@) == b64_of(k@),
        r matches Ok(k) ==> (forall|w: Seq<u8>|
            spec_strip_prefix(token@) == #[trigger] b64_of(w) ==> w == k@),
        r is Ok <==> (exists|w: Seq<u8>|
            spec_strip_prefix(token@) == #[trigger] b64_of(w) && w.len() == 32),
        r matches Err(e) ==> e == QshardError::Base64,
{
    let p = token_prefix();
    let mut has_prefix = token.len() >= 7;
    let mut i: usize = 0;
    while i < 7 && has_prefix
        invariant
            i <= 7,
            p@ =~= spec_token_prefix(),
            has_prefix ==> token@.len() >= 7 && (forall|j: int|
                0 <= j < i as int ==> token@[j] == spec_token_prefix()[j]),
            !has_prefix ==> !(token@.len() >= 7 && token@.subrange(0, 7) == spec_token_prefix()),
        decreases 2 * (7 - i) + (if has_prefix { 1int } else { 0 }),
    {
        if *slice_index_get(token, i) != p[i] {
            proof {
                assert(token@.subrange(0, 7)[i as int] == token@[i as int]);
            }
            has_prefix = false;
        } else {
            i = i + 1;
        }
    }
    let body: &[u8] = if has_prefix {
        proof {
            assert(token@.subrange(0, 7) =~= spec_token_prefix());
        }
        slice_subrange(token, 7, token.len())
    } else {
        token
    };
    proof {
        assert(body@ == spec_strip_prefix(token@));
    }
    let key = match b64_decode(body) {
        Ok(k) => k,
        Err(e) => { return Err(e); },
    };
    if key.len() != 32 {
        proof {
            assert(forall|w: Seq<u8>| spec_strip_prefix(token@) == b64_of(w) ==> w == key@);
        }
        return Err(QshardError::Base64);
    }
    Ok(key)
}

} // verus!
