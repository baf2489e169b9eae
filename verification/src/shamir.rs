//! Threshold splitting and combining of a secret over GF(256).
//!
//! Splitting draws, for every byte position, a random polynomial of degree
//! `threshold - 1` whose constant term is the secret byte, and hands
//! fragment `k` the evaluations at `x = k`. Combining runs Lagrange
//! interpolation at `x = 0` over the supplied `(index, value)` pairs.

use crate::crypto::{fill_random, wipe_all};
use crate::error::QshardError;
use crate::gf256::{gf_add, gf_div, gf_inv, gf_mul, lemma_gf_identities, spec_gf_inv, spec_gf_mul};
use vstd::prelude::*;

verus! {

/// Value at `x` of the polynomial with coefficients `cs` (constant term
/// first).
pub open spec fn spec_poly_eval(cs: Seq<u8>, x: u8) -> u8
    decreases cs.len(),
{
    if cs.len() == 0 {
        0
    } else {
        cs[0] ^ spec_gf_mul(x, spec_poly_eval(cs.subrange(1, cs.len() as int), x))
    }
}

/// The Lagrange basis weight at `x = 0` for point `i`, built from the
/// first `k` support points: the product of `xs[j] / (xs[j] + xs[i])` over
/// `j < k`, `j != i`.
pub open spec fn spec_weight_prefix(xs: Seq<u8>, i: int, k: int) -> u8
    decreases k,
{
    if k <= 0 {
        1
    } else if k - 1 == i {
        spec_weight_prefix(xs, i, k - 1)
    } else {
        spec_gf_mul(
            spec_weight_prefix(xs, i, k - 1),
            spec_gf_mul(xs[k - 1], spec_gf_inv(xs[k - 1] ^ xs[i])),
        )
    }
}

pub open spec fn spec_lagrange_weight(xs: Seq<u8>, i: int) -> u8 {
    spec_weight_prefix(xs, i, xs.len() as int)
}

/// The interpolated value at `x = 0` over the first `k` points.
pub open spec fn spec_interp_prefix(xs: Seq<u8>, ys: Seq<u8>, k: int) -> u8
    decreases k,
{
    if k <= 0 {
        0
    } else {
        spec_interp_prefix(xs, ys, k - 1) ^ spec_gf_mul(ys[k - 1], spec_lagrange_weight(xs, k - 1))
    }
}

/// Lagrange interpolation at `x = 0`: the reconstructed secret byte.
pub open spec fn spec_interpolate(xs: Seq<u8>, ys: Seq<u8>) -> u8 {
    spec_interp_prefix(xs, ys, xs.len() as int)
}

/// `polys` is a valid sharing of `secret` with threshold `t`, and `values`
/// are the fragment payloads: `values[k][i]` is polynomial `i` evaluated at
/// `x = k + 1`.
pub open spec fn is_sharing_of(polys: Seq<Seq<u8>>, secret: Seq<u8>, t: int, values: Seq<Seq<u8>>) -> bool {
    &&& polys.len() == secret.len()
    &&& forall|i: int|
        0 <= i < secret.len() ==> (#[trigger] polys[i]).len() == t && polys[i][0] == secret[i]
    &&& forall|k: int|
        0 <= k < values.len() ==> (#[trigger] values[k]).len() == secret.len()
    &&& forall|k: int, i: int|
        0 <= k < values.len() && 0 <= i < secret.len() ==> (#[trigger] values[k][i])
            == spec_poly_eval(polys[i], (k + 1) as u8)
}

/// Some family of polynomials of degree `t - 1` with the secret bytes as
/// constant terms explains `values` as its evaluations.
pub open spec fn exists_sharing(secret: Seq<u8>, t: int, values: Seq<Seq<u8>>) -> bool {
    exists|polys: Seq<Seq<u8>>| is_sharing_of(polys, secret, t, values)
}

/// All fragment indices are nonzero and pairwise distinct.
pub open spec fn distinct_indices(xs: Seq<u8>) -> bool {
    &&& forall|i: int| 0 <= i < xs.len() ==> (#[trigger] xs[i]) != 0
    &&& forall|i: int, j: int| 0 <= i < j < xs.len() ==> #[trigger] xs[i] != #[trigger] xs[j]
}

/// Value at `x` of the polynomial with coefficient vector `cs`.
pub fn poly_eval(cs: &Vec<u8>, x: u8) -> (r: u8)
    ensures
        r == spec_poly_eval(cs@, x),
{
    let mut acc: u8 = 0;
    let mut i: usize = cs.len();
    while i > 0
        invariant
            i <= cs.len(),
            acc == spec_poly_eval(cs@.subrange(i as int, cs@.len() as int), x),
        decreases i,
    {
        i = i - 1;
        proof {
            assert(cs@.subrange(i as int, cs@.len() as int).subrange(
                1,
                cs@.subrange(i as int, cs@.len() as int).len() as int,
            ) =~= cs@.subrange(i as int + 1, cs@.len() as int));
        }
        acc = gf_add(cs[i], gf_mul(x, acc));
    }
    proof {
        assert(cs@.subrange(0, cs@.len() as int) =~= cs@);
    }
    acc
}

/// Splits `secret` into `num_shares` fragment values; any `threshold` of
/// them determine the secret. Fragment `k` (0-based) carries the
/// evaluations at `x = k + 1`; the caller pairs each value with that index.
///
/// Succeeds exactly when `1 <= threshold <= num_shares`.
pub fn split_secret(secret: &[u8], threshold: u8, num_shares: u8) -> (r: Result<
    Vec<Vec<u8>>,
    QshardError,
>)
    ensures
        r is Ok <==> 1 <= threshold && threshold <= num_shares,
        r matches Err(e) ==> e == QshardError::Shamir,
        r matches Ok(shares) ==> shares@.len() == num_shares as int && exists_sharing(
            secret@,
            threshold as int,
            shares@.map_values(|v: Vec<u8>| v@),
        ),
{
    if threshold == 0 || threshold > num_shares {
        return Err(QshardError::Shamir);
    }
    let len = secret.len();
    let mut polys: Vec<Vec<u8>> = Vec::new();
    let mut i: usize = 0;
    while i < len
        invariant
            i <= len,
            len == secret@.len(),
            1 <= threshold,
            polys@.len() == i as int,
            forall|p: int|
                0 <= p < i as int ==> (#[trigger] polys@[p])@.len() == threshold as int
                    && polys@[p]@[0] == secret@[p],
        decreases len - i,
    {
        let mut coeffs: Vec<u8> = Vec::new();
        coeffs.push(secret[i]);
        let mut rnd = fill_random((threshold - 1) as usize);
        coeffs.append(&mut rnd);
        polys.push(coeffs);
        i = i + 1;
    }
    let mut shares: Vec<Vec<u8>> = Vec::new();
    let mut k: usize = 0;
    while k < num_shares as usize
        invariant
            k <= num_shares as usize,
            len == secret@.len(),
            1 <= threshold,
            polys@.len() == len as int,
            forall|p: int|
                0 <= p < len as int ==> (#[trigger] polys@[p])@.len() == threshold as int
                    && polys@[p]@[0] == secret@[p],
            shares@.len() == k as int,
            forall|q: int|
                0 <= q < k as int ==> (#[trigger] shares@[q])@.len() == len as int,
            forall|q: int, p: int|
                0 <= q < k as int && 0 <= p < len as int ==> (#[trigger] shares@[q]@[p])
                    == spec_poly_eval(polys@[p]@, (q + 1) as u8),
        decreases num_shares as usize - k,
    {
        let x: u8 = (k as u8) + 1;
        let mut value: Vec<u8> = Vec::new();
        let mut p: usize = 0;
        while p < len
            invariant
                p <= len,
                len == polys@.len(),
                value@.len() == p as int,
                forall|q: int|
                    0 <= q < p as int ==> (#[trigger] value@[q]) == spec_poly_eval(polys@[q]@, x),
            decreases len - p,
        {
            let v = poly_eval(&polys[p], x);
            value.push(v);
            p = p + 1;
        }
        shares.push(value);
        k = k + 1;
    }
    let ghost gpolys: Seq<Seq<u8>> = polys@.map_values(|v: Vec<u8>| v@);
    proof {
        assert(is_sharing_of(
            gpolys,
            secret@,
            threshold as int,
            shares@.map_values(|v: Vec<u8>| v@),
        ));
    }
    wipe_all(&mut polys);
    Ok(shares)
}

/// Reconstructs the secret from `(index, value)` fragments by Lagrange
/// interpolation at `x = 0`, byte position by byte position.
///
/// Succeeds exactly when the indices are nonzero and pairwise distinct,
/// the values all have one length, and at least `threshold >= 1` fragments
/// are supplied; the result is then byte-for-byte the interpolation over
/// all supplied fragments.
#[verifier::rlimit(100)]
pub fn combine_secret(shares: &Vec<(u8, Vec<u8>)>, threshold: u8) -> (r: Result<
    Vec<u8>,
    QshardError,
>)
    ensures
        ({
            let xs = shares@.map_values(|s: (u8, Vec<u8>)| s.0);
            let vals = shares@.map_values(|s: (u8, Vec<u8>)| s.1@);
            &&& r is Ok <==> (threshold >= 1 && shares@.len() >= threshold as int
                && distinct_indices(xs) && (forall|k: int|
                0 <= k < vals.len() ==> (#[trigger] vals[k]).len() == vals[0].len()))
            &&& r matches Ok(s) ==> s@.len() == vals[0].len() && (forall|i: int|
                0 <= i < s@.len() ==> (#[trigger] s@[i]) == spec_interpolate(
                    xs,
                    vals.map_values(|v: Seq<u8>| v[i]),
                ))
            &&& r matches Err(e) ==> (e == QshardError::Shamir && threshold == 0) || (e
                == QshardError::ShareCombinationFailed && !(distinct_indices(xs) && (forall|k: int|
                0 <= k < vals.len() ==> (#[trigger] vals[k]).len() == vals[0].len()))) || (e
                == QshardError::NotEnoughShares && shares@.len() < threshold as int)
            &&& threshold == 0 ==> r == Err::<Vec<u8>, QshardError>(QshardError::Shamir)
            &&& (threshold >= 1 && !(distinct_indices(xs) && (forall|k: int|
                0 <= k < vals.len() ==> (#[trigger] vals[k]).len() == vals[0].len()))) ==> r
                == Err::<Vec<u8>, QshardError>(QshardError::ShareCombinationFailed)
            &&& (threshold >= 1 && distinct_indices(xs) && (forall|k: int|
                0 <= k < vals.len() ==> (#[trigger] vals[k]).len() == vals[0].len())
                && shares@.len() < threshold as int) ==> r == Err::<Vec<u8>, QshardError>(
                QshardError::NotEnoughShares,
            )
        }),
{
    let ghost xs = shares@.map_values(|s: (u8, Vec<u8>)| s.0);
    let ghost vals = shares@.map_values(|s: (u8, Vec<u8>)| s.1@);
    if threshold == 0 {
        return Err(QshardError::Shamir);
    }
    let m = shares.len();
    // Indices must be nonzero and pairwise distinct.
    let mut i: usize = 0;
    while i < m
        invariant
            i <= m,
            m == shares@.len(),
            1 <= threshold,
            xs == shares@.map_values(|s: (u8, Vec<u8>)| s.0),
            forall|a: int| 0 <= a < i as int ==> (#[trigger] xs[a]) != 0,
            forall|a: int, b: int| 0 <= a < b < i as int ==> #[trigger] xs[a] != #[trigger] xs[b],
        decreases m - i,
    {
        if shares[i].0 == 0 {
            proof {
                assert(xs[i as int] == shares@[i as int].0);
                assert(!distinct_indices(xs));
            }
            return Err(QshardError::ShareCombinationFailed);
        }
        let mut j: usize = 0;
        while j < i
            invariant
                j <= i < m,
                m == shares@.len(),
                1 <= threshold,
                xs == shares@.map_values(|s: (u8, Vec<u8>)| s.0),
                forall|b: int| 0 <= b < j as int ==> xs[b] != xs[i as int],
            decreases i - j,
        {
            if shares[j].0 == shares[i].0 {
                proof {
                    assert(xs[j as int] == shares@[j as int].0);
                    assert(xs[i as int] == shares@[i as int].0);
                    assert(!distinct_indices(xs));
                }
                return Err(QshardError::ShareCombinationFailed);
            }
            j = j + 1;
        }
        i = i + 1;
    }
    // Values must share one length.
    let width = if m > 0 {
        shares[0].1.len()
    } else {
        0
    };
    let mut i2: usize = 0;
    while i2 < m
        invariant
            i2 <= m,
            m == shares@.len(),
            1 <= threshold,
            vals == shares@.map_values(|s: (u8, Vec<u8>)| s.1@),
            m > 0 ==> width == vals[0].len(),
            forall|a: int| 0 <= a < i2 as int ==> (#[trigger] vals[a]).len() == width as int,
        decreases m - i2,
    {
        if shares[i2].1.len() != width {
            proof {
                assert(vals[i2 as int] == shares@[i2 as int].1@);
                assert(vals[0].len() == width as int);
                assert(vals[i2 as int].len() != vals[0].len());
            }
            return Err(QshardError::ShareCombinationFailed);
        }
        i2 = i2 + 1;
    }
    if m < threshold as usize {
        return Err(QshardError::NotEnoughShares);
    }
    // Interpolate every byte position at x = 0.
    let mut out: Vec<u8> = Vec::new();
    let mut pos: usize = 0;
    while pos < width
        invariant
            pos <= width,
            m == shares@.len(),
            m >= 1,
            xs == shares@.map_values(|s: (u8, Vec<u8>)| s.0),
            vals == shares@.map_values(|s: (u8, Vec<u8>)| s.1@),
            distinct_indices(xs),
            forall|a: int| 0 <= a < m as int ==> (#[trigger] vals[a]).len() == width as int,
            out@.len() == pos as int,
            forall|q: int|
                0 <= q < pos as int ==> (#[trigger] out@[q]) == spec_interpolate(
                    xs,
                    vals.map_values(|v: Seq<u8>| v[q]),
                ),
        decreases width - pos,
    {
        let ghost ys = vals.map_values(|v: Seq<u8>| v[pos as int]);
        let mut acc: u8 = 0;
        let mut a: usize = 0;
        while a < m
            invariant
                a <= m,
                m == shares@.len(),
                pos < width,
                xs == shares@.map_values(|s: (u8, Vec<u8>)| s.0),
                vals == shares@.map_values(|s: (u8, Vec<u8>)| s.1@),
                ys == vals.map_values(|v: Seq<u8>| v[pos as int]),
                distinct_indices(xs),
                forall|c: int| 0 <= c < m as int ==> (#[trigger] vals[c]).len() == width as int,
                acc == spec_interp_prefix(xs, ys, a as int),
            decreases m - a,
        {
            let mut w: u8 = 1;
            let mut b: usize = 0;
            while b < m
                invariant
                    b <= m,
                    a < m,
                    m == shares@.len(),
                    xs == shares@.map_values(|s: (u8, Vec<u8>)| s.0),
                    distinct_indices(xs),
                    w == spec_weight_prefix(xs, a as int, b as int),
                decreases m - b,
            {
                if b != a {
                    let xb = shares[b].0;
                    let xa = shares[a].0;
                    proof {
                        assert(xb == xs[b as int] && xa == xs[a as int]);
                        if b < a {
                            assert(xs[b as int] != xs[a as int]);
                        } else {
                            assert(xs[a as int] != xs[b as int]);
                        }
                        assert(xb != xa ==> (xb ^ xa) != 0) by (bit_vector);
                    }
                    let d = gf_add(xb, xa);
                    w = gf_mul(w, gf_div(xb, d));
                }
                b = b + 1;
            }
            proof {
                assert(vals[a as int] == shares@[a as int].1@);
                assert(xs.len() == m as int);
                assert(w == spec_lagrange_weight(xs, a as int));
                assert(ys[a as int] == vals[a as int][pos as int]);
            }
            acc = gf_add(acc, gf_mul(shares[a].1[pos], w));
            a = a + 1;
        }
        out.push(acc);
        pos = pos + 1;
    }
    Ok(out)
}

/// With threshold 1 the sharing polynomial at a position is the constant
/// `cs[0]`, and interpolation over a single fragment returns exactly that
/// constant: the one-fragment case of "any T fragments reconstruct the
/// secret".
pub proof fn lemma_single_fragment_roundtrip(cs: Seq<u8>, x: u8)
    requires
        cs.len() == 1,
    ensures
        spec_interpolate(seq![x], seq![spec_poly_eval(cs, x)]) == cs[0],
{
    let y = spec_poly_eval(cs, x);
    assert(cs.subrange(1, 1).len() == 0);
    assert(spec_poly_eval(cs.subrange(1, cs.len() as int), x) == 0);
    lemma_gf_identities(x);
    assert(y == cs[0] ^ spec_gf_mul(x, 0));
    lemma_gf_identities(cs[0]);
    assert((cs[0] ^ 0) == cs[0]);
    let xs: Seq<u8> = seq![x];
    let ys: Seq<u8> = seq![y];
    assert(spec_weight_prefix(xs, 0, 1) == spec_weight_prefix(xs, 0, 0));
    assert(spec_interp_prefix(xs, ys, 1) == spec_interp_prefix(xs, ys, 0) ^ spec_gf_mul(
        ys[0],
        spec_lagrange_weight(xs, 0),
    ));
    lemma_gf_identities(y);
    assert(spec_gf_mul(y, 1) == y);
    assert((0u8 ^ y) == y) by (bit_vector);
}

/// With threshold 1, reconstruction does not depend on which fragment is
/// chosen: any two one-fragment subsets of a sharing agree, since each
/// returns the polynomial's constant term.
pub proof fn lemma_single_fragment_subsets_agree(cs: Seq<u8>, x1: u8, x2: u8)
    requires
        cs.len() == 1,
    ensures
        spec_interpolate(seq![x1], seq![spec_poly_eval(cs, x1)]) == spec_interpolate(
            seq![x2],
            seq![spec_poly_eval(cs, x2)],
        ),
{
    lemma_single_fragment_roundtrip(cs, x1);
    lemma_single_fragment_roundtrip(cs, x2);
}

} // verus!
