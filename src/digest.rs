//! The compact public commitment: a SHA-256 digest of the serialized
//! polynomial commitments.
use vstd::prelude::*;

use sha2::Digest;

use crate::advz::chunks_of;
use crate::payload::{concat, views};

verus! {

/// What SHA-256 gives for a byte string.
pub uninterp spec fn sha256_of(bytes: Seq<u8>) -> Seq<u8>;

/// Relies on `sha2::Sha256::digest`: the 32-byte SHA-256 digest of `bytes`,
/// a function of the bytes alone.
#[verifier::external_body]
fn sha256(bytes: &Vec<u8>) -> (r: [u8; 32])
    ensures
        r@ == sha256_of(bytes@),
{
    sha2::Sha256::digest(bytes.as_slice()).into()
}

/// The public commitment for the serialized polynomial commitments, one per
/// polynomial, in order.
pub open spec fn commitment_digest(serialized: Seq<Seq<u8>>) -> Seq<u8> {
    sha256_of(concat(serialized))
}

/// Hashes the serialized polynomial commitments, one after the other, into
/// the public commitment.
pub fn digest_commitments(serialized: &Vec<Vec<u8>>) -> (r: [u8; 32])
    ensures
        r@ == commitment_digest(views(serialized@)),
{
    let ghost s = views(serialized@);
    let mut all: Vec<u8> = Vec::new();
    let mut i: usize = 0;
    while i < serialized.len()
        invariant
            i <= serialized.len(),
            s == views(serialized@),
            all@ == concat(s.take(i as int)),
        decreases serialized.len() - i,
    {
        let part = &serialized[i];
        let mut j: usize = 0;
        while j < part.len()
            invariant
                j <= part.len(),
                all@ == concat(s.take(i as int)) + part@.take(j as int),
            decreases part.len() - j,
        {
            all.push(part[j]);
            j = j + 1;
            assert(all@ =~= concat(s.take(i as int)) + part@.take(j as int));
        }
        assert(s.take(i + 1).drop_last() =~= s.take(i as int));
        assert(part@.take(j as int) =~= part@);
        i = i + 1;
    }
    assert(s.take(i as int) =~= s);
    sha256(&all)
}

/// Committing is deterministic: the same field elements are cut into the
/// same polynomials, and the same serialized polynomial commitments hash to
/// the same public commitment, however often either is done.
pub proof fn lemma_commit_deterministic<T>(
    elems: Seq<T>,
    again: Seq<T>,
    k: nat,
    serialized: Seq<Seq<u8>>,
    serialized_again: Seq<Seq<u8>>,
)
    requires
        elems == again,
        serialized == serialized_again,
    ensures
        chunks_of(elems, k) == chunks_of(again, k),
        commitment_digest(serialized) == commitment_digest(serialized_again),
{
}

} // verus!
