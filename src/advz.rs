//! The dispersal engine: its parameters, the shares it hands out, and the
//! decisions of committing, dispersing, verifying and recovering.
//!
//! The polynomial commitment scheme and the erasure code are run by the
//! caller, on the values that these functions name; the engine decides what
//! they are run on and what their results make.
use vstd::prelude::*;

use crate::error::VidError;
use crate::payload::concat;
use vstd::std_specs::cmp::PartialEqSpec;

verus! {

/// One output unit of the erasure encoder: a node index and its value.
#[derive(Debug, Clone, Copy, PartialEq, Eq)]
pub struct Shard<F> {
    pub index: usize,
    pub value: F,
}

/// What storage node `id` receives: the polynomial commitment shared by all
/// shares, the erasure-coded value for the node, and a proof that the
/// committed polynomial takes that value at the node's evaluation point.
#[derive(Debug, Clone)]
pub struct Share<F, C, Pr> {
    pub polynomial_commitments: C,
    pub id: usize,
    pub encoded_data: Vec<F>,
    pub proof: Pr,
}

/// A dispersal engine for `num_storage_nodes` nodes of which any
/// `reconstruction_size` recover the payload, with the prover key `ck` and the
/// verifier key `vk` of the commitment scheme, both sized to
/// `reconstruction_size`.
pub struct Advz<K, V> {
    reconstruction_size: usize,
    num_storage_nodes: usize,
    ck: K,
    vk: V,
}

/// What recovery asks of its caller next.
#[derive(Debug, Clone)]
pub enum RecoveryStep<F> {
    /// Check the opening proof of the share at this position.
    Verify { position: usize },
    /// Run the erasure decoder on these shards with threshold
    /// `reconstruction_size`.
    Decode { shards: Vec<Shard<F>> },
    /// Recovery stops with this error.
    Failed { error: VidError },
}

/// The evaluation point of the share for node `id`: the field element that
/// this integer is cast to.
pub open spec fn point_of(id: usize) -> u64 {
    id as u64
}

/// The coefficient chunks of the polynomials that `s` is committed as: `k`
/// elements each, the last one possibly shorter.
pub open spec fn chunks_of<T>(s: Seq<T>, k: nat) -> Seq<Seq<T>>
    recommends
        k > 0,
{
    Seq::new(
        ((s.len() + k - 1) / (k as int)) as nat,
        |i: int| s.subrange(i * k, if (i + 1) * k <= s.len() { (i + 1) * k } else { s.len() as int }),
    )
}

/// Whether the erasure encoder's shards and the openings line up with nodes
/// `0 .. n`: one of each per node, in node order, and every opened value equal
/// to the shard's value.
pub open spec fn dispersal_aligned<F: PartialEq, Pr>(
    shards: Seq<Shard<F>>,
    openings: Seq<(Pr, F)>,
    n: nat,
) -> bool {
    &&& shards.len() == n
    &&& openings.len() == n
    &&& forall|i: int| 0 <= i < n ==> (#[trigger] shards[i]).index == i
    &&& forall|i: int| 0 <= i < n ==> (#[trigger] openings[i]).1.eq_spec(&shards[i].value)
}

/// Share `s` is the one for node `i`, built from the shared commitment, the
/// erasure encoder's shard for the node and the proof of its opening.
pub open spec fn share_for<F, C, Pr>(
    s: Share<F, C, Pr>,
    i: int,
    commitment: C,
    shard: Shard<F>,
    proof: Pr,
) -> bool {
    &&& s.id == i
    &&& s.id == shard.index
    &&& s.polynomial_commitments == commitment
    &&& s.encoded_data@ == seq![shard.value]
    &&& s.proof == proof
}

/// `shares` are the shares of a dispersal that committed to the polynomial
/// as `commitment`, with the encoder's `shards` and the `openings` of each.
pub open spec fn dispersal_of<F, C, Pr>(
    shares: Seq<Share<F, C, Pr>>,
    commitment: C,
    shards: Seq<Shard<F>>,
    openings: Seq<(Pr, F)>,
) -> bool {
    &&& shares.len() == shards.len()
    &&& shares.len() == openings.len()
    &&& forall|i: int|
        0 <= i < shares.len() ==> share_for(
            #[trigger] shares[i],
            i,
            commitment,
            shards[i],
            openings[i].0,
        )
}

/// Each share of a dispersal is checked at the point where its proof was
/// opened, against the value that the opening gave: it holds a value, its
/// evaluation point is that of its shard, and its value equals the opened one.
pub proof fn lemma_dispersed_share_checked_at_opening<F: PartialEq, C, Pr>(
    shares: Seq<Share<F, C, Pr>>,
    commitment: C,
    shards: Seq<Shard<F>>,
    openings: Seq<(Pr, F)>,
    i: int,
)
    requires
        dispersal_of(shares, commitment, shards, openings),
        dispersal_aligned(shards, openings, shares.len()),
        0 <= i < shares.len(),
    ensures
        shares[i].encoded_data.len() >= 1,
        point_of(shares[i].id) == point_of(shards[i].index),
        openings[i].1.eq_spec(&shares[i].encoded_data@[0]),
        forall|accepted: bool| passes(shares[i], accepted) <==> accepted,
{
    assert(share_for(shares[i], i, commitment, shards[i], openings[i].0));
    assert(shares[i].encoded_data@[0] == shards[i].value);
}

/// Whichever shares of a dispersal are gathered, in whatever order, the shard
/// that recovery hands the decoder for each is the erasure encoder's own shard
/// for that share's node.
pub proof fn lemma_recovery_uses_encoder_shards<F, C, Pr>(
    shares: Seq<Share<F, C, Pr>>,
    commitment: C,
    shards: Seq<Shard<F>>,
    openings: Seq<(Pr, F)>,
    gathered: Seq<Share<F, C, Pr>>,
)
    requires
        dispersal_of(shares, commitment, shards, openings),
        forall|j: int| 0 <= j < gathered.len() ==> shares.contains(#[trigger] gathered[j]),
    ensures
        forall|j: int|
            0 <= j < gathered.len() ==> {
                &&& 0 <= (#[trigger] gathered[j]).id < shards.len()
                &&& shard_of(gathered[j]) == shards[gathered[j].id as int]
            },
{
    assert forall|j: int| 0 <= j < gathered.len() implies {
        &&& 0 <= (#[trigger] gathered[j]).id < shards.len()
        &&& shard_of(gathered[j]) == shards[gathered[j].id as int]
    } by {
        assert(shares.contains(gathered[j]));
        let i = choose|i: int| 0 <= i < shares.len() && shares[i] == gathered[j];
        assert(share_for(shares[i], i, commitment, shards[i], openings[i].0));
    }
}

/// Whether share `s` counts as verified, given the commitment scheme's verdict
/// on it.
pub open spec fn passes<F, C, Pr>(s: Share<F, C, Pr>, accepted: bool) -> bool {
    accepted && s.encoded_data.len() >= 1
}

/// The shard that a share stands for.
pub open spec fn shard_of<F, C, Pr>(s: Share<F, C, Pr>) -> Shard<F> {
    Shard { index: s.id, value: s.encoded_data@[0] }
}

proof fn lemma_chunk_count(n: nat, k: nat)
    requires
        k >= 1,
    ensures
        ((n + k - 1) / (k as int)) * k >= n,
        ((n + k - 1) / (k as int)) * k < n + k,
        n > 0 ==> (n + k - 1) / (k as int) >= 1,
        n == 0 ==> (n + k - 1) / (k as int) == 0,
{
    let q = (n + k - 1) / (k as int);
    assert(q * k <= n + k - 1 && n + k - 1 < q * k + k) by (nonlinear_arith)
        requires
            q == (n + k - 1) / (k as int),
            k >= 1,
            n >= 0,
    ;
    if n == 0 {
        assert(q == 0) by (nonlinear_arith)
            requires
                q * k <= k - 1,
                k - 1 < q * k + k,
                k >= 1,
        ;
    }
    if n > 0 {
        assert(q >= 1) by (nonlinear_arith)
            requires
                q * k >= n,
                n > 0,
                k >= 1,
        ;
    }
}

/// The evaluation point, as an integer, of the share for node `id`.
pub fn eval_point(id: usize) -> (r: u64)
    ensures
        r == point_of(id),
{
    id as u64
}

impl<K, V> Advz<K, V> {
    pub closed spec fn spec_reconstruction_size(&self) -> usize {
        self.reconstruction_size
    }

    pub closed spec fn spec_num_storage_nodes(&self) -> usize {
        self.num_storage_nodes
    }

    pub closed spec fn spec_ck(&self) -> K {
        self.ck
    }

    pub closed spec fn spec_vk(&self) -> V {
        self.vk
    }

    /// The parameters are consistent: `1 <= reconstruction_size <= num_storage_nodes`.
    pub open spec fn wf(&self) -> bool {
        1 <= self.spec_reconstruction_size() <= self.spec_num_storage_nodes()
    }

    /// Builds an engine from its parameters and the keys that the commitment
    /// scheme's setup trimmed to `reconstruction_size`; fails with
    /// `ParameterError` where `reconstruction_size` is zero or exceeds
    /// `num_storage_nodes`.
    pub fn new(reconstruction_size: usize, num_storage_nodes: usize, ck: K, vk: V) -> (r: Result<
        Self,
        VidError,
    >)
        ensures
            r is Err <==> (reconstruction_size == 0 || num_storage_nodes < reconstruction_size),
            r is Err ==> r == Err::<Self, VidError>(VidError::ParameterError),
            r matches Ok(a) ==> {
                &&& a.wf()
                &&& a.spec_reconstruction_size() == reconstruction_size
                &&& a.spec_num_storage_nodes() == num_storage_nodes
                &&& a.spec_ck() == ck
                &&& a.spec_vk() == vk
            },
    {
        if reconstruction_size == 0 || num_storage_nodes < reconstruction_size {
            return Err(VidError::ParameterError);
        }
        Ok(Advz { reconstruction_size, num_storage_nodes, ck, vk })
    }

    /// The number of parity shards that the erasure encoder adds to the
    /// `reconstruction_size` data shards.
    pub fn num_parity_shards(&self) -> (r: usize)
        requires
            self.wf(),
        ensures
            r == self.spec_num_storage_nodes() - self.spec_reconstruction_size(),
    {
        self.num_storage_nodes - self.reconstruction_size
    }

    /// Cuts the field elements of a payload into the coefficient vectors of
    /// the polynomials whose commitments, serialized and hashed by
    /// `digest_commitments`, make the public commitment: `reconstruction_size`
    /// coefficients each, the last one possibly fewer.
    pub fn polynomial_chunks<F: Copy>(&self, elems: &Vec<F>) -> (r: Vec<Vec<F>>)
        requires
            self.wf(),
        ensures
            r@.map_values(|c: Vec<F>| c@) == chunks_of(
                elems@,
                self.spec_reconstruction_size() as nat,
            ),
            concat(r@.map_values(|c: Vec<F>| c@)) == elems@,
    {
        let k = self.reconstruction_size;
        let n = elems.len();
        let ghost kn = k as nat;
        let ghost target = chunks_of(elems@, kn);
        proof {
            lemma_chunk_count(n as nat, kn);
        }
        let mut out: Vec<Vec<F>> = Vec::new();
        let mut start: usize = 0;
        assert(out.len() * k == 0) by (nonlinear_arith)
            requires
                out.len() == 0,
        ;
        while start < n
            invariant
                k >= 1,
                kn == k,
                n == elems.len(),
                target == chunks_of(elems@, kn),
                start <= n,
                start < n ==> start == out.len() * k,
                out.len() <= target.len(),
                start < n ==> out.len() < target.len(),
                start >= n ==> out.len() == target.len(),
                forall|j: int| 0 <= j < out.len() ==> (#[trigger] out[j])@ == target[j],
                concat(out@.map_values(|c: Vec<F>| c@)) == elems@.take(start as int),
            decreases n - start,
        {
            let end: usize = if n - start >= k { start + k } else { n };
            let mut chunk: Vec<F> = Vec::new();
            let mut i: usize = start;
            while i < end
                invariant
                    start <= i <= end <= n,
                    n == elems.len(),
                    chunk@ == elems@.subrange(start as int, i as int),
                decreases end - i,
            {
                chunk.push(elems[i]);
                i = i + 1;
                assert(chunk@ =~= elems@.subrange(start as int, i as int));
            }
            let ghost before = out@;
            out.push(chunk);
            proof {
                let j = before.len() as int;
                lemma_chunk_count(n as nat, kn);
                assert(j * kn == start);
                assert((j + 1) * kn == start + kn) by (nonlinear_arith)
                    requires
                        j * kn == start,
                ;
                assert(out[j]@ =~= target[j]);
                assert(out@.map_values(|c: Vec<F>| c@).drop_last() =~= before.map_values(
                    |c: Vec<F>| c@,
                ));
                assert(elems@.take(start as int) + elems@.subrange(start as int, end as int)
                    =~= elems@.take(end as int));
                if end < n {
                    assert(j + 1 < target.len()) by (nonlinear_arith)
                        requires
                            (j + 1) * kn < n,
                            kn >= 1,
                            target.len() == (n + kn - 1) / (kn as int),
                    ;
                } else {
                    assert(j + 1 == target.len()) by (nonlinear_arith)
                        requires
                            j * kn < n,
                            n <= (j + 1) * kn,
                            kn >= 1,
                            target.len() == (n + kn - 1) / (kn as int),
                    ;
                }
            }
            start = end;
        }
        assert(out@.map_values(|c: Vec<F>| c@) =~= target);
        assert(elems@.take(n as int) =~= elems@);
        out
    }

    /// The number of storage nodes.
    pub fn num_storage_nodes(&self) -> (r: usize)
        ensures
            r == self.spec_num_storage_nodes(),
    {
        self.num_storage_nodes
    }

    /// The number of shares that recover the payload.
    pub fn reconstruction_size(&self) -> (r: usize)
        ensures
            r == self.spec_reconstruction_size(),
    {
        self.reconstruction_size
    }

    /// The prover key of the commitment scheme.
    pub fn committer_key(&self) -> (r: &K)
        ensures
            *r == self.spec_ck(),
    {
        &self.ck
    }

    /// The verifier key of the commitment scheme.
    pub fn verifier_key(&self) -> (r: &V)
        ensures
            *r == self.spec_vk(),
    {
        &self.vk
    }

    /// Fails with `EncodingError` unless a payload of `len` field elements
    /// fills exactly one polynomial.
    pub fn check_payload_size(&self, len: usize) -> (r: Result<(), VidError>)
        ensures
            r is Ok <==> len == self.spec_reconstruction_size(),
            r is Err ==> r == Err::<(), VidError>(VidError::EncodingError),
    {
        if len != self.reconstruction_size {
            return Err(VidError::EncodingError);
        }
        Ok(())
    }

    /// Builds the shares of a dispersal from the polynomial commitment to
    /// `payload`, the erasure encoder's shards of `payload` and, for each
    /// shard, the opening of the polynomial at the shard's evaluation point
    /// (its proof and value).
    ///
    /// Fails with `EncodingError` unless `payload` fills exactly one
    /// polynomial, and with `DispersalInconsistency` unless the shards and
    /// openings line up with the storage nodes.
    pub fn disperse_field_elements<F: Copy + PartialEq, C: Copy, Pr>(
        &self,
        payload: &Vec<F>,
        commitment: C,
        shards: &Vec<Shard<F>>,
        openings: Vec<(Pr, F)>,
    ) -> (r: Result<Vec<Share<F, C, Pr>>, VidError>)
        requires
            self.wf(),
        ensures
            payload.len() != self.spec_reconstruction_size() ==> r == Err::<
                Vec<Share<F, C, Pr>>,
                VidError,
            >(VidError::EncodingError),
            payload.len() == self.spec_reconstruction_size() && r is Err ==> r == Err::<
                Vec<Share<F, C, Pr>>,
                VidError,
            >(VidError::DispersalInconsistency),
            F::obeys_eq_spec() ==> (r is Ok <==> (payload.len() == self.spec_reconstruction_size()
                && dispersal_aligned(shards@, openings@, self.spec_num_storage_nodes() as nat))),
            r is Ok ==> payload.len() == self.spec_reconstruction_size() && shards.len()
                == self.spec_num_storage_nodes() && openings.len()
                == self.spec_num_storage_nodes(),
            r matches Ok(shares) ==> shares.len() == self.spec_num_storage_nodes() && dispersal_of(
                shares@,
                commitment,
                shards@,
                openings@,
            ),
    {
        if payload.len() != self.reconstruction_size {
            return Err(VidError::EncodingError);
        }
        let n = self.num_storage_nodes;
        if shards.len() != n || openings.len() != n {
            return Err(VidError::DispersalInconsistency);
        }
        let mut i: usize = 0;
        while i < n
            invariant
                i <= n,
                payload.len() == self.spec_reconstruction_size(),
                shards.len() == n,
                openings.len() == n,
                forall|j: int| 0 <= j < i ==> (#[trigger] shards[j]).index == j,
                F::obeys_eq_spec() ==> forall|j: int|
                    0 <= j < i ==> (#[trigger] openings[j]).1.eq_spec(&shards[j].value),
            decreases n - i,
        {
            if shards[i].index != i {
                return Err(VidError::DispersalInconsistency);
            }
            let same = openings[i].1 == shards[i].value;
            if !same {
                return Err(VidError::DispersalInconsistency);
            }
            i = i + 1;
        }
        let ghost all = openings@;
        let mut openings = openings;
        let mut out: Vec<Share<F, C, Pr>> = Vec::new();
        let mut i: usize = 0;
        while i < n
            invariant
                i <= n,
                shards.len() == n,
                all.len() == n,
                openings@ == all.subrange(i as int, n as int),
                out.len() == i,
                forall|j: int| 0 <= j < n ==> (#[trigger] shards[j]).index == j,
                forall|j: int|
                    0 <= j < i ==> share_for(#[trigger] out[j], j, commitment, shards[j], all[j].0),
            decreases n - i,
        {
            let (proof, _value) = openings.remove(0);
            let shard = shards[i];
            let mut encoded_data: Vec<F> = Vec::new();
            encoded_data.push(shard.value);
            out.push(
                Share { polynomial_commitments: commitment, id: shard.index, encoded_data, proof },
            );
            i = i + 1;
            assert(openings@ =~= all.subrange(i as int, n as int));
        }
        assert(shards@.len() == out@.len());
        Ok(out)
    }

    /// The evaluation point and the value that the proof of `share` is checked
    /// against; `None` where the share holds no value.
    pub fn verification_input<F: Copy, C, Pr>(&self, share: &Share<F, C, Pr>) -> (r: Option<
        (u64, F),
    >)
        ensures
            r is Some <==> share.encoded_data.len() >= 1,
            r matches Some(p) ==> p.0 == point_of(share.id) && p.1 == share.encoded_data@[0],
    {
        if share.encoded_data.len() == 0 {
            return None;
        }
        Some((eval_point(share.id), share.encoded_data[0]))
    }

    /// The outcome of checking `share`, given whether the commitment scheme's
    /// verifier accepted its proof at the share's evaluation point.
    pub fn verify_share<F, C, Pr>(&self, share: &Share<F, C, Pr>, accepted: bool) -> (r: Result<
        (),
        VidError,
    >)
        ensures
            r is Ok <==> passes(*share, accepted),
            r is Err ==> r == Err::<(), VidError>(
                VidError::ShareVerificationFailed { id: share.id },
            ),
    {
        if !accepted || share.encoded_data.len() == 0 {
            return Err(VidError::ShareVerificationFailed { id: share.id });
        }
        Ok(())
    }

    /// The next step of recovering the field elements from `shares`, given
    /// the verifier's verdicts on the first `verdicts.len()` of them.
    ///
    /// With fewer than `reconstruction_size` shares recovery fails with
    /// `InsufficientShares` and asks for nothing. Otherwise every share is
    /// verified in order, and the first that fails stops recovery with its
    /// id; once all have passed, their shards go to the erasure decoder.
    pub fn recover_field_elements<F: Copy, C, Pr>(
        &self,
        shares: &Vec<Share<F, C, Pr>>,
        verdicts: &Vec<bool>,
    ) -> (r: RecoveryStep<F>)
        requires
            self.wf(),
            verdicts.len() <= shares.len(),
        ensures
            shares.len() < self.spec_reconstruction_size() ==> r == (RecoveryStep::<F>::Failed {
                error: VidError::InsufficientShares,
            }),
            shares.len() >= self.spec_reconstruction_size() && (exists|j: int|
                0 <= j < verdicts.len() && !passes(#[trigger] shares[j], verdicts[j]))
                ==> r is Failed,
            shares.len() >= self.spec_reconstruction_size() ==> match r {
                RecoveryStep::Failed { error } => exists|j: int|
                    0 <= j < verdicts.len() && !passes(#[trigger] shares[j], verdicts[j])
                        && error == (VidError::ShareVerificationFailed { id: shares[j].id })
                        && forall|l: int| 0 <= l < j ==> passes(#[trigger] shares[l], verdicts[l]),
                RecoveryStep::Verify { position } => position == verdicts.len() && verdicts.len()
                    < shares.len() && forall|l: int|
                    0 <= l < verdicts.len() ==> passes(#[trigger] shares[l], verdicts[l]),
                RecoveryStep::Decode { shards } => verdicts.len() == shares.len() && (forall|l: int|
                    0 <= l < shares.len() ==> passes(#[trigger] shares[l], verdicts[l]))
                    && shards@ == shares@.map_values(|s: Share<F, C, Pr>| shard_of(s)),
            },
    {
        if shares.len() < self.reconstruction_size {
            return RecoveryStep::Failed { error: VidError::InsufficientShares };
        }
        let mut i: usize = 0;
        while i < verdicts.len()
            invariant
                i <= verdicts.len() <= shares.len(),
                shares.len() >= self.spec_reconstruction_size(),
                forall|l: int| 0 <= l < i ==> passes(#[trigger] shares[l], verdicts[l]),
            decreases verdicts.len() - i,
        {
            if !verdicts[i] || shares[i].encoded_data.len() == 0 {
                return RecoveryStep::Failed {
                    error: VidError::ShareVerificationFailed { id: shares[i].id },
                };
            }
            i = i + 1;
        }
        if verdicts.len() < shares.len() {
            return RecoveryStep::Verify { position: verdicts.len() };
        }
        let mut shards: Vec<Shard<F>> = Vec::new();
        let mut i: usize = 0;
        while i < shares.len()
            invariant
                i <= shares.len(),
                verdicts.len() == shares.len(),
                forall|l: int| 0 <= l < shares.len() ==> passes(#[trigger] shares[l], verdicts[l]),
                shards@ == shares@.take(i as int).map_values(|s: Share<F, C, Pr>| shard_of(s)),
            decreases shares.len() - i,
        {
            assert(passes(shares[i as int], verdicts[i as int]));
            let s = &shares[i];
            shards.push(Shard { index: s.id, value: s.encoded_data[0] });
            i = i + 1;
            assert(shards@ =~= shares@.take(i as int).map_values(
                |s: Share<F, C, Pr>| shard_of(s),
            ));
        }
        assert(shares@.take(i as int) =~= shares@);
        RecoveryStep::Decode { shards }
    }

    /// The recovered field elements from the erasure decoder's output: the
    /// `reconstruction_size` elements it gave, or `DecodeInconsistency` where
    /// it rejected the shards or gave another count.
    pub fn finish_recovery<F>(&self, decoded: Option<Vec<F>>) -> (r: Result<Vec<F>, VidError>)
        ensures
            r is Ok <==> (decoded matches Some(v) && v.len() == self.spec_reconstruction_size()),
            r matches Ok(v) ==> decoded == Some(v),
            r is Err ==> r == Err::<Vec<F>, VidError>(VidError::DecodeInconsistency),
    {
        match decoded {
            Some(v) => {
                if v.len() == self.reconstruction_size {
                    Ok(v)
                } else {
                    Err(VidError::DecodeInconsistency)
                }
            },
            None => Err(VidError::DecodeInconsistency),
        }
    }
}

} // verus!
