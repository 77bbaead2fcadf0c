use advz::{
    blocks_to_payload, digest_commitments, eval_point, payload_to_blocks, Advz, RecoveryStep,
    Shard, Share, VidError, BLOCK_BYTES, ELEMENT_BYTES,
};
use ark_bls12_381::Fr;
use ark_ff::{BigInteger, Field, PrimeField};
use ark_serialize::CanonicalSerialize;
use sha2::Digest;

// A small commitment scheme and Reed-Solomon code over the BLS12-381 scalar
// field, enough to drive the engine end to end. The "commitment" is the
// polynomial's value at a secret point; a proof at `z` is the quotient
// `(p(s) - p(z)) / (s - z)`, checked against the commitment.
type TestShare = Share<Fr, Fr, Fr>;

fn secret() -> Fr {
    Fr::from(987_654_321u64)
}

fn eval(coeffs: &[Fr], x: Fr) -> Fr {
    coeffs.iter().rev().fold(Fr::from(0u64), |acc, c| acc * x + c)
}

fn pcs_commit(coeffs: &[Fr]) -> Fr {
    eval(coeffs, secret())
}

fn pcs_open(coeffs: &[Fr], z: Fr) -> (Fr, Fr) {
    let v = eval(coeffs, z);
    let proof = (pcs_commit(coeffs) - v) * (secret() - z).inverse().unwrap();
    (proof, v)
}

fn pcs_verify(commitment: Fr, z: Fr, v: Fr, proof: Fr) -> bool {
    commitment - v == proof * (secret() - z)
}

fn rs_encode(coeffs: &[Fr], n: usize) -> Vec<Shard<Fr>> {
    (0..n).map(|i| Shard { index: i, value: eval(coeffs, Fr::from(i as u64)) }).collect()
}

// Solves the Vandermonde system given by the first `k` shards.
fn rs_decode(shards: &[Shard<Fr>], k: usize) -> Option<Vec<Fr>> {
    if shards.len() < k {
        return None;
    }
    let mut rows: Vec<Vec<Fr>> = shards[..k]
        .iter()
        .map(|s| {
            let x = Fr::from(s.index as u64);
            let mut row: Vec<Fr> = (0..k).map(|j| x.pow([j as u64])).collect();
            row.push(s.value);
            row
        })
        .collect();
    for col in 0..k {
        let pivot = (col..k).find(|&r| rows[r][col] != Fr::from(0u64))?;
        rows.swap(col, pivot);
        let f = rows[col][col].inverse().unwrap();
        for j in 0..=k {
            rows[col][j] *= f;
        }
        for r in 0..k {
            if r != col {
                let g = rows[r][col];
                for j in 0..=k {
                    let t = g * rows[col][j];
                    rows[r][j] -= t;
                }
            }
        }
    }
    Some(rows.iter().map(|row| row[k]).collect())
}

fn fr(v: u64) -> Fr {
    Fr::from(v)
}

fn frs(vs: &[u64]) -> Vec<Fr> {
    vs.iter().map(|v| Fr::from(*v)).collect()
}

fn engine(k: usize, n: usize) -> Advz<(), ()> {
    Advz::new(k, n, (), ()).unwrap()
}

fn disperse_elements(vid: &Advz<(), ()>, elems: &[Fr]) -> Result<Vec<TestShare>, VidError> {
    let payload = elems.to_vec();
    let commitment = pcs_commit(elems);
    let shards = rs_encode(elems, vid.num_storage_nodes());
    let openings: Vec<(Fr, Fr)> =
        shards.iter().map(|s| pcs_open(elems, Fr::from(eval_point(s.index)))).collect();
    vid.disperse_field_elements(&payload, commitment, &shards, openings)
}

fn to_elements(payload: &[u8]) -> Vec<Fr> {
    payload_to_blocks(&payload.to_vec()).iter().map(|b| Fr::from_le_bytes_mod_order(b)).collect()
}

fn from_elements(elems: &[Fr]) -> Result<Vec<u8>, VidError> {
    let bytes: Vec<Vec<u8>> = elems.iter().map(|e| e.into_bigint().to_bytes_le()).collect();
    blocks_to_payload(&bytes)
}

fn disperse(vid: &Advz<(), ()>, payload: &[u8]) -> Result<Vec<TestShare>, VidError> {
    disperse_elements(vid, &to_elements(payload))
}

fn verify(vid: &Advz<(), ()>, share: &TestShare) -> Result<(), VidError> {
    let accepted = match vid.verification_input(share) {
        Some((z, v)) => pcs_verify(share.polynomial_commitments, Fr::from(z), v, share.proof),
        None => false,
    };
    vid.verify_share(share, accepted)
}

fn recover(vid: &Advz<(), ()>, shares: &[TestShare]) -> Result<Vec<Fr>, VidError> {
    let shares = shares.to_vec();
    let mut verdicts: Vec<bool> = Vec::new();
    loop {
        match vid.recover_field_elements(&shares, &verdicts) {
            RecoveryStep::Verify { position } => {
                verdicts.push(verify(vid, &shares[position]).is_ok());
            }
            RecoveryStep::Decode { shards } => {
                return vid.finish_recovery(rs_decode(&shards, vid.reconstruction_size()));
            }
            RecoveryStep::Failed { error } => return Err(error),
        }
    }
}

fn commit(vid: &Advz<(), ()>, payload: &[u8]) -> [u8; 32] {
    let serialized: Vec<Vec<u8>> = vid
        .polynomial_chunks(&to_elements(payload))
        .iter()
        .map(|c| {
            let mut out = Vec::new();
            pcs_commit(c).serialize_uncompressed(&mut out).unwrap();
            out
        })
        .collect();
    digest_commitments(&serialized)
}

fn pseudo_bytes(len: usize, seed: u64) -> Vec<u8> {
    let mut x = seed;
    (0..len)
        .map(|_| {
            x = x.wrapping_mul(6364136223846793005).wrapping_add(1442695040888963407);
            (x >> 56) as u8
        })
        .collect()
}

fn elements_of(blocks: &[Vec<u8>]) -> Vec<Vec<u8>> {
    blocks
        .iter()
        .map(|b| {
            let mut e = b.clone();
            e.push(0);
            e
        })
        .collect()
}

#[test]
fn basic_correctness() {
    let vid = engine(2, 3);

    // choose payload len to produce the correct number of shares
    let payload = [1, 2, 3, 4, 5, 6, 7, 8, 9, 10, 11, 12, 13];

    let shares = disperse(&vid, &payload).unwrap();
    assert_eq!(shares.len(), 3);

    for s in shares.iter() {
        verify(&vid, s).unwrap();
    }
}

#[test]
fn basic_correctness_field_elements() {
    let vid = engine(2, 3);

    let field_elements = [Fr::from(7u64), Fr::from(13u64)];

    let shares = disperse_elements(&vid, &field_elements).unwrap();
    assert_eq!(shares.len(), 3);

    for s in shares.iter() {
        verify(&vid, s).unwrap();
    }

    // recover from a subset of shares
    let recovered_field_elements = recover(&vid, &shares[..2]).unwrap();
    assert_eq!(recovered_field_elements, field_elements);
}

#[test]
fn commit_basic_correctness() {
    let lengths = [2, 16, 32, 48, 63, 64, 65, 100, 200];
    let vid = engine(2, 3);

    for len in lengths {
        let random_bytes = pseudo_bytes(len, len as u64);
        commit(&vid, &random_bytes);
    }
}

#[test]
fn commit_is_deterministic_and_hashes_commitments() {
    let vid = engine(2, 3);
    for len in [0usize, 13, 62, 200] {
        let payload = pseudo_bytes(len, 3 + len as u64);
        let first = commit(&vid, &payload);
        assert_eq!(first, commit(&vid, &payload));
        let mut all = Vec::new();
        for c in vid.polynomial_chunks(&to_elements(&payload)) {
            pcs_commit(&c).serialize_uncompressed(&mut all).unwrap();
        }
        let expected: [u8; 32] = sha2::Sha256::digest(&all).into();
        assert_eq!(first, expected);
    }
    assert_ne!(commit(&vid, &[1, 2, 3]), commit(&vid, &[1, 2, 4]));
}

#[test]
fn digest_of_known_input() {
    let d = digest_commitments(&vec![b"ab".to_vec(), b"c".to_vec()]);
    let expected: [u8; 32] = [
        0xba, 0x78, 0x16, 0xbf, 0x8f, 0x01, 0xcf, 0xea, 0x41, 0x41, 0x40, 0xde, 0x5d, 0xae, 0x22,
        0x23, 0xb0, 0x03, 0x61, 0xa3, 0x96, 0x17, 0x7a, 0x9c, 0xb4, 0x10, 0xff, 0x61, 0xf2, 0x00,
        0x15, 0xad,
    ];
    assert_eq!(d, expected);
    assert_ne!(digest_commitments(&vec![]), [0u8; 32]);
}

#[test]
fn recovery_from_two_subsets() {
    let vid = engine(2, 3);
    let shares = disperse_elements(&vid, &frs(&[7, 13])).unwrap();
    assert_eq!(shares.len(), 3);
    for s in shares.iter() {
        assert_eq!(verify(&vid, s), Ok(()));
    }
    assert_eq!(recover(&vid, &[shares[0].clone(), shares[1].clone()]), Ok(frs(&[7, 13])));
    assert_eq!(recover(&vid, &[shares[1].clone(), shares[2].clone()]), Ok(frs(&[7, 13])));
    assert_eq!(recover(&vid, &shares), Ok(frs(&[7, 13])));
}

#[test]
fn recovery_from_disjoint_subsets() {
    let vid = engine(2, 4);
    let shares = disperse_elements(&vid, &frs(&[5, 11])).unwrap();
    assert_eq!(shares.len(), 4);
    assert_eq!(recover(&vid, &shares[0..2]), Ok(frs(&[5, 11])));
    assert_eq!(recover(&vid, &shares[2..4]), Ok(frs(&[5, 11])));
    assert_eq!(recover(&vid, &[shares[3].clone(), shares[0].clone()]), Ok(frs(&[5, 11])));
}

#[test]
fn shares_carry_commitment_id_and_value() {
    let vid = engine(3, 5);
    let elems = frs(&[2, 4, 6]);
    let shares = disperse_elements(&vid, &elems).unwrap();
    assert_eq!(shares.len(), 5);
    for (i, s) in shares.iter().enumerate() {
        let v = eval(&elems, fr(i as u64));
        assert_eq!(s.id, i);
        assert_eq!(s.polynomial_commitments, pcs_commit(&elems));
        assert_eq!(s.encoded_data, vec![v]);
        assert_eq!(vid.verification_input(s), Some((i as u64, v)));
    }
}

#[test]
fn new_rejects_bad_parameters() {
    assert_eq!(Advz::new(4, 3, (), ()).err(), Some(VidError::ParameterError));
    assert_eq!(Advz::new(0, 3, (), ()).err(), Some(VidError::ParameterError));
    let vid = Advz::new(3, 3, 1u8, 2u8).unwrap();
    assert_eq!(vid.reconstruction_size(), 3);
    assert_eq!(vid.num_storage_nodes(), 3);
    assert_eq!(*vid.committer_key(), 1u8);
    assert_eq!(*vid.verifier_key(), 2u8);
    assert_eq!(vid.num_parity_shards(), 0);
    assert_eq!(engine(2, 7).num_parity_shards(), 5);
}

#[test]
fn insufficient_shares_fail_before_verifying() {
    let vid = engine(2, 3);
    let shares = disperse_elements(&vid, &frs(&[7, 13])).unwrap();
    let one = vec![shares[0].clone()];
    match vid.recover_field_elements(&one, &vec![]) {
        RecoveryStep::Failed { error } => assert_eq!(error, VidError::InsufficientShares),
        _ => panic!("recovery went on with too few shares"),
    }
    assert_eq!(recover(&vid, &one), Err(VidError::InsufficientShares));
    assert_eq!(recover(&vid, &[]), Err(VidError::InsufficientShares));
}

#[test]
fn tampered_value_is_detected() {
    let vid = engine(2, 3);
    let mut shares = disperse_elements(&vid, &frs(&[7, 13])).unwrap();
    shares[1].encoded_data[0] += fr(1);
    assert_eq!(verify(&vid, &shares[1]), Err(VidError::ShareVerificationFailed { id: 1 }));
    assert_eq!(verify(&vid, &shares[0]), Ok(()));
    assert_eq!(recover(&vid, &shares[..2]), Err(VidError::ShareVerificationFailed { id: 1 }));
    assert_eq!(recover(&vid, &[shares[0].clone(), shares[2].clone()]), Ok(frs(&[7, 13])));
}

#[test]
fn tampered_proof_is_detected() {
    let vid = engine(2, 3);
    let mut shares = disperse_elements(&vid, &frs(&[7, 13])).unwrap();
    shares[2].proof += fr(5);
    assert_eq!(verify(&vid, &shares[2]), Err(VidError::ShareVerificationFailed { id: 2 }));
    assert_eq!(recover(&vid, &shares), Err(VidError::ShareVerificationFailed { id: 2 }));
}

#[test]
fn recovery_stops_at_first_rejected_share() {
    let vid = engine(2, 3);
    let shares = disperse_elements(&vid, &frs(&[7, 13])).unwrap();
    match vid.recover_field_elements(&shares, &vec![true, false]) {
        RecoveryStep::Failed { error } => {
            assert_eq!(error, VidError::ShareVerificationFailed { id: 1 })
        }
        _ => panic!("a rejected share did not stop recovery"),
    }
    match vid.recover_field_elements(&shares, &vec![true]) {
        RecoveryStep::Verify { position } => assert_eq!(position, 1),
        _ => panic!("recovery did not ask for the next verdict"),
    }
    match vid.recover_field_elements(&shares, &vec![true, true, true]) {
        RecoveryStep::Decode { shards } => {
            assert_eq!(shards.len(), 3);
            assert_eq!(shards[2], Shard { index: 2, value: eval(&frs(&[7, 13]), fr(2)) });
        }
        _ => panic!("recovery did not decode"),
    }
}

#[test]
fn share_without_value_fails_verification() {
    let vid = engine(2, 3);
    let mut shares = disperse_elements(&vid, &frs(&[7, 13])).unwrap();
    shares[0].encoded_data.clear();
    assert_eq!(vid.verification_input(&shares[0]), None);
    assert_eq!(vid.verify_share(&shares[0], true), Err(VidError::ShareVerificationFailed { id: 0 }));
    assert_eq!(recover(&vid, &shares), Err(VidError::ShareVerificationFailed { id: 0 }));
}

#[test]
fn decoder_failure_is_reported() {
    let vid = engine(2, 3);
    assert_eq!(vid.finish_recovery::<u64>(None), Err(VidError::DecodeInconsistency));
    assert_eq!(vid.finish_recovery(Some(vec![1u64])), Err(VidError::DecodeInconsistency));
    assert_eq!(vid.finish_recovery(Some(vec![1u64, 2])), Ok(vec![1, 2]));
}

#[test]
fn dispersal_rejects_wrong_payload_size() {
    let vid = engine(2, 3);
    assert_eq!(disperse_elements(&vid, &frs(&[7])).err(), Some(VidError::EncodingError));
    assert_eq!(disperse_elements(&vid, &frs(&[7, 13, 21])).err(), Some(VidError::EncodingError));
    assert_eq!(disperse(&vid, &[9; 40]).err(), Some(VidError::EncodingError));
    assert_eq!(vid.check_payload_size(2), Ok(()));
    assert_eq!(vid.check_payload_size(3), Err(VidError::EncodingError));
}

#[test]
fn dispersal_rejects_misaligned_shards() {
    let vid = engine(2, 3);
    let elems = frs(&[7, 13]);
    let c = pcs_commit(&elems);
    let shards = rs_encode(&elems, 3);
    let openings = |sh: &[Shard<Fr>]| -> Vec<(Fr, Fr)> {
        sh.iter().map(|s| pcs_open(&elems, fr(s.index as u64))).collect()
    };

    let short = shards[..2].to_vec();
    assert_eq!(
        vid.disperse_field_elements(&elems, c, &short, openings(&short)).err(),
        Some(VidError::DispersalInconsistency)
    );

    let mut swapped = shards.clone();
    swapped.swap(0, 1);
    assert_eq!(
        vid.disperse_field_elements(&elems, c, &swapped, openings(&swapped)).err(),
        Some(VidError::DispersalInconsistency)
    );

    let mut wrong_value = openings(&shards);
    wrong_value[2].1 += fr(1);
    assert_eq!(
        vid.disperse_field_elements(&elems, c, &shards, wrong_value).err(),
        Some(VidError::DispersalInconsistency)
    );

    assert!(vid.disperse_field_elements(&elems, c, &shards, openings(&shards)).is_ok());
}

#[test]
fn evaluation_point_is_the_node_index() {
    assert_eq!(eval_point(0), 0);
    assert_eq!(eval_point(5), 5);
}

#[test]
fn polynomial_chunks_cut_by_reconstruction_size() {
    let vid = engine(2, 3);
    let chunks = vid.polynomial_chunks(&vec![1u64, 2, 3, 4, 5]);
    assert_eq!(chunks, vec![vec![1, 2], vec![3, 4], vec![5]]);
    assert_eq!(vid.polynomial_chunks(&vec![1u64, 2]), vec![vec![1, 2]]);
    assert!(vid.polynomial_chunks::<u64>(&vec![]).is_empty());
}

#[test]
fn framing_of_a_short_payload() {
    let blocks = payload_to_blocks(&vec![1, 2, 3]);
    assert_eq!(blocks.len(), 2);
    let mut header = vec![0u8; BLOCK_BYTES];
    header[0] = 3;
    assert_eq!(blocks[0], header);
    let mut data = vec![0u8; BLOCK_BYTES];
    data[..3].copy_from_slice(&[1, 2, 3]);
    assert_eq!(blocks[1], data);
}

#[test]
fn framing_block_counts() {
    assert_eq!(payload_to_blocks(&vec![]).len(), 1);
    assert_eq!(payload_to_blocks(&vec![9; 13]).len(), 2);
    assert_eq!(payload_to_blocks(&vec![9; 31]).len(), 2);
    assert_eq!(payload_to_blocks(&vec![9; 32]).len(), 3);
    assert_eq!(payload_to_blocks(&vec![9; 62]).len(), 3);
    let long = payload_to_blocks(&vec![9; 300]);
    assert_eq!(&long[0][..3], &[44, 1, 0]);
}

#[test]
fn payload_round_trip() {
    for len in [0usize, 1, 13, 30, 31, 32, 61, 62, 100, 200] {
        let payload = pseudo_bytes(len, 7 + len as u64);
        let elements = elements_of(&payload_to_blocks(&payload));
        assert!(elements.iter().all(|e| e.len() == ELEMENT_BYTES));
        assert_eq!(blocks_to_payload(&elements), Ok(payload.clone()));
        assert_eq!(from_elements(&to_elements(&payload)), Ok(payload));
    }
    let zeros = vec![0u8; 40];
    assert_eq!(blocks_to_payload(&elements_of(&payload_to_blocks(&zeros))), Ok(zeros));
}

#[test]
fn payload_decoding_rejects_malformed_elements() {
    assert_eq!(blocks_to_payload(&vec![]), Err(VidError::EncodingError));
    assert_eq!(blocks_to_payload(&vec![vec![0u8; 32]]), Ok(vec![]));
    let mut too_long = vec![0u8; 32];
    too_long[0] = 5;
    assert_eq!(blocks_to_payload(&vec![too_long]), Err(VidError::EncodingError));
    let mut high = vec![0u8; 32];
    high[31] = 1;
    assert_eq!(blocks_to_payload(&vec![high]), Err(VidError::EncodingError));
    assert_eq!(blocks_to_payload(&vec![vec![0u8; 31]]), Err(VidError::EncodingError));
}

#[test]
fn round_trip_through_dispersal() {
    let vid = engine(2, 3);
    let payload: Vec<u8> = (1..=31).collect();
    let shares = disperse(&vid, &payload).unwrap();
    assert_eq!(shares.len(), 3);
    let back = recover(&vid, &shares[1..]).unwrap();
    assert_eq!(from_elements(&back), Ok(payload.clone()));
    let back = recover(&vid, &[shares[2].clone(), shares[0].clone()]).unwrap();
    assert_eq!(from_elements(&back), Ok(payload));
}
