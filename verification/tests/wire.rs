use stark_fri::channel::Commitment;
use stark_fri::fields::CM31;
use stark_fri::fields::M31;
use stark_fri::fields::QM31;
use stark_fri::fri_proof::FriError;
use stark_fri::fri_proof::FriProof;
use stark_fri::merkle::MerkleTreeProof;
use stark_fri::merkle::TwiddleMerkleTreeProof;

fn digest(tag: u8, k: usize) -> [u8; 32] {
    let mut d = [tag; 32];
    d[0] = k as u8;
    d[31] = (k >> 8) as u8;
    d
}

fn element(k: u32) -> QM31 {
    QM31(CM31(M31(k), M31(k + 1)), CM31(M31(k + 2), M31(0x7ffffff0 + k % 8)))
}

fn shaped(logn: usize, n_layers: usize) -> FriProof {
    let mut merkle_proofs = Vec::new();
    let mut twiddle_merkle_proofs = Vec::new();
    for q in 0..5usize {
        let mut openings = Vec::new();
        for l in 0..n_layers {
            openings.push(MerkleTreeProof {
                leaf: element((100 * q + l) as u32),
                siblings: (0..logn - l).map(|s| digest(0xa0 + q as u8, 16 * l + s)).collect(),
            });
        }
        merkle_proofs.push(openings);
        twiddle_merkle_proofs.push(TwiddleMerkleTreeProof {
            leaf: [M31(7 + q as u32), M31(0x01020304)],
            siblings: (0..logn - 1).map(|s| digest(0xb0 + q as u8, s)).collect(),
        });
    }
    FriProof {
        commitments: (0..n_layers).map(|l| Commitment(digest(0xc0, l))).collect(),
        last_layer: (0..1u32 << (logn - n_layers)).map(element).collect(),
        merkle_proofs,
        twiddle_merkle_proofs,
    }
}

#[test]
fn what_is_written_is_read_back() {
    for (logn, n_layers) in [(5, 4), (5, 0), (5, 5), (1, 0), (1, 1), (4, 2), (9, 3)] {
        let proof = shaped(logn, n_layers);
        assert_eq!(proof.validate(logn), Ok(()));
        let bytes = proof.to_bytes();
        let read = FriProof::from_bytes(&bytes, logn, n_layers);
        assert_eq!(read, Ok(proof));
        assert_eq!(read.unwrap().to_bytes(), bytes);
    }
}

#[test]
fn the_encoding_has_the_length_of_its_shape() {
    assert_eq!(shaped(5, 4).to_bytes().len(), 3400);
    assert_eq!(
        shaped(5, 4).to_bytes().len(),
        4 * 32 + 2 * 16 + 5 * (4 * 16 + 32 * (5 + 4 + 3 + 2)) + 5 * (8 + 32 * 4)
    );
    assert_eq!(shaped(1, 0).to_bytes().len(), 2 * 16 + 5 * 8);
    assert_eq!(shaped(3, 3).to_bytes().len(), 3 * 32 + 16 + 5 * (3 * 16 + 32 * 6) + 5 * (8 + 64));
}

#[test]
fn the_parts_lie_in_their_order() {
    let proof = shaped(3, 1);
    let bytes = proof.to_bytes();
    assert_eq!(&bytes[0..32], &proof.commitments[0].0);
    assert_eq!(&bytes[32..48], &proof.last_layer[0].pack()[..]);
    assert_eq!(&bytes[80..96], &proof.last_layer[3].pack()[..]);
    let queries = 32 + 4 * 16;
    assert_eq!(&bytes[queries..queries + 16], &proof.merkle_proofs[0][0].leaf.pack()[..]);
    assert_eq!(&bytes[queries + 16..queries + 48], &proof.merkle_proofs[0][0].siblings[0]);
    assert_eq!(&bytes[queries + 80..queries + 112], &proof.merkle_proofs[0][0].siblings[2]);
    let second = queries + 16 + 3 * 32;
    assert_eq!(&bytes[second..second + 16], &proof.merkle_proofs[1][0].leaf.pack()[..]);
    let twiddles = queries + 5 * (16 + 3 * 32);
    assert_eq!(&bytes[twiddles..twiddles + 4], &[7, 0, 0, 0]);
    assert_eq!(&bytes[twiddles + 4..twiddles + 8], &[4, 3, 2, 1]);
    assert_eq!(&bytes[twiddles + 8..twiddles + 40], &proof.twiddle_merkle_proofs[0].siblings[0]);
    assert_eq!(bytes.len(), twiddles + 5 * (8 + 2 * 32));
    assert_eq!(&bytes[bytes.len() - 32..], &proof.twiddle_merkle_proofs[4].siblings[1]);
}

#[test]
fn the_openings_of_a_query_lie_smallest_tree_first() {
    let proof = shaped(3, 2);
    let bytes = proof.to_bytes();
    let queries = 2 * 32 + 2 * 16;
    let last_layer = &proof.merkle_proofs[0][1];
    let first_layer = &proof.merkle_proofs[0][0];
    assert_eq!(last_layer.siblings.len(), 2);
    assert_eq!(first_layer.siblings.len(), 3);
    assert_eq!(&bytes[queries..queries + 16], &last_layer.leaf.pack()[..]);
    assert_eq!(&bytes[queries + 16..queries + 48], &last_layer.siblings[0]);
    assert_eq!(&bytes[queries + 48..queries + 80], &last_layer.siblings[1]);
    assert_eq!(&bytes[queries + 80..queries + 96], &first_layer.leaf.pack()[..]);
    assert_eq!(&bytes[queries + 96..queries + 128], &first_layer.siblings[0]);
    assert_eq!(&bytes[queries + 160..queries + 192], &first_layer.siblings[2]);
    let second = queries + 2 * 16 + 5 * 32;
    assert_eq!(&bytes[second..second + 16], &proof.merkle_proofs[1][1].leaf.pack()[..]);
    assert_eq!(FriProof::from_bytes(&bytes, 3, 2), Ok(proof));
}

#[test]
fn bytes_of_another_length_or_shape_are_refused() {
    let bytes = shaped(5, 4).to_bytes();
    assert!(FriProof::from_bytes(&bytes, 5, 4).is_ok());
    assert_eq!(FriProof::from_bytes(&bytes[1..], 5, 4), Err(FriError::EncodingLength));
    let mut longer = bytes.clone();
    longer.push(0);
    assert_eq!(FriProof::from_bytes(&longer, 5, 4), Err(FriError::EncodingLength));
    assert_eq!(FriProof::from_bytes(&bytes, 5, 3), Err(FriError::EncodingLength));
    assert_eq!(FriProof::from_bytes(&bytes, 6, 4), Err(FriError::EncodingLength));
    assert_eq!(FriProof::from_bytes(&[], 5, 4), Err(FriError::EncodingLength));
    assert_eq!(FriProof::from_bytes(&bytes, 32, 4), Err(FriError::DomainTooLarge));
    assert_eq!(FriProof::from_bytes(&bytes, 0, 0), Err(FriError::DomainTooSmall));
    assert_eq!(FriProof::from_bytes(&bytes, 3, 4), Err(FriError::TooManyLayers));
}

#[test]
fn a_flipped_byte_is_read_as_another_proof() {
    let proof = shaped(4, 3);
    let bytes = proof.to_bytes();
    for at in [0, 31, 32, 100, 200, bytes.len() - 1] {
        let mut other = bytes.clone();
        other[at] ^= 0x20;
        let read = FriProof::from_bytes(&other, 4, 3).unwrap();
        assert_ne!(read, proof);
        assert_eq!(read.to_bytes(), other);
    }
}
