//! The round trips stated for a proof as the emitters take it: what the
//! programs of `FRIGadget` do when they run on the witness that
//! `FRIGadget` pushed for a proof of the right shape.

use crate::fri::check_fiat_shamir_program;
use crate::fri::fiat_shamir_witness;
use crate::fri::limb_items;
use crate::fri::query_values;
use crate::fri_proof::commitment_rows;
use crate::fri_proof::limb_rows;
use crate::fri_proof::FriProof;
use crate::machine::byte_items;
use crate::machine::join;
use crate::machine::nums;
use crate::machine::pushes;
use crate::machine::run;
use crate::machine::ItemV;
use crate::merkle::lemma_low_bits_are_the_index;
use crate::merkle::TwiddleMerkleTreeProof;
use crate::openings::check_single_query_program;
use crate::openings::check_twiddle_program;
use crate::openings::query_witness;
use crate::openings::twiddle_witness;
use crate::openings_checked::layer_opens;
use crate::openings_checked::leaves_of;
use crate::openings_checked::lemma_single_query_check;
use crate::openings_checked::lemma_twiddle_check;
use crate::openings_checked::twiddle_leaf;
use crate::openings_checked::twiddle_opens;
use crate::replay::challenges;
use crate::replay::lemma_fiat_shamir_round_trip;
use crate::rules::st;
use vstd::arithmetic::power2::pow2;
use vstd::prelude::*;

verus! {

/// End to end for the transcript. For a proof of the right shape and any
/// seed, the pushes of `push_fiat_shamir_input` followed by the program of
/// `check_fiat_shamir` for the proof's number of layers run to their end
/// and expose exactly the five queries and, above them, one challenge per
/// layer, those of a native replay of the proof from the seed. What the
/// auxiliary stack held before, it holds after.
pub proof fn lemma_transcript_of_proof(
    seed: Seq<u8>,
    proof: FriProof,
    logn: usize,
    aside: Seq<ItemV>,
)
    requires
        proof.shape_error(logn) is None,
    ensures
        run(
            pushes(
                fiat_shamir_witness(
                    seed,
                    commitment_rows(proof.commitments@),
                    limb_rows(proof.last_layer@),
                    logn,
                ),
            ) + check_fiat_shamir_program(seed, logn, proof.commitments@.len() as usize),
            st(Seq::empty(), aside),
        ) == Some(
            st(
                nums(
                    query_values(
                        seed,
                        commitment_rows(proof.commitments@),
                        limb_rows(proof.last_layer@),
                        logn,
                    ),
                ) + limb_items(challenges(seed, commitment_rows(proof.commitments@)).reverse()),
                aside,
            ),
        ),
        challenges(seed, commitment_rows(proof.commitments@)).len() == proof.n_layers(),
        query_values(
            seed,
            commitment_rows(proof.commitments@),
            limb_rows(proof.last_layer@),
            logn,
        ).len() == 5,
{
    lemma_fiat_shamir_round_trip(
        seed,
        commitment_rows(proof.commitments@),
        limb_rows(proof.last_layer@),
        logn,
        aside,
    );
}

/// The index in layer `l` that belongs to `query` in a domain of `2^logn`
/// points: `query mod 2^(logn - l)`.
pub open spec fn layer_index(query: u32, logn: usize, l: int) -> u32 {
    (query as int % pow2((logn - l) as nat) as int) as u32
}

/// Query-to-layer pairing. For a proof of the right shape with one layer
/// fewer than the domain can be halved, the pushes of
/// `push_single_query_merkle_tree_proof` for query `k`, the commitments and
/// a query index, followed by the program of
/// `check_single_query_merkle_tree_proof`, run to their end exactly if the
/// index is one of the domain and the opening of every layer `l` hashes to
/// that layer's commitment at the index `query mod 2^(logn - l)`; the
/// leaves of the layers are then what is left, and the auxiliary stack is
/// as it was.
pub proof fn lemma_layers_of_proof(
    proof: FriProof,
    logn: usize,
    k: int,
    query: u32,
    aside: Seq<ItemV>,
)
    requires
        proof.shape_error(logn) is None,
        logn >= 2,
        proof.n_layers() == logn - 1,
        0 <= k < 5,
    ensures
        run(
            pushes(
                (query_witness(proof.merkle_proofs@[k]@) + byte_items(
                    commitment_rows(proof.commitments@),
                )).push(ItemV::Num(query)),
            ) + check_single_query_program(logn),
            st(Seq::empty(), aside),
        ) == if query < pow2(logn as nat) && forall|l: int|
            0 <= l < proof.n_layers() ==> layer_opens(
                #[trigger] proof.merkle_proofs@[k]@[l],
                layer_index(query, logn, l),
                commitment_rows(proof.commitments@)[l],
                (logn - l) as nat,
            ) {
            Some(st(limb_items(leaves_of(proof.merkle_proofs@[k]@)), aside))
        } else {
            None
        },
{
    let openings = proof.merkle_proofs@[k]@;
    let roots = commitment_rows(proof.commitments@);
    assert(proof.query_fits(k, logn));
    lemma_single_query_check(openings, roots, query, logn, aside);
    assert forall|l: int| 0 <= l < proof.n_layers() implies layer_opens(
        #[trigger] openings[l],
        layer_index(query, logn, l),
        roots[l],
        (logn - l) as nat,
    ) == layer_opens(openings[l], query, roots[l], (logn - l) as nat) by {
        lemma_low_bits_are_the_index(query, (logn - l) as nat);
    }
}

/// Twiddle consistency. For a proof of the right shape, the pushes of
/// `push_twiddle_merkle_tree_proof` and five positions, followed by the
/// program of `check_twiddle_merkle_tree_proof`, run to their end exactly
/// if the opening of every query hashes to the root of the table at that
/// query's position; the five pairs are then what is left, and the
/// auxiliary stack is as it was.
pub proof fn lemma_twiddles_of_proof(
    proof: FriProof,
    logn: usize,
    positions: Seq<u32>,
    root: Seq<u8>,
    aside: Seq<ItemV>,
)
    requires
        proof.shape_error(logn) is None,
        positions.len() == 5,
    ensures
        logn >= 1,
        run(
            pushes(twiddle_witness(proof.twiddle_merkle_proofs@) + nums(positions))
                + check_twiddle_program(logn, root),
            st(Seq::empty(), aside),
        ) == if forall|q: int|
            0 <= q < 5 ==> twiddle_opens(
                #[trigger] proof.twiddle_merkle_proofs@[q],
                positions[q],
                root,
                (logn - 1) as nat,
            ) {
            Some(
                st(
                    join(
                        proof.twiddle_merkle_proofs@.map_values(
                            |p: TwiddleMerkleTreeProof| twiddle_leaf(p),
                        ),
                    ),
                    aside,
                ),
            )
        } else {
            None
        },
{
    assert(proof.twiddle_fits(0, logn));
    assert forall|q: int| 0 <= q < 5 implies (#[trigger] proof.twiddle_merkle_proofs@[q]).siblings@.len()
        == logn - 1 by {
        assert(proof.twiddle_fits(q, logn));
    }
    lemma_twiddle_check(proof.twiddle_merkle_proofs@, positions, root, logn, aside);
}

} // verus!
