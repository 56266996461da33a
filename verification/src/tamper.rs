//! What a changed input does. A run never exposes anything but the values
//! of the native replay of what it was given: with changed data it aborts,
//! or it leaves the values that belong to the changed data. That these
//! differ from the values of the unchanged data is the collision
//! resistance of SHA-256, which is no theorem; what is proved here is that
//! a change goes unnoticed only through a collision.

use crate::channel::next_state;
use crate::channel::ChannelOp;
use crate::fields::pack_limbs;
use crate::fri::challenge_hints;
use crate::fri::check_fiat_shamir_program;
use crate::fri::limb_items;
use crate::fri::query_hint;
use crate::fri::query_values;
use crate::fri_proof::digest_rows;
use crate::fri_proof::MAX_LOGN;
use crate::hash::digest;
use crate::machine::byte_items;
use crate::machine::nums;
use crate::machine::pushes;
use crate::machine::run;
use crate::machine::ItemV;
use crate::merkle::MerkleTreeProof;
use crate::merkle::TwiddleMerkleTreeProof;
use crate::openings::check_single_query_program;
use crate::openings::check_twiddle_program;
use crate::openings::query_witness;
use crate::openings::twiddle_witness;
use crate::openings_checked::layer_opens;
use crate::openings_checked::lemma_single_query_check;
use crate::openings_checked::lemma_twiddle_check;
use crate::openings_checked::twiddle_opens;
use crate::replay::challenges;
use crate::replay::lemma_fiat_shamir_replay;
use crate::replay::witness_with_hints;
use crate::rules::st;
use crate::wire_laws::lemma_pack_injective;
use vstd::arithmetic::power2::pow2;
use vstd::prelude::*;

verus! {

/// Two different messages with the same digest.
pub open spec fn collide(x: Seq<u8>, y: Seq<u8>) -> bool {
    x != y && digest(x) == digest(y)
}

/// A changed commitment changes the state, unless the two messages that
/// are hashed collide.
pub proof fn lemma_changed_commitment(state: Seq<u8>, c: Seq<u8>, changed: Seq<u8>)
    requires
        c != changed,
    ensures
        next_state(state, ChannelOp::AbsorbCommitment(c)) != next_state(
            state,
            ChannelOp::AbsorbCommitment(changed),
        ) || collide(state + c, state + changed),
{
    assert((state + c).skip(state.len() as int) =~= c);
    assert((state + changed).skip(state.len() as int) =~= changed);
}

/// A changed field element changes the state, unless the two messages
/// that are hashed collide: the encoding tells any two elements apart.
pub proof fn lemma_changed_value(state: Seq<u8>, limbs: Seq<u32>, changed: Seq<u32>)
    requires
        limbs.len() == 4,
        changed.len() == 4,
        limbs != changed,
    ensures
        next_state(state, ChannelOp::AbsorbQm31(limbs)) != next_state(
            state,
            ChannelOp::AbsorbQm31(changed),
        ) || collide(state + pack_limbs(limbs), state + pack_limbs(changed)),
{
    assert((state + pack_limbs(limbs)).skip(state.len() as int) =~= pack_limbs(limbs));
    assert((state + pack_limbs(changed)).skip(state.len() as int) =~= pack_limbs(changed));
    if pack_limbs(limbs) == pack_limbs(changed) {
        lemma_pack_injective(limbs, changed);
    }
}

/// A changed seed changes the state after an absorb, unless the two
/// messages that are hashed collide.
pub proof fn lemma_changed_seed(seed: Seq<u8>, changed: Seq<u8>, c: Seq<u8>)
    requires
        seed.len() == changed.len(),
        seed != changed,
    ensures
        next_state(seed, ChannelOp::AbsorbCommitment(c)) != next_state(
            changed,
            ChannelOp::AbsorbCommitment(c),
        ) || collide(seed + c, changed + c),
{
    assert((seed + c).take(seed.len() as int) =~= seed);
    assert((changed + c).take(seed.len() as int) =~= changed);
}

/// The replay exposes native values only. Whatever hints are pushed with
/// a transcript, and whatever seed the program is built for: the run
/// aborts, or it leaves exactly the queries and challenges of the native
/// replay of the pushed commitments and last-layer values from the
/// program's seed. So with one byte of a hint, a commitment, a last-layer
/// value or the seed changed, the run aborts or leaves the values that
/// belong to the changed transcript, never others.
pub proof fn lemma_replay_exposes_native_values_only(
    seed: Seq<u8>,
    comms: Seq<Seq<u8>>,
    last: Seq<Seq<u32>>,
    logn: usize,
    hs: Seq<Seq<u8>>,
    qh: Seq<u8>,
    aside: Seq<ItemV>,
)
    requires
        hs.len() == comms.len() <= logn <= MAX_LOGN,
        last.len() == pow2((logn - comms.len()) as nat),
        forall|t: int| 0 <= t < last.len() ==> (#[trigger] last[t]).len() == 4,
    ensures
        match run(
            pushes(witness_with_hints(hs, qh, comms, last)) + check_fiat_shamir_program(
                seed,
                logn,
                comms.len() as usize,
            ),
            st(Seq::empty(), aside),
        ) {
            Some(end) => end == st(
                nums(query_values(seed, comms, last, logn)) + limb_items(
                    challenges(seed, comms).reverse(),
                ),
                aside,
            ) && hs == challenge_hints(seed, comms) && qh == query_hint(seed, comms, last, logn),
            None => hs != challenge_hints(seed, comms) || qh != query_hint(seed, comms, last, logn),
        },
{
    lemma_fiat_shamir_replay(seed, comms, last, logn, hs, qh, aside);
}

/// With openings that open the trees of the given roots, the layer check
/// of a query aborts as soon as one of the roots is another.
pub proof fn lemma_changed_root_aborts(
    openings: Seq<MerkleTreeProof>,
    roots: Seq<Seq<u8>>,
    changed: Seq<Seq<u8>>,
    query: u32,
    logn: usize,
    aside: Seq<ItemV>,
)
    requires
        2 <= logn <= MAX_LOGN,
        openings.len() == roots.len() == changed.len() == logn - 1,
        forall|l: int|
            0 <= l < openings.len() ==> (#[trigger] openings[l]).siblings@.len() == logn - l,
        forall|l: int|
            0 <= l < openings.len() ==> layer_opens(
                #[trigger] openings[l],
                query,
                roots[l],
                (logn - l) as nat,
            ),
        roots != changed,
    ensures
        run(
            pushes((query_witness(openings) + byte_items(changed)).push(ItemV::Num(query)))
                + check_single_query_program(logn),
            st(Seq::empty(), aside),
        ) is None,
{
    lemma_single_query_check(openings, changed, query, logn, aside);
    if forall|l: int|
        0 <= l < openings.len() ==> layer_opens(
            #[trigger] openings[l],
            query,
            changed[l],
            (logn - l) as nat,
        ) {
        assert forall|l: int| 0 <= l < roots.len() implies roots[l] == changed[l] by {
            assert(layer_opens(openings[l], query, roots[l], (logn - l) as nat));
            assert(layer_opens(openings[l], query, changed[l], (logn - l) as nat));
        }
        assert(roots =~= changed);
    }
}

/// With openings that open the twiddle table of one root, the twiddle
/// check against another root aborts.
pub proof fn lemma_changed_twiddle_root_aborts(
    proofs: Seq<TwiddleMerkleTreeProof>,
    positions: Seq<u32>,
    root: Seq<u8>,
    changed: Seq<u8>,
    logn: usize,
    aside: Seq<ItemV>,
)
    requires
        logn >= 1,
        proofs.len() == 5,
        positions.len() == 5,
        forall|q: int| 0 <= q < 5 ==> (#[trigger] proofs[q]).siblings@.len() == logn - 1,
        forall|q: int|
            0 <= q < 5 ==> twiddle_opens(#[trigger] proofs[q], positions[q], root, (logn - 1) as nat),
        root != changed,
    ensures
        run(
            pushes(twiddle_witness(proofs) + nums(positions)) + check_twiddle_program(logn, changed),
            st(Seq::empty(), aside),
        ) is None,
{
    lemma_twiddle_check(proofs, positions, changed, logn, aside);
    assert(twiddle_opens(proofs[0], positions[0], root, (logn - 1) as nat));
    assert(!twiddle_opens(proofs[0], positions[0], changed, (logn - 1) as nat));
}

} // verus!
