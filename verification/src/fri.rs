//! The FRI verifier's transcript on the constrained machine: the witness
//! that is pushed for it and the program that replays it.

use crate::channel::drawn_hint;
use crate::channel::drawn_values;
use crate::channel::next_state;
use crate::channel::Channel;
use crate::channel::ChannelOp;
use crate::channel_gadget::absorb_commitment_program;
use crate::channel_gadget::absorb_qm31_program;
use crate::channel_gadget::draw_5queries_program;
use crate::channel_gadget::draw_element_program;
use crate::channel_gadget::new_program;
use crate::channel_gadget::ChannelGadget;
use crate::extract::power_of_two;
use crate::fri_proof::commitment_rows;
use crate::fri_proof::limb_rows;
use crate::fri_proof::FriError;
use crate::fri_proof::FriProof;
use crate::fri_proof::MAX_LOGN;
use crate::machine::byte_items;
use crate::machine::nums;
use crate::machine::pushes;
use crate::machine::ItemV;
use crate::script::repeat;
use crate::script::Instr;
use crate::script::InstrV;
use crate::script::Script;
use vstd::arithmetic::power2::pow2;
use vstd::prelude::*;

verus! {

/// The transcript state after the first `i` layers: each layer absorbs its
/// commitment and draws one challenge.
pub open spec fn layer_state(seed: Seq<u8>, comms: Seq<Seq<u8>>, i: nat) -> Seq<u8>
    decreases i,
{
    if i == 0 {
        seed
    } else {
        next_state(
            next_state(
                layer_state(seed, comms, (i - 1) as nat),
                ChannelOp::AbsorbCommitment(comms[i - 1]),
            ),
            ChannelOp::DrawElement,
        )
    }
}

/// The state in which the challenge of layer `i` is drawn.
pub open spec fn challenge_state(seed: Seq<u8>, comms: Seq<Seq<u8>>, i: nat) -> Seq<u8> {
    next_state(layer_state(seed, comms, i), ChannelOp::AbsorbCommitment(comms[i as int]))
}

/// The folding challenge of layer `i`, as four limbs.
pub open spec fn challenge(seed: Seq<u8>, comms: Seq<Seq<u8>>, i: nat) -> Seq<u32> {
    drawn_values(challenge_state(seed, comms, i), ChannelOp::DrawElement)
}

/// The hint that goes with the challenge of layer `i`.
pub open spec fn challenge_hint(seed: Seq<u8>, comms: Seq<Seq<u8>>, i: nat) -> Seq<u8> {
    drawn_hint(challenge_state(seed, comms, i), ChannelOp::DrawElement)
}

/// The hints of all layers, in the order of the draws.
pub open spec fn challenge_hints(seed: Seq<u8>, comms: Seq<Seq<u8>>) -> Seq<Seq<u8>> {
    Seq::new(comms.len(), |i: int| challenge_hint(seed, comms, i as nat))
}

/// The state after `state` has absorbed the first `j` values of `last`.
pub open spec fn absorbed_state(state: Seq<u8>, last: Seq<Seq<u32>>, j: nat) -> Seq<u8>
    decreases j,
{
    if j == 0 {
        state
    } else {
        next_state(absorbed_state(state, last, (j - 1) as nat), ChannelOp::AbsorbQm31(last[j - 1]))
    }
}

/// The state in which the queries are drawn: after all layers and all
/// values of the last layer.
pub open spec fn query_state(seed: Seq<u8>, comms: Seq<Seq<u8>>, last: Seq<Seq<u32>>) -> Seq<u8> {
    absorbed_state(layer_state(seed, comms, comms.len()), last, last.len())
}

/// The five query indices.
pub open spec fn query_values(
    seed: Seq<u8>,
    comms: Seq<Seq<u8>>,
    last: Seq<Seq<u32>>,
    logn: usize,
) -> Seq<u32> {
    drawn_values(query_state(seed, comms, last), ChannelOp::Draw5Queries(logn as nat))
}

/// The hint that goes with the five query indices.
pub open spec fn query_hint(
    seed: Seq<u8>,
    comms: Seq<Seq<u8>>,
    last: Seq<Seq<u32>>,
    logn: usize,
) -> Seq<u8> {
    drawn_hint(query_state(seed, comms, last), ChannelOp::Draw5Queries(logn as nat))
}

/// The state at the end of the transcript.
pub open spec fn final_state(
    seed: Seq<u8>,
    comms: Seq<Seq<u8>>,
    last: Seq<Seq<u32>>,
    logn: usize,
) -> Seq<u8> {
    next_state(query_state(seed, comms, last), ChannelOp::Draw5Queries(logn as nat))
}

/// The limbs of the elements `rows` as stack items, the first element
/// lowest.
pub open spec fn limb_items(rows: Seq<Seq<u32>>) -> Seq<ItemV>
    decreases rows.len(),
{
    if rows.len() == 0 {
        Seq::empty()
    } else {
        limb_items(rows.drop_last()) + nums(rows.last())
    }
}

/// The hints of the witness: one per layer in the order of the draws, then
/// the one of the queries.
pub open spec fn witness_hints(
    seed: Seq<u8>,
    comms: Seq<Seq<u8>>,
    last: Seq<Seq<u32>>,
    logn: usize,
) -> Seq<ItemV> {
    byte_items(challenge_hints(seed, comms)).push(
        ItemV::Bytes(query_hint(seed, comms, last, logn)),
    )
}

/// The witness of the transcript, in the order in which it is pushed: the
/// hints, then the values of the last layer, the last one first, then the
/// commitments, the last one first. What the program needs last lies
/// lowest.
pub open spec fn fiat_shamir_witness(
    seed: Seq<u8>,
    comms: Seq<Seq<u8>>,
    last: Seq<Seq<u32>>,
    logn: usize,
) -> Seq<ItemV> {
    witness_hints(seed, comms, last, logn) + limb_items(last.reverse()) + byte_items(
        comms.reverse(),
    )
}

/// One layer of the replay: bring the commitment above the state, absorb
/// it, draw the challenge and put it aside.
pub open spec fn layer_program() -> Seq<InstrV> {
    seq![InstrV::Swap] + absorb_commitment_program() + draw_element_program()
        + seq![InstrV::Qm31ToAltStack]
}

/// Brings the four limbs that lie below the state above it, in their
/// order.
pub open spec fn raise_limbs_program() -> Seq<InstrV> {
    seq![
        InstrV::PushNum(4),
        InstrV::Roll,
        InstrV::PushNum(4),
        InstrV::Roll,
        InstrV::PushNum(4),
        InstrV::Roll,
        InstrV::PushNum(4),
        InstrV::Roll,
    ]
}

/// One value of the last layer: bring it above the state and absorb it.
pub open spec fn last_layer_program() -> Seq<InstrV> {
    raise_limbs_program() + absorb_qm31_program()
}

/// Removes the transcript state that lies below the five queries.
pub open spec fn drop_state_program() -> Seq<InstrV> {
    seq![InstrV::PushNum(5), InstrV::Roll, InstrV::Drop]
}

/// The replay of the whole transcript.
pub open spec fn check_fiat_shamir_program(seed: Seq<u8>, logn: usize, n_layers: usize) -> Seq<
    InstrV,
> {
    new_program(seed) + repeat(layer_program(), n_layers as nat) + repeat(
        last_layer_program(),
        pow2((logn - n_layers) as nat),
    ) + draw_5queries_program(logn) + drop_state_program() + repeat(
        seq![InstrV::Qm31FromAltStack],
        n_layers as nat,
    )
}

/// The first reason for which no replay program exists for `n_layers`
/// layers over a domain of `2^logn` points; `None` if one exists.
pub open spec fn replay_error(logn: usize, n_layers: usize) -> Option<FriError> {
    if logn > MAX_LOGN {
        Some(FriError::DomainTooLarge)
    } else if n_layers > logn {
        Some(FriError::TooManyLayers)
    } else {
        None
    }
}

/// `a` and then `b`, as pushes.
pub proof fn lemma_pushes_add(a: Seq<ItemV>, b: Seq<ItemV>)
    ensures
        pushes(a + b) == pushes(a) + pushes(b),
{
    assert(pushes(a + b) =~= pushes(a) + pushes(b));
}

/// The emitters of the FRI programs.
pub struct FRIGadget;

impl FRIGadget {
    /// Replays the transcript of `proof` on `channel` and emits the pushes
    /// of the witness that `check_fiat_shamir` consumes.
    ///
    /// A proof without the shape of a proof for `2^logn` points is refused
    /// and leaves the channel as it was.
    pub fn push_fiat_shamir_input(channel: &mut Channel, logn: usize, proof: &FriProof) -> (r:
        Result<Script, FriError>)
        ensures
            match proof.shape_error(logn) {
                Some(e) => r == Err::<Script, FriError>(e) && *final(channel) == *old(channel),
                None => r is Ok && r->Ok_0@ == pushes(
                    fiat_shamir_witness(
                        old(channel).state@,
                        commitment_rows(proof.commitments@),
                        limb_rows(proof.last_layer@),
                        logn,
                    ),
                ) && final(channel).state@ == final_state(
                    old(channel).state@,
                    commitment_rows(proof.commitments@),
                    limb_rows(proof.last_layer@),
                    logn,
                ),
            },
    {
        match proof.validate(logn) {
            Err(e) => {
                return Err(e);
            },
            Ok(_) => {},
        }
        let ghost seed = channel.state@;
        let ghost comms = commitment_rows(proof.commitments@);
        let ghost last = limb_rows(proof.last_layer@);
        let ghost hints = challenge_hints(seed, comms);
        let n = proof.commitments.len();
        let k = proof.last_layer.len();
        let mut script = Script::new();
        let mut i: usize = 0;
        assert(script@ =~= pushes(byte_items(hints.take(0))));
        while i < n
            invariant
                i <= n == proof.commitments.len(),
                comms == commitment_rows(proof.commitments@),
                hints == challenge_hints(seed, comms),
                channel.state@ == layer_state(seed, comms, i as nat),
                script@ == pushes(byte_items(hints.take(i as int))),
            decreases n - i,
        {
            channel.absorb_commitment(&proof.commitments[i]);
            let res = channel.draw_element();
            script.push_bytes(res.1.0.as_slice());
            assert(comms[i as int] == proof.commitments@[i as int].0@);
            assert(res.1.0@ == hints[i as int]);
            assert(script@ =~= pushes(byte_items(hints.take(i + 1))));
            i = i + 1;
        }
        assert(hints.take(n as int) =~= hints);
        let ghost mid = layer_state(seed, comms, n as nat);
        let mut j: usize = 0;
        while j < k
            invariant
                j <= k == proof.last_layer.len(),
                last == limb_rows(proof.last_layer@),
                channel.state@ == absorbed_state(mid, last, j as nat),
            decreases k - j,
        {
            channel.absorb_qm31(&proof.last_layer[j]);
            assert(last[j as int] == proof.last_layer@[j as int].limbs());
            j = j + 1;
        }
        let res = channel.draw_5queries(logn);
        script.push_bytes(res.1.0.as_slice());
        let ghost w_hints = witness_hints(seed, comms, last, logn);
        assert(script@ =~= pushes(w_hints));
        let ghost rev = last.reverse();
        let mut j: usize = k;
        assert(rev.take(0) =~= Seq::<Seq<u32>>::empty());
        assert(script@ =~= pushes(w_hints + limb_items(rev.take(0))));
        while j > 0
            invariant
                j <= k == proof.last_layer.len(),
                last == limb_rows(proof.last_layer@),
                rev == last.reverse(),
                script@ == pushes(w_hints + limb_items(rev.take(k - j))),
            decreases j,
        {
            j = j - 1;
            script.push_qm31(&proof.last_layer[j]);
            proof {
                let t = k - j - 1;
                let part = rev.take(t + 1);
                assert(part.drop_last() =~= rev.take(t));
                assert(part.last() == proof.last_layer@[j as int].limbs());
                lemma_pushes_add(w_hints + limb_items(rev.take(t)), nums(part.last()));
                assert(w_hints + limb_items(rev.take(t)) + nums(part.last()) =~= w_hints
                    + limb_items(part));
            }
        }
        assert(rev.take(k as int) =~= rev);
        let ghost w_mid = w_hints + limb_items(rev);
        let ghost crev = comms.reverse();
        let mut i: usize = n;
        assert(script@ =~= pushes(w_mid + byte_items(crev.take(0))));
        while i > 0
            invariant
                i <= n == proof.commitments.len(),
                comms == commitment_rows(proof.commitments@),
                crev == comms.reverse(),
                script@ == pushes(w_mid + byte_items(crev.take(n - i))),
            decreases i,
        {
            i = i - 1;
            script.push_bytes(proof.commitments[i].0.as_slice());
            proof {
                let t = n - i - 1;
                assert(crev[t] == proof.commitments@[i as int].0@);
                assert(pushes(w_mid + byte_items(crev.take(t))).push(
                    InstrV::PushBytes(crev[t]),
                ) =~= pushes(w_mid + byte_items(crev.take(t + 1))));
            }
        }
        assert(crev.take(n as int) =~= crev);
        Ok(script)
    }

    /// Emits the program that replays the transcript from `channel_init_state`
    /// over `n_layers` layers and `2^(logn - n_layers)` values of the last
    /// layer, and leaves the five queries and above them the challenges,
    /// the one of the first layer on top.
    pub fn check_fiat_shamir(channel_init_state: &[u8; 32], logn: usize, n_layers: usize) -> (r:
        Result<Script, FriError>)
        ensures
            match replay_error(logn, n_layers) {
                Some(e) => r == Err::<Script, FriError>(e),
                None => r is Ok && r->Ok_0@ == check_fiat_shamir_program(
                    channel_init_state@,
                    logn,
                    n_layers,
                ),
            },
    {
        if logn > MAX_LOGN {
            return Err(FriError::DomainTooLarge);
        }
        if n_layers > logn {
            return Err(FriError::TooManyLayers);
        }
        let n_last_layer: usize = power_of_two(logn - n_layers) as usize;
        let mut script = ChannelGadget::new(*channel_init_state);

        let mut layer = Script::new();
        layer.push(Instr::Swap);
        layer.extend(&ChannelGadget::absorb_commitment());
        layer.extend(&ChannelGadget::draw_element_using_hint());
        layer.push(Instr::Qm31ToAltStack);
        assert(layer@ =~= layer_program());
        script.extend_repeated(&layer, n_layers);

        let mut value = Script::new();
        value.push_num(4);
        value.push(Instr::Roll);
        value.push_num(4);
        value.push(Instr::Roll);
        value.push_num(4);
        value.push(Instr::Roll);
        value.push_num(4);
        value.push(Instr::Roll);
        value.extend(&ChannelGadget::absorb_qm31());
        assert(value@ =~= last_layer_program());
        script.extend_repeated(&value, n_last_layer);

        script.extend(&ChannelGadget::draw_5queries_using_hint(logn));

        script.push_num(5);
        script.push(Instr::Roll);
        script.push(Instr::Drop);

        let mut restore = Script::new();
        restore.push(Instr::Qm31FromAltStack);
        assert(restore@ =~= seq![InstrV::Qm31FromAltStack]);
        script.extend_repeated(&restore, n_layers);
        assert(script@ =~= check_fiat_shamir_program(channel_init_state@, logn, n_layers));
        Ok(script)
    }
}

} // verus!
