//! The native transcript: a SHA-256 hash chain that absorbs commitments and
//! field elements and from which challenges are drawn.

use crate::extract::queries;
use crate::extract::quotients;
use crate::extract::raw_values;
use crate::extract::trim_m31;
use crate::extract::values;
use crate::extract::Extraction5M31;
use crate::extract::ExtractionQM31;
use crate::extract::Extractor;
use crate::fields::pack_limbs;
use crate::fields::M31;
use crate::fields::QM31;
use crate::hash::digest;
use crate::hash::hash_pair;
use vstd::prelude::*;

verus! {

/// A Merkle root that binds the prover to one layer's evaluations.
#[derive(Clone, Copy, Debug, PartialEq, Eq)]
pub struct Commitment(pub [u8; 32]);

/// The transcript state: the digest of everything absorbed and drawn so far.
#[derive(Clone, Copy, Debug, PartialEq, Eq)]
pub struct Channel {
    pub state: [u8; 32],
}

/// One operation on the transcript, by the plain values it carries.
pub enum ChannelOp {
    /// Absorb a 32-byte commitment.
    AbsorbCommitment(Seq<u8>),
    /// Absorb an extension-field element, given by its limbs.
    AbsorbQm31(Seq<u32>),
    /// Draw one extension-field element.
    DrawElement,
    /// Draw five query indices of the given bit length.
    Draw5Queries(nat),
}

/// The state that follows `state` under `op`.
///
/// An absorb hashes the state followed by the absorbed bytes. A draw hashes
/// the state followed by one zero byte; that one digest is both the new
/// state and what the challenge is read from.
pub open spec fn next_state(state: Seq<u8>, op: ChannelOp) -> Seq<u8> {
    match op {
        ChannelOp::AbsorbCommitment(c) => digest(state + c),
        ChannelOp::AbsorbQm31(limbs) => digest(state + pack_limbs(limbs)),
        ChannelOp::DrawElement => digest(state + seq![0u8]),
        ChannelOp::Draw5Queries(_) => digest(state + seq![0u8]),
    }
}

/// The values that `op` draws in `state`: four limbs, five indices, or none.
pub open spec fn drawn_values(state: Seq<u8>, op: ChannelOp) -> Seq<u32> {
    match op {
        ChannelOp::DrawElement => values(next_state(state, op), 4),
        ChannelOp::Draw5Queries(logn) => queries(next_state(state, op), logn),
        _ => Seq::empty(),
    }
}

/// The hint that `op` produces in `state`, empty for an absorb.
pub open spec fn drawn_hint(state: Seq<u8>, op: ChannelOp) -> Seq<u8> {
    match op {
        ChannelOp::DrawElement => quotients(next_state(state, op), 4),
        ChannelOp::Draw5Queries(_) => quotients(next_state(state, op), 5),
        _ => Seq::empty(),
    }
}

impl Channel {
    /// A transcript that starts from the seed `hash`.
    pub fn new(hash: [u8; 32]) -> (r: Channel)
        ensures
            r.state == hash,
    {
        Channel { state: hash }
    }

    /// Absorbs a commitment: the state becomes `H(state ‖ c)`.
    pub fn absorb_commitment(&mut self, c: &Commitment)
        ensures
            final(self).state@ == next_state(old(self).state@, ChannelOp::AbsorbCommitment(c.0@)),
    {
        self.state = hash_pair(self.state.as_slice(), c.0.as_slice());
    }

    /// Absorbs a field element: the state becomes `H(state ‖ pack(v))`.
    pub fn absorb_qm31(&mut self, v: &QM31)
        ensures
            final(self).state@ == next_state(old(self).state@, ChannelOp::AbsorbQm31(v.limbs())),
    {
        let packed = v.pack();
        self.state = hash_pair(self.state.as_slice(), packed.as_slice());
    }

    /// Draws one extension-field element: the state becomes
    /// `d = H(state ‖ 0x00)`, and the element and its hint are read from `d`.
    pub fn draw_element(&mut self) -> (r: (QM31, ExtractionQM31))
        ensures
            final(self).state@ == next_state(old(self).state@, ChannelOp::DrawElement),
            r.0.limbs() == drawn_values(old(self).state@, ChannelOp::DrawElement),
            r.0.canonical(),
            r.1.0@ == drawn_hint(old(self).state@, ChannelOp::DrawElement),
    {
        let zero: [u8; 1] = [0u8];
        assert(zero@ =~= seq![0u8]);
        let d = hash_pair(self.state.as_slice(), zero.as_slice());
        self.state = d;
        Extractor::extract_qm31(&d)
    }

    /// Draws five query indices below `2^logn`: the state becomes
    /// `d = H(state ‖ 0x00)`, and the indices and their hint are read from
    /// `d`, each index cut down to its low `logn` bits.
    pub fn draw_5queries(&mut self, logn: usize) -> (r: ([M31; 5], Extraction5M31))
        ensures
            final(self).state@ == next_state(
                old(self).state@,
                ChannelOp::Draw5Queries(logn as nat),
            ),
            raw_values(r.0@) == drawn_values(
                old(self).state@,
                ChannelOp::Draw5Queries(logn as nat),
            ),
            r.1.0@ == drawn_hint(old(self).state@, ChannelOp::Draw5Queries(logn as nat)),
    {
        let zero: [u8; 1] = [0u8];
        assert(zero@ =~= seq![0u8]);
        let d = hash_pair(self.state.as_slice(), zero.as_slice());
        self.state = d;
        let (raw, hint) = Extractor::extract_5m31(&d);
        let trimmed = [
            M31(trim_m31(raw[0].0, logn)),
            M31(trim_m31(raw[1].0, logn)),
            M31(trim_m31(raw[2].0, logn)),
            M31(trim_m31(raw[3].0, logn)),
            M31(trim_m31(raw[4].0, logn)),
        ];
        proof {
            let vals = values(d@, 5);
            assert(raw_values(raw@)[0] == vals[0]);
            assert(raw_values(raw@)[1] == vals[1]);
            assert(raw_values(raw@)[2] == vals[2]);
            assert(raw_values(raw@)[3] == vals[3]);
            assert(raw_values(raw@)[4] == vals[4]);
            assert(raw_values(trimmed@) =~= queries(d@, logn as nat));
        }
        (trimmed, hint)
    }
}

/// A record of one run of the transcript: the state before each operation
/// and after the last, and what each operation drew.
pub struct Run {
    pub states: Seq<Seq<u8>>,
    pub values: Seq<Seq<u32>>,
    pub hints: Seq<Seq<u8>>,
}

/// `run` is what the operations `ops` do to a transcript seeded with `seed`.
pub open spec fn is_run(seed: Seq<u8>, ops: Seq<ChannelOp>, run: Run) -> bool {
    &&& run.states.len() == ops.len() + 1
    &&& run.values.len() == ops.len()
    &&& run.hints.len() == ops.len()
    &&& run.states[0] == seed
    &&& forall|i: int|
        0 <= i < ops.len() ==> {
            &&& #[trigger] run.states[i + 1] == next_state(run.states[i], ops[i])
            &&& run.values[i] == drawn_values(run.states[i], ops[i])
            &&& run.hints[i] == drawn_hint(run.states[i], ops[i])
        }
}

/// Determinism: two runs of the transcript from the same seed over the same
/// operations pass through the same states and draw the same values and
/// hints.
pub proof fn lemma_runs_agree(seed: Seq<u8>, ops: Seq<ChannelOp>, a: Run, b: Run)
    requires
        is_run(seed, ops, a),
        is_run(seed, ops, b),
    ensures
        a.states == b.states,
        a.values == b.values,
        a.hints == b.hints,
{
    lemma_states_agree(seed, ops, a, b, ops.len() as int);
    assert(a.states =~= b.states);
    assert forall|i: int| 0 <= i < ops.len() implies a.values[i] == b.values[i] && a.hints[i]
        == b.hints[i] by {
        assert(a.states[i + 1] == next_state(a.states[i], ops[i]));
        assert(b.states[i + 1] == next_state(b.states[i], ops[i]));
    }
    assert(a.values =~= b.values);
    assert(a.hints =~= b.hints);
}

proof fn lemma_states_agree(seed: Seq<u8>, ops: Seq<ChannelOp>, a: Run, b: Run, n: int)
    requires
        is_run(seed, ops, a),
        is_run(seed, ops, b),
        0 <= n <= ops.len(),
    ensures
        forall|i: int| 0 <= i <= n ==> a.states[i] == b.states[i],
    decreases n,
{
    if n > 0 {
        lemma_states_agree(seed, ops, a, b, n - 1);
        assert(a.states[n - 1 + 1] == next_state(a.states[n - 1], ops[n - 1]));
        assert(b.states[n - 1 + 1] == next_state(b.states[n - 1], ops[n - 1]));
    }
}

} // verus!
