//! The transcript on the constrained machine: programs that do to a state
//! on the stack what the native transcript does to its own.
//!
//! Every program here expects the transcript state on top of the stack, or
//! directly below the value that it absorbs, and leaves the new state in
//! the same place. A draw leaves the drawn values above the new state.

use crate::channel::drawn_hint;
use crate::channel::drawn_values;
use crate::channel::next_state;
use crate::channel::ChannelOp;
use crate::extract::quotients;
use crate::extract::values;
use crate::hash::digest;
use crate::machine::nums;
use crate::machine::run;
use crate::machine::ItemV;
use crate::extract::queries;
use crate::extract::Extraction5M31;
use crate::extract::ExtractionQM31;
use crate::fields::pack_limbs;
use crate::machine::lemma_run_concat;
use crate::machine::lemma_run_ends;
use crate::machine::lemma_run_prefix;
use crate::machine::lemma_run_push;
use crate::rules::rule_cat;
use crate::rules::rule_commit;
use crate::rules::rule_dup;
use crate::rules::rule_from_alt;
use crate::rules::rule_push_bytes;
use crate::rules::rule_sha256;
use crate::rules::rule_to_alt;
use crate::rules::rule_trim;
use crate::rules::rule_unpack;
use crate::rules::st;
use crate::script::Instr;
use crate::script::InstrV;
use crate::script::Script;
use vstd::prelude::*;

verus! {

/// The program that starts a transcript: it pushes the seed.
pub open spec fn new_program(hash: Seq<u8>) -> Seq<InstrV> {
    seq![InstrV::PushBytes(hash)]
}

/// The program that absorbs the commitment on top into the state below it.
pub open spec fn absorb_commitment_program() -> Seq<InstrV> {
    seq![InstrV::Cat, InstrV::Sha256]
}

/// The program that absorbs the four limbs on top into the state below
/// them.
pub open spec fn absorb_qm31_program() -> Seq<InstrV> {
    seq![InstrV::CommitQm31, InstrV::Cat, InstrV::Sha256]
}

/// The program that derives the digest of a draw from the state on top and
/// leaves it twice: once as the new state, once to read the challenge from.
pub open spec fn ratchet_program() -> Seq<InstrV> {
    seq![InstrV::PushBytes(seq![0u8]), InstrV::Cat, InstrV::Sha256, InstrV::Dup]
}

/// The program that draws one extension-field element.
pub open spec fn draw_element_program() -> Seq<InstrV> {
    ratchet_program().push(InstrV::UnpackQm31)
}

/// The program that draws five query indices of `logn` bits: four of the
/// five raw values wait on the auxiliary stack while the next one is cut
/// down, and come back in their order.
pub open spec fn draw_5queries_program(logn: usize) -> Seq<InstrV> {
    ratchet_program() + seq![
        InstrV::Unpack5M31,
        InstrV::TrimM31(logn),
        InstrV::ToAltStack,
        InstrV::TrimM31(logn),
        InstrV::ToAltStack,
        InstrV::TrimM31(logn),
        InstrV::ToAltStack,
        InstrV::TrimM31(logn),
        InstrV::ToAltStack,
        InstrV::TrimM31(logn),
        InstrV::FromAltStack,
        InstrV::FromAltStack,
        InstrV::FromAltStack,
        InstrV::FromAltStack,
    ]
}

/// The emitters of the hint pushes.
pub struct ExtractorGadget;

impl ExtractorGadget {
    /// Pushes the hint of one drawn extension-field element.
    pub fn push_hint_qm31(hint: &ExtractionQM31) -> (r: Script)
        ensures
            r@ == seq![InstrV::PushBytes(hint.0@)],
    {
        let mut r = Script::new();
        r.push_bytes(hint.0.as_slice());
        assert(r@ =~= seq![InstrV::PushBytes(hint.0@)]);
        r
    }

    /// Pushes the hint of one batch of five drawn query indices.
    pub fn push_hint_5m31(hint: &Extraction5M31) -> (r: Script)
        ensures
            r@ == seq![InstrV::PushBytes(hint.0@)],
    {
        let mut r = Script::new();
        r.push_bytes(hint.0.as_slice());
        assert(r@ =~= seq![InstrV::PushBytes(hint.0@)]);
        r
    }
}

/// The emitters of the transcript programs.
pub struct ChannelGadget;

impl ChannelGadget {
    /// Pushes the seed of a transcript.
    pub fn new(hash: [u8; 32]) -> (r: Script)
        ensures
            r@ == new_program(hash@),
    {
        let mut r = Script::new();
        r.push_bytes(hash.as_slice());
        assert(r@ =~= new_program(hash@));
        r
    }

    /// Absorbs the commitment on top into the state below it.
    pub fn absorb_commitment() -> (r: Script)
        ensures
            r@ == absorb_commitment_program(),
    {
        let mut r = Script::new();
        r.push(Instr::Cat);
        r.push(Instr::Sha256);
        assert(r@ =~= absorb_commitment_program());
        r
    }

    /// Absorbs the field element on top into the state below it.
    pub fn absorb_qm31() -> (r: Script)
        ensures
            r@ == absorb_qm31_program(),
    {
        let mut r = Script::new();
        r.push(Instr::CommitQm31);
        r.push(Instr::Cat);
        r.push(Instr::Sha256);
        assert(r@ =~= absorb_qm31_program());
        r
    }

    fn ratchet() -> (r: Script)
        ensures
            r@ == ratchet_program(),
    {
        let mut r = Script::new();
        let zero: [u8; 1] = [0u8];
        assert(zero@ =~= seq![0u8]);
        r.push_bytes(zero.as_slice());
        r.push(Instr::Cat);
        r.push(Instr::Sha256);
        r.push(Instr::Dup);
        assert(r@ =~= ratchet_program());
        r
    }

    /// Draws one extension-field element from the state on top, checking
    /// the hint at the bottom of the stack.
    pub fn draw_element_using_hint() -> (r: Script)
        ensures
            r@ == draw_element_program(),
    {
        let mut r = Self::ratchet();
        r.push(Instr::UnpackQm31);
        r
    }

    /// Draws five query indices of `logn` bits from the state on top,
    /// checking the hint at the bottom of the stack.
    pub fn draw_5queries_using_hint(logn: usize) -> (r: Script)
        ensures
            r@ == draw_5queries_program(logn),
    {
        let mut r = Self::ratchet();
        r.push(Instr::Unpack5M31);
        r.push(Instr::TrimM31(logn));
        r.push(Instr::ToAltStack);
        r.push(Instr::TrimM31(logn));
        r.push(Instr::ToAltStack);
        r.push(Instr::TrimM31(logn));
        r.push(Instr::ToAltStack);
        r.push(Instr::TrimM31(logn));
        r.push(Instr::ToAltStack);
        r.push(Instr::TrimM31(logn));
        r.push(Instr::FromAltStack);
        r.push(Instr::FromAltStack);
        r.push(Instr::FromAltStack);
        r.push(Instr::FromAltStack);
        assert(r@ =~= draw_5queries_program(logn));
        r
    }
}

/// On the machine, absorbing a commitment does to the state what
/// `Channel::absorb_commitment` does: with the state and above it the
/// commitment on top, the program leaves the next state in their place.
pub proof fn lemma_absorb_commitment(base: Seq<ItemV>, alt: Seq<ItemV>, state: Seq<u8>, c: Seq<u8>)
    ensures
        run(
            absorb_commitment_program(),
            st(base.push(ItemV::Bytes(state)).push(ItemV::Bytes(c)), alt),
        ) == Some(
            st(base.push(ItemV::Bytes(next_state(state, ChannelOp::AbsorbCommitment(c)))), alt),
        ),
{
    let p = absorb_commitment_program();
    let s0 = st(base.push(ItemV::Bytes(state)).push(ItemV::Bytes(c)), alt);
    let s1 = st(base.push(ItemV::Bytes(state + c)), alt);
    let s2 = st(base.push(ItemV::Bytes(digest(state + c))), alt);
    lemma_run_ends(p, s0);
    rule_cat(base, alt, state, c);
    lemma_run_prefix(p, 0, s0, s0, s1);
    rule_sha256(base, alt, state + c);
    lemma_run_prefix(p, 1, s0, s1, s2);
}

/// On the machine, absorbing a field element does to the state what
/// `Channel::absorb_qm31` does: with the state and above it the four limbs
/// on top, the program leaves the next state in their place.
pub proof fn lemma_absorb_qm31(base: Seq<ItemV>, alt: Seq<ItemV>, state: Seq<u8>, limbs: Seq<u32>)
    requires
        limbs.len() == 4,
    ensures
        run(absorb_qm31_program(), st(base.push(ItemV::Bytes(state)) + nums(limbs), alt)) == Some(
            st(base.push(ItemV::Bytes(next_state(state, ChannelOp::AbsorbQm31(limbs)))), alt),
        ),
{
    let p = absorb_qm31_program();
    let packed = pack_limbs(limbs);
    let s0 = st(base.push(ItemV::Bytes(state)) + nums(limbs), alt);
    let s1 = st(base.push(ItemV::Bytes(state)).push(ItemV::Bytes(packed)), alt);
    let s2 = st(base.push(ItemV::Bytes(state + packed)), alt);
    let s3 = st(base.push(ItemV::Bytes(digest(state + packed))), alt);
    lemma_run_ends(p, s0);
    rule_commit(base.push(ItemV::Bytes(state)), alt, limbs);
    lemma_run_prefix(p, 0, s0, s0, s1);
    rule_cat(base, alt, state, packed);
    lemma_run_prefix(p, 1, s0, s1, s2);
    rule_sha256(base, alt, state + packed);
    lemma_run_prefix(p, 2, s0, s2, s3);
}

/// The digest of a draw in `state`.
pub open spec fn draw_digest(state: Seq<u8>) -> Seq<u8> {
    digest(state + seq![0u8])
}

/// With the state on top, the ratchet leaves the digest of the draw twice.
pub proof fn lemma_ratchet(base: Seq<ItemV>, alt: Seq<ItemV>, state: Seq<u8>)
    ensures
        run(ratchet_program(), st(base.push(ItemV::Bytes(state)), alt)) == Some(
            st(
                base.push(ItemV::Bytes(draw_digest(state))).push(
                    ItemV::Bytes(draw_digest(state)),
                ),
                alt,
            ),
        ),
{
    let p = ratchet_program();
    let d = draw_digest(state);
    let s0 = st(base.push(ItemV::Bytes(state)), alt);
    let s1 = st(base.push(ItemV::Bytes(state)).push(ItemV::Bytes(seq![0u8])), alt);
    let s2 = st(base.push(ItemV::Bytes(state + seq![0u8])), alt);
    let s3 = st(base.push(ItemV::Bytes(d)), alt);
    let s4 = st(base.push(ItemV::Bytes(d)).push(ItemV::Bytes(d)), alt);
    lemma_run_ends(p, s0);
    rule_push_bytes(base.push(ItemV::Bytes(state)), alt, seq![0u8]);
    lemma_run_prefix(p, 0, s0, s0, s1);
    rule_cat(base, alt, state, seq![0u8]);
    lemma_run_prefix(p, 1, s0, s1, s2);
    rule_sha256(base, alt, state + seq![0u8]);
    lemma_run_prefix(p, 2, s0, s2, s3);
    rule_dup(base, alt, ItemV::Bytes(d));
    lemma_run_prefix(p, 3, s0, s3, s4);
}

/// On the machine, drawing an element does what `Channel::draw_element`
/// does, and only with the hint that the native draw produced: with that
/// hint at the bottom and the state on top, the program leaves the next
/// state and above it the four limbs drawn; with any other hint it aborts.
pub proof fn lemma_draw_element(hint: Seq<u8>, base: Seq<ItemV>, alt: Seq<ItemV>, state: Seq<u8>)
    ensures
        run(
            draw_element_program(),
            st((seq![ItemV::Bytes(hint)] + base).push(ItemV::Bytes(state)), alt),
        ) == if hint == drawn_hint(state, ChannelOp::DrawElement) {
            Some(
                st(
                    base.push(ItemV::Bytes(next_state(state, ChannelOp::DrawElement))) + nums(
                        drawn_values(state, ChannelOp::DrawElement),
                    ),
                    alt,
                ),
            )
        } else {
            None
        },
{
    let d = draw_digest(state);
    let bottom = seq![ItemV::Bytes(hint)] + base;
    let s0 = st(bottom.push(ItemV::Bytes(state)), alt);
    let s1 = st(bottom.push(ItemV::Bytes(d)).push(ItemV::Bytes(d)), alt);
    lemma_ratchet(bottom, alt, state);
    let mid = base.push(ItemV::Bytes(d));
    assert(s1.stack =~= (seq![ItemV::Bytes(hint)] + mid).push(ItemV::Bytes(d)));
    rule_unpack(hint, mid, alt, d, 4);
    lemma_run_push(ratchet_program(), InstrV::UnpackQm31, s0);
}

/// On the machine, drawing five queries does what `Channel::draw_5queries`
/// does, and only with the hint that the native draw produced: with that
/// hint at the bottom and the state on top, the program leaves the next
/// state and above it the five indices; with any other hint it aborts.
pub proof fn lemma_draw_5queries(
    hint: Seq<u8>,
    base: Seq<ItemV>,
    alt: Seq<ItemV>,
    state: Seq<u8>,
    logn: usize,
)
    ensures
        run(
            draw_5queries_program(logn),
            st((seq![ItemV::Bytes(hint)] + base).push(ItemV::Bytes(state)), alt),
        ) == if hint == drawn_hint(state, ChannelOp::Draw5Queries(logn as nat)) {
            Some(
                st(
                    base.push(
                        ItemV::Bytes(next_state(state, ChannelOp::Draw5Queries(logn as nat))),
                    ) + nums(drawn_values(state, ChannelOp::Draw5Queries(logn as nat))),
                    alt,
                ),
            )
        } else {
            None
        },
{
    let d = draw_digest(state);
    let bottom = seq![ItemV::Bytes(hint)] + base;
    let s0 = st(bottom.push(ItemV::Bytes(state)), alt);
    let s1 = st(bottom.push(ItemV::Bytes(d)).push(ItemV::Bytes(d)), alt);
    lemma_ratchet(bottom, alt, state);
    let b = base.push(ItemV::Bytes(d));
    assert(s1.stack =~= (seq![ItemV::Bytes(hint)] + b).push(ItemV::Bytes(d)));
    rule_unpack(hint, b, alt, d, 5);
    let tail = draw_5queries_program(logn).skip(4);
    assert(draw_5queries_program(logn) =~= ratchet_program() + tail);
    lemma_run_concat(ratchet_program(), tail, s0);
    lemma_run_ends(tail, s1);
    if hint == quotients(d, 5) {
        let r = values(d, 5);
        let t = queries(d, logn as nat);
        let n = |v: u32| ItemV::Num(v);
        let a0 = st(b + nums(r), alt);
        assert(a0.stack =~= b.push(n(r[0])).push(n(r[1])).push(n(r[2])).push(n(r[3])).push(n(r[4])));
        lemma_run_prefix(tail, 0, s1, s1, a0);
        let b3 = b.push(n(r[0])).push(n(r[1])).push(n(r[2])).push(n(r[3]));
        let b2 = b.push(n(r[0])).push(n(r[1])).push(n(r[2]));
        let b1 = b.push(n(r[0])).push(n(r[1]));
        let b0 = b.push(n(r[0]));
        let a1 = st(b3.push(n(t[4])), alt);
        rule_trim(b3, alt, r[4], logn);
        lemma_run_prefix(tail, 1, s1, a0, a1);
        let alt4 = alt.push(n(t[4]));
        let a2 = st(b3, alt4);
        rule_to_alt(b3, alt, n(t[4]));
        lemma_run_prefix(tail, 2, s1, a1, a2);
        let a3 = st(b2.push(n(t[3])), alt4);
        rule_trim(b2, alt4, r[3], logn);
        lemma_run_prefix(tail, 3, s1, a2, a3);
        let alt3 = alt4.push(n(t[3]));
        let a4 = st(b2, alt3);
        rule_to_alt(b2, alt4, n(t[3]));
        lemma_run_prefix(tail, 4, s1, a3, a4);
        let a5 = st(b1.push(n(t[2])), alt3);
        rule_trim(b1, alt3, r[2], logn);
        lemma_run_prefix(tail, 5, s1, a4, a5);
        let alt2 = alt3.push(n(t[2]));
        let a6 = st(b1, alt2);
        rule_to_alt(b1, alt3, n(t[2]));
        lemma_run_prefix(tail, 6, s1, a5, a6);
        let a7 = st(b0.push(n(t[1])), alt2);
        rule_trim(b0, alt2, r[1], logn);
        lemma_run_prefix(tail, 7, s1, a6, a7);
        let alt1 = alt2.push(n(t[1]));
        let a8 = st(b0, alt1);
        rule_to_alt(b0, alt2, n(t[1]));
        lemma_run_prefix(tail, 8, s1, a7, a8);
        let c0 = b.push(n(t[0]));
        let a9 = st(c0, alt1);
        rule_trim(b, alt1, r[0], logn);
        lemma_run_prefix(tail, 9, s1, a8, a9);
        let c1 = c0.push(n(t[1]));
        let a10 = st(c1, alt2);
        rule_from_alt(c0, alt2, n(t[1]));
        lemma_run_prefix(tail, 10, s1, a9, a10);
        let c2 = c1.push(n(t[2]));
        let a11 = st(c2, alt3);
        rule_from_alt(c1, alt3, n(t[2]));
        lemma_run_prefix(tail, 11, s1, a10, a11);
        let c3 = c2.push(n(t[3]));
        let a12 = st(c3, alt4);
        rule_from_alt(c2, alt4, n(t[3]));
        lemma_run_prefix(tail, 12, s1, a11, a12);
        let c4 = c3.push(n(t[4]));
        let a13 = st(c4, alt);
        rule_from_alt(c3, alt, n(t[4]));
        lemma_run_prefix(tail, 13, s1, a12, a13);
        assert(c4 =~= b + nums(t));
    } else {
        assert(tail.take(1) =~= Seq::<InstrV>::empty().push(tail[0]));
        lemma_run_push(Seq::<InstrV>::empty(), tail[0], s1);
        lemma_run_concat(tail.take(1), tail.skip(1), s1);
        assert(tail =~= tail.take(1) + tail.skip(1));
    }
}

} // verus!
