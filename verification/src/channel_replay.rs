//! The round trip of the transcript for any sequence of operations: the
//! programs of `channel_gadget`, run one after the other on the hints of a
//! native run, pass through the states of that run and draw its values.

use crate::channel::drawn_hint;
use crate::channel::drawn_values;
use crate::channel::next_state;
use crate::channel::ChannelOp;
use crate::channel_gadget::absorb_commitment_program;
use crate::channel_gadget::absorb_qm31_program;
use crate::channel_gadget::draw_5queries_program;
use crate::channel_gadget::draw_element_program;
use crate::channel_gadget::lemma_absorb_commitment;
use crate::channel_gadget::lemma_absorb_qm31;
use crate::channel_gadget::lemma_draw_5queries;
use crate::channel_gadget::lemma_draw_element;
use crate::machine::lemma_run_ends;
use crate::machine::lemma_run_one;
use crate::machine::lemma_run_prefix;
use crate::machine::lemma_run_then;
use crate::machine::nums;
use crate::machine::pushes;
use crate::machine::run;
use crate::machine::ItemV;
use crate::replay::lemma_run_pushes;
use crate::rules::rule_push_bytes;
use crate::rules::rule_to_alt;
use crate::rules::rule_to_alt4;
use crate::rules::st;
use crate::script::InstrV;
use vstd::prelude::*;

verus! {

/// An operation that a program can replay: an absorbed element has four
/// limbs, and a bit length fits the machine's word.
pub open spec fn replayable(op: ChannelOp) -> bool {
    match op {
        ChannelOp::AbsorbQm31(limbs) => limbs.len() == 4,
        ChannelOp::Draw5Queries(logn) => logn <= usize::MAX,
        _ => true,
    }
}

/// Moves the five items on top to the auxiliary stack, the top one first.
pub open spec fn stash5_program() -> Seq<InstrV> {
    seq![
        InstrV::ToAltStack,
        InstrV::ToAltStack,
        InstrV::ToAltStack,
        InstrV::ToAltStack,
        InstrV::ToAltStack,
    ]
}

/// The replay of one operation on the state on top: what is absorbed is
/// pushed first, what is drawn is put aside, so that the state is on top
/// again.
pub open spec fn op_program(op: ChannelOp) -> Seq<InstrV> {
    match op {
        ChannelOp::AbsorbCommitment(c) => seq![InstrV::PushBytes(c)] + absorb_commitment_program(),
        ChannelOp::AbsorbQm31(limbs) => pushes(nums(limbs)) + absorb_qm31_program(),
        ChannelOp::DrawElement => draw_element_program() + seq![InstrV::Qm31ToAltStack],
        ChannelOp::Draw5Queries(logn) => draw_5queries_program(logn as usize) + stash5_program(),
    }
}

/// The replay of the operations `ops`, one after the other.
pub open spec fn ops_program(ops: Seq<ChannelOp>) -> Seq<InstrV>
    decreases ops.len(),
{
    if ops.len() == 0 {
        Seq::empty()
    } else {
        op_program(ops[0]) + ops_program(ops.drop_first())
    }
}

/// The state of the native transcript after `ops`, begun in `state`.
pub open spec fn state_after(state: Seq<u8>, ops: Seq<ChannelOp>) -> Seq<u8>
    decreases ops.len(),
{
    if ops.len() == 0 {
        state
    } else {
        state_after(next_state(state, ops[0]), ops.drop_first())
    }
}

/// The hint of `op` in `state` as a witness item; nothing for an absorb.
pub open spec fn hint_item(state: Seq<u8>, op: ChannelOp) -> Seq<ItemV> {
    match op {
        ChannelOp::DrawElement => seq![ItemV::Bytes(drawn_hint(state, op))],
        ChannelOp::Draw5Queries(_) => seq![ItemV::Bytes(drawn_hint(state, op))],
        _ => Seq::empty(),
    }
}

/// The hints that the native transcript produces over `ops`, begun in
/// `state`, in the order of the draws.
pub open spec fn hints_of(state: Seq<u8>, ops: Seq<ChannelOp>) -> Seq<ItemV>
    decreases ops.len(),
{
    if ops.len() == 0 {
        Seq::empty()
    } else {
        hint_item(state, ops[0]) + hints_of(next_state(state, ops[0]), ops.drop_first())
    }
}

/// The values that the native transcript draws over `ops`, begun in
/// `state`, as they come to lie on the auxiliary stack: the first draw
/// lowest, each with its last value lowest.
pub open spec fn outputs_of(state: Seq<u8>, ops: Seq<ChannelOp>) -> Seq<ItemV>
    decreases ops.len(),
{
    if ops.len() == 0 {
        Seq::empty()
    } else {
        nums(drawn_values(state, ops[0])).reverse() + outputs_of(
            next_state(state, ops[0]),
            ops.drop_first(),
        )
    }
}

/// Five items on top go to the auxiliary stack, the top one first.
pub proof fn lemma_stash5(base: Seq<ItemV>, alt: Seq<ItemV>, group: Seq<ItemV>)
    requires
        group.len() == 5,
    ensures
        run(stash5_program(), st(base + group, alt)) == Some(st(base, alt + group.reverse())),
{
    let p = stash5_program();
    let b4 = base.push(group[0]).push(group[1]).push(group[2]).push(group[3]);
    let b3 = base.push(group[0]).push(group[1]).push(group[2]);
    let b2 = base.push(group[0]).push(group[1]);
    let b1 = base.push(group[0]);
    let a1 = alt.push(group[4]);
    let a2 = a1.push(group[3]);
    let a3 = a2.push(group[2]);
    let a4 = a3.push(group[1]);
    let a5 = a4.push(group[0]);
    let s0 = st(base + group, alt);
    assert(base + group =~= b4.push(group[4]));
    assert(a5 =~= alt + group.reverse());
    lemma_run_ends(p, s0);
    rule_to_alt(b4, alt, group[4]);
    lemma_run_prefix(p, 0, s0, s0, st(b4, a1));
    rule_to_alt(b3, a1, group[3]);
    lemma_run_prefix(p, 1, s0, st(b4, a1), st(b3, a2));
    rule_to_alt(b2, a2, group[2]);
    lemma_run_prefix(p, 2, s0, st(b3, a2), st(b2, a3));
    rule_to_alt(b1, a3, group[1]);
    lemma_run_prefix(p, 3, s0, st(b2, a3), st(b1, a4));
    rule_to_alt(base, a4, group[0]);
    lemma_run_prefix(p, 4, s0, st(b1, a4), st(base, a5));
}

/// The replay of one operation: with the hint of the operation, if it has
/// one, at the bottom and the state on top, the program leaves the state
/// of the native transcript after the operation on top and what the
/// operation drew on the auxiliary stack.
pub proof fn lemma_op_round_trip(base: Seq<ItemV>, alt: Seq<ItemV>, state: Seq<u8>, op: ChannelOp)
    requires
        replayable(op),
    ensures
        run(op_program(op), st((hint_item(state, op) + base).push(ItemV::Bytes(state)), alt))
            == Some(
            st(
                base.push(ItemV::Bytes(next_state(state, op))),
                alt + nums(drawn_values(state, op)).reverse(),
            ),
        ),
{
    let s0 = st((hint_item(state, op) + base).push(ItemV::Bytes(state)), alt);
    let next = next_state(state, op);
    let vals = drawn_values(state, op);
    let s2 = st(base.push(ItemV::Bytes(next)), alt + nums(vals).reverse());
    match op {
        ChannelOp::AbsorbCommitment(c) => {
            assert(hint_item(state, op) + base =~= base);
            assert(alt + nums(vals).reverse() =~= alt);
            let s1 = st(base.push(ItemV::Bytes(state)).push(ItemV::Bytes(c)), alt);
            rule_push_bytes(base.push(ItemV::Bytes(state)), alt, c);
            lemma_run_one(InstrV::PushBytes(c), s0);
            lemma_absorb_commitment(base, alt, state, c);
            lemma_run_then(seq![InstrV::PushBytes(c)], absorb_commitment_program(), s0, s1, s2);
        },
        ChannelOp::AbsorbQm31(limbs) => {
            assert(hint_item(state, op) + base =~= base);
            assert(alt + nums(vals).reverse() =~= alt);
            let s1 = st(base.push(ItemV::Bytes(state)) + nums(limbs), alt);
            lemma_run_pushes(nums(limbs), base.push(ItemV::Bytes(state)), alt);
            lemma_absorb_qm31(base, alt, state, limbs);
            lemma_run_then(pushes(nums(limbs)), absorb_qm31_program(), s0, s1, s2);
        },
        ChannelOp::DrawElement => {
            let s1 = st(base.push(ItemV::Bytes(next)) + nums(vals), alt);
            lemma_draw_element(drawn_hint(state, op), base, alt, state);
            rule_to_alt4(base.push(ItemV::Bytes(next)), alt, nums(vals));
            lemma_run_one(InstrV::Qm31ToAltStack, s1);
            lemma_run_then(draw_element_program(), seq![InstrV::Qm31ToAltStack], s0, s1, s2);
        },
        ChannelOp::Draw5Queries(logn) => {
            let s1 = st(base.push(ItemV::Bytes(next)) + nums(vals), alt);
            lemma_draw_5queries(drawn_hint(state, op), base, alt, state, logn as usize);
            lemma_stash5(base.push(ItemV::Bytes(next)), alt, nums(vals));
            lemma_run_then(draw_5queries_program(logn as usize), stash5_program(), s0, s1, s2);
        },
    }
}

/// The replay of a sequence of operations from any state: with the hints
/// of the native run at the bottom and the state on top, the program ends
/// with the final state of the native run on top and everything that the
/// native run drew on the auxiliary stack.
pub proof fn lemma_ops_round_trip(
    base: Seq<ItemV>,
    alt: Seq<ItemV>,
    state: Seq<u8>,
    ops: Seq<ChannelOp>,
)
    requires
        forall|i: int| 0 <= i < ops.len() ==> replayable(#[trigger] ops[i]),
    ensures
        run(ops_program(ops), st((hints_of(state, ops) + base).push(ItemV::Bytes(state)), alt))
            == Some(
            st(base.push(ItemV::Bytes(state_after(state, ops))), alt + outputs_of(state, ops)),
        ),
    decreases ops.len(),
{
    let s0 = st((hints_of(state, ops) + base).push(ItemV::Bytes(state)), alt);
    if ops.len() == 0 {
        assert(hints_of(state, ops) + base =~= base);
        assert(alt + outputs_of(state, ops) =~= alt);
    } else {
        let op = ops[0];
        let rest = ops.drop_first();
        let next = next_state(state, op);
        let later = hints_of(next, rest) + base;
        let alt1 = alt + nums(drawn_values(state, op)).reverse();
        assert(hints_of(state, ops) + base =~= hint_item(state, op) + later);
        lemma_op_round_trip(later, alt, state, op);
        assert forall|i: int| 0 <= i < rest.len() implies replayable(#[trigger] rest[i]) by {
            assert(rest[i] == ops[i + 1]);
        }
        lemma_ops_round_trip(base, alt1, next, rest);
        assert(alt1 + outputs_of(next, rest) =~= alt + outputs_of(state, ops));
        lemma_run_then(
            op_program(op),
            ops_program(rest),
            s0,
            st(later.push(ItemV::Bytes(next)), alt1),
            st(base.push(ItemV::Bytes(state_after(state, ops))), alt + outputs_of(state, ops)),
        );
    }
}

/// Round trip: for any seed and any sequence of absorbs and draws, the
/// replay program, run on the hints that the native transcript produced
/// and on the seed, whatever the auxiliary stack holds, runs to its end,
/// leaves the final state of the native transcript as the one item of the
/// execution stack and has put aside, on top of what the auxiliary stack
/// held, exactly the values that the native transcript drew.
pub proof fn lemma_round_trip(seed: Seq<u8>, ops: Seq<ChannelOp>, aside: Seq<ItemV>)
    requires
        forall|i: int| 0 <= i < ops.len() ==> replayable(#[trigger] ops[i]),
    ensures
        run(
            pushes(hints_of(seed, ops).push(ItemV::Bytes(seed))) + ops_program(ops),
            st(Seq::empty(), aside),
        ) == Some(st(seq![ItemV::Bytes(state_after(seed, ops))], aside + outputs_of(seed, ops))),
{
    let none = Seq::<ItemV>::empty();
    let start = hints_of(seed, ops).push(ItemV::Bytes(seed));
    lemma_run_pushes(start, none, aside);
    assert(none + start =~= start);
    lemma_ops_round_trip(none, aside, seed, ops);
    assert(hints_of(seed, ops) + none =~= hints_of(seed, ops));
    assert(none.push(ItemV::Bytes(state_after(seed, ops))) =~= seq![
        ItemV::Bytes(state_after(seed, ops)),
    ]);
    lemma_run_then(
        pushes(start),
        ops_program(ops),
        st(none, aside),
        st(start, aside),
        st(seq![ItemV::Bytes(state_after(seed, ops))], aside + outputs_of(seed, ops)),
    );
}

} // verus!
