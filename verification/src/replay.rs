//! The round trip of the transcript: run on the witness that the native
//! side pushed, the replay program ends with exactly the challenges and
//! queries of the native run, and nothing else, on its stacks.

use crate::channel::drawn_hint;
use crate::channel::drawn_values;
use crate::channel::next_state;
use crate::channel::ChannelOp;
use crate::channel_gadget::absorb_commitment_program;
use crate::channel_gadget::absorb_qm31_program;
use crate::channel_gadget::draw_5queries_program;
use crate::channel_gadget::draw_element_program;
use crate::channel_gadget::lemma_absorb_commitment;
use crate::channel_gadget::lemma_absorb_qm31;
use crate::channel_gadget::lemma_draw_5queries;
use crate::channel_gadget::lemma_draw_element;
use crate::channel_gadget::new_program;
use crate::fri::absorbed_state;
use crate::fri::challenge;
use crate::fri::challenge_hint;
use crate::fri::challenge_hints;
use crate::fri::check_fiat_shamir_program;
use crate::fri::drop_state_program;
use crate::fri::fiat_shamir_witness;
use crate::fri::final_state;
use crate::fri::last_layer_program;
use crate::fri::layer_program;
use crate::fri::layer_state;
use crate::fri::limb_items;
use crate::fri::query_hint;
use crate::fri::query_state;
use crate::fri::query_values;
use crate::fri::raise_limbs_program;
use crate::fri_proof::MAX_LOGN;
use crate::machine::byte_items;
use crate::machine::lemma_run_concat;
use crate::machine::lemma_run_ends;
use crate::machine::lemma_run_one;
use crate::machine::lemma_run_prefix;
use crate::machine::lemma_run_push;
use crate::machine::lemma_run_then;
use crate::machine::nums;
use crate::machine::push_of;
use crate::machine::pushes;
use crate::machine::run;
use crate::machine::ItemV;
use crate::rules::rule_drop;
use crate::rules::rule_from_alt4;
use crate::rules::rule_push_bytes;
use crate::rules::rule_push_num;
use crate::rules::rule_roll;
use crate::rules::rule_swap;
use crate::rules::rule_to_alt4;
use crate::rules::st;
use crate::script::repeat;
use crate::script::InstrV;
use vstd::arithmetic::power2::pow2;
use vstd::prelude::*;

verus! {

/// The folding challenges of all layers.
pub open spec fn challenges(seed: Seq<u8>, comms: Seq<Seq<u8>>) -> Seq<Seq<u32>> {
    Seq::new(comms.len(), |i: int| challenge(seed, comms, i as nat))
}

/// The elements `rows` as they lie on the auxiliary stack after each has
/// been put aside in turn: the first element lowest, each with its last
/// limb lowest.
pub open spec fn stashed(rows: Seq<Seq<u32>>) -> Seq<ItemV>
    decreases rows.len(),
{
    if rows.len() == 0 {
        Seq::empty()
    } else {
        stashed(rows.drop_last()) + nums(rows.last()).reverse()
    }
}

/// Pushes put their items on the stack, in their order.
pub proof fn lemma_run_pushes(items: Seq<ItemV>, stack: Seq<ItemV>, alt: Seq<ItemV>)
    ensures
        run(pushes(items), st(stack, alt)) == Some(st(stack + items, alt)),
    decreases items.len(),
{
    if items.len() == 0 {
        assert(pushes(items) =~= Seq::<InstrV>::empty());
        assert(stack + items =~= stack);
    } else {
        let front = items.drop_last();
        let x = items.last();
        lemma_run_pushes(front, stack, alt);
        assert(pushes(items) =~= pushes(front).push(push_of(x)));
        lemma_run_push(pushes(front), push_of(x), st(stack, alt));
        match x {
            ItemV::Bytes(b) => {
                rule_push_bytes(stack + front, alt, b);
            },
            ItemV::Num(v) => {
                rule_push_num(stack + front, alt, v);
            },
        }
        assert((stack + front).push(x) =~= stack + items);
    }
}

/// One layer of the replay: with the layer's hint at the bottom and the
/// state above the layer's commitment on top, the state becomes the one
/// after the absorb and the draw, and the challenge goes to the auxiliary
/// stack; with another hint the round aborts.
pub proof fn lemma_layer_round(
    hint: Seq<u8>,
    base: Seq<ItemV>,
    alt: Seq<ItemV>,
    c: Seq<u8>,
    state: Seq<u8>,
)
    ensures
        run(
            layer_program(),
            st((seq![ItemV::Bytes(hint)] + base).push(ItemV::Bytes(c)).push(ItemV::Bytes(state)), alt),
        ) == ({
            let absorbed = next_state(state, ChannelOp::AbsorbCommitment(c));
            if hint == drawn_hint(absorbed, ChannelOp::DrawElement) {
                Some(
                    st(
                        base.push(ItemV::Bytes(next_state(absorbed, ChannelOp::DrawElement))),
                        alt + nums(drawn_values(absorbed, ChannelOp::DrawElement)).reverse(),
                    ),
                )
            } else {
                None
            }
        }),
{
    let absorbed = next_state(state, ChannelOp::AbsorbCommitment(c));
    let drawn = next_state(absorbed, ChannelOp::DrawElement);
    let vals = drawn_values(absorbed, ChannelOp::DrawElement);
    let bottom = seq![ItemV::Bytes(hint)] + base;
    let s0 = st(bottom.push(ItemV::Bytes(c)).push(ItemV::Bytes(state)), alt);
    let s1 = st(bottom.push(ItemV::Bytes(state)).push(ItemV::Bytes(c)), alt);
    let s2 = st(bottom.push(ItemV::Bytes(absorbed)), alt);
    let swap = seq![InstrV::Swap];
    let absorb = swap + absorb_commitment_program();
    let draw = absorb + draw_element_program();
    rule_swap(bottom, alt, ItemV::Bytes(c), ItemV::Bytes(state));
    lemma_run_one(InstrV::Swap, s0);
    lemma_absorb_commitment(bottom, alt, state, c);
    lemma_run_then(swap, absorb_commitment_program(), s0, s1, s2);
    lemma_draw_element(hint, base, alt, absorbed);
    lemma_run_concat(absorb, draw_element_program(), s0);
    lemma_run_concat(draw, seq![InstrV::Qm31ToAltStack], s0);
    if hint == drawn_hint(absorbed, ChannelOp::DrawElement) {
        let s3 = st(base.push(ItemV::Bytes(drawn)) + nums(vals), alt);
        rule_to_alt4(base.push(ItemV::Bytes(drawn)), alt, nums(vals));
        lemma_run_one(InstrV::Qm31ToAltStack, s3);
    }
}

/// With four limbs below the state on top, the limbs come to lie above the
/// state, in their order.
pub proof fn lemma_raise_limbs(base: Seq<ItemV>, alt: Seq<ItemV>, limbs: Seq<u32>, state: ItemV)
    requires
        limbs.len() == 4,
    ensures
        run(raise_limbs_program(), st((base + nums(limbs)).push(state), alt)) == Some(
            st(base.push(state) + nums(limbs), alt),
        ),
{
    let p = raise_limbs_program();
    let n = |v: u32| ItemV::Num(v);
    let four = ItemV::Num(4);
    let l0 = n(limbs[0]);
    let l1 = n(limbs[1]);
    let l2 = n(limbs[2]);
    let l3 = n(limbs[3]);
    let t0 = (base + nums(limbs)).push(state);
    let a0 = seq![l1, l2, l3, state];
    assert(t0 =~= base.push(l0) + a0);
    let t1 = (base + a0).push(l0);
    let a1 = seq![l2, l3, state, l0];
    assert(t1 =~= base.push(l1) + a1);
    let t2 = (base + a1).push(l1);
    let a2 = seq![l3, state, l0, l1];
    assert(t2 =~= base.push(l2) + a2);
    let t3 = (base + a2).push(l2);
    let a3 = seq![state, l0, l1, l2];
    assert(t3 =~= base.push(l3) + a3);
    let t4 = (base + a3).push(l3);
    assert(t4 =~= base.push(state) + nums(limbs));
    let s0 = st(t0, alt);
    lemma_run_ends(p, s0);
    rule_push_num(t0, alt, 4);
    lemma_run_prefix(p, 0, s0, s0, st(t0.push(four), alt));
    rule_roll(base, alt, l0, a0, 4);
    lemma_run_prefix(p, 1, s0, st(t0.push(four), alt), st(t1, alt));
    rule_push_num(t1, alt, 4);
    lemma_run_prefix(p, 2, s0, st(t1, alt), st(t1.push(four), alt));
    rule_roll(base, alt, l1, a1, 4);
    lemma_run_prefix(p, 3, s0, st(t1.push(four), alt), st(t2, alt));
    rule_push_num(t2, alt, 4);
    lemma_run_prefix(p, 4, s0, st(t2, alt), st(t2.push(four), alt));
    rule_roll(base, alt, l2, a2, 4);
    lemma_run_prefix(p, 5, s0, st(t2.push(four), alt), st(t3, alt));
    rule_push_num(t3, alt, 4);
    lemma_run_prefix(p, 6, s0, st(t3, alt), st(t3.push(four), alt));
    rule_roll(base, alt, l3, a3, 4);
    lemma_run_prefix(p, 7, s0, st(t3.push(four), alt), st(t4, alt));
}

/// One value of the last layer: with its limbs below the state on top, the
/// state becomes the one after the absorb and the limbs are gone.
pub proof fn lemma_last_layer_round(
    base: Seq<ItemV>,
    alt: Seq<ItemV>,
    limbs: Seq<u32>,
    state: Seq<u8>,
)
    requires
        limbs.len() == 4,
    ensures
        run(last_layer_program(), st((base + nums(limbs)).push(ItemV::Bytes(state)), alt)) == Some(
            st(base.push(ItemV::Bytes(next_state(state, ChannelOp::AbsorbQm31(limbs)))), alt),
        ),
{
    let s0 = st((base + nums(limbs)).push(ItemV::Bytes(state)), alt);
    let s1 = st(base.push(ItemV::Bytes(state)) + nums(limbs), alt);
    let s2 = st(base.push(ItemV::Bytes(next_state(state, ChannelOp::AbsorbQm31(limbs)))), alt);
    lemma_raise_limbs(base, alt, limbs, ItemV::Bytes(state));
    lemma_absorb_qm31(base, alt, state, limbs);
    lemma_run_then(raise_limbs_program(), absorb_qm31_program(), s0, s1, s2);
}

/// With the transcript state below the five queries on top, the state is
/// removed.
pub proof fn lemma_drop_state(base: Seq<ItemV>, alt: Seq<ItemV>, state: ItemV, vals: Seq<u32>)
    requires
        vals.len() == 5,
    ensures
        run(drop_state_program(), st(base.push(state) + nums(vals), alt)) == Some(
            st(base + nums(vals), alt),
        ),
{
    let p = drop_state_program();
    let t0 = base.push(state) + nums(vals);
    let s0 = st(t0, alt);
    let s1 = st(t0.push(ItemV::Num(5)), alt);
    let s2 = st((base + nums(vals)).push(state), alt);
    let s3 = st(base + nums(vals), alt);
    lemma_run_ends(p, s0);
    rule_push_num(t0, alt, 5);
    lemma_run_prefix(p, 0, s0, s0, s1);
    rule_roll(base, alt, state, nums(vals), 5);
    lemma_run_prefix(p, 1, s0, s1, s2);
    rule_drop(base + nums(vals), alt, state);
    lemma_run_prefix(p, 2, s0, s2, s3);
}

/// The execution stack after `i` layers of the replay: the hints `hs` not
/// yet used, what lies between them and the commitments, the commitments
/// not yet absorbed, and on top the transcript state.
pub open spec fn layer_stack(
    seed: Seq<u8>,
    comms: Seq<Seq<u8>>,
    hs: Seq<Seq<u8>>,
    rest: Seq<ItemV>,
    i: nat,
) -> Seq<ItemV> {
    (byte_items(hs.skip(i as int)) + rest + byte_items(comms.reverse().take(comms.len() - i))).push(
        ItemV::Bytes(layer_state(seed, comms, i)),
    )
}

/// The execution stack after `j` values of the last layer have been
/// absorbed into `state`: what lies below the values, the values not yet
/// absorbed, and on top the transcript state.
pub open spec fn last_layer_stack(
    front: Seq<ItemV>,
    state: Seq<u8>,
    last: Seq<Seq<u32>>,
    j: nat,
) -> Seq<ItemV> {
    (front + limb_items(last.reverse().take(last.len() - j))).push(
        ItemV::Bytes(absorbed_state(state, last, j)),
    )
}

/// The witness of the transcript with the hints `hs` for the layers and
/// `qh` for the queries, whatever they are.
pub open spec fn witness_with_hints(
    hs: Seq<Seq<u8>>,
    qh: Seq<u8>,
    comms: Seq<Seq<u8>>,
    last: Seq<Seq<u32>>,
) -> Seq<ItemV> {
    byte_items(hs).push(ItemV::Bytes(qh)) + limb_items(last.reverse()) + byte_items(
        comms.reverse(),
    )
}

/// One element more at the end of `rows` is its limbs more on the stack.
pub proof fn lemma_limb_items_push(rows: Seq<Seq<u32>>, row: Seq<u32>)
    ensures
        limb_items(rows.push(row)) == limb_items(rows) + nums(row),
{
    assert(rows.push(row).drop_last() =~= rows);
}

/// One element more at the end of `rows` is its limbs more on the
/// auxiliary stack, the last limb lowest.
pub proof fn lemma_stashed_push(rows: Seq<Seq<u32>>, row: Seq<u32>)
    ensures
        stashed(rows.push(row)) == stashed(rows) + nums(row).reverse(),
{
    assert(rows.push(row).drop_last() =~= rows);
}

/// The first `i` layers of the replay lead from the start to the stack
/// after `i` layers, with the first `i` challenges put aside on top of
/// what the auxiliary stack held, if the first `i` hints are those of the
/// native run; with any other hints they abort.
pub proof fn lemma_layers(
    seed: Seq<u8>,
    comms: Seq<Seq<u8>>,
    hs: Seq<Seq<u8>>,
    rest: Seq<ItemV>,
    aside: Seq<ItemV>,
    i: nat,
)
    requires
        i <= comms.len() == hs.len(),
    ensures
        run(repeat(layer_program(), i), st(layer_stack(seed, comms, hs, rest, 0), aside)) == if hs.take(
            i as int,
        ) == challenge_hints(seed, comms).take(i as int) {
            Some(
                st(
                    layer_stack(seed, comms, hs, rest, i),
                    aside + stashed(challenges(seed, comms).take(i as int)),
                ),
            )
        } else {
            None
        },
    decreases i,
{
    let s0 = st(layer_stack(seed, comms, hs, rest, 0), aside);
    let chs = challenges(seed, comms);
    let hints = challenge_hints(seed, comms);
    if i == 0 {
        assert(chs.take(0) =~= Seq::<Seq<u32>>::empty());
        assert(aside + stashed(chs.take(0)) =~= aside);
        assert(hs.take(0) =~= hints.take(0));
    } else {
        let j = (i - 1) as nat;
        lemma_layers(seed, comms, hs, rest, aside, j);
        lemma_run_concat(repeat(layer_program(), j), layer_program(), s0);
        assert(hs.take(i as int).take(j as int) =~= hs.take(j as int));
        assert(hints.take(i as int).take(j as int) =~= hints.take(j as int));
        assert(hs.take(i as int)[j as int] == hs[j as int]);
        assert(hints.take(i as int)[j as int] == hints[j as int]);
        if hs.take(j as int) == hints.take(j as int) {
            let n = comms.len();
            let crev = comms.reverse();
            let base = byte_items(hs.skip(i as int)) + rest + byte_items(crev.take(n - i));
            let state = layer_state(seed, comms, j);
            let alt = aside + stashed(chs.take(j as int));
            assert(crev[n - i] == comms[j as int]);
            assert(hints[j as int] == challenge_hint(seed, comms, j));
            assert(layer_stack(seed, comms, hs, rest, j) =~= (seq![ItemV::Bytes(hs[j as int])]
                + base).push(ItemV::Bytes(comms[j as int])).push(ItemV::Bytes(state)));
            lemma_layer_round(hs[j as int], base, alt, comms[j as int], state);
            if hs[j as int] == hints[j as int] {
                assert(layer_stack(seed, comms, hs, rest, i) =~= base.push(
                    ItemV::Bytes(layer_state(seed, comms, i)),
                ));
                assert(chs.take(i as int) =~= chs.take(j as int).push(chs[j as int]));
                lemma_stashed_push(chs.take(j as int), chs[j as int]);
                assert(alt + nums(chs[j as int]).reverse() =~= aside + stashed(chs.take(i as int)));
                assert(hs.take(i as int) =~= hints.take(i as int));
            }
        }
    }
}

/// The first `j` rounds of the last layer absorb the first `j` values into
/// the state and leave everything else as it is.
pub proof fn lemma_last_layers(
    front: Seq<ItemV>,
    state: Seq<u8>,
    last: Seq<Seq<u32>>,
    alt: Seq<ItemV>,
    j: nat,
)
    requires
        j <= last.len(),
        forall|t: int| 0 <= t < last.len() ==> (#[trigger] last[t]).len() == 4,
    ensures
        run(repeat(last_layer_program(), j), st(last_layer_stack(front, state, last, 0), alt))
            == Some(st(last_layer_stack(front, state, last, j), alt)),
    decreases j,
{
    let s0 = st(last_layer_stack(front, state, last, 0), alt);
    if j > 0 {
        let jj = (j - 1) as nat;
        lemma_last_layers(front, state, last, alt, jj);
        let k = last.len();
        let lrev = last.reverse();
        let base = front + limb_items(lrev.take(k - j));
        let now = absorbed_state(state, last, jj);
        assert(lrev[k - j] == last[jj as int]);
        assert(lrev.take(k - jj) =~= lrev.take(k - j).push(last[jj as int]));
        lemma_limb_items_push(lrev.take(k - j), last[jj as int]);
        assert(last_layer_stack(front, state, last, jj) =~= (base + nums(last[jj as int])).push(
            ItemV::Bytes(now),
        ));
        lemma_last_layer_round(base, alt, last[jj as int], now);
        let mid = st(last_layer_stack(front, state, last, jj), alt);
        let next = st(last_layer_stack(front, state, last, j), alt);
        lemma_run_then(repeat(last_layer_program(), jj), last_layer_program(), s0, mid, next);
    }
}

/// Taking back `t` of the elements `rows` that were put aside brings
/// their limbs to the execution stack, the element put aside last first,
/// and leaves what the auxiliary stack held below them.
pub proof fn lemma_restore(stack: Seq<ItemV>, aside: Seq<ItemV>, rows: Seq<Seq<u32>>, t: nat)
    requires
        t <= rows.len(),
        forall|i: int| 0 <= i < rows.len() ==> (#[trigger] rows[i]).len() == 4,
    ensures
        run(repeat(seq![InstrV::Qm31FromAltStack], t), st(stack, aside + stashed(rows))) == Some(
            st(
                stack + limb_items(rows.reverse().take(t as int)),
                aside + stashed(rows.take(rows.len() - t)),
            ),
        ),
    decreases t,
{
    let s0 = st(stack, aside + stashed(rows));
    let m = rows.len();
    let rrev = rows.reverse();
    if t == 0 {
        assert(rows.take(m as int) =~= rows);
        assert(rrev.take(0) =~= Seq::<Seq<u32>>::empty());
        assert(stack + limb_items(rrev.take(0)) =~= stack);
    } else {
        let tt = (t - 1) as nat;
        lemma_restore(stack, aside, rows, tt);
        let row = rows[m - t];
        let now = stack + limb_items(rrev.take(tt as int));
        let below = aside + stashed(rows.take(m - t));
        let mid = st(now, aside + stashed(rows.take(m - tt)));
        assert(rows.take(m - tt) =~= rows.take(m - t).push(row));
        lemma_stashed_push(rows.take(m - t), row);
        assert(aside + stashed(rows.take(m - tt)) =~= below + nums(row).reverse());
        rule_from_alt4(now, below, nums(row));
        lemma_run_one(InstrV::Qm31FromAltStack, mid);
        assert(rrev[tt as int] == row);
        assert(rrev.take(t as int) =~= rrev.take(tt as int).push(row));
        lemma_limb_items_push(rrev.take(tt as int), row);
        let next = st(stack + limb_items(rrev.take(t as int)), below);
        assert(now + nums(row) =~= stack + limb_items(rrev.take(t as int)));
        lemma_run_then(
            repeat(seq![InstrV::Qm31FromAltStack], tt),
            seq![InstrV::Qm31FromAltStack],
            s0,
            mid,
            next,
        );
    }
}

/// What the replay does with any hints. For every seed, every list of
/// commitments, every last layer of the right size, every choice of hints
/// and whatever the auxiliary stack holds: the replay program, run on the
/// witness, runs to its end exactly if every hint is the one that the
/// native run produced. It then leaves the five queries of the native run
/// and above them its challenges, the one of the first layer on top;
/// everything else (hints, commitments, last-layer values, transcript
/// state) is consumed, and the auxiliary stack is as it was. With any
/// other hint it aborts.
pub proof fn lemma_fiat_shamir_replay(
    seed: Seq<u8>,
    comms: Seq<Seq<u8>>,
    last: Seq<Seq<u32>>,
    logn: usize,
    hs: Seq<Seq<u8>>,
    qh: Seq<u8>,
    aside: Seq<ItemV>,
)
    requires
        hs.len() == comms.len() <= logn <= MAX_LOGN,
        last.len() == pow2((logn - comms.len()) as nat),
        forall|t: int| 0 <= t < last.len() ==> (#[trigger] last[t]).len() == 4,
    ensures
        run(
            pushes(witness_with_hints(hs, qh, comms, last)) + check_fiat_shamir_program(
                seed,
                logn,
                comms.len() as usize,
            ),
            st(Seq::empty(), aside),
        ) == if hs == challenge_hints(seed, comms) && qh == query_hint(seed, comms, last, logn) {
            Some(
                st(
                    nums(query_values(seed, comms, last, logn)) + limb_items(
                        challenges(seed, comms).reverse(),
                    ),
                    aside,
                ),
            )
        } else {
            None
        },
{
    let n = comms.len();
    let k = last.len();
    let none = Seq::<ItemV>::empty();
    let w = witness_with_hints(hs, qh, comms, last);
    let chs = challenges(seed, comms);
    let hints = challenge_hints(seed, comms);
    let qstate = query_state(seed, comms, last);
    let end = final_state(seed, comms, last, logn);
    let qs = query_values(seed, comms, last, logn);
    let alt = aside + stashed(chs);
    let rest = seq![ItemV::Bytes(qh)] + limb_items(last.reverse());
    let front = seq![ItemV::Bytes(qh)];
    let mid_state = layer_state(seed, comms, n);

    let a = new_program(seed);
    let b = repeat(layer_program(), n);
    let c = repeat(last_layer_program(), k);
    let d = draw_5queries_program(logn);
    let e = drop_state_program();
    let f = repeat(seq![InstrV::Qm31FromAltStack], n);
    assert(check_fiat_shamir_program(seed, logn, n as usize) == a + b + c + d + e + f);

    // the witness
    let s0 = st(none, aside);
    lemma_run_pushes(w, none, aside);
    assert(none + w =~= w);
    let s_w = st(w, aside);
    lemma_run_concat(pushes(w), a + b + c + d + e + f, s0);

    // the seed
    rule_push_bytes(w, aside, seed);
    lemma_run_one(InstrV::PushBytes(seed), s_w);
    assert(hs.skip(0) =~= hs);
    assert(comms.reverse().take(n as int) =~= comms.reverse());
    assert(w.push(ItemV::Bytes(seed)) =~= layer_stack(seed, comms, hs, rest, 0));

    // the layers
    lemma_layers(seed, comms, hs, rest, aside, n);
    assert(chs.take(n as int) =~= chs);
    assert(hs.take(n as int) =~= hs);
    assert(hints.take(n as int) =~= hints);
    lemma_run_concat(a, b, s_w);
    lemma_run_concat(a + b, c, s_w);
    lemma_run_concat(a + b + c, d, s_w);
    lemma_run_concat(a + b + c + d, e, s_w);
    lemma_run_concat(a + b + c + d + e, f, s_w);
    if hs == hints {
        // the last layer
        assert(hs.skip(n as int) =~= Seq::<Seq<u8>>::empty());
        assert(comms.reverse().take(0) =~= Seq::<Seq<u8>>::empty());
        assert(last.reverse().take(k as int) =~= last.reverse());
        assert(layer_stack(seed, comms, hs, rest, n) =~= last_layer_stack(
            front,
            mid_state,
            last,
            0,
        ));
        lemma_last_layers(front, mid_state, last, alt, k);

        // the queries
        assert(last.reverse().take(0) =~= Seq::<Seq<u32>>::empty());
        assert(last_layer_stack(front, mid_state, last, k) =~= (seq![ItemV::Bytes(qh)] + none).push(
            ItemV::Bytes(qstate),
        ));
        lemma_draw_5queries(qh, none, alt, qstate, logn);
        if qh == query_hint(seed, comms, last, logn) {
            // the state goes
            lemma_drop_state(none, alt, ItemV::Bytes(end), qs);
            assert(none + nums(qs) =~= nums(qs));

            // the challenges come back
            assert forall|i: int| 0 <= i < chs.len() implies (#[trigger] chs[i]).len() == 4 by {}
            lemma_restore(nums(qs), aside, chs, n);
            assert(chs.take(0) =~= Seq::<Seq<u32>>::empty());
            assert(aside + stashed(chs.take(0)) =~= aside);
            assert(chs.reverse().take(n as int) =~= chs.reverse());
        }
    }
}

/// The round trip of the transcript: on the witness that the native side
/// pushes, the replay program runs to its end and leaves the five queries
/// of the native run and above them its challenges, the one of the first
/// layer on top, and nothing else; the auxiliary stack is as it was.
pub proof fn lemma_fiat_shamir_round_trip(
    seed: Seq<u8>,
    comms: Seq<Seq<u8>>,
    last: Seq<Seq<u32>>,
    logn: usize,
    aside: Seq<ItemV>,
)
    requires
        comms.len() <= logn <= MAX_LOGN,
        last.len() == pow2((logn - comms.len()) as nat),
        forall|t: int| 0 <= t < last.len() ==> (#[trigger] last[t]).len() == 4,
    ensures
        run(
            pushes(fiat_shamir_witness(seed, comms, last, logn)) + check_fiat_shamir_program(
                seed,
                logn,
                comms.len() as usize,
            ),
            st(Seq::empty(), aside),
        ) == Some(
            st(
                nums(query_values(seed, comms, last, logn)) + limb_items(
                    challenges(seed, comms).reverse(),
                ),
                aside,
            ),
        ),
{
    lemma_fiat_shamir_replay(
        seed,
        comms,
        last,
        logn,
        challenge_hints(seed, comms),
        query_hint(seed, comms, last, logn),
        aside,
    );
}

/// With one layer fewer than the domain can be halved, the replay absorbs
/// exactly two values of the last layer and, as for every number of
/// layers, draws one batch of five queries.
pub proof fn lemma_two_values_in_last_layer(seed: Seq<u8>, logn: usize)
    requires
        1 <= logn <= MAX_LOGN,
    ensures
        check_fiat_shamir_program(seed, logn, (logn - 1) as usize) == new_program(seed) + repeat(
            layer_program(),
            (logn - 1) as nat,
        ) + repeat(last_layer_program(), 2) + draw_5queries_program(logn) + drop_state_program()
            + repeat(seq![InstrV::Qm31FromAltStack], (logn - 1) as nat),
{
    vstd::arithmetic::power2::lemma2_to64();
}

} // verus!
