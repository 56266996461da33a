//! What the opening programs establish: they run to their end exactly if
//! every opening hashes to its root at the position that the query gives,
//! and then leave the opened leaves and nothing else.

use crate::channel_replay::lemma_stash5;
use crate::channel_replay::stash5_program;
use crate::extract::raw_values;
use crate::fri_proof::digest_rows;
use crate::machine::byte_items;
use crate::machine::join;
use crate::machine::lemma_run_concat;
use crate::machine::lemma_run_ends;
use crate::machine::lemma_run_prefix;
use crate::machine::lemma_run_push;
use crate::machine::nums;
use crate::machine::pushes;
use crate::machine::run;
use crate::machine::ItemV;
use crate::merkle::bits_of;
use crate::merkle::merkle_root;
use crate::merkle::twiddle_leaf_digest;
use crate::merkle::TwiddleMerkleTreeProof;
use crate::fri::limb_items;
use crate::fri_proof::MAX_LOGN;
use crate::machine::lemma_run_one;
use crate::machine::lemma_run_then;
use crate::merkle::leaf_digest;
use crate::merkle::MerkleTreeProof;
use crate::openings::check_single_query_program;
use crate::openings::drop_bits_program;
use crate::openings::merkle_round_program;
use crate::openings::merkle_rounds_program;
use crate::openings::query_witness;
use crate::replay::lemma_restore;
use crate::replay::lemma_stashed_push;
use crate::replay::stashed;
use crate::rules::rule_bits;
use crate::rules::rule_copy_to_alt;
use crate::rules::rule_drop;
use crate::rules::rule_drop2;
use crate::rules::rule_merkle;
use crate::rules::rule_push_num;
use crate::rules::rule_roll;
use crate::rules::rule_to_alt4;
use crate::openings::check_twiddle_program;
use crate::openings::twiddle_round_program;
use crate::openings::twiddle_witness;
use crate::replay::lemma_run_pushes;
use crate::rules::rule_from_alt;
use crate::rules::rule_push_bytes;
use crate::rules::rule_twiddle;
use crate::rules::st;
use crate::script::repeat;
use crate::script::InstrV;
use vstd::arithmetic::power2::pow2;
use vstd::prelude::*;

verus! {

/// The twiddle opening `p` opens the table with root `root` and height `h`
/// at position `pos`.
pub open spec fn twiddle_opens(p: TwiddleMerkleTreeProof, pos: u32, root: Seq<u8>, h: nat) -> bool {
    pos < pow2(h) && merkle_root(
        twiddle_leaf_digest(raw_values(p.leaf@)),
        digest_rows(p.siblings@),
        bits_of(pos, h),
    ) == root
}

/// The pair of the twiddle opening `p` as stack items.
pub open spec fn twiddle_leaf(p: TwiddleMerkleTreeProof) -> Seq<ItemV> {
    nums(raw_values(p.leaf@))
}

/// One twiddle check: with the opening at the bottom and the position on
/// top of the auxiliary stack, the round leaves the pair on top if the
/// opening opens the table at the position, and aborts if not.
pub proof fn lemma_twiddle_round(
    p: TwiddleMerkleTreeProof,
    mid: Seq<ItemV>,
    alt: Seq<ItemV>,
    root: Seq<u8>,
    pos: u32,
    h: usize,
)
    requires
        p.siblings@.len() == h,
    ensures
        run(twiddle_round_program(root, h), st(p.items() + mid, alt.push(ItemV::Num(pos)))) == if
            twiddle_opens(p, pos, root, h as nat) {
            Some(st(mid + twiddle_leaf(p), alt))
        } else {
            None
        },
{
    let prog = twiddle_round_program(root, h);
    let pair = raw_values(p.leaf@);
    let sibs = digest_rows(p.siblings@);
    let t0 = p.items() + mid;
    let s0 = st(t0, alt.push(ItemV::Num(pos)));
    let s1 = st(t0.push(ItemV::Bytes(root)), alt.push(ItemV::Num(pos)));
    let s2 = st(t0.push(ItemV::Bytes(root)).push(ItemV::Num(pos)), alt);
    lemma_run_ends(prog, s0);
    rule_push_bytes(t0, alt.push(ItemV::Num(pos)), root);
    lemma_run_prefix(prog, 0, s0, s0, s1);
    rule_from_alt(t0.push(ItemV::Bytes(root)), alt, ItemV::Num(pos));
    lemma_run_prefix(prog, 1, s0, s1, s2);
    assert(t0 =~= nums(pair) + byte_items(sibs) + mid);
    rule_twiddle(pair, sibs, mid, alt, root, pos, h);
    assert(prog.take(3) =~= prog.take(2).push(prog[2]));
    lemma_run_push(prog.take(2), prog[2], s0);
}

/// The items of a group and of the groups after it.
pub proof fn lemma_join_first(parts: Seq<Seq<ItemV>>)
    requires
        parts.len() > 0,
    ensures
        join(parts) == parts[0] + join(parts.drop_first()),
    decreases parts.len(),
{
    if parts.len() == 1 {
        assert(parts.drop_last() =~= Seq::<Seq<ItemV>>::empty());
        assert(parts.drop_first() =~= Seq::<Seq<ItemV>>::empty());
        assert(join(parts) =~= parts[0] + join(parts.drop_first()));
    } else {
        lemma_join_first(parts.drop_last());
        assert(parts.drop_last().drop_first() =~= parts.drop_first().drop_last());
        assert(parts.drop_last()[0] == parts[0]);
        assert(parts.drop_first().last() == parts.last());
        assert(join(parts) =~= parts[0] + join(parts.drop_first()));
    }
}

/// The first `t` twiddle checks: with the openings at the bottom and the
/// positions on the auxiliary stack, the position of the first query on
/// top, they leave the first `t` pairs if each of the first `t` openings
/// opens the table at its position, and abort otherwise.
pub proof fn lemma_twiddle_rounds(
    proofs: Seq<TwiddleMerkleTreeProof>,
    positions: Seq<u32>,
    root: Seq<u8>,
    h: usize,
    aside: Seq<ItemV>,
    t: nat,
)
    requires
        t <= proofs.len() == positions.len(),
        forall|q: int| 0 <= q < proofs.len() ==> (#[trigger] proofs[q]).siblings@.len() == h,
    ensures
        run(
            repeat(twiddle_round_program(root, h), t),
            st(twiddle_witness(proofs), aside + nums(positions).reverse()),
        ) == if forall|q: int| 0 <= q < t ==> twiddle_opens(#[trigger] proofs[q], positions[q], root, h as nat) {
            Some(
                st(
                    twiddle_witness(proofs.skip(t as int)) + join(
                        proofs.take(t as int).map_values(|p: TwiddleMerkleTreeProof| twiddle_leaf(p)),
                    ),
                    aside + nums(positions).reverse().take(positions.len() - t),
                ),
            )
        } else {
            None
        },
    decreases t,
{
    let s0 = st(twiddle_witness(proofs), aside + nums(positions).reverse());
    let prev = nums(positions).reverse();
    let leaf = |p: TwiddleMerkleTreeProof| twiddle_leaf(p);
    let item = |p: TwiddleMerkleTreeProof| p.items();
    if t == 0 {
        assert(proofs.skip(0) =~= proofs);
        assert(proofs.take(0).map_values(leaf) =~= Seq::<Seq<ItemV>>::empty());
        assert(twiddle_witness(proofs) + join(proofs.take(0).map_values(leaf)) =~= twiddle_witness(
            proofs,
        ));
        assert(aside + prev.take(positions.len() as int) =~= aside + prev);
    } else {
        let u = (t - 1) as nat;
        lemma_twiddle_rounds(proofs, positions, root, h, aside, u);
        lemma_run_concat(
            repeat(twiddle_round_program(root, h), u),
            twiddle_round_program(root, h),
            s0,
        );
        if forall|q: int| 0 <= q < u ==> twiddle_opens(#[trigger] proofs[q], positions[q], root, h as nat) {
            let p = proofs[u as int];
            let m = positions.len();
            let done = join(proofs.take(u as int).map_values(leaf));
            let later = twiddle_witness(proofs.skip(t as int));
            let alt = aside + prev.take(m - t);
            assert(aside + prev.take(m - u) =~= alt.push(ItemV::Num(positions[u as int])));
            let parts = proofs.skip(u as int).map_values(item);
            lemma_join_first(parts);
            assert(parts.drop_first() =~= proofs.skip(t as int).map_values(item));
            assert(twiddle_witness(proofs.skip(u as int)) + done =~= p.items() + (later + done));
            lemma_twiddle_round(p, later + done, alt, root, positions[u as int], h);
            if twiddle_opens(p, positions[u as int], root, h as nat) {
                let leaves = proofs.take(t as int).map_values(leaf);
                assert(leaves.drop_last() =~= proofs.take(u as int).map_values(leaf));
                assert(leaves.last() == twiddle_leaf(p));
                assert(later + done + twiddle_leaf(p) =~= later + join(leaves));
            }
        }
    }
}

/// What the twiddle check establishes. Run on the five openings and the
/// five positions, whatever the auxiliary stack holds, the program runs to
/// its end exactly if every opening opens the table with the given root at
/// its position; it then leaves the five pairs, the one of the last query
/// highest, and nothing else, and the auxiliary stack is as it was.
pub proof fn lemma_twiddle_check(
    proofs: Seq<TwiddleMerkleTreeProof>,
    positions: Seq<u32>,
    root: Seq<u8>,
    logn: usize,
    aside: Seq<ItemV>,
)
    requires
        logn >= 1,
        proofs.len() == 5,
        positions.len() == 5,
        forall|q: int| 0 <= q < 5 ==> (#[trigger] proofs[q]).siblings@.len() == logn - 1,
    ensures
        run(
            pushes(twiddle_witness(proofs) + nums(positions)) + check_twiddle_program(logn, root),
            st(Seq::empty(), aside),
        ) == if forall|q: int| 0 <= q < 5 ==> twiddle_opens(
            #[trigger] proofs[q],
            positions[q],
            root,
            (logn - 1) as nat,
        ) {
            Some(
                st(
                    join(proofs.map_values(|p: TwiddleMerkleTreeProof| twiddle_leaf(p))),
                    aside,
                ),
            )
        } else {
            None
        },
{
    let h = (logn - 1) as usize;
    let none = Seq::<ItemV>::empty();
    let w = twiddle_witness(proofs);
    let start = w + nums(positions);
    let stash = repeat(seq![InstrV::ToAltStack], 5);
    let rounds = repeat(twiddle_round_program(root, h), 5);
    let prev = nums(positions).reverse();
    lemma_run_pushes(start, none, aside);
    assert(none + start =~= start);
    lemma_run_concat(pushes(start), stash + rounds, st(none, aside));
    reveal_with_fuel(repeat, 6);
    assert(stash =~= stash5_program());
    lemma_stash5(w, aside, nums(positions));
    lemma_run_concat(stash, rounds, st(start, aside));
    lemma_twiddle_rounds(proofs, positions, root, h, aside, 5);
    assert(proofs.skip(5) =~= Seq::<TwiddleMerkleTreeProof>::empty());
    assert(proofs.skip(5).map_values(|p: TwiddleMerkleTreeProof| p.items()) =~= Seq::<
        Seq<ItemV>,
    >::empty());
    assert(proofs.take(5) =~= proofs);
    assert(aside + prev.take(0) =~= aside);
    let leaves = join(proofs.map_values(|p: TwiddleMerkleTreeProof| twiddle_leaf(p)));
    assert(twiddle_witness(proofs.skip(5)) + leaves =~= leaves);
}

/// The opening `p` opens the tree with root `root` and height `h` at the
/// position that the `h` low bits of `query` give.
pub open spec fn layer_opens(p: MerkleTreeProof, query: u32, root: Seq<u8>, h: nat) -> bool {
    merkle_root(leaf_digest(p.leaf.limbs()), digest_rows(p.siblings@), bits_of(query, h)) == root
}

/// The bits of `query` as they lie on the stack: `logn` of them, the least
/// significant on top.
pub open spec fn bit_items(query: u32, logn: usize) -> Seq<ItemV> {
    nums(bits_of(query, logn as nat)).reverse()
}

/// The `i` top bits on the stack, read from the top, are the `i` low bits
/// of the query.
pub proof fn lemma_low_bits_on_top(query: u32, logn: usize, i: usize)
    requires
        i <= logn,
    ensures
        bit_items(query, logn).skip(logn - i).reverse() == nums(bits_of(query, i as nat)),
{
    assert(bit_items(query, logn).skip(logn - i).reverse() =~= nums(bits_of(query, i as nat)));
}

/// One layer check: with the opening at the bottom, the root of its tree
/// directly below the bits of the query, the round puts the leaf aside if
/// the opening opens the tree at the low bits of the query, and aborts if
/// not. The bits stay where they are.
pub proof fn lemma_merkle_round(
    p: MerkleTreeProof,
    below: Seq<ItemV>,
    alt: Seq<ItemV>,
    root: Seq<u8>,
    query: u32,
    logn: usize,
    i: usize,
)
    requires
        i <= logn <= MAX_LOGN,
        p.siblings@.len() == i,
    ensures
        run(
            merkle_round_program(logn, i),
            st(p.items() + below.push(ItemV::Bytes(root)) + bit_items(query, logn), alt),
        ) == if layer_opens(p, query, root, i as nat) {
            Some(st(below + bit_items(query, logn), alt + nums(p.leaf.limbs()).reverse()))
        } else {
            None
        },
{
    let prog = merkle_round_program(logn, i);
    let limbs = p.leaf.limbs();
    let sibs = digest_rows(p.siblings@);
    let bits = bit_items(query, logn);
    let low = nums(bits_of(query, i as nat));
    let t0 = p.items() + below.push(ItemV::Bytes(root)) + bits;
    let s0 = st(t0, alt);
    lemma_run_ends(prog, s0);
    // the low bits are copied aside
    let group = bits.skip(logn - i);
    let under = p.items() + below.push(ItemV::Bytes(root)) + bits.take(logn - i);
    assert(t0 =~= under + group);
    lemma_low_bits_on_top(query, logn, i);
    rule_copy_to_alt(under, alt, group, i);
    let s1 = st(t0, alt + low);
    lemma_run_prefix(prog, 0, s0, s0, s1);
    // the root comes up
    rule_push_num(t0, alt + low, logn as u32);
    let s2 = st(t0.push(ItemV::Num(logn as u32)), alt + low);
    lemma_run_prefix(prog, 1, s0, s1, s2);
    let front = p.items() + below;
    assert(t0 =~= front.push(ItemV::Bytes(root)) + bits);
    rule_roll(front, alt + low, ItemV::Bytes(root), bits, logn as u32);
    let t3 = (front + bits).push(ItemV::Bytes(root));
    let s3 = st(t3, alt + low);
    lemma_run_prefix(prog, 2, s0, s2, s3);
    // the path is checked
    let mid = below + bits;
    assert(t3 =~= (nums(limbs) + byte_items(sibs) + mid).push(ItemV::Bytes(root)));
    rule_merkle(limbs, sibs, mid, alt, bits_of(query, i as nat), root, i);
    assert(prog.take(4) =~= prog.take(3).push(prog[3]));
    lemma_run_push(prog.take(3), prog[3], s0);
    assert(prog.take(5) =~= prog.take(4).push(prog[4]));
    lemma_run_push(prog.take(4), prog[4], s0);
    assert(prog.take(5) =~= prog);
    if layer_opens(p, query, root, i as nat) {
        // the leaf is put aside
        rule_to_alt4(mid, alt, nums(limbs));
    }
}

/// The openings of one query in the order of their checks: the smallest
/// tree first.
pub open spec fn checked_order(openings: Seq<MerkleTreeProof>) -> Seq<MerkleTreeProof> {
    openings.reverse()
}

/// The leaves of the openings, as limbs.
pub open spec fn leaves_of(openings: Seq<MerkleTreeProof>) -> Seq<Seq<u32>> {
    openings.map_values(|p: MerkleTreeProof| p.leaf.limbs())
}

/// The first `t` openings in the order of their checks open their trees
/// at the low bits of the query: check `u` is made in the tree of height
/// `u + 2` against the root of the layer `logn - 2 - u`.
pub open spec fn first_open(
    openings: Seq<MerkleTreeProof>,
    roots: Seq<Seq<u8>>,
    query: u32,
    t: nat,
) -> bool {
    forall|u: int|
        0 <= u < t ==> layer_opens(
            #[trigger] checked_order(openings)[u],
            query,
            roots.reverse()[u],
            (u + 2) as nat,
        )
}

/// The first `t` layer checks of a query, the smallest tree first: they
/// put the first `t` leaves aside if the first `t` openings open their
/// trees, and abort otherwise. Roots and openings of the larger trees and
/// the bits stay where they are.
#[verifier::rlimit(40)]
pub proof fn lemma_merkle_rounds(
    openings: Seq<MerkleTreeProof>,
    roots: Seq<Seq<u8>>,
    query: u32,
    logn: usize,
    aside: Seq<ItemV>,
    t: nat,
)
    requires
        2 <= logn <= MAX_LOGN,
        t <= openings.len() == roots.len() == logn - 1,
        forall|l: int|
            0 <= l < openings.len() ==> (#[trigger] openings[l]).siblings@.len() == logn - l,
    ensures
        run(
            merkle_rounds_program(logn, t + 1),
            st(
                query_witness(openings) + byte_items(roots) + bit_items(query, logn),
                aside,
            ),
        ) == if first_open(openings, roots, query, t) {
            Some(
                st(
                    join(
                        checked_order(openings).skip(t as int).map_values(
                            |p: MerkleTreeProof| p.items(),
                        ),
                    ) + byte_items(roots.take(roots.len() - t)) + bit_items(query, logn),
                    aside + stashed(leaves_of(checked_order(openings)).take(t as int)),
                ),
            )
        } else {
            None
        },
    decreases t,
{
    let n = openings.len();
    let order = checked_order(openings);
    let item = |p: MerkleTreeProof| p.items();
    let bits = bit_items(query, logn);
    let s0 = st(query_witness(openings) + byte_items(roots) + bits, aside);
    let put = leaves_of(order);
    if t == 0 {
        assert(order.skip(0) =~= order);
        assert(roots.take(n as int) =~= roots);
        assert(put.take(0) =~= Seq::<Seq<u32>>::empty());
        assert(aside + stashed(put.take(0)) =~= aside);
        reveal_with_fuel(merkle_rounds_program, 2);
    } else {
        let u = (t - 1) as nat;
        let i = (t + 1) as usize;
        lemma_merkle_rounds(openings, roots, query, logn, aside, u);
        lemma_run_concat(merkle_rounds_program(logn, t), merkle_round_program(logn, i), s0);
        assert(first_open(openings, roots, query, t) ==> first_open(openings, roots, query, u));
        if first_open(openings, roots, query, u) {
            let p = order[u as int];
            let root = roots.reverse()[u as int];
            let parts = order.skip(u as int).map_values(item);
            lemma_join_first(parts);
            assert(parts.drop_first() =~= order.skip(t as int).map_values(item));
            let later = join(order.skip(t as int).map_values(item));
            let below = later + byte_items(roots.take(n - t));
            let alt = aside + stashed(put.take(u as int));
            assert(roots.take(n - u) =~= roots.take(n - t).push(root));
            assert(join(parts) + byte_items(roots.take(n - u)) + bits =~= p.items() + below.push(
                ItemV::Bytes(root),
            ) + bits);
            assert(p == openings[n - 1 - u]);
            lemma_merkle_round(p, below, alt, root, query, logn, i);
            assert(put.take(t as int) =~= put.take(u as int).push(p.leaf.limbs()));
            lemma_stashed_push(put.take(u as int), p.leaf.limbs());
            assert(alt + nums(p.leaf.limbs()).reverse() =~= aside + stashed(put.take(t as int)));
            if !layer_opens(p, query, root, i as nat) {
                assert(!first_open(openings, roots, query, t));
            }
        }
    }
}

/// Pairs of items on top are dropped, as many as the program has rounds.
pub proof fn lemma_drop_pairs(base: Seq<ItemV>, alt: Seq<ItemV>, items: Seq<ItemV>, c: nat)
    requires
        items.len() == 2 * c,
    ensures
        run(repeat(seq![InstrV::Drop2], c), st(base + items, alt)) == Some(st(base, alt)),
    decreases c,
{
    if c == 0 {
        assert(base + items =~= base);
    } else {
        let first = items.take(2);
        let rest = items.skip(2);
        assert(base + items =~= (base + first) + rest);
        lemma_drop_pairs(base + first, alt, rest, (c - 1) as nat);
        assert(base + first =~= base.push(first[0]).push(first[1]));
        rule_drop2(base, alt, first[0], first[1]);
        lemma_run_one(InstrV::Drop2, st(base + first, alt));
        lemma_run_then(
            repeat(seq![InstrV::Drop2], (c - 1) as nat),
            seq![InstrV::Drop2],
            st(base + items, alt),
            st(base + first, alt),
            st(base, alt),
        );
    }
}

/// The bits of the query are dropped.
pub proof fn lemma_drop_bits(alt: Seq<ItemV>, query: u32, logn: usize)
    ensures
        run(drop_bits_program(logn), st(bit_items(query, logn), alt)) == Some(
            st(Seq::empty(), alt),
        ),
{
    let none = Seq::<ItemV>::empty();
    let bits = bit_items(query, logn);
    let pairs = repeat(seq![InstrV::Drop2], (logn / 2) as nat);
    if logn % 2 == 1 {
        let one = seq![bits[0]];
        let rest = bits.skip(1);
        assert(bits =~= one + rest);
        lemma_drop_pairs(one, alt, rest, (logn / 2) as nat);
        assert(one =~= none.push(bits[0]));
        rule_drop(none, alt, bits[0]);
        lemma_run_one(InstrV::Drop, st(one, alt));
        lemma_run_then(pairs, seq![InstrV::Drop], st(bits, alt), st(one, alt), st(none, alt));
    } else {
        assert(bits =~= none + bits);
        lemma_drop_pairs(none, alt, bits, (logn / 2) as nat);
        assert(pairs + Seq::<InstrV>::empty() =~= pairs);
    }
}

/// What the layer check of one query establishes. Run on the openings of
/// the query, the roots of the layers and the query, whatever the
/// auxiliary stack holds, the program runs to its end exactly if the query
/// is an index of the domain and the opening of every layer `l` opens that
/// layer's tree at the `logn - l` low bits of the query, that is at the
/// index `query mod 2^(logn - l)`. It then leaves the leaves of the
/// layers, the one of the last layer highest, and nothing else, and the
/// auxiliary stack is as it was.
pub proof fn lemma_single_query_check(
    openings: Seq<MerkleTreeProof>,
    roots: Seq<Seq<u8>>,
    query: u32,
    logn: usize,
    aside: Seq<ItemV>,
)
    requires
        2 <= logn <= MAX_LOGN,
        openings.len() == roots.len() == logn - 1,
        forall|l: int|
            0 <= l < openings.len() ==> (#[trigger] openings[l]).siblings@.len() == logn - l,
    ensures
        run(
            pushes((query_witness(openings) + byte_items(roots)).push(ItemV::Num(query)))
                + check_single_query_program(logn),
            st(Seq::empty(), aside),
        ) == if query < pow2(logn as nat) && forall|l: int|
            0 <= l < openings.len() ==> layer_opens(
                #[trigger] openings[l],
                query,
                roots[l],
                (logn - l) as nat,
            ) {
            Some(st(limb_items(leaves_of(openings)), aside))
        } else {
            None
        },
{
    let n = openings.len();
    let none = Seq::<ItemV>::empty();
    let order = checked_order(openings);
    let input = query_witness(openings) + byte_items(roots);
    let start = input.push(ItemV::Num(query));
    let bits = bit_items(query, logn);
    let a = seq![InstrV::LimbToBeBits(logn as u32)];
    let b = merkle_rounds_program(logn, logn as nat);
    let c = drop_bits_program(logn);
    let d = repeat(seq![InstrV::Qm31FromAltStack], n);
    let put = leaves_of(order);
    assert(check_single_query_program(logn) == a + b + c + d);
    lemma_run_pushes(start, none, aside);
    assert(none + start =~= start);
    let s_w = st(start, aside);
    lemma_run_concat(pushes(start), a + b + c + d, st(none, aside));
    lemma_run_concat(a, b, s_w);
    lemma_run_concat(a + b, c, s_w);
    lemma_run_concat(a + b + c, d, s_w);
    rule_bits(input, aside, query, logn as u32);
    lemma_run_one(InstrV::LimbToBeBits(logn as u32), s_w);
    lemma_merkle_rounds(openings, roots, query, logn, aside, n);
    // the two ways of numbering the openings agree
    assert(first_open(openings, roots, query, n) <==> (forall|l: int|
        0 <= l < n ==> layer_opens(#[trigger] openings[l], query, roots[l], (logn - l) as nat)))
        by {
        if first_open(openings, roots, query, n) {
            assert forall|l: int| 0 <= l < n implies layer_opens(
                #[trigger] openings[l],
                query,
                roots[l],
                (logn - l) as nat,
            ) by {
                let u = n - 1 - l;
                assert(order[u] == openings[l]);
                assert(roots.reverse()[u] == roots[l]);
            }
        }
        if forall|l: int|
            0 <= l < n ==> layer_opens(#[trigger] openings[l], query, roots[l], (logn - l) as nat) {
            assert forall|u: int| 0 <= u < n implies layer_opens(
                #[trigger] order[u],
                query,
                roots.reverse()[u],
                (u + 2) as nat,
            ) by {
                let l = n - 1 - u;
                assert(order[u] == openings[l]);
                assert(roots.reverse()[u] == roots[l]);
            }
        }
    }
    if query < pow2(logn as nat) && first_open(openings, roots, query, n) {
        assert(order.skip(n as int).map_values(|p: MerkleTreeProof| p.items()) =~= Seq::<
            Seq<ItemV>,
        >::empty());
        assert(roots.take(0) =~= Seq::<Seq<u8>>::empty());
        assert(join(order.skip(n as int).map_values(|p: MerkleTreeProof| p.items())) + byte_items(
            roots.take(0),
        ) + bits =~= bits);
        assert(put.take(n as int) =~= put);
        lemma_drop_bits(aside + stashed(put), query, logn);
        assert forall|i: int| 0 <= i < put.len() implies (#[trigger] put[i]).len() == 4 by {}
        lemma_restore(none, aside, put, n);
        assert(put.take(0) =~= Seq::<Seq<u32>>::empty());
        assert(aside + stashed(put.take(0)) =~= aside);
        assert(put.reverse().take(n as int) =~= leaves_of(openings));
        assert(none + limb_items(leaves_of(openings)) =~= limb_items(leaves_of(openings)));
    }
}

} // verus!
