//! The machine's instructions as rewrite rules: for a stack of a given
//! shape, the stack that one instruction leaves. Proofs about programs use
//! these in place of the machine's definition.

use crate::extract::quotients;
use crate::extract::trim;
use crate::extract::values;
use crate::fields::pack_limbs;
use crate::hash::digest;
use crate::machine::byte_items;
use crate::machine::byte_values;
use crate::machine::num_values;
use crate::machine::nums;
use crate::machine::step;
use crate::machine::unpack_step;
use crate::machine::ItemV;
use crate::machine::State;
use crate::merkle::bits_of;
use crate::merkle::leaf_digest;
use crate::merkle::merkle_root;
use crate::merkle::twiddle_leaf_digest;
use crate::script::InstrV;
use vstd::arithmetic::power2::pow2;
use vstd::prelude::*;

verus! {

/// The state with the given stacks.
pub open spec fn st(stack: Seq<ItemV>, alt: Seq<ItemV>) -> State {
    State { stack, alt }
}

pub proof fn rule_push_bytes(stack: Seq<ItemV>, alt: Seq<ItemV>, b: Seq<u8>)
    ensures
        step(InstrV::PushBytes(b), st(stack, alt)) == Some(st(stack.push(ItemV::Bytes(b)), alt)),
{
    reveal(step);
}

pub proof fn rule_push_num(stack: Seq<ItemV>, alt: Seq<ItemV>, v: u32)
    ensures
        step(InstrV::PushNum(v), st(stack, alt)) == Some(st(stack.push(ItemV::Num(v)), alt)),
{
    reveal(step);
}

pub proof fn rule_dup(base: Seq<ItemV>, alt: Seq<ItemV>, x: ItemV)
    ensures
        step(InstrV::Dup, st(base.push(x), alt)) == Some(st(base.push(x).push(x), alt)),
{
    reveal(step);
}

pub proof fn rule_swap(base: Seq<ItemV>, alt: Seq<ItemV>, a: ItemV, b: ItemV)
    ensures
        step(InstrV::Swap, st(base.push(a).push(b), alt)) == Some(st(base.push(b).push(a), alt)),
{
    reveal(step);
    let s = base.push(a).push(b);
    assert(s.take(s.len() - 2) =~= base);
}

pub proof fn rule_drop(base: Seq<ItemV>, alt: Seq<ItemV>, x: ItemV)
    ensures
        step(InstrV::Drop, st(base.push(x), alt)) == Some(st(base, alt)),
{
    reveal(step);
    let s = base.push(x);
    assert(s.take(s.len() - 1) =~= base);
}

pub proof fn rule_drop2(base: Seq<ItemV>, alt: Seq<ItemV>, a: ItemV, b: ItemV)
    ensures
        step(InstrV::Drop2, st(base.push(a).push(b), alt)) == Some(st(base, alt)),
{
    reveal(step);
    let s = base.push(a).push(b);
    assert(s.take(s.len() - 2) =~= base);
}

/// `Roll` with the number `k` on top brings up the item that lies below
/// the `k` items `above`.
pub proof fn rule_roll(base: Seq<ItemV>, alt: Seq<ItemV>, x: ItemV, above: Seq<ItemV>, k: u32)
    requires
        above.len() == k,
    ensures
        step(InstrV::Roll, st((base.push(x) + above).push(ItemV::Num(k)), alt)) == Some(
            st((base + above).push(x), alt),
        ),
{
    reveal(step);
    let s = (base.push(x) + above).push(ItemV::Num(k));
    let n = s.len() as int;
    let at = n - 2 - k;
    assert(at == base.len());
    assert(s[at] == x);
    assert(s.take(n - 1).remove(at) =~= base + above);
}

pub proof fn rule_cat(base: Seq<ItemV>, alt: Seq<ItemV>, a: Seq<u8>, b: Seq<u8>)
    ensures
        step(InstrV::Cat, st(base.push(ItemV::Bytes(a)).push(ItemV::Bytes(b)), alt)) == Some(
            st(base.push(ItemV::Bytes(a + b)), alt),
        ),
{
    reveal(step);
    let s = base.push(ItemV::Bytes(a)).push(ItemV::Bytes(b));
    assert(s.take(s.len() - 2) =~= base);
}

pub proof fn rule_sha256(base: Seq<ItemV>, alt: Seq<ItemV>, a: Seq<u8>)
    ensures
        step(InstrV::Sha256, st(base.push(ItemV::Bytes(a)), alt)) == Some(
            st(base.push(ItemV::Bytes(digest(a))), alt),
        ),
{
    reveal(step);
    let s = base.push(ItemV::Bytes(a));
    assert(s.take(s.len() - 1) =~= base);
}

pub proof fn rule_to_alt(base: Seq<ItemV>, alt: Seq<ItemV>, x: ItemV)
    ensures
        step(InstrV::ToAltStack, st(base.push(x), alt)) == Some(st(base, alt.push(x))),
{
    reveal(step);
    let s = base.push(x);
    assert(s.take(s.len() - 1) =~= base);
}

pub proof fn rule_from_alt(stack: Seq<ItemV>, alt: Seq<ItemV>, x: ItemV)
    ensures
        step(InstrV::FromAltStack, st(stack, alt.push(x))) == Some(st(stack.push(x), alt)),
{
    reveal(step);
    let a = alt.push(x);
    assert(a.take(a.len() - 1) =~= alt);
}

pub proof fn rule_commit(base: Seq<ItemV>, alt: Seq<ItemV>, limbs: Seq<u32>)
    requires
        limbs.len() == 4,
    ensures
        step(InstrV::CommitQm31, st(base + nums(limbs), alt)) == Some(
            st(base.push(ItemV::Bytes(pack_limbs(limbs))), alt),
        ),
{
    reveal(step);
    let s = base + nums(limbs);
    let n = s.len() as int;
    assert(s.skip(n - 4) =~= nums(limbs));
    assert(num_values(nums(limbs)) =~= limbs);
    assert(s.take(n - 4) =~= base);
}

/// The hint check passes exactly for the hint that belongs to the digest.
pub proof fn rule_unpack(hint: Seq<u8>, mid: Seq<ItemV>, alt: Seq<ItemV>, d: Seq<u8>, k: nat)
    requires
        d.len() == 32,
    ensures
        unpack_step(st((seq![ItemV::Bytes(hint)] + mid).push(ItemV::Bytes(d)), alt), k) == if hint
            == quotients(d, k) {
            Some(st(mid + nums(values(d, k)), alt))
        } else {
            None
        },
        step(InstrV::UnpackQm31, st((seq![ItemV::Bytes(hint)] + mid).push(ItemV::Bytes(d)), alt))
            == unpack_step(st((seq![ItemV::Bytes(hint)] + mid).push(ItemV::Bytes(d)), alt), 4),
        step(InstrV::Unpack5M31, st((seq![ItemV::Bytes(hint)] + mid).push(ItemV::Bytes(d)), alt))
            == unpack_step(st((seq![ItemV::Bytes(hint)] + mid).push(ItemV::Bytes(d)), alt), 5),
{
    reveal(step);
    let s = (seq![ItemV::Bytes(hint)] + mid).push(ItemV::Bytes(d));
    let n = s.len() as int;
    assert(s[0] == ItemV::Bytes(hint));
    assert(s[n - 1] == ItemV::Bytes(d));
    assert(s.subrange(1, n - 1) =~= mid);
}

pub proof fn rule_trim(base: Seq<ItemV>, alt: Seq<ItemV>, v: u32, logn: usize)
    ensures
        step(InstrV::TrimM31(logn), st(base.push(ItemV::Num(v)), alt)) == Some(
            st(base.push(ItemV::Num(trim(v, logn as nat))), alt),
        ),
{
    reveal(step);
    let s = base.push(ItemV::Num(v));
    assert(s.take(s.len() - 1) =~= base);
}

pub proof fn rule_to_alt4(base: Seq<ItemV>, alt: Seq<ItemV>, group: Seq<ItemV>)
    requires
        group.len() == 4,
    ensures
        step(InstrV::Qm31ToAltStack, st(base + group, alt)) == Some(
            st(base, alt + group.reverse()),
        ),
{
    reveal(step);
    let s = base + group;
    let n = s.len() as int;
    assert(s.take(n - 4) =~= base);
    assert(s.skip(n - 4) =~= group);
}

pub proof fn rule_from_alt4(stack: Seq<ItemV>, alt: Seq<ItemV>, group: Seq<ItemV>)
    requires
        group.len() == 4,
    ensures
        step(InstrV::Qm31FromAltStack, st(stack, alt + group.reverse())) == Some(
            st(stack + group, alt),
        ),
{
    reveal(step);
    let a = alt + group.reverse();
    let m = a.len() as int;
    assert(a.take(m - 4) =~= alt);
    assert(a.skip(m - 4) =~= group.reverse());
    assert(group.reverse().reverse() =~= group);
}

/// The bits are taken exactly of a number that has no more bits than
/// asked for.
pub proof fn rule_bits(base: Seq<ItemV>, alt: Seq<ItemV>, v: u32, k: u32)
    ensures
        step(InstrV::LimbToBeBits(k), st(base.push(ItemV::Num(v)), alt)) == if v < pow2(k as nat) {
            Some(st(base + nums(bits_of(v, k as nat)).reverse(), alt))
        } else {
            None
        },
{
    reveal(step);
    let s = base.push(ItemV::Num(v));
    assert(s.take(s.len() - 1) =~= base);
}

pub proof fn rule_copy_to_alt(base: Seq<ItemV>, alt: Seq<ItemV>, group: Seq<ItemV>, k: usize)
    requires
        group.len() == k,
    ensures
        step(InstrV::CopyToAltStack(k), st(base + group, alt)) == Some(
            st(base + group, alt + group.reverse()),
        ),
{
    reveal(step);
    let s = base + group;
    assert(s.skip(s.len() - k) =~= group);
}

/// The Merkle check passes exactly for a leaf and siblings that hash to the
/// root at the position that the bits give.
pub proof fn rule_merkle(
    limbs: Seq<u32>,
    sibs: Seq<Seq<u8>>,
    mid: Seq<ItemV>,
    alt: Seq<ItemV>,
    bits: Seq<u32>,
    root: Seq<u8>,
    h: usize,
)
    requires
        limbs.len() == 4,
        sibs.len() == h,
        bits.len() == h,
    ensures
        step(
            InstrV::MerkleVerify(h),
            st((nums(limbs) + byte_items(sibs) + mid).push(ItemV::Bytes(root)), alt + nums(bits)),
        ) == if merkle_root(leaf_digest(limbs), sibs, bits) == root {
            Some(st(mid + nums(limbs), alt))
        } else {
            None
        },
{
    reveal(step);
    let s = (nums(limbs) + byte_items(sibs) + mid).push(ItemV::Bytes(root));
    let a = alt + nums(bits);
    let n = s.len() as int;
    let m = a.len() as int;
    assert(s.take(4) =~= nums(limbs));
    assert(s.subrange(4, 4 + h) =~= byte_items(sibs));
    assert(a.skip(m - h) =~= nums(bits));
    assert(a.take(m - h) =~= alt);
    assert(num_values(nums(limbs)) =~= limbs);
    assert(num_values(nums(bits)) =~= bits);
    assert(byte_values(byte_items(sibs)) =~= sibs);
    assert(s.subrange(4 + h, n - 1) =~= mid);
    assert(s[n - 1] == ItemV::Bytes(root));
}

/// The twiddle check passes exactly for a position inside the table and a
/// pair and siblings that hash to the root at that position.
pub proof fn rule_twiddle(
    pair: Seq<u32>,
    sibs: Seq<Seq<u8>>,
    mid: Seq<ItemV>,
    alt: Seq<ItemV>,
    root: Seq<u8>,
    pos: u32,
    h: usize,
)
    requires
        pair.len() == 2,
        sibs.len() == h,
    ensures
        step(
            InstrV::TwiddleVerify(h),
            st(
                (nums(pair) + byte_items(sibs) + mid).push(ItemV::Bytes(root)).push(
                    ItemV::Num(pos),
                ),
                alt,
            ),
        ) == if pos < pow2(h as nat) && merkle_root(
            twiddle_leaf_digest(pair),
            sibs,
            bits_of(pos, h as nat),
        ) == root {
            Some(st(mid + nums(pair), alt))
        } else {
            None
        },
{
    reveal(step);
    let s = (nums(pair) + byte_items(sibs) + mid).push(ItemV::Bytes(root)).push(ItemV::Num(pos));
    let n = s.len() as int;
    assert(s.take(2) =~= nums(pair));
    assert(s.subrange(2, 2 + h) =~= byte_items(sibs));
    assert(num_values(nums(pair)) =~= pair);
    assert(byte_values(byte_items(sibs)) =~= sibs);
    assert(s.subrange(2 + h, n - 2) =~= mid);
    assert(s[n - 2] == ItemV::Bytes(root));
    assert(s[n - 1] == ItemV::Num(pos));
}

} // verus!
