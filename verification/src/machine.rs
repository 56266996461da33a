//! The constrained stack machine: what each instruction does to the two
//! stacks, and what it means for a program to run.
//!
//! The machine has an execution stack and an auxiliary stack and nothing
//! else. An instruction either changes the stacks or aborts the run; there
//! is no third outcome. Witness data (hints and Merkle paths) is pushed
//! before everything else and so lies at the bottom of the execution stack,
//! from where the checking instructions take it, the oldest item first.

use crate::extract::trim;
use crate::extract::unpack;
use crate::fields::pack_limbs;
use crate::hash::digest;
use crate::merkle::bits_of;
use crate::merkle::leaf_digest;
use crate::merkle::merkle_root;
use crate::merkle::twiddle_leaf_digest;
use crate::script::InstrV;
use vstd::arithmetic::power2::pow2;
use vstd::prelude::*;

verus! {

/// A stack item: a byte string or a number.
#[derive(Debug, PartialEq, Eq)]
pub enum Item {
    Bytes(Vec<u8>),
    Num(u32),
}

/// A stack item as a mathematical value.
pub enum ItemV {
    Bytes(Seq<u8>),
    Num(u32),
}

impl View for Item {
    type V = ItemV;

    open spec fn view(&self) -> ItemV {
        match *self {
            Item::Bytes(b) => ItemV::Bytes(b@),
            Item::Num(n) => ItemV::Num(n),
        }
    }
}

/// The two stacks. The last element of each sequence is the top.
pub struct State {
    pub stack: Seq<ItemV>,
    pub alt: Seq<ItemV>,
}

/// The numbers `v` as stack items, the first one lowest.
pub open spec fn nums(v: Seq<u32>) -> Seq<ItemV> {
    Seq::new(v.len(), |i: int| ItemV::Num(v[i]))
}

/// The byte strings `v` as stack items, the first one lowest.
pub open spec fn byte_items(v: Seq<Seq<u8>>) -> Seq<ItemV> {
    Seq::new(v.len(), |i: int| ItemV::Bytes(v[i]))
}

/// The instruction that pushes `item`.
pub open spec fn push_of(item: ItemV) -> InstrV {
    match item {
        ItemV::Bytes(b) => InstrV::PushBytes(b),
        ItemV::Num(v) => InstrV::PushNum(v),
    }
}

/// The program that pushes `items`, the first one first.
pub open spec fn pushes(items: Seq<ItemV>) -> Seq<InstrV> {
    Seq::new(items.len(), |i: int| push_of(items[i]))
}

/// The items of the groups `parts`, one group after the other.
pub open spec fn join(parts: Seq<Seq<ItemV>>) -> Seq<ItemV>
    decreases parts.len(),
{
    if parts.len() == 0 {
        Seq::empty()
    } else {
        join(parts.drop_last()) + parts.last()
    }
}

/// Every item is a number.
pub open spec fn all_nums(items: Seq<ItemV>) -> bool {
    forall|i: int| 0 <= i < items.len() ==> items[i] is Num
}

/// Every item is a byte string.
pub open spec fn all_bytes(items: Seq<ItemV>) -> bool {
    forall|i: int| 0 <= i < items.len() ==> items[i] is Bytes
}

/// The numbers that the items hold.
pub open spec fn num_values(items: Seq<ItemV>) -> Seq<u32> {
    Seq::new(items.len(), |i: int| items[i]->Num_0)
}

/// The byte strings that the items hold.
pub open spec fn byte_values(items: Seq<ItemV>) -> Seq<Seq<u8>> {
    Seq::new(items.len(), |i: int| items[i]->Bytes_0)
}

/// The state with the execution stack replaced.
pub open spec fn with_stack(s: State, stack: Seq<ItemV>) -> Option<State> {
    Some(State { stack, alt: s.alt })
}

/// The hint check: the hint at the bottom and the digest on top are
/// replaced by the `k` values that the digest holds.
pub open spec fn unpack_step(s: State, k: nat) -> Option<State> {
    let n = s.stack.len() as int;
    if n >= 2 && s.stack[0] is Bytes && s.stack[n - 1] is Bytes && s.stack[n - 1]->Bytes_0.len()
        == 32 {
        match unpack(s.stack[n - 1]->Bytes_0, s.stack[0]->Bytes_0, k) {
            Some(vals) => with_stack(s, s.stack.subrange(1, n - 1) + nums(vals)),
            None => None,
        }
    } else {
        None
    }
}

/// The Merkle check of an evaluation: four limbs and `h` siblings at the
/// bottom, the root on top, `h` position bits on the auxiliary stack with
/// the bit of the lowest level lowest.
pub open spec fn merkle_step(s: State, h: int) -> Option<State> {
    let n = s.stack.len() as int;
    let m = s.alt.len() as int;
    if n >= h + 5 && m >= h && all_nums(s.stack.take(4)) && all_bytes(s.stack.subrange(4, 4 + h))
        && all_nums(s.alt.skip(m - h)) && s.stack[n - 1] is Bytes && merkle_root(
        leaf_digest(num_values(s.stack.take(4))),
        byte_values(s.stack.subrange(4, 4 + h)),
        num_values(s.alt.skip(m - h)),
    ) == s.stack[n - 1]->Bytes_0 {
        Some(
            State {
                stack: s.stack.subrange(4 + h, n - 1) + s.stack.take(4),
                alt: s.alt.take(m - h),
            },
        )
    } else {
        None
    }
}

/// The Merkle check of a twiddle pair: two numbers and `h` siblings at the
/// bottom, the position on top and the root below it.
pub open spec fn twiddle_step(s: State, h: int) -> Option<State> {
    let n = s.stack.len() as int;
    if n >= h + 4 && all_nums(s.stack.take(2)) && all_bytes(s.stack.subrange(2, 2 + h))
        && s.stack[n - 2] is Bytes && s.stack[n - 1] is Num && s.stack[n - 1]->Num_0 < pow2(
        h as nat,
    ) && merkle_root(
        twiddle_leaf_digest(num_values(s.stack.take(2))),
        byte_values(s.stack.subrange(2, 2 + h)),
        bits_of(s.stack[n - 1]->Num_0, h as nat),
    ) == s.stack[n - 2]->Bytes_0 {
        with_stack(s, s.stack.subrange(2 + h, n - 2) + s.stack.take(2))
    } else {
        None
    }
}

/// What one instruction does: the state that follows `s`, or `None` where
/// the instruction aborts the run.
#[verifier::opaque]
pub open spec fn step(instr: InstrV, s: State) -> Option<State> {
    let n = s.stack.len() as int;
    let m = s.alt.len() as int;
    match instr {
        InstrV::PushBytes(b) => with_stack(s, s.stack.push(ItemV::Bytes(b))),
        InstrV::PushNum(v) => with_stack(s, s.stack.push(ItemV::Num(v))),
        InstrV::Dup => if n >= 1 {
            with_stack(s, s.stack.push(s.stack[n - 1]))
        } else {
            None
        },
        InstrV::Swap => if n >= 2 {
            with_stack(s, s.stack.take(n - 2).push(s.stack[n - 1]).push(s.stack[n - 2]))
        } else {
            None
        },
        InstrV::Drop => if n >= 1 {
            with_stack(s, s.stack.take(n - 1))
        } else {
            None
        },
        InstrV::Drop2 => if n >= 2 {
            with_stack(s, s.stack.take(n - 2))
        } else {
            None
        },
        InstrV::Roll => if n >= 1 && s.stack[n - 1] is Num && s.stack[n - 1]->Num_0 < n - 1 {
            let at = n - 2 - s.stack[n - 1]->Num_0;
            with_stack(s, s.stack.take(n - 1).remove(at).push(s.stack[at]))
        } else {
            None
        },
        InstrV::Cat => if n >= 2 && s.stack[n - 2] is Bytes && s.stack[n - 1] is Bytes {
            with_stack(
                s,
                s.stack.take(n - 2).push(
                    ItemV::Bytes(s.stack[n - 2]->Bytes_0 + s.stack[n - 1]->Bytes_0),
                ),
            )
        } else {
            None
        },
        InstrV::Sha256 => if n >= 1 && s.stack[n - 1] is Bytes {
            with_stack(s, s.stack.take(n - 1).push(ItemV::Bytes(digest(s.stack[n - 1]->Bytes_0))))
        } else {
            None
        },
        InstrV::ToAltStack => if n >= 1 {
            Some(State { stack: s.stack.take(n - 1), alt: s.alt.push(s.stack[n - 1]) })
        } else {
            None
        },
        InstrV::FromAltStack => if m >= 1 {
            Some(State { stack: s.stack.push(s.alt[m - 1]), alt: s.alt.take(m - 1) })
        } else {
            None
        },
        InstrV::Equal => if n >= 2 {
            with_stack(
                s,
                s.stack.take(n - 2).push(
                    ItemV::Num(
                        if s.stack[n - 2] == s.stack[n - 1] {
                            1u32
                        } else {
                            0u32
                        },
                    ),
                ),
            )
        } else {
            None
        },
        InstrV::EqualVerify => if n >= 2 && s.stack[n - 2] == s.stack[n - 1] {
            with_stack(s, s.stack.take(n - 2))
        } else {
            None
        },
        InstrV::CommitQm31 => if n >= 4 && all_nums(s.stack.skip(n - 4)) {
            with_stack(
                s,
                s.stack.take(n - 4).push(
                    ItemV::Bytes(pack_limbs(num_values(s.stack.skip(n - 4)))),
                ),
            )
        } else {
            None
        },
        InstrV::UnpackQm31 => unpack_step(s, 4),
        InstrV::Unpack5M31 => unpack_step(s, 5),
        InstrV::TrimM31(logn) => if n >= 1 && s.stack[n - 1] is Num {
            with_stack(
                s,
                s.stack.take(n - 1).push(ItemV::Num(trim(s.stack[n - 1]->Num_0, logn as nat))),
            )
        } else {
            None
        },
        InstrV::Qm31ToAltStack => if n >= 4 {
            Some(State { stack: s.stack.take(n - 4), alt: s.alt + s.stack.skip(n - 4).reverse() })
        } else {
            None
        },
        InstrV::Qm31FromAltStack => if m >= 4 {
            Some(State { stack: s.stack + s.alt.skip(m - 4).reverse(), alt: s.alt.take(m - 4) })
        } else {
            None
        },
        InstrV::Qm31EqualVerify => if n >= 8 && s.stack.subrange(n - 8, n - 4) == s.stack.skip(
            n - 4,
        ) {
            with_stack(s, s.stack.take(n - 8))
        } else {
            None
        },
        InstrV::LimbToBeBits(k) => if n >= 1 && s.stack[n - 1] is Num && s.stack[n - 1]->Num_0
            < pow2(k as nat) {
            with_stack(
                s,
                s.stack.take(n - 1) + nums(bits_of(s.stack[n - 1]->Num_0, k as nat)).reverse(),
            )
        } else {
            None
        },
        InstrV::CopyToAltStack(k) => if n >= k {
            Some(State { stack: s.stack, alt: s.alt + s.stack.skip(n - k).reverse() })
        } else {
            None
        },
        InstrV::MerkleVerify(h) => merkle_step(s, h as int),
        InstrV::TwiddleVerify(h) => twiddle_step(s, h as int),
    }
}

/// What a program does: the state after its last instruction, or `None` if
/// one of its instructions aborts.
pub open spec fn run(prog: Seq<InstrV>, s: State) -> Option<State>
    decreases prog.len(),
{
    if prog.len() == 0 {
        Some(s)
    } else {
        match step(prog[0], s) {
            Some(next) => run(prog.drop_first(), next),
            None => None,
        }
    }
}

/// `rest` run after `first`, if `first` did not abort.
pub open spec fn and_then_run(first: Option<State>, rest: Seq<InstrV>) -> Option<State> {
    match first {
        Some(s) => run(rest, s),
        None => None,
    }
}

/// The state in which every program starts: both stacks empty.
pub open spec fn initial() -> State {
    State { stack: Seq::empty(), alt: Seq::empty() }
}

/// Some byte of `b` is not zero.
pub open spec fn has_nonzero(b: Seq<u8>) -> bool {
    exists|i: int| 0 <= i < b.len() && b[i] != 0
}

/// An item counts as true unless it is the number 0 or a byte string
/// without a nonzero byte.
pub open spec fn truthy(item: ItemV) -> bool {
    match item {
        ItemV::Num(v) => v != 0,
        ItemV::Bytes(b) => has_nonzero(b),
    }
}

/// A program passes if it runs to its end from the initial state and leaves
/// exactly one item, a true one.
pub open spec fn accepts(prog: Seq<InstrV>) -> bool {
    match run(prog, initial()) {
        Some(s) => s.stack.len() == 1 && truthy(s.stack[0]),
        None => false,
    }
}

/// Running `a + b` is running `a` and then `b`.
pub proof fn lemma_run_concat(a: Seq<InstrV>, b: Seq<InstrV>, s: State)
    ensures
        run(a + b, s) == and_then_run(run(a, s), b),
    decreases a.len(),
{
    if a.len() == 0 {
        assert(a + b =~= b);
    } else {
        assert((a + b)[0] == a[0]);
        assert((a + b).drop_first() =~= a.drop_first() + b);
        match step(a[0], s) {
            Some(next) => {
                lemma_run_concat(a.drop_first(), b, next);
            },
            None => {},
        }
    }
}

/// Running a program of one instruction is taking that step.
pub proof fn lemma_run_one(instr: InstrV, s: State)
    ensures
        run(seq![instr], s) == step(instr, s),
{
    let prog = seq![instr];
    assert(prog[0] == instr);
    assert(prog.drop_first() =~= Seq::<InstrV>::empty());
    match step(instr, s) {
        Some(next) => {
            assert(run(prog.drop_first(), next) == Some(next));
        },
        None => {},
    }
}

/// Running a program with one more instruction at its end is running the
/// program and then taking that step.
pub proof fn lemma_run_push(prog: Seq<InstrV>, instr: InstrV, s: State)
    ensures
        run(prog.push(instr), s) == match run(prog, s) {
            Some(mid) => step(instr, mid),
            None => None,
        },
{
    assert(prog.push(instr) =~= prog + seq![instr]);
    lemma_run_concat(prog, seq![instr], s);
    match run(prog, s) {
        Some(mid) => {
            lemma_run_one(instr, mid);
        },
        None => {},
    }
}

/// A program that has led from `s` to `mid` leads on to `next` with a
/// second program that takes `mid` to `next`.
pub proof fn lemma_run_then(first: Seq<InstrV>, second: Seq<InstrV>, s: State, mid: State, next: State)
    requires
        run(first, s) == Some(mid),
        run(second, mid) == Some(next),
    ensures
        run(first + second, s) == Some(next),
{
    lemma_run_concat(first, second, s);
}

/// A program whose first `i` instructions lead from `s` to `mid` leads to
/// `next` with its first `i + 1` instructions, if instruction `i` takes
/// `mid` to `next`.
pub proof fn lemma_run_prefix(prog: Seq<InstrV>, i: int, s: State, mid: State, next: State)
    requires
        0 <= i < prog.len(),
        run(prog.take(i), s) == Some(mid),
        step(prog[i], mid) == Some(next),
    ensures
        run(prog.take(i + 1), s) == Some(next),
{
    assert(prog.take(i + 1) =~= prog.take(i).push(prog[i]));
    lemma_run_push(prog.take(i), prog[i], s);
}

/// The first no instructions of a program change nothing, and its first
/// `len` instructions are the program.
pub proof fn lemma_run_ends(prog: Seq<InstrV>, s: State)
    ensures
        run(prog.take(0), s) == Some(s),
        prog.take(prog.len() as int) == prog,
{
    assert(prog.take(0) =~= Seq::<InstrV>::empty());
    assert(prog.take(prog.len() as int) =~= prog);
}

} // verus!
