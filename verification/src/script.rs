//! Programs for the constrained stack machine.
//!
//! A program is a fixed sequence of instructions: it has no jumps, and every
//! loop is unrolled when the program is built. Besides the machine's own
//! opcodes an instruction can stand for a fragment that is supplied from
//! outside (field packing, hint checking, Merkle verification); such an
//! instruction is defined by what the fragment has to do.

use crate::fields::QM31;
use crate::machine::nums;
use crate::machine::pushes;
use vstd::prelude::*;

verus! {

/// One instruction.
#[derive(Debug, PartialEq, Eq)]
pub enum Instr {
    /// Pushes a byte string.
    PushBytes(Vec<u8>),
    /// Pushes a number.
    PushNum(u32),
    /// Duplicates the top item.
    Dup,
    /// Exchanges the two top items.
    Swap,
    /// Removes the top item.
    Drop,
    /// Removes the two top items.
    Drop2,
    /// Takes a number `n` off the stack and moves the item `n` below the top
    /// to the top.
    Roll,
    /// Replaces the two top byte strings by their concatenation, the lower
    /// one first.
    Cat,
    /// Replaces the top byte string by its SHA-256 digest.
    Sha256,
    /// Moves the top item to the auxiliary stack.
    ToAltStack,
    /// Moves the top item of the auxiliary stack back.
    FromAltStack,
    /// Replaces the two top items by 1 if they are equal and by 0 if not.
    Equal,
    /// Removes the two top items and aborts unless they are equal.
    EqualVerify,
    /// Replaces the four limbs on top by their canonical encoding.
    CommitQm31,
    /// Checks the hint at the bottom of the stack against the digest on top
    /// and replaces both by the four limbs that the digest holds.
    UnpackQm31,
    /// Checks the hint at the bottom of the stack against the digest on top
    /// and replaces both by the five values that the digest holds.
    Unpack5M31,
    /// Cuts the number on top down to its low bits, as many as given.
    TrimM31(usize),
    /// Moves the four top items to the auxiliary stack, the top one first.
    Qm31ToAltStack,
    /// Moves four items back from the auxiliary stack.
    Qm31FromAltStack,
    /// Removes the two groups of four items on top and aborts unless they
    /// are equal.
    Qm31EqualVerify,
    /// Replaces the number on top by its bits, as many as given, the least
    /// significant one on top.
    LimbToBeBits(u32),
    /// Copies the top items, as many as given, to the auxiliary stack, the
    /// top one first, and leaves them where they are.
    CopyToAltStack(usize),
    /// Verifies a Merkle path of the given height: the leaf and the siblings
    /// are taken from the bottom of the stack, the root from the top, the
    /// position bits from the auxiliary stack; the leaf is left on top.
    MerkleVerify(usize),
    /// Verifies a path of the given height in the twiddle table: the leaf
    /// and the siblings are taken from the bottom of the stack, the position
    /// and below it the root from the top; the leaf is left on top.
    TwiddleVerify(usize),
}

/// An instruction as a mathematical value.
pub enum InstrV {
    PushBytes(Seq<u8>),
    PushNum(u32),
    Dup,
    Swap,
    Drop,
    Drop2,
    Roll,
    Cat,
    Sha256,
    ToAltStack,
    FromAltStack,
    Equal,
    EqualVerify,
    CommitQm31,
    UnpackQm31,
    Unpack5M31,
    TrimM31(usize),
    Qm31ToAltStack,
    Qm31FromAltStack,
    Qm31EqualVerify,
    LimbToBeBits(u32),
    CopyToAltStack(usize),
    MerkleVerify(usize),
    TwiddleVerify(usize),
}

impl View for Instr {
    type V = InstrV;

    open spec fn view(&self) -> InstrV {
        match *self {
            Instr::PushBytes(b) => InstrV::PushBytes(b@),
            Instr::PushNum(n) => InstrV::PushNum(n),
            Instr::Dup => InstrV::Dup,
            Instr::Swap => InstrV::Swap,
            Instr::Drop => InstrV::Drop,
            Instr::Drop2 => InstrV::Drop2,
            Instr::Roll => InstrV::Roll,
            Instr::Cat => InstrV::Cat,
            Instr::Sha256 => InstrV::Sha256,
            Instr::ToAltStack => InstrV::ToAltStack,
            Instr::FromAltStack => InstrV::FromAltStack,
            Instr::Equal => InstrV::Equal,
            Instr::EqualVerify => InstrV::EqualVerify,
            Instr::CommitQm31 => InstrV::CommitQm31,
            Instr::UnpackQm31 => InstrV::UnpackQm31,
            Instr::Unpack5M31 => InstrV::Unpack5M31,
            Instr::TrimM31(n) => InstrV::TrimM31(n),
            Instr::Qm31ToAltStack => InstrV::Qm31ToAltStack,
            Instr::Qm31FromAltStack => InstrV::Qm31FromAltStack,
            Instr::Qm31EqualVerify => InstrV::Qm31EqualVerify,
            Instr::LimbToBeBits(n) => InstrV::LimbToBeBits(n),
            Instr::CopyToAltStack(n) => InstrV::CopyToAltStack(n),
            Instr::MerkleVerify(n) => InstrV::MerkleVerify(n),
            Instr::TwiddleVerify(n) => InstrV::TwiddleVerify(n),
        }
    }
}

/// A copy of the bytes of `bytes`.
pub fn copy_bytes(bytes: &[u8]) -> (out: Vec<u8>)
    ensures
        out@ == bytes@,
{
    let mut out: Vec<u8> = Vec::new();
    out.extend_from_slice(bytes);
    assert(out@ =~= bytes@);
    out
}

impl Instr {
    /// A copy of this instruction.
    pub fn copy(&self) -> (r: Instr)
        ensures
            r@ == self@,
    {
        match self {
            Instr::PushBytes(b) => Instr::PushBytes(copy_bytes(b.as_slice())),
            Instr::PushNum(n) => Instr::PushNum(*n),
            Instr::Dup => Instr::Dup,
            Instr::Swap => Instr::Swap,
            Instr::Drop => Instr::Drop,
            Instr::Drop2 => Instr::Drop2,
            Instr::Roll => Instr::Roll,
            Instr::Cat => Instr::Cat,
            Instr::Sha256 => Instr::Sha256,
            Instr::ToAltStack => Instr::ToAltStack,
            Instr::FromAltStack => Instr::FromAltStack,
            Instr::Equal => Instr::Equal,
            Instr::EqualVerify => Instr::EqualVerify,
            Instr::CommitQm31 => Instr::CommitQm31,
            Instr::UnpackQm31 => Instr::UnpackQm31,
            Instr::Unpack5M31 => Instr::Unpack5M31,
            Instr::TrimM31(n) => Instr::TrimM31(*n),
            Instr::Qm31ToAltStack => Instr::Qm31ToAltStack,
            Instr::Qm31FromAltStack => Instr::Qm31FromAltStack,
            Instr::Qm31EqualVerify => Instr::Qm31EqualVerify,
            Instr::LimbToBeBits(n) => Instr::LimbToBeBits(*n),
            Instr::CopyToAltStack(n) => Instr::CopyToAltStack(*n),
            Instr::MerkleVerify(n) => Instr::MerkleVerify(*n),
            Instr::TwiddleVerify(n) => Instr::TwiddleVerify(*n),
        }
    }
}

/// A program: instructions in the order in which they run.
#[derive(Debug, PartialEq, Eq)]
pub struct Script {
    pub instrs: Vec<Instr>,
}

impl View for Script {
    type V = Seq<InstrV>;

    open spec fn view(&self) -> Seq<InstrV> {
        self.instrs@.map_values(|i: Instr| i@)
    }
}

/// `n` copies of `part`, one after the other.
pub open spec fn repeat(part: Seq<InstrV>, n: nat) -> Seq<InstrV>
    decreases n,
{
    if n == 0 {
        Seq::empty()
    } else {
        repeat(part, (n - 1) as nat) + part
    }
}

impl Script {
    /// The empty program.
    pub fn new() -> (r: Script)
        ensures
            r@ == Seq::<InstrV>::empty(),
    {
        let r = Script { instrs: Vec::new() };
        assert(r@ =~= Seq::<InstrV>::empty());
        r
    }

    /// The number of instructions.
    pub fn len(&self) -> (n: usize)
        ensures
            n == self@.len(),
    {
        self.instrs.len()
    }

    /// Appends one instruction.
    pub fn push(&mut self, instr: Instr)
        ensures
            final(self)@ == old(self)@.push(instr@),
    {
        self.instrs.push(instr);
        assert(self@ =~= old(self)@.push(instr@));
    }

    /// Appends a push of `bytes`.
    pub fn push_bytes(&mut self, bytes: &[u8])
        ensures
            final(self)@ == old(self)@.push(InstrV::PushBytes(bytes@)),
    {
        self.push(Instr::PushBytes(copy_bytes(bytes)));
    }

    /// Appends a push of the number `n`.
    pub fn push_num(&mut self, n: u32)
        ensures
            final(self)@ == old(self)@.push(InstrV::PushNum(n)),
    {
        self.push(Instr::PushNum(n));
    }

    /// Appends pushes of the four limbs of `v`, the first limb first.
    pub fn push_qm31(&mut self, v: &QM31)
        ensures
            final(self)@ == old(self)@ + pushes(nums(v.limbs())),
    {
        self.push_num(v.0.0.0);
        self.push_num(v.0.1.0);
        self.push_num(v.1.0.0);
        self.push_num(v.1.1.0);
        assert(self@ =~= old(self)@ + pushes(nums(v.limbs())));
    }

    /// Appends the program `other`.
    pub fn extend(&mut self, other: &Script)
        ensures
            final(self)@ == old(self)@ + other@,
    {
        let n = other.instrs.len();
        let mut i: usize = 0;
        assert(self@ =~= old(self)@ + other@.take(0));
        while i < n
            invariant
                i <= n == other.instrs.len(),
                self@ == old(self)@ + other@.take(i as int),
            decreases n - i,
        {
            let instr = other.instrs[i].copy();
            self.push(instr);
            assert(other@.take(i + 1) =~= other@.take(i as int).push(other@[i as int]));
            assert(self@ =~= old(self)@ + other@.take(i + 1));
            i = i + 1;
        }
        assert(other@.take(n as int) =~= other@);
    }

    /// Appends `n` copies of the program `part`.
    pub fn extend_repeated(&mut self, part: &Script, n: usize)
        ensures
            final(self)@ == old(self)@ + repeat(part@, n as nat),
    {
        let mut i: usize = 0;
        assert(self@ =~= old(self)@ + repeat(part@, 0));
        while i < n
            invariant
                i <= n,
                self@ == old(self)@ + repeat(part@, i as nat),
            decreases n - i,
        {
            self.extend(part);
            assert(self@ =~= old(self)@ + repeat(part@, (i + 1) as nat));
            i = i + 1;
        }
    }
}

} // verus!
