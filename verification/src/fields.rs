//! The base field of size `2^31 - 1`, its quartic extension as four limbs,
//! and their canonical byte encoding.

use vstd::prelude::*;

verus! {

/// The modulus of the base field, `2^31 - 1`.
pub const P: u32 = 2147483647;

/// An element of the base field, held as its representative below `P`.
#[derive(Clone, Copy, Debug, PartialEq, Eq, Structural)]
pub struct M31(pub u32);

/// An element of the quadratic extension: real and imaginary part.
#[derive(Clone, Copy, Debug, PartialEq, Eq, Structural)]
pub struct CM31(pub M31, pub M31);

/// An element of the quartic extension, two quadratic elements.
#[derive(Clone, Copy, Debug, PartialEq, Eq, Structural)]
pub struct QM31(pub CM31, pub CM31);

/// The four bytes of `x`, least significant first.
pub open spec fn le_bytes(x: u32) -> Seq<u8> {
    seq![
        (x % 256) as u8,
        (x / 256 % 256) as u8,
        (x / 65536 % 256) as u8,
        (x / 16777216) as u8,
    ]
}

/// The number that four little-endian bytes of `bytes` spell, from `at` on.
pub open spec fn le_word(bytes: Seq<u8>, at: int) -> int {
    bytes[at] + 256 * bytes[at + 1] + 65536 * bytes[at + 2] + 16777216 * bytes[at + 3]
}

impl M31 {
    /// The representative is in the canonical range.
    pub open spec fn canonical(self) -> bool {
        self.0 < P
    }

    /// The field element that `x` stands for.
    pub fn reduce(x: u64) -> (r: M31)
        ensures
            r.0 == x % (P as u64),
            r.canonical(),
    {
        M31((x % (P as u64)) as u32)
    }
}

impl QM31 {
    /// The four limbs in encoding order.
    pub open spec fn limbs(self) -> Seq<u32> {
        seq![self.0.0.0, self.0.1.0, self.1.0.0, self.1.1.0]
    }

    /// Every limb is in the canonical range.
    pub open spec fn canonical(self) -> bool {
        self.0.0.canonical() && self.0.1.canonical() && self.1.0.canonical()
            && self.1.1.canonical()
    }

    /// The canonical encoding: sixteen bytes, each limb little-endian.
    pub open spec fn packed(self) -> Seq<u8> {
        pack_limbs(self.limbs())
    }

    /// The element with the given limbs.
    pub fn from_limbs(a: u32, b: u32, c: u32, d: u32) -> (r: QM31)
        ensures
            r.limbs() == seq![a, b, c, d],
    {
        QM31(CM31(M31(a), M31(b)), CM31(M31(c), M31(d)))
    }

    /// Writes the canonical encoding.
    pub fn pack(&self) -> (out: Vec<u8>)
        ensures
            out@ == self.packed(),
    {
        let mut out: Vec<u8> = Vec::new();
        push_le_bytes(&mut out, self.0.0.0);
        push_le_bytes(&mut out, self.0.1.0);
        push_le_bytes(&mut out, self.1.0.0);
        push_le_bytes(&mut out, self.1.1.0);
        assert(out@ =~= self.packed());
        out
    }
}

/// The encoding of four limbs, one after the other.
pub open spec fn pack_limbs(limbs: Seq<u32>) -> Seq<u8> {
    le_bytes(limbs[0]) + le_bytes(limbs[1]) + le_bytes(limbs[2]) + le_bytes(limbs[3])
}

/// Appends the four little-endian bytes of `x` to `out`.
pub fn push_le_bytes(out: &mut Vec<u8>, x: u32)
    ensures
        final(out)@ == old(out)@ + le_bytes(x),
{
    out.push((x % 256) as u8);
    out.push((x / 256 % 256) as u8);
    out.push((x / 65536 % 256) as u8);
    out.push((x / 16777216) as u8);
    assert(out@ =~= old(out)@ + le_bytes(x));
}

} // verus!
