//! Merkle paths: the openings that a proof carries and the root that a
//! leaf, its siblings and its position determine.

use crate::extract::lemma_u32_below_pow2;
use crate::extract::power_of_two;
use crate::fields::le_bytes;
use crate::fields::pack_limbs;
use crate::fields::M31;
use crate::fields::QM31;
use crate::hash::digest;
use crate::hash::hash_pair;
use vstd::arithmetic::div_mod::lemma_basic_div;
use vstd::arithmetic::div_mod::lemma_div_multiples_vanish_fancy;
use vstd::arithmetic::div_mod::lemma_fundamental_div_mod;
use vstd::arithmetic::div_mod::lemma_mod_multiples_vanish;
use vstd::arithmetic::power2::lemma_pow2_adds;
use vstd::arithmetic::power2::lemma_pow2_unfold;
use vstd::arithmetic::power2::lemma_pow2_pos;
use vstd::arithmetic::power2::pow2;
use vstd::prelude::*;

verus! {

/// An opening of one evaluation in one layer's tree: the evaluation and the
/// digests beside the path from it to the root, lowest first.
#[derive(Debug, PartialEq, Eq)]
pub struct MerkleTreeProof {
    pub leaf: QM31,
    pub siblings: Vec<[u8; 32]>,
}

/// An opening of one entry of the twiddle table: the pair of twiddle factors
/// and the digests beside the path from it to the root, lowest first.
#[derive(Debug, PartialEq, Eq)]
pub struct TwiddleMerkleTreeProof {
    pub leaf: [M31; 2],
    pub siblings: Vec<[u8; 32]>,
}

/// Bit `j` of `v`.
pub open spec fn bit(v: u32, j: nat) -> u32 {
    ((v as int / pow2(j) as int) % 2) as u32
}

/// The `n` low bits of `v`, the least significant first.
pub open spec fn bits_of(v: u32, n: nat) -> Seq<u32> {
    Seq::new(n, |j: int| bit(v, j as nat))
}

/// The digest of an evaluation leaf with the given limbs.
pub open spec fn leaf_digest(limbs: Seq<u32>) -> Seq<u8> {
    digest(pack_limbs(limbs))
}

/// The digest of a twiddle leaf with the given pair.
pub open spec fn twiddle_leaf_digest(pair: Seq<u32>) -> Seq<u8> {
    digest(le_bytes(pair[0]) + le_bytes(pair[1]))
}

/// The root above `node`: at each level the node is hashed with its sibling,
/// on the left where the position bit of that level is 0 and on the right
/// where it is not.
pub open spec fn merkle_root(node: Seq<u8>, siblings: Seq<Seq<u8>>, bits: Seq<u32>) -> Seq<u8>
    decreases siblings.len(),
{
    if siblings.len() == 0 {
        node
    } else {
        let up = if bits[0] == 0 {
            digest(node + siblings[0])
        } else {
            digest(siblings[0] + node)
        };
        merkle_root(up, siblings.drop_first(), bits.drop_first())
    }
}

/// Bit `j` of `v`, for `j` below `h`, is bit `j` of `v mod 2^h`.
proof fn lemma_bit_of_remainder(v: u32, h: nat, j: nat)
    requires
        j < h,
    ensures
        bit(v, j) == bit((v as int % pow2(h) as int) as u32, j),
{
    let m = pow2(h) as int;
    let d = pow2(j) as int;
    let e = pow2((h - j - 1) as nat) as int;
    lemma_pow2_pos(h);
    lemma_pow2_pos(j);
    lemma_pow2_adds(j, (h - j) as nat);
    lemma_pow2_unfold((h - j) as nat);
    let a = v as int / m;
    let r = v as int % m;
    lemma_fundamental_div_mod(v as int, m);
    let rq = r / d;
    let rr = r % d;
    lemma_fundamental_div_mod(r, d);
    assert(m == d * (2 * e)) by (nonlinear_arith)
        requires
            m == d * pow2((h - j) as nat),
            pow2((h - j) as nat) == 2 * e,
    ;
    assert(v as int == d * (2 * (e * a) + rq) + rr) by (nonlinear_arith)
        requires
            v as int == m * a + r,
            r == d * rq + rr,
            m == d * (2 * e),
    ;
    lemma_div_multiples_vanish_fancy(2 * (e * a) + rq, rr, d);
    lemma_mod_multiples_vanish(e * a, rq, 2);
}

/// The `h` low bits of `v` are the bits of `v mod 2^h`: the position that
/// they give in a tree of height `h` is the index `v mod 2^h`.
pub proof fn lemma_low_bits_are_the_index(v: u32, h: nat)
    ensures
        bits_of(v, h) == bits_of((v as int % pow2(h) as int) as u32, h),
{
    let index = (v as int % pow2(h) as int) as u32;
    assert forall|j: int| 0 <= j < h implies #[trigger] bits_of(v, h)[j] == bits_of(index, h)[j] by {
        lemma_bit_of_remainder(v, h, j as nat);
    }
    assert(bits_of(v, h) =~= bits_of(index, h));
}

/// The byte strings that the vectors hold.
pub open spec fn rows(v: Seq<Vec<u8>>) -> Seq<Seq<u8>> {
    v.map_values(|r: Vec<u8>| r@)
}

/// Computes bit `j` of `v`.
pub fn bit_of(v: u32, j: usize) -> (r: u32)
    ensures
        r == bit(v, j as nat),
{
    if j >= 32 {
        proof {
            lemma_u32_below_pow2(v, j as nat);
            lemma_basic_div(v as int, pow2(j as nat) as int);
        }
        return 0;
    }
    let pw: u64 = power_of_two(j);
    proof {
        lemma_pow2_pos(j as nat);
    }
    (((v as u64) / pw) % 2) as u32
}

/// Computes the root above `node`.
pub(crate) fn fold_path(node: [u8; 32], siblings: &Vec<Vec<u8>>, bits: &Vec<u32>) -> (root: [u8; 32])
    requires
        bits.len() == siblings.len(),
    ensures
        root@ == merkle_root(node@, rows(siblings@), bits@),
{
    let mut cur = node;
    let mut j: usize = 0;
    let n = siblings.len();
    assert(rows(siblings@).skip(0) =~= rows(siblings@));
    assert(bits@.skip(0) =~= bits@);
    while j < n
        invariant
            j <= n == siblings.len() == bits.len(),
            merkle_root(node@, rows(siblings@), bits@) == merkle_root(
                cur@,
                rows(siblings@).skip(j as int),
                bits@.skip(j as int),
            ),
        decreases n - j,
    {
        let ghost sibs = rows(siblings@).skip(j as int);
        let ghost bs = bits@.skip(j as int);
        assert(sibs[0] == siblings[j as int]@);
        assert(bs[0] == bits[j as int]);
        assert(sibs.drop_first() =~= rows(siblings@).skip(j + 1));
        assert(bs.drop_first() =~= bits@.skip(j + 1));
        if bits[j] == 0 {
            cur = hash_pair(cur.as_slice(), siblings[j].as_slice());
        } else {
            cur = hash_pair(siblings[j].as_slice(), cur.as_slice());
        }
        j = j + 1;
    }
    cur
}

} // verus!
