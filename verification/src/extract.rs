//! The extraction rule: how field elements and query indices are read out of
//! a 32-byte digest, natively and with a hint.
//!
//! Word `k` of a digest is the number that its bytes `4k .. 4k + 4` spell,
//! least significant byte first. The value drawn from it is the word modulo
//! `P`. The native side divides; the constrained side is handed the quotient
//! as a hint and only compares and subtracts.

use crate::fields::le_word;
use crate::fields::CM31;
use crate::fields::M31;
use crate::fields::P;
use crate::fields::QM31;
use vstd::arithmetic::div_mod::lemma_small_mod;
use vstd::arithmetic::power2::lemma_pow2_pos;
use vstd::arithmetic::power2::lemma_pow2_strictly_increases;
use vstd::arithmetic::power2::lemma_pow2_unfold;
use vstd::arithmetic::power2::lemma2_to64;
use vstd::arithmetic::power2::pow2;
use vstd::prelude::*;

verus! {

/// Word `k` of the digest `d`.
pub open spec fn word_at(d: Seq<u8>, k: int) -> int {
    le_word(d, 4 * k)
}

/// The field element drawn from word `k` of `d`.
pub open spec fn value_at(d: Seq<u8>, k: int) -> u32 {
    (word_at(d, k) % (P as int)) as u32
}

/// What the reduction of word `k` discards: 0, 1 or 2.
pub open spec fn quotient_at(d: Seq<u8>, k: int) -> u8 {
    (word_at(d, k) / (P as int)) as u8
}

/// The first `n` values drawn from `d`.
pub open spec fn values(d: Seq<u8>, n: nat) -> Seq<u32> {
    Seq::new(n, |k: int| value_at(d, k))
}

/// The hint for the first `n` values of `d`: one quotient each.
pub open spec fn quotients(d: Seq<u8>, n: nat) -> Seq<u8> {
    Seq::new(n, |k: int| quotient_at(d, k))
}

/// The low `logn` bits of `v`.
pub open spec fn trim(v: u32, logn: nat) -> u32 {
    (v as int % pow2(logn) as int) as u32
}

/// The five query indices drawn from `d` for a domain of size `2^logn`.
pub open spec fn queries(d: Seq<u8>, logn: nat) -> Seq<u32> {
    Seq::new(5, |k: int| trim(value_at(d, k), logn))
}

/// What checking `hint` against `d` yields: the first `n` values of `d` if
/// the hint is the one that belongs to `d`, and a refusal otherwise.
pub open spec fn unpack(d: Seq<u8>, hint: Seq<u8>, n: nat) -> Option<Seq<u32>> {
    if hint == quotients(d, n) {
        Some(values(d, n))
    } else {
        None
    }
}

/// The hint that accompanies one drawn extension-field element.
#[derive(Clone, Copy, Debug, PartialEq, Eq)]
pub struct ExtractionQM31(pub [u8; 4]);

/// The hint that accompanies one batch of five drawn query indices.
#[derive(Clone, Copy, Debug, PartialEq, Eq)]
pub struct Extraction5M31(pub [u8; 5]);

/// Reads word `k` of `d`.
fn word(d: &[u8], k: usize) -> (w: u32)
    requires
        k < 8,
        d.len() == 32,
    ensures
        w == word_at(d@, k as int),
{
    let at: usize = 4 * k;
    d[at] as u32 + 256 * (d[at + 1] as u32) + 65536 * (d[at + 2] as u32) + 16777216 * (d[at
        + 3] as u32)
}

/// Draws the value of word `k` and the quotient that proves it.
fn draw(d: &[u8], k: usize) -> (r: (u32, u8))
    requires
        k < 8,
        d.len() == 32,
    ensures
        r.0 == value_at(d@, k as int),
        r.1 == quotient_at(d@, k as int),
        r.0 < P,
        r.1 <= 2,
{
    let w: u32 = word(d, k);
    (w % P, (w / P) as u8)
}

/// Checks the claimed quotient `q` of word `k` against the multiple of `P`
/// that it names, by comparisons and one subtraction, and gives the value
/// if the claim is right.
fn check(d: &[u8], k: usize, q: u8) -> (r: Option<u32>)
    requires
        k < 8,
        d.len() == 32,
    ensures
        r == if q == quotient_at(d@, k as int) {
            Some(value_at(d@, k as int))
        } else {
            None::<u32>
        },
{
    let w: u64 = word(d, k) as u64;
    if q > 2 {
        return None;
    }
    let base: u64 = if q == 0 {
        0
    } else if q == 1 {
        2147483647
    } else {
        4294967294
    };
    if w < base {
        return None;
    }
    let v: u64 = w - base;
    if v >= P as u64 {
        return None;
    }
    Some(v as u32)
}

/// Two to the power `e`.
pub(crate) fn power_of_two(e: usize) -> (r: u64)
    requires
        e <= 32,
    ensures
        r == pow2(e as nat),
        r <= 0x1_0000_0000,
        e <= 31 ==> r <= 0x8000_0000,
{
    proof {
        lemma2_to64();
        if e < 31 {
            lemma_pow2_strictly_increases(e as nat, 31);
        }
    }
    let mut r: u64 = 1;
    let mut i: usize = 0;
    proof {
        lemma2_to64();
    }
    while i < e
        invariant
            i <= e <= 32,
            r == pow2(i as nat),
            r <= 0x1_0000_0000,
        decreases e - i,
    {
        proof {
            lemma_pow2_unfold((i + 1) as nat);
            lemma2_to64();
            if i + 1 < 32 {
                lemma_pow2_strictly_increases((i + 1) as nat, 32);
            }
        }
        r = r * 2;
        i = i + 1;
    }
    r
}

/// A number below `2^32` is below every higher power of two.
pub proof fn lemma_u32_below_pow2(v: u32, e: nat)
    requires
        e >= 32,
    ensures
        v < pow2(e),
{
    lemma2_to64();
    if e > 32 {
        lemma_pow2_strictly_increases(32, e);
    }
}

/// Cuts `v` down to its low `logn` bits.
pub fn trim_m31(v: u32, logn: usize) -> (r: u32)
    ensures
        r == trim(v, logn as nat),
{
    if logn >= 32 {
        proof {
            lemma_u32_below_pow2(v, logn as nat);
            lemma_small_mod(v as nat, pow2(logn as nat));
        }
        return v;
    }
    let m: u64 = power_of_two(logn);
    proof {
        lemma_pow2_pos(logn as nat);
    }
    ((v as u64) % m) as u32
}

/// The two sides of the extraction rule.
pub struct Extractor;

impl Extractor {
    /// Draws one extension-field element from `d`, with its hint.
    pub fn extract_qm31(d: &[u8; 32]) -> (r: (QM31, ExtractionQM31))
        ensures
            r.0.limbs() == values(d@, 4),
            r.0.canonical(),
            r.1.0@ == quotients(d@, 4),
    {
        let a = draw(d.as_slice(), 0);
        let b = draw(d.as_slice(), 1);
        let c = draw(d.as_slice(), 2);
        let e = draw(d.as_slice(), 3);
        let v = QM31(CM31(M31(a.0), M31(b.0)), CM31(M31(c.0), M31(e.0)));
        let hint = ExtractionQM31([a.1, b.1, c.1, e.1]);
        assert(v.limbs() =~= values(d@, 4));
        assert(hint.0@ =~= quotients(d@, 4));
        (v, hint)
    }

    /// Draws five base-field elements from `d`, with their hint.
    pub fn extract_5m31(d: &[u8; 32]) -> (r: ([M31; 5], Extraction5M31))
        ensures
            raw_values(r.0@) == values(d@, 5),
            r.1.0@ == quotients(d@, 5),
    {
        let a = draw(d.as_slice(), 0);
        let b = draw(d.as_slice(), 1);
        let c = draw(d.as_slice(), 2);
        let e = draw(d.as_slice(), 3);
        let f = draw(d.as_slice(), 4);
        let v = [M31(a.0), M31(b.0), M31(c.0), M31(e.0), M31(f.0)];
        let hint = Extraction5M31([a.1, b.1, c.1, e.1, f.1]);
        assert(raw_values(v@) =~= values(d@, 5));
        assert(hint.0@ =~= quotients(d@, 5));
        (v, hint)
    }

    /// Checks `hint` against `d` and gives the element that `d` holds, or
    /// nothing if the hint is not the one that belongs to `d`.
    pub fn unpack_qm31(d: &[u8; 32], hint: &ExtractionQM31) -> (r: Option<QM31>)
        ensures
            match r {
                Some(v) => unpack(d@, hint.0@, 4) == Some(v.limbs()),
                None => unpack(d@, hint.0@, 4) is None,
            },
    {
        let a = check(d.as_slice(), 0, hint.0[0]);
        let b = check(d.as_slice(), 1, hint.0[1]);
        let c = check(d.as_slice(), 2, hint.0[2]);
        let e = check(d.as_slice(), 3, hint.0[3]);
        match (a, b, c, e) {
            (Some(a), Some(b), Some(c), Some(e)) => {
                let v = QM31(CM31(M31(a), M31(b)), CM31(M31(c), M31(e)));
                assert(hint.0@ =~= quotients(d@, 4));
                assert(v.limbs() =~= values(d@, 4));
                Some(v)
            },
            _ => {
                assert(hint.0@ != quotients(d@, 4)) by {
                    if hint.0@ == quotients(d@, 4) {
                        assert(hint.0@[0] == quotient_at(d@, 0));
                        assert(hint.0@[1] == quotient_at(d@, 1));
                        assert(hint.0@[2] == quotient_at(d@, 2));
                        assert(hint.0@[3] == quotient_at(d@, 3));
                    }
                }
                None
            },
        }
    }

    /// Checks `hint` against `d` and gives the five elements that `d` holds,
    /// or nothing if the hint is not the one that belongs to `d`.
    pub fn unpack_5m31(d: &[u8; 32], hint: &Extraction5M31) -> (r: Option<[M31; 5]>)
        ensures
            match r {
                Some(v) => unpack(d@, hint.0@, 5) == Some(raw_values(v@)),
                None => unpack(d@, hint.0@, 5) is None,
            },
    {
        let a = check(d.as_slice(), 0, hint.0[0]);
        let b = check(d.as_slice(), 1, hint.0[1]);
        let c = check(d.as_slice(), 2, hint.0[2]);
        let e = check(d.as_slice(), 3, hint.0[3]);
        let f = check(d.as_slice(), 4, hint.0[4]);
        match (a, b, c, e, f) {
            (Some(a), Some(b), Some(c), Some(e), Some(f)) => {
                let v = [M31(a), M31(b), M31(c), M31(e), M31(f)];
                assert(hint.0@ =~= quotients(d@, 5));
                assert(raw_values(v@) =~= values(d@, 5));
                Some(v)
            },
            _ => {
                assert(hint.0@ != quotients(d@, 5)) by {
                    if hint.0@ == quotients(d@, 5) {
                        assert(hint.0@[0] == quotient_at(d@, 0));
                        assert(hint.0@[1] == quotient_at(d@, 1));
                        assert(hint.0@[2] == quotient_at(d@, 2));
                        assert(hint.0@[3] == quotient_at(d@, 3));
                        assert(hint.0@[4] == quotient_at(d@, 4));
                    }
                }
                None
            },
        }
    }
}

/// Checks `hint` against the digest `d` and gives the first `n` values that
/// `d` holds, or nothing if the hint is not the one that belongs to `d`.
pub(crate) fn unpack_values(d: &[u8], hint: &[u8], n: usize) -> (r: Option<Vec<u32>>)
    requires
        d.len() == 32,
        n <= 8,
    ensures
        match r {
            Some(v) => unpack(d@, hint@, n as nat) == Some(v@),
            None => unpack(d@, hint@, n as nat) is None,
        },
{
    if hint.len() != n {
        return None;
    }
    let mut out: Vec<u32> = Vec::new();
    let mut k: usize = 0;
    while k < n
        invariant
            k <= n <= 8,
            d.len() == 32,
            hint.len() == n,
            out@.len() == k,
            forall|j: int| 0 <= j < k ==> hint@[j] == quotient_at(d@, j) && out@[j] == value_at(d@, j),
        decreases n - k,
    {
        match check(d, k, hint[k]) {
            Some(v) => {
                out.push(v);
            },
            None => {
                assert(hint@[k as int] != quotients(d@, n as nat)[k as int]);
                return None;
            },
        }
        k = k + 1;
    }
    assert(hint@ =~= quotients(d@, n as nat));
    assert(out@ =~= values(d@, n as nat));
    Some(out)
}

/// The representatives of a run of base-field elements.
pub open spec fn raw_values(v: Seq<M31>) -> Seq<u32> {
    Seq::new(v.len(), |k: int| v[k].0)
}

} // verus!
