//! The binary layout of a FRI proof: the commitments, 32 bytes each; the
//! values of the last layer in their canonical encoding; for each query the
//! openings of the layers, the smallest tree first, each as its leaf and
//! its sibling digests; for each query the opening of the twiddle table,
//! as its pair and its sibling digests. The layout has no length fields:
//! it is read for a given domain size and number of layers.
//!
//! A proof holds the openings of a query by layer, the unfolded layer and
//! so the largest tree first. The layout has them the other way round: the
//! opening of the last layer is written first and read first.

use crate::channel::Commitment;
use crate::extract::power_of_two;
use crate::fields::le_bytes;
use crate::fields::push_le_bytes;
use crate::fields::CM31;
use crate::fields::M31;
use crate::fields::QM31;
use crate::fri_proof::commitment_rows;
use crate::fri_proof::digest_rows;
use crate::fri_proof::FriError;
use crate::fri_proof::FriProof;
use crate::fri_proof::MAX_LOGN;
use crate::merkle::MerkleTreeProof;
use crate::merkle::TwiddleMerkleTreeProof;
use vstd::arithmetic::div_mod::lemma_fundamental_div_mod_converse;
use vstd::arithmetic::power2::pow2;
use vstd::prelude::*;

verus! {

/// The byte strings `rows`, one after the other.
pub open spec fn flat(rows: Seq<Seq<u8>>) -> Seq<u8>
    decreases rows.len(),
{
    if rows.len() == 0 {
        Seq::empty()
    } else {
        flat(rows.drop_last()) + rows.last()
    }
}

/// One byte string more at the end of `rows` is its bytes more at the end.
pub proof fn lemma_flat_push(rows: Seq<Seq<u8>>, row: Seq<u8>)
    ensures
        flat(rows.push(row)) == flat(rows) + row,
{
    assert(rows.push(row).drop_last() =~= rows);
}

/// The encoding of one layer opening: the leaf, then the siblings.
pub open spec fn opening_bytes(p: MerkleTreeProof) -> Seq<u8> {
    p.leaf.packed() + flat(digest_rows(p.siblings@))
}

/// The encoding of one twiddle opening: the pair, then the siblings.
pub open spec fn twiddle_bytes(p: TwiddleMerkleTreeProof) -> Seq<u8> {
    le_bytes(p.leaf@[0].0) + le_bytes(p.leaf@[1].0) + flat(digest_rows(p.siblings@))
}

/// The encoding of layer openings in the order in which they are given.
pub open spec fn run_bytes(openings: Seq<MerkleTreeProof>) -> Seq<u8> {
    flat(openings.map_values(|p: MerkleTreeProof| opening_bytes(p)))
}

/// The encoding of the layer openings of one query: the opening of the
/// smallest tree, that of the last layer, comes first.
pub open spec fn query_bytes(openings: Seq<MerkleTreeProof>) -> Seq<u8> {
    run_bytes(openings.reverse())
}

/// The encoding of the values of the last layer.
pub open spec fn last_layer_bytes(values: Seq<QM31>) -> Seq<u8> {
    flat(values.map_values(|v: QM31| v.packed()))
}

/// The encoding of the layer openings of all queries.
pub open spec fn queries_bytes(queries: Seq<Vec<MerkleTreeProof>>) -> Seq<u8> {
    flat(queries.map_values(|q: Vec<MerkleTreeProof>| query_bytes(q@)))
}

/// The encoding of the twiddle openings of all queries.
pub open spec fn twiddles_bytes(openings: Seq<TwiddleMerkleTreeProof>) -> Seq<u8> {
    flat(openings.map_values(|p: TwiddleMerkleTreeProof| twiddle_bytes(p)))
}

/// The encoding of a proof.
pub open spec fn proof_bytes(proof: FriProof) -> Seq<u8> {
    flat(commitment_rows(proof.commitments@)) + last_layer_bytes(proof.last_layer@)
        + queries_bytes(proof.merkle_proofs@) + twiddles_bytes(proof.twiddle_merkle_proofs@)
}

/// Appends the digests `digests`.
fn write_digests(out: &mut Vec<u8>, digests: &Vec<[u8; 32]>)
    ensures
        final(out)@ == old(out)@ + flat(digest_rows(digests@)),
{
    let ghost rows = digest_rows(digests@);
    let mut i: usize = 0;
    assert(rows.take(0) =~= Seq::<Seq<u8>>::empty());
    assert(out@ =~= old(out)@ + flat(rows.take(0)));
    while i < digests.len()
        invariant
            i <= digests.len(),
            rows == digest_rows(digests@),
            out@ == old(out)@ + flat(rows.take(i as int)),
        decreases digests.len() - i,
    {
        out.extend_from_slice(digests[i].as_slice());
        proof {
            assert(rows.take(i + 1) =~= rows.take(i as int).push(rows[i as int]));
            lemma_flat_push(rows.take(i as int), rows[i as int]);
            assert(out@ =~= old(out)@ + flat(rows.take(i + 1)));
        }
        i = i + 1;
    }
    assert(rows.take(digests.len() as int) =~= rows);
}

/// Appends the encoding of the layer opening `p`.
fn write_opening(out: &mut Vec<u8>, p: &MerkleTreeProof)
    ensures
        final(out)@ == old(out)@ + opening_bytes(*p),
{
    let packed = p.leaf.pack();
    out.extend_from_slice(packed.as_slice());
    write_digests(out, &p.siblings);
    assert(out@ =~= old(out)@ + opening_bytes(*p));
}

/// Appends the encoding of the twiddle opening `p`.
fn write_twiddle(out: &mut Vec<u8>, p: &TwiddleMerkleTreeProof)
    ensures
        final(out)@ == old(out)@ + twiddle_bytes(*p),
{
    push_le_bytes(out, p.leaf[0].0);
    push_le_bytes(out, p.leaf[1].0);
    write_digests(out, &p.siblings);
    assert(out@ =~= old(out)@ + twiddle_bytes(*p));
}

/// Appends the encoding of the layer openings of one query, the opening
/// of the last layer first.
fn write_query(out: &mut Vec<u8>, openings: &Vec<MerkleTreeProof>)
    ensures
        final(out)@ == old(out)@ + query_bytes(openings@),
{
    let ghost rows = openings@.reverse().map_values(|p: MerkleTreeProof| opening_bytes(p));
    let n = openings.len();
    let mut i: usize = n;
    assert(rows.take(0) =~= Seq::<Seq<u8>>::empty());
    assert(out@ =~= old(out)@ + flat(rows.take(0)));
    while i > 0
        invariant
            i <= n == openings.len(),
            rows == openings@.reverse().map_values(|p: MerkleTreeProof| opening_bytes(p)),
            out@ == old(out)@ + flat(rows.take(n - i)),
        decreases i,
    {
        i = i - 1;
        write_opening(out, &openings[i]);
        proof {
            let t = n - i - 1;
            assert(rows[t] == opening_bytes(openings@[i as int]));
            assert(rows.take(t + 1) =~= rows.take(t).push(rows[t]));
            lemma_flat_push(rows.take(t), rows[t]);
            assert(out@ =~= old(out)@ + flat(rows.take(t + 1)));
        }
    }
    assert(rows.take(n as int) =~= rows);
}

/// Appends the commitments.
fn write_commitments(out: &mut Vec<u8>, commitments: &Vec<Commitment>)
    ensures
        final(out)@ == old(out)@ + flat(commitment_rows(commitments@)),
{
    let ghost rows = commitment_rows(commitments@);
    let mut i: usize = 0;
    assert(rows.take(0) =~= Seq::<Seq<u8>>::empty());
    assert(out@ =~= old(out)@ + flat(rows.take(0)));
    while i < commitments.len()
        invariant
            i <= commitments.len(),
            rows == commitment_rows(commitments@),
            out@ == old(out)@ + flat(rows.take(i as int)),
        decreases commitments.len() - i,
    {
        out.extend_from_slice(commitments[i].0.as_slice());
        proof {
            assert(rows.take(i + 1) =~= rows.take(i as int).push(rows[i as int]));
            lemma_flat_push(rows.take(i as int), rows[i as int]);
            assert(out@ =~= old(out)@ + flat(rows.take(i + 1)));
        }
        i = i + 1;
    }
    assert(rows.take(commitments.len() as int) =~= rows);
}

/// Appends the encoding of the values of the last layer.
fn write_last_layer(out: &mut Vec<u8>, values: &Vec<QM31>)
    ensures
        final(out)@ == old(out)@ + last_layer_bytes(values@),
{
    let ghost rows = values@.map_values(|v: QM31| v.packed());
    let mut i: usize = 0;
    assert(rows.take(0) =~= Seq::<Seq<u8>>::empty());
    assert(out@ =~= old(out)@ + flat(rows.take(0)));
    while i < values.len()
        invariant
            i <= values.len(),
            rows == values@.map_values(|v: QM31| v.packed()),
            out@ == old(out)@ + flat(rows.take(i as int)),
        decreases values.len() - i,
    {
        let packed = values[i].pack();
        out.extend_from_slice(packed.as_slice());
        proof {
            assert(rows.take(i + 1) =~= rows.take(i as int).push(rows[i as int]));
            lemma_flat_push(rows.take(i as int), rows[i as int]);
            assert(out@ =~= old(out)@ + flat(rows.take(i + 1)));
        }
        i = i + 1;
    }
    assert(rows.take(values.len() as int) =~= rows);
}

/// Appends the encoding of the layer openings of all queries.
fn write_queries(out: &mut Vec<u8>, queries: &Vec<Vec<MerkleTreeProof>>)
    ensures
        final(out)@ == old(out)@ + queries_bytes(queries@),
{
    let ghost rows = queries@.map_values(|q: Vec<MerkleTreeProof>| query_bytes(q@));
    let mut i: usize = 0;
    assert(rows.take(0) =~= Seq::<Seq<u8>>::empty());
    assert(out@ =~= old(out)@ + flat(rows.take(0)));
    while i < queries.len()
        invariant
            i <= queries.len(),
            rows == queries@.map_values(|q: Vec<MerkleTreeProof>| query_bytes(q@)),
            out@ == old(out)@ + flat(rows.take(i as int)),
        decreases queries.len() - i,
    {
        write_query(out, &queries[i]);
        proof {
            assert(rows.take(i + 1) =~= rows.take(i as int).push(rows[i as int]));
            lemma_flat_push(rows.take(i as int), rows[i as int]);
            assert(out@ =~= old(out)@ + flat(rows.take(i + 1)));
        }
        i = i + 1;
    }
    assert(rows.take(queries.len() as int) =~= rows);
}

/// Appends the encoding of the twiddle openings of all queries.
fn write_twiddles(out: &mut Vec<u8>, openings: &Vec<TwiddleMerkleTreeProof>)
    ensures
        final(out)@ == old(out)@ + twiddles_bytes(openings@),
{
    let ghost rows = openings@.map_values(|p: TwiddleMerkleTreeProof| twiddle_bytes(p));
    let mut i: usize = 0;
    assert(rows.take(0) =~= Seq::<Seq<u8>>::empty());
    assert(out@ =~= old(out)@ + flat(rows.take(0)));
    while i < openings.len()
        invariant
            i <= openings.len(),
            rows == openings@.map_values(|p: TwiddleMerkleTreeProof| twiddle_bytes(p)),
            out@ == old(out)@ + flat(rows.take(i as int)),
        decreases openings.len() - i,
    {
        write_twiddle(out, &openings[i]);
        proof {
            assert(rows.take(i + 1) =~= rows.take(i as int).push(rows[i as int]));
            lemma_flat_push(rows.take(i as int), rows[i as int]);
            assert(out@ =~= old(out)@ + flat(rows.take(i + 1)));
        }
        i = i + 1;
    }
    assert(rows.take(openings.len() as int) =~= rows);
}

impl FriProof {
    /// Writes the proof in its binary layout.
    pub fn to_bytes(&self) -> (out: Vec<u8>)
        ensures
            out@ == proof_bytes(*self),
    {
        let mut out: Vec<u8> = Vec::new();
        write_commitments(&mut out, &self.commitments);
        write_last_layer(&mut out, &self.last_layer);
        write_queries(&mut out, &self.merkle_proofs);
        write_twiddles(&mut out, &self.twiddle_merkle_proofs);
        assert(out@ =~= proof_bytes(*self));
        out
    }
}

/// The length of the encoding of a layer opening of height `h`.
pub open spec fn opening_len(h: int) -> int {
    16 + 32 * h
}

/// The length of the encoding of `n` layer openings of which the first has
/// height `first` and each next one is one higher.
pub open spec fn run_len(first: int, n: nat) -> int
    decreases n,
{
    if n == 0 {
        0
    } else {
        run_len(first, (n - 1) as nat) + opening_len(first + (n - 1))
    }
}

/// The length of the encoding of the `n` layer openings of a query in a
/// domain of `2^logn` points: the opening of layer `l` has height
/// `logn - l`, so that the first one written has height `logn - n + 1`.
pub open spec fn query_len(logn: int, n: nat) -> int {
    run_len(logn - n + 1, n)
}

/// The length of the encoding of a twiddle opening in a domain of `2^logn`
/// points.
pub open spec fn twiddle_len(logn: int) -> int {
    8 + 32 * (logn - 1)
}

/// The length of the encoding of a proof with `n` layers for a domain of
/// `2^logn` points.
pub open spec fn encoded_len(logn: usize, n: usize) -> int {
    32 * n + 16 * pow2((logn - n) as nat) + 5 * query_len(logn as int, n as nat) + 5 * twiddle_len(
        logn as int,
    )
}

/// The first reason for which `len` bytes are not the encoding of a proof
/// with `n` layers for a domain of `2^logn` points; `None` if there is no
/// such reason.
pub open spec fn wire_error(len: nat, logn: usize, n: usize) -> Option<FriError> {
    if logn > MAX_LOGN {
        Some(FriError::DomainTooLarge)
    } else if logn == 0 {
        Some(FriError::DomainTooSmall)
    } else if n > logn {
        Some(FriError::TooManyLayers)
    } else if len != encoded_len(logn, n) {
        Some(FriError::EncodingLength)
    } else {
        None
    }
}

/// The encoding of `n` layer openings is never negative and at most
/// `1008 * n` bytes long where no tree is higher than 31.
proof fn lemma_run_len_bounds(first: int, n: nat)
    requires
        0 <= first,
        first + n <= 32,
    ensures
        0 <= run_len(first, n) <= 1008 * n,
    decreases n,
{
    if n > 0 {
        lemma_run_len_bounds(first, (n - 1) as nat);
    }
}

/// Computes `query_len`.
fn query_length(logn: usize, n: usize) -> (r: u64)
    requires
        n <= logn <= 31,
    ensures
        r == query_len(logn as int, n as nat),
        0 <= r <= 1008 * n,
{
    let first: usize = logn + 1 - n;
    let mut r: u64 = 0;
    let mut l: usize = 0;
    while l < n
        invariant
            l <= n <= logn <= 31,
            first == logn + 1 - n,
            r == run_len(first as int, l as nat),
            r <= 1008 * l,
        decreases n - l,
    {
        r = r + 16 + 32 * ((first + l) as u64);
        l = l + 1;
    }
    r
}

/// The little-endian bytes of the number that four bytes spell are those
/// four bytes.
proof fn lemma_bytes_of_word(b0: u8, b1: u8, b2: u8, b3: u8)
    ensures
        b0 + 256 * b1 + 65536 * b2 + 16777216 * b3 <= u32::MAX,
        le_bytes((b0 + 256 * b1 + 65536 * b2 + 16777216 * b3) as u32) == seq![b0, b1, b2, b3],
{
    let x: int = b0 + 256 * b1 + 65536 * b2 + 16777216 * b3;
    lemma_fundamental_div_mod_converse(x, 256, b1 + 256 * b2 + 65536 * b3, b0 as int);
    lemma_fundamental_div_mod_converse(x / 256, 256, b2 + 256 * b3, b1 as int);
    lemma_fundamental_div_mod_converse(x, 65536, b2 + 256 * b3, b0 + 256 * b1);
    lemma_fundamental_div_mod_converse(x / 65536, 256, b3 as int, b2 as int);
    lemma_fundamental_div_mod_converse(x, 16777216, b3 as int, b0 + 256 * b1 + 65536 * b2);
    assert(le_bytes(x as u32) =~= seq![b0, b1, b2, b3]);
}

/// Reads the four bytes from `pos` on as a number, least significant byte
/// first.
fn read_u32(bytes: &[u8], pos: usize) -> (r: u32)
    requires
        pos + 4 <= bytes.len(),
    ensures
        le_bytes(r) == bytes@.subrange(pos as int, pos + 4),
{
    proof {
        lemma_bytes_of_word(
            bytes@[pos as int],
            bytes@[pos + 1],
            bytes@[pos + 2],
            bytes@[pos + 3],
        );
        assert(bytes@.subrange(pos as int, pos + 4) =~= seq![
            bytes@[pos as int],
            bytes@[pos + 1],
            bytes@[pos + 2],
            bytes@[pos + 3],
        ]);
    }
    bytes[pos] as u32 + 256 * (bytes[pos + 1] as u32) + 65536 * (bytes[pos + 2] as u32) + 16777216
        * (bytes[pos + 3] as u32)
}

/// Reads the sixteen bytes from `pos` on as a field element.
fn read_qm31(bytes: &[u8], pos: usize) -> (r: QM31)
    requires
        pos + 16 <= bytes.len(),
    ensures
        r.packed() == bytes@.subrange(pos as int, pos + 16),
{
    let a = read_u32(bytes, pos);
    let b = read_u32(bytes, pos + 4);
    let c = read_u32(bytes, pos + 8);
    let d = read_u32(bytes, pos + 12);
    let r = QM31(CM31(M31(a), M31(b)), CM31(M31(c), M31(d)));
    assert(r.packed() =~= bytes@.subrange(pos as int, pos + 4) + bytes@.subrange(
        pos + 4,
        pos + 8,
    ) + bytes@.subrange(pos + 8, pos + 12) + bytes@.subrange(pos + 12, pos + 16));
    assert(r.packed() =~= bytes@.subrange(pos as int, pos + 16));
    r
}

/// Reads the 32 bytes from `pos` on as a digest.
fn read_digest(bytes: &[u8], pos: usize) -> (r: [u8; 32])
    requires
        pos + 32 <= bytes.len(),
    ensures
        r@ == bytes@.subrange(pos as int, pos + 32),
{
    let mut r = [0u8; 32];
    let mut i: usize = 0;
    while i < 32
        invariant
            i <= 32,
            pos + 32 <= bytes.len(),
            forall|j: int| 0 <= j < i ==> r@[j] == bytes@[pos + j],
        decreases 32 - i,
    {
        r[i] = bytes[pos + i];
        i = i + 1;
    }
    assert(r@ =~= bytes@.subrange(pos as int, pos + 32));
    r
}

/// Reads `n` digests from `pos` on.
fn read_digests(bytes: &[u8], pos: usize, n: usize) -> (r: Vec<[u8; 32]>)
    requires
        pos + 32 * n <= bytes.len(),
    ensures
        r@.len() == n,
        flat(digest_rows(r@)) == bytes@.subrange(pos as int, pos + 32 * n),
{
    let mut out: Vec<[u8; 32]> = Vec::new();
    let mut i: usize = 0;
    assert(digest_rows(out@) =~= Seq::<Seq<u8>>::empty());
    assert(flat(digest_rows(out@)) =~= bytes@.subrange(pos as int, pos + 32 * 0));
    while i < n
        invariant
            i <= n,
            pos + 32 * n <= bytes.len(),
            out@.len() == i,
            flat(digest_rows(out@)) == bytes@.subrange(pos as int, pos + 32 * i),
        decreases n - i,
    {
        let d = read_digest(bytes, pos + 32 * i);
        let ghost before = out@;
        out.push(d);
        proof {
            assert(digest_rows(out@) =~= digest_rows(before).push(d@));
            lemma_flat_push(digest_rows(before), d@);
            assert(bytes@.subrange(pos as int, pos + 32 * i) + bytes@.subrange(
                pos + 32 * i,
                pos + 32 * i + 32,
            ) =~= bytes@.subrange(pos as int, pos + 32 * (i + 1)));
        }
        i = i + 1;
    }
    out
}

/// Reads a layer opening of height `h` from `pos` on.
fn read_opening(bytes: &[u8], pos: usize, h: usize) -> (r: MerkleTreeProof)
    requires
        pos + opening_len(h as int) <= bytes.len(),
    ensures
        r.siblings@.len() == h,
        opening_bytes(r) == bytes@.subrange(pos as int, pos + opening_len(h as int)),
{
    let leaf = read_qm31(bytes, pos);
    let siblings = read_digests(bytes, pos + 16, h);
    let r = MerkleTreeProof { leaf, siblings };
    assert(opening_bytes(r) =~= bytes@.subrange(pos as int, pos + opening_len(h as int)));
    r
}

/// Reads a twiddle opening of height `h` from `pos` on.
fn read_twiddle(bytes: &[u8], pos: usize, h: usize) -> (r: TwiddleMerkleTreeProof)
    requires
        pos + 8 + 32 * h <= bytes.len(),
    ensures
        r.siblings@.len() == h,
        twiddle_bytes(r) == bytes@.subrange(pos as int, pos + 8 + 32 * h),
{
    let a = read_u32(bytes, pos);
    let b = read_u32(bytes, pos + 4);
    let siblings = read_digests(bytes, pos + 8, h);
    let r = TwiddleMerkleTreeProof { leaf: [M31(a), M31(b)], siblings };
    assert(twiddle_bytes(r) =~= bytes@.subrange(pos as int, pos + 8 + 32 * h));
    r
}

/// One opening more at the end of `openings` is its encoding more at the
/// end.
pub proof fn lemma_run_bytes_push(openings: Seq<MerkleTreeProof>, p: MerkleTreeProof)
    ensures
        run_bytes(openings.push(p)) == run_bytes(openings) + opening_bytes(p),
{
    let row = |p: MerkleTreeProof| opening_bytes(p);
    assert(openings.push(p).map_values(row) =~= openings.map_values(row).push(opening_bytes(p)));
    lemma_flat_push(openings.map_values(row), opening_bytes(p));
}

/// Reads `n` layer openings from `pos` on, the first of height `first` and
/// each next one one higher.
fn read_run(bytes: &[u8], pos: usize, first: usize, n: usize) -> (r: Vec<MerkleTreeProof>)
    requires
        first + n <= 32,
        pos + run_len(first as int, n as nat) <= bytes.len(),
    ensures
        r@.len() == n,
        forall|l: int| 0 <= l < n ==> (#[trigger] r@[l]).siblings@.len() == first + l,
        run_bytes(r@) == bytes@.subrange(pos as int, pos + run_len(first as int, n as nat)),
{
    let mut out: Vec<MerkleTreeProof> = Vec::new();
    let mut at: usize = pos;
    let mut l: usize = 0;
    proof {
        lemma_run_len_grows(first as int, 0, n as nat);
        assert(out@.map_values(|p: MerkleTreeProof| opening_bytes(p)) =~= Seq::<Seq<u8>>::empty());
        assert(run_bytes(out@) =~= bytes@.subrange(pos as int, pos as int));
    }
    while l < n
        invariant
            l <= n,
            first + n <= 32,
            pos + run_len(first as int, n as nat) <= bytes.len(),
            at == pos + run_len(first as int, l as nat),
            out@.len() == l,
            forall|j: int| 0 <= j < l ==> (#[trigger] out@[j]).siblings@.len() == first + j,
            run_bytes(out@) == bytes@.subrange(pos as int, at as int),
        decreases n - l,
    {
        let ghost step = opening_len((first + l) as int);
        proof {
            lemma_run_len_grows(first as int, (l + 1) as nat, n as nat);
            lemma_run_len_grows(first as int, l as nat, l as nat);
            assert(run_len(first as int, (l + 1) as nat) == run_len(first as int, l as nat) + step);
        }
        let p = read_opening(bytes, at, first + l);
        proof {
            lemma_run_bytes_push(out@, p);
            assert(bytes@.subrange(pos as int, at as int) + bytes@.subrange(at as int, at + step)
                =~= bytes@.subrange(pos as int, at + step));
        }
        out.push(p);
        at = at + 16 + 32 * (first + l);
        l = l + 1;
    }
    out
}

/// The openings `list` in the opposite order.
fn reversed(list: Vec<MerkleTreeProof>) -> (r: Vec<MerkleTreeProof>)
    ensures
        r@ == list@.reverse(),
{
    let ghost all = list@;
    let mut rest = list;
    let mut out: Vec<MerkleTreeProof> = Vec::new();
    while rest.len() > 0
        invariant
            rest@.len() + out@.len() == all.len(),
            rest@ == all.take(rest@.len() as int),
            forall|j: int| 0 <= j < out@.len() ==> out@[j] == all[all.len() - 1 - j],
        decreases rest.len(),
    {
        let p = rest.pop().unwrap();
        out.push(p);
    }
    assert(out@ =~= all.reverse());
    out
}

/// Reads the `n` layer openings of one query from `pos` on, the opening
/// of the last layer first, and gives them by layer.
fn read_query(bytes: &[u8], pos: usize, logn: usize, n: usize) -> (r: Vec<MerkleTreeProof>)
    requires
        n <= logn <= 31,
        pos + query_len(logn as int, n as nat) <= bytes.len(),
    ensures
        r@.len() == n,
        forall|l: int| 0 <= l < n ==> (#[trigger] r@[l]).siblings@.len() == logn - l,
        query_bytes(r@) == bytes@.subrange(
            pos as int,
            pos + query_len(logn as int, n as nat),
        ),
{
    let written = read_run(bytes, pos, logn + 1 - n, n);
    let r = reversed(written);
    proof {
        assert(r@.reverse() =~= written@);
        assert forall|l: int| 0 <= l < n implies (#[trigger] r@[l]).siblings@.len() == logn - l by {
            assert(r@[l] == written@[n - 1 - l]);
        }
    }
    r
}

/// The encoding of fewer layer openings is not longer.
pub proof fn lemma_run_len_grows(first: int, a: nat, b: nat)
    requires
        0 <= first,
        a <= b,
    ensures
        0 <= run_len(first, a) <= run_len(first, b),
    decreases b,
{
    if a < b {
        lemma_run_len_grows(first, a, (b - 1) as nat);
    } else if a > 0 {
        lemma_run_len_grows(first, (a - 1) as nat, (a - 1) as nat);
    }
}

/// One commitment more at the end is its bytes more at the end.
proof fn lemma_commitments_push(v: Seq<Commitment>, c: Commitment)
    ensures
        flat(commitment_rows(v.push(c))) == flat(commitment_rows(v)) + c.0@,
{
    assert(commitment_rows(v.push(c)) =~= commitment_rows(v).push(c.0@));
    lemma_flat_push(commitment_rows(v), c.0@);
}

/// One value more at the end is its encoding more at the end.
proof fn lemma_last_layer_push(v: Seq<QM31>, x: QM31)
    ensures
        last_layer_bytes(v.push(x)) == last_layer_bytes(v) + x.packed(),
{
    let row = |v: QM31| v.packed();
    assert(v.push(x).map_values(row) =~= v.map_values(row).push(x.packed()));
    lemma_flat_push(v.map_values(row), x.packed());
}

/// One query more at the end is the encoding of its openings more at the
/// end.
proof fn lemma_queries_push(v: Seq<Vec<MerkleTreeProof>>, q: Vec<MerkleTreeProof>)
    ensures
        queries_bytes(v.push(q)) == queries_bytes(v) + query_bytes(q@),
{
    let row = |q: Vec<MerkleTreeProof>| query_bytes(q@);
    assert(v.push(q).map_values(row) =~= v.map_values(row).push(query_bytes(q@)));
    lemma_flat_push(v.map_values(row), query_bytes(q@));
}

/// One twiddle opening more at the end is its encoding more at the end.
proof fn lemma_twiddles_push(v: Seq<TwiddleMerkleTreeProof>, p: TwiddleMerkleTreeProof)
    ensures
        twiddles_bytes(v.push(p)) == twiddles_bytes(v) + twiddle_bytes(p),
{
    let row = |p: TwiddleMerkleTreeProof| twiddle_bytes(p);
    assert(v.push(p).map_values(row) =~= v.map_values(row).push(twiddle_bytes(p)));
    lemma_flat_push(v.map_values(row), twiddle_bytes(p));
}

/// Reads the commitments of `n` layers from the start of `bytes`.
fn read_commitments(bytes: &[u8], n: usize) -> (r: Vec<Commitment>)
    requires
        32 * n <= bytes.len(),
    ensures
        r@.len() == n,
        flat(commitment_rows(r@)) == bytes@.subrange(0, 32 * n),
{
    let mut out: Vec<Commitment> = Vec::new();
    let mut i: usize = 0;
    assert(commitment_rows(out@) =~= Seq::<Seq<u8>>::empty());
    assert(flat(commitment_rows(out@)) =~= bytes@.subrange(0, 0));
    while i < n
        invariant
            i <= n,
            32 * n <= bytes.len(),
            out@.len() == i,
            flat(commitment_rows(out@)) == bytes@.subrange(0, 32 * i),
        decreases n - i,
    {
        let c = Commitment(read_digest(bytes, 32 * i));
        proof {
            lemma_commitments_push(out@, c);
            assert(bytes@.subrange(0, 32 * i) + bytes@.subrange(32 * i, 32 * i + 32)
                =~= bytes@.subrange(0, 32 * (i + 1)));
        }
        out.push(c);
        i = i + 1;
    }
    out
}

/// Reads `k` values of the last layer from `pos` on.
fn read_last_layer(bytes: &[u8], pos: usize, k: usize) -> (r: Vec<QM31>)
    requires
        pos + 16 * k <= bytes.len(),
    ensures
        r@.len() == k,
        last_layer_bytes(r@) == bytes@.subrange(pos as int, pos + 16 * k),
{
    let mut out: Vec<QM31> = Vec::new();
    let mut j: usize = 0;
    proof {
        assert(out@.map_values(|v: QM31| v.packed()) =~= Seq::<Seq<u8>>::empty());
        assert(last_layer_bytes(out@) =~= bytes@.subrange(pos as int, pos as int));
    }
    while j < k
        invariant
            j <= k,
            pos + 16 * k <= bytes.len(),
            out@.len() == j,
            last_layer_bytes(out@) == bytes@.subrange(pos as int, pos + 16 * j),
        decreases k - j,
    {
        let v = read_qm31(bytes, pos + 16 * j);
        proof {
            lemma_last_layer_push(out@, v);
            assert(bytes@.subrange(pos as int, pos + 16 * j) + bytes@.subrange(
                pos + 16 * j,
                pos + 16 * j + 16,
            ) =~= bytes@.subrange(pos as int, pos + 16 * (j + 1)));
        }
        out.push(v);
        j = j + 1;
    }
    out
}

/// Reads the layer openings of the five queries from `pos` on.
fn read_queries(bytes: &[u8], pos: usize, logn: usize, n: usize) -> (r: Vec<Vec<MerkleTreeProof>>)
    requires
        n <= logn <= 31,
        pos + 5 * query_len(logn as int, n as nat) <= bytes.len(),
    ensures
        r@.len() == 5,
        forall|q: int|
            0 <= q < 5 ==> (#[trigger] r@[q])@.len() == n && forall|l: int|
                0 <= l < n ==> (#[trigger] r@[q]@[l]).siblings@.len() == logn - l,
        queries_bytes(r@) == bytes@.subrange(
            pos as int,
            pos + 5 * query_len(logn as int, n as nat),
        ),
{
    let ghost len = query_len(logn as int, n as nat);
    let step: usize = query_length(logn, n) as usize;
    let mut out: Vec<Vec<MerkleTreeProof>> = Vec::new();
    let mut q: usize = 0;
    let mut at: usize = pos;
    proof {
        assert(out@.map_values(|q: Vec<MerkleTreeProof>| query_bytes(q@)) =~= Seq::<
            Seq<u8>,
        >::empty());
        assert(queries_bytes(out@) =~= bytes@.subrange(pos as int, pos as int));
    }
    while q < 5
        invariant
            q <= 5,
            n <= logn <= 31,
            0 <= len == query_len(logn as int, n as nat) == step,
            pos + 5 * len <= bytes.len(),
            pos <= at,
            at + (5 - q) * len == pos + 5 * len,
            out@.len() == q,
            forall|j: int|
                0 <= j < q ==> (#[trigger] out@[j])@.len() == n && forall|l: int|
                    0 <= l < n ==> (#[trigger] out@[j]@[l]).siblings@.len() == logn - l,
            queries_bytes(out@) == bytes@.subrange(pos as int, at as int),
        decreases 5 - q,
    {
        assert((5 - q) * len == len + (5 - (q + 1)) * len) by (nonlinear_arith)
            requires
                q < 5,
        ;
        assert(0 <= (5 - (q + 1)) * len) by (nonlinear_arith)
            requires
                q < 5,
                0 <= len,
        ;
        let openings = read_query(bytes, at, logn, n);
        proof {
            lemma_queries_push(out@, openings);
            assert(bytes@.subrange(pos as int, at as int) + bytes@.subrange(at as int, at + len)
                =~= bytes@.subrange(pos as int, at + len));
        }
        out.push(openings);
        at = at + step;
        q = q + 1;
    }
    assert((5 - q) * len == 0) by (nonlinear_arith)
        requires
            q == 5,
    ;
    out
}

/// Reads the twiddle openings of the five queries from `pos` on.
fn read_twiddles(bytes: &[u8], pos: usize, logn: usize) -> (r: Vec<TwiddleMerkleTreeProof>)
    requires
        1 <= logn <= 31,
        pos + 5 * twiddle_len(logn as int) <= bytes.len(),
    ensures
        r@.len() == 5,
        forall|q: int| 0 <= q < 5 ==> (#[trigger] r@[q]).siblings@.len() + 1 == logn,
        twiddles_bytes(r@) == bytes@.subrange(pos as int, pos + 5 * twiddle_len(logn as int)),
{
    let step: usize = 8 + 32 * (logn - 1);
    let mut out: Vec<TwiddleMerkleTreeProof> = Vec::new();
    let mut q: usize = 0;
    proof {
        assert(out@.map_values(|p: TwiddleMerkleTreeProof| twiddle_bytes(p)) =~= Seq::<
            Seq<u8>,
        >::empty());
        assert(twiddles_bytes(out@) =~= bytes@.subrange(pos as int, pos as int));
    }
    while q < 5
        invariant
            q <= 5,
            1 <= logn <= 31,
            step == twiddle_len(logn as int),
            pos + 5 * step <= bytes.len(),
            out@.len() == q,
            forall|j: int| 0 <= j < q ==> (#[trigger] out@[j]).siblings@.len() + 1 == logn,
            twiddles_bytes(out@) == bytes@.subrange(pos as int, pos + q * step),
        decreases 5 - q,
    {
        assert(q * step + step == (q + 1) * step && q * step + step <= 5 * step) by (nonlinear_arith)
            requires
                q < 5,
        ;
        let p = read_twiddle(bytes, pos + q * step, logn - 1);
        proof {
            lemma_twiddles_push(out@, p);
            assert(bytes@.subrange(pos as int, pos + q * step) + bytes@.subrange(
                pos + q * step,
                pos + q * step + step,
            ) =~= bytes@.subrange(pos as int, pos + (q + 1) * step));
        }
        out.push(p);
        q = q + 1;
    }
    out
}

/// A byte string is its four parts, one after the other.
proof fn lemma_four_parts(bytes: Seq<u8>, e1: int, e2: int, e3: int)
    requires
        0 <= e1 <= e2 <= e3 <= bytes.len(),
    ensures
        bytes.subrange(0, e1) + bytes.subrange(e1, e2) + bytes.subrange(e2, e3) + bytes.subrange(
            e3,
            bytes.len() as int,
        ) == bytes,
{
    assert(bytes.subrange(0, e1) + bytes.subrange(e1, e2) + bytes.subrange(e2, e3)
        + bytes.subrange(e3, bytes.len() as int) =~= bytes);
}

/// What was read part by part has the shape of a proof.
proof fn lemma_read_has_shape(proof: FriProof, logn: usize, n: usize)
    requires
        1 <= logn <= MAX_LOGN,
        n <= logn,
        proof.commitments@.len() == n,
        proof.last_layer@.len() == pow2((logn - n) as nat),
        proof.merkle_proofs@.len() == 5,
        proof.twiddle_merkle_proofs@.len() == 5,
        forall|q: int|
            0 <= q < 5 ==> (#[trigger] proof.merkle_proofs@[q])@.len() == n && forall|l: int|
                0 <= l < n ==> (#[trigger] proof.merkle_proofs@[q]@[l]).siblings@.len() == logn - l,
        forall|q: int|
            0 <= q < 5 ==> (#[trigger] proof.twiddle_merkle_proofs@[q]).siblings@.len() + 1 == logn,
    ensures
        proof.shape_error(logn) is None,
        proof.n_layers() == n,
{
    assert forall|q: int| 0 <= q < proof.merkle_proofs@.len() implies proof.query_fits(q, logn) by {
        assert(proof.merkle_proofs@[q]@.len() == n);
    }
    assert forall|q: int| 0 <= q < proof.twiddle_merkle_proofs@.len() implies proof.twiddle_fits(
        q,
        logn,
    ) by {
        assert(proof.twiddle_merkle_proofs@[q].siblings@.len() + 1 == logn);
    }
    assert(proof.paths_fit(logn));
}

impl FriProof {
    /// Reads a proof with `n_layers` layers for a domain of `2^logn` points
    /// from its binary layout. The bytes are refused unless they have
    /// exactly the length of such a proof; what is read has the shape of
    /// such a proof and is written back as the same bytes.
    #[verifier::rlimit(40)]
    pub fn from_bytes(bytes: &[u8], logn: usize, n_layers: usize) -> (r: Result<FriProof, FriError>)
        ensures
            match wire_error(bytes@.len(), logn, n_layers) {
                Some(e) => r == Err::<FriProof, FriError>(e),
                None => r is Ok && r->Ok_0.shape_error(logn) is None && r->Ok_0.n_layers()
                    == n_layers && proof_bytes(r->Ok_0) == bytes@,
            },
    {
        if logn > MAX_LOGN {
            return Err(FriError::DomainTooLarge);
        }
        if logn == 0 {
            return Err(FriError::DomainTooSmall);
        }
        if n_layers > logn {
            return Err(FriError::TooManyLayers);
        }
        let values: u64 = power_of_two(logn - n_layers);
        let opened: u64 = query_length(logn, n_layers);
        let twiddle: u64 = 8 + 32 * (logn as u64 - 1);
        let expected: u64 = 32 * (n_layers as u64) + 16 * values + 5 * opened + 5 * twiddle;
        if bytes.len() as u64 != expected {
            return Err(FriError::EncodingLength);
        }
        let k: usize = values as usize;
        let at_last: usize = 32 * n_layers;
        let at_queries: usize = at_last + 16 * k;
        let at_twiddles: usize = at_queries + 5 * (opened as usize);
        let commitments = read_commitments(bytes, n_layers);
        let last_layer = read_last_layer(bytes, at_last, k);
        let merkle_proofs = read_queries(bytes, at_queries, logn, n_layers);
        let twiddle_merkle_proofs = read_twiddles(bytes, at_twiddles, logn);
        let proof = FriProof { commitments, last_layer, merkle_proofs, twiddle_merkle_proofs };
        proof {
            lemma_four_parts(bytes@, at_last as int, at_queries as int, at_twiddles as int);
            lemma_read_has_shape(proof, logn, n_layers);
        }
        Ok(proof)
    }
}

/// Byte strings of one length `w`, `n` of them, are `w * n` bytes.
pub proof fn lemma_flat_len(rows: Seq<Seq<u8>>, w: nat)
    requires
        forall|i: int| 0 <= i < rows.len() ==> (#[trigger] rows[i]).len() == w,
    ensures
        flat(rows).len() == w * rows.len(),
    decreases rows.len(),
{
    if rows.len() > 0 {
        lemma_flat_len(rows.drop_last(), w);
        assert(w * (rows.len() - 1) + w == w * rows.len()) by (nonlinear_arith);
    }
}

/// The encoding of openings has the length that the heights of their
/// trees give.
pub proof fn lemma_run_bytes_len(openings: Seq<MerkleTreeProof>, first: int)
    requires
        forall|l: int|
            0 <= l < openings.len() ==> (#[trigger] openings[l]).siblings@.len() == first + l,
    ensures
        run_bytes(openings).len() == run_len(first, openings.len()),
    decreases openings.len(),
{
    let row = |p: MerkleTreeProof| opening_bytes(p);
    if openings.len() > 0 {
        let p = openings.last();
        let front = openings.drop_last();
        lemma_run_bytes_len(front, first);
        assert(openings =~= front.push(p));
        lemma_run_bytes_push(front, p);
        lemma_flat_len(digest_rows(p.siblings@), 32);
    } else {
        assert(openings.map_values(row) =~= Seq::<Seq<u8>>::empty());
    }
}

} // verus!
