//! The binary layout loses nothing: two proofs of one shape with the same
//! encoding have the same contents, so that reading back what was written
//! gives the proof that was written.

use crate::extract::raw_values;
use crate::fields::le_bytes;
use crate::fields::le_word;
use crate::fields::pack_limbs;
use crate::fields::QM31;
use crate::fri_proof::commitment_rows;
use crate::fri_proof::digest_rows;
use crate::fri_proof::limb_rows;
use crate::fri_proof::FriProof;
use crate::merkle::MerkleTreeProof;
use crate::merkle::TwiddleMerkleTreeProof;
use crate::wire::flat;
use crate::wire::last_layer_bytes;
use crate::wire::lemma_flat_len;
use crate::wire::lemma_run_bytes_len;
use crate::wire::lemma_run_bytes_push;
use crate::wire::lemma_run_len_grows;
use crate::wire::opening_bytes;
use crate::wire::opening_len;
use crate::wire::proof_bytes;
use crate::wire::queries_bytes;
use crate::wire::query_bytes;
use crate::wire::query_len;
use crate::wire::run_bytes;
use crate::wire::run_len;
use crate::wire::twiddle_bytes;
use crate::wire::twiddle_len;
use crate::wire::twiddles_bytes;
use crate::wire::wire_error;
use vstd::arithmetic::power2::pow2;
use vstd::prelude::*;

verus! {

/// Row `i` of byte strings of one length `w` lies at `w * i` in their
/// concatenation.
pub proof fn lemma_flat_row(rows: Seq<Seq<u8>>, w: nat, i: int)
    requires
        forall|j: int| 0 <= j < rows.len() ==> (#[trigger] rows[j]).len() == w,
        0 <= i < rows.len(),
    ensures
        flat(rows).len() == w * rows.len(),
        0 <= w * i,
        w * i + w <= flat(rows).len(),
        flat(rows).subrange(w * i, w * i + w) == rows[i],
    decreases rows.len(),
{
    let front = rows.drop_last();
    lemma_flat_len(rows, w);
    lemma_flat_len(front, w);
    assert(0 <= w * i && w * i + w <= w * rows.len() && w * (rows.len() - 1) + w == w * rows.len())
        by (nonlinear_arith)
        requires
            0 <= i < rows.len(),
    ;
    if i == rows.len() - 1 {
        assert(flat(rows).subrange(w * i, w * i + w) =~= rows[i]);
    } else {
        lemma_flat_row(front, w, i);
        assert(flat(rows).subrange(w * i, w * i + w) =~= flat(front).subrange(w * i, w * i + w));
    }
}

/// Byte strings of one positive length are determined by their
/// concatenation.
pub proof fn lemma_flat_injective(a: Seq<Seq<u8>>, b: Seq<Seq<u8>>, w: nat)
    requires
        w > 0,
        forall|j: int| 0 <= j < a.len() ==> (#[trigger] a[j]).len() == w,
        forall|j: int| 0 <= j < b.len() ==> (#[trigger] b[j]).len() == w,
        flat(a) == flat(b),
    ensures
        a == b,
{
    lemma_flat_len(a, w);
    lemma_flat_len(b, w);
    assert(a.len() == b.len()) by (nonlinear_arith)
        requires
            w > 0,
            w * a.len() == w * b.len(),
    ;
    assert forall|i: int| 0 <= i < a.len() implies a[i] == b[i] by {
        lemma_flat_row(a, w, i);
        lemma_flat_row(b, w, i);
    }
    assert(a =~= b);
}

/// A number is determined by its four little-endian bytes.
pub proof fn lemma_le_bytes_injective(x: u32, y: u32)
    requires
        le_bytes(x) == le_bytes(y),
    ensures
        x == y,
{
    assert(le_word(le_bytes(x), 0) == x);
    assert(le_word(le_bytes(y), 0) == y);
}

/// Four limbs are determined by their encoding.
pub proof fn lemma_pack_injective(a: Seq<u32>, b: Seq<u32>)
    requires
        a.len() == 4,
        b.len() == 4,
        pack_limbs(a) == pack_limbs(b),
    ensures
        a == b,
{
    let pa = pack_limbs(a);
    let pb = pack_limbs(b);
    assert(pa.subrange(0, 4) =~= le_bytes(a[0]));
    assert(pa.subrange(4, 8) =~= le_bytes(a[1]));
    assert(pa.subrange(8, 12) =~= le_bytes(a[2]));
    assert(pa.subrange(12, 16) =~= le_bytes(a[3]));
    assert(pb.subrange(0, 4) =~= le_bytes(b[0]));
    assert(pb.subrange(4, 8) =~= le_bytes(b[1]));
    assert(pb.subrange(8, 12) =~= le_bytes(b[2]));
    assert(pb.subrange(12, 16) =~= le_bytes(b[3]));
    lemma_le_bytes_injective(a[0], b[0]);
    lemma_le_bytes_injective(a[1], b[1]);
    lemma_le_bytes_injective(a[2], b[2]);
    lemma_le_bytes_injective(a[3], b[3]);
    assert(a =~= b);
}

/// The encoding of opening `l` of a run of openings, the first of height
/// `first` and each next one one higher, lies at `run_len(first, l)` in
/// the encoding of the run.
pub proof fn lemma_run_row(openings: Seq<MerkleTreeProof>, first: int, l: int)
    requires
        0 <= first,
        forall|j: int|
            0 <= j < openings.len() ==> (#[trigger] openings[j]).siblings@.len() == first + j,
        0 <= l < openings.len(),
    ensures
        0 <= run_len(first, l as nat),
        run_len(first, (l + 1) as nat) <= run_bytes(openings).len(),
        run_bytes(openings).subrange(run_len(first, l as nat), run_len(first, (l + 1) as nat))
            == opening_bytes(openings[l]),
    decreases openings.len(),
{
    let n = openings.len();
    let front = openings.drop_last();
    let p = openings.last();
    assert(openings =~= front.push(p));
    lemma_run_bytes_push(front, p);
    lemma_run_bytes_len(front, first);
    lemma_run_bytes_len(openings, first);
    lemma_run_len_grows(first, l as nat, (l + 1) as nat);
    lemma_run_len_grows(first, (l + 1) as nat, n);
    if l == n - 1 {
        assert(run_bytes(openings).subrange(run_len(first, l as nat), run_len(first, (l + 1) as nat))
            =~= opening_bytes(p));
    } else {
        lemma_run_row(front, first, l);
        assert(run_bytes(openings).subrange(run_len(first, l as nat), run_len(first, (l + 1) as nat))
            =~= run_bytes(front).subrange(run_len(first, l as nat), run_len(first, (l + 1) as nat)));
    }
}

/// Two layer openings have the same leaf and the same siblings.
pub open spec fn same_opening(a: MerkleTreeProof, b: MerkleTreeProof) -> bool {
    a.leaf == b.leaf && digest_rows(a.siblings@) == digest_rows(b.siblings@)
}

/// Two twiddle openings have the same pair and the same siblings.
pub open spec fn same_twiddle(a: TwiddleMerkleTreeProof, b: TwiddleMerkleTreeProof) -> bool {
    a.leaf == b.leaf && digest_rows(a.siblings@) == digest_rows(b.siblings@)
}

/// Two proofs have the same contents: the same commitments, the same
/// values in the last layer, and for every query the same openings.
pub open spec fn same_contents(a: FriProof, b: FriProof) -> bool {
    &&& commitment_rows(a.commitments@) == commitment_rows(b.commitments@)
    &&& a.last_layer@ == b.last_layer@
    &&& a.merkle_proofs@.len() == b.merkle_proofs@.len()
    &&& forall|q: int|
        0 <= q < a.merkle_proofs@.len() ==> (#[trigger] a.merkle_proofs@[q])@.len()
            == b.merkle_proofs@[q]@.len()
    &&& forall|q: int, l: int|
        0 <= q < a.merkle_proofs@.len() && 0 <= l < a.merkle_proofs@[q]@.len() ==> same_opening(
            #[trigger] a.merkle_proofs@[q]@[l],
            b.merkle_proofs@[q]@[l],
        )
    &&& a.twiddle_merkle_proofs@.len() == b.twiddle_merkle_proofs@.len()
    &&& forall|q: int|
        0 <= q < a.twiddle_merkle_proofs@.len() ==> same_twiddle(
            #[trigger] a.twiddle_merkle_proofs@[q],
            b.twiddle_merkle_proofs@[q],
        )
}

/// A layer opening of a given height is determined by its encoding.
pub proof fn lemma_opening_injective(a: MerkleTreeProof, b: MerkleTreeProof)
    requires
        a.siblings@.len() == b.siblings@.len(),
        opening_bytes(a) == opening_bytes(b),
    ensures
        same_opening(a, b),
{
    let ra = digest_rows(a.siblings@);
    let rb = digest_rows(b.siblings@);
    assert(opening_bytes(a).subrange(0, 16) =~= a.leaf.packed());
    assert(opening_bytes(b).subrange(0, 16) =~= b.leaf.packed());
    lemma_pack_injective(a.leaf.limbs(), b.leaf.limbs());
    assert(a.leaf.limbs()[0] == b.leaf.limbs()[0]);
    assert(a.leaf.limbs()[1] == b.leaf.limbs()[1]);
    assert(a.leaf.limbs()[2] == b.leaf.limbs()[2]);
    assert(a.leaf.limbs()[3] == b.leaf.limbs()[3]);
    lemma_flat_len(ra, 32);
    lemma_flat_len(rb, 32);
    assert(opening_bytes(a).skip(16) =~= flat(ra));
    assert(opening_bytes(b).skip(16) =~= flat(rb));
    lemma_flat_injective(ra, rb, 32);
}

/// A twiddle opening of a given height is determined by its encoding.
pub proof fn lemma_twiddle_injective(a: TwiddleMerkleTreeProof, b: TwiddleMerkleTreeProof)
    requires
        a.siblings@.len() == b.siblings@.len(),
        twiddle_bytes(a) == twiddle_bytes(b),
    ensures
        same_twiddle(a, b),
{
    let ra = digest_rows(a.siblings@);
    let rb = digest_rows(b.siblings@);
    assert(twiddle_bytes(a).subrange(0, 4) =~= le_bytes(a.leaf@[0].0));
    assert(twiddle_bytes(b).subrange(0, 4) =~= le_bytes(b.leaf@[0].0));
    assert(twiddle_bytes(a).subrange(4, 8) =~= le_bytes(a.leaf@[1].0));
    assert(twiddle_bytes(b).subrange(4, 8) =~= le_bytes(b.leaf@[1].0));
    lemma_le_bytes_injective(a.leaf@[0].0, b.leaf@[0].0);
    lemma_le_bytes_injective(a.leaf@[1].0, b.leaf@[1].0);
    assert(a.leaf@[0] == b.leaf@[0]);
    assert(a.leaf@[1] == b.leaf@[1]);
    assert(a.leaf@ =~= b.leaf@);
    assert(a.leaf =~= b.leaf);
    lemma_flat_len(ra, 32);
    lemma_flat_len(rb, 32);
    assert(twiddle_bytes(a).skip(8) =~= flat(ra));
    assert(twiddle_bytes(b).skip(8) =~= flat(rb));
    lemma_flat_injective(ra, rb, 32);
}

/// A run of openings, the first of height `first` and each next one one
/// higher, is determined by its encoding.
pub proof fn lemma_run_injective(a: Seq<MerkleTreeProof>, b: Seq<MerkleTreeProof>, first: int)
    requires
        0 <= first,
        a.len() == b.len(),
        forall|j: int| 0 <= j < a.len() ==> (#[trigger] a[j]).siblings@.len() == first + j,
        forall|j: int| 0 <= j < b.len() ==> (#[trigger] b[j]).siblings@.len() == first + j,
        run_bytes(a) == run_bytes(b),
    ensures
        forall|l: int| 0 <= l < a.len() ==> same_opening(#[trigger] a[l], b[l]),
{
    assert forall|l: int| 0 <= l < a.len() implies same_opening(#[trigger] a[l], b[l]) by {
        lemma_run_row(a, first, l);
        lemma_run_row(b, first, l);
        lemma_opening_injective(a[l], b[l]);
    }
}

/// The openings of a query by layer, of which layer `l` has height
/// `logn - l`, are in the order of the layout a run that begins with
/// height `logn - n + 1`.
pub proof fn lemma_written_order(openings: Seq<MerkleTreeProof>, logn: int)
    requires
        forall|l: int|
            0 <= l < openings.len() ==> (#[trigger] openings[l]).siblings@.len() == logn - l,
    ensures
        forall|j: int|
            0 <= j < openings.len() ==> (#[trigger] openings.reverse()[j]).siblings@.len() == logn
                - openings.len() + 1 + j,
{
    let n = openings.len();
    assert forall|j: int| 0 <= j < n implies (#[trigger] openings.reverse()[j]).siblings@.len()
        == logn - n + 1 + j by {
        assert(openings.reverse()[j] == openings[n - 1 - j]);
    }
}

/// The openings of a query are determined by their encoding.
pub proof fn lemma_query_injective(a: Seq<MerkleTreeProof>, b: Seq<MerkleTreeProof>, logn: int)
    requires
        a.len() == b.len() <= logn,
        forall|j: int| 0 <= j < a.len() ==> (#[trigger] a[j]).siblings@.len() == logn - j,
        forall|j: int| 0 <= j < b.len() ==> (#[trigger] b[j]).siblings@.len() == logn - j,
        query_bytes(a) == query_bytes(b),
    ensures
        forall|l: int| 0 <= l < a.len() ==> same_opening(#[trigger] a[l], b[l]),
{
    let n = a.len();
    lemma_written_order(a, logn);
    lemma_written_order(b, logn);
    lemma_run_injective(a.reverse(), b.reverse(), logn - n + 1);
    assert forall|l: int| 0 <= l < n implies same_opening(#[trigger] a[l], b[l]) by {
        assert(a.reverse()[n - 1 - l] == a[l]);
        assert(b.reverse()[n - 1 - l] == b[l]);
    }
}

/// Four byte strings are determined by their concatenation and their
/// lengths.
pub proof fn lemma_split(
    x1: Seq<u8>,
    x2: Seq<u8>,
    x3: Seq<u8>,
    x4: Seq<u8>,
    y1: Seq<u8>,
    y2: Seq<u8>,
    y3: Seq<u8>,
    y4: Seq<u8>,
)
    requires
        x1 + x2 + x3 + x4 == y1 + y2 + y3 + y4,
        x1.len() == y1.len(),
        x2.len() == y2.len(),
        x3.len() == y3.len(),
    ensures
        x1 == y1,
        x2 == y2,
        x3 == y3,
        x4 == y4,
{
    let x = x1 + x2 + x3 + x4;
    let y = y1 + y2 + y3 + y4;
    let e1 = x1.len() as int;
    let e2 = e1 + x2.len();
    let e3 = e2 + x3.len();
    assert(x.subrange(0, e1) =~= x1);
    assert(y.subrange(0, e1) =~= y1);
    assert(x.subrange(e1, e2) =~= x2);
    assert(y.subrange(e1, e2) =~= y2);
    assert(x.subrange(e2, e3) =~= x3);
    assert(y.subrange(e2, e3) =~= y3);
    assert(x.skip(e3) =~= x4);
    assert(y.skip(e3) =~= y4);
}

/// The values of a last layer are determined by their encoding.
pub proof fn lemma_last_layer_injective(a: Seq<QM31>, b: Seq<QM31>)
    requires
        last_layer_bytes(a) == last_layer_bytes(b),
    ensures
        a == b,
{
    let value = |v: QM31| v.packed();
    let va = a.map_values(value);
    let vb = b.map_values(value);
    lemma_flat_injective(va, vb, 16);
    assert forall|j: int| 0 <= j < a.len() implies a[j] == b[j] by {
        let x = a[j];
        let y = b[j];
        assert(va[j] == x.packed());
        assert(vb[j] == y.packed());
        lemma_pack_injective(x.limbs(), y.limbs());
        assert(x.limbs()[0] == y.limbs()[0]);
        assert(x.limbs()[1] == y.limbs()[1]);
        assert(x.limbs()[2] == y.limbs()[2]);
        assert(x.limbs()[3] == y.limbs()[3]);
    }
    assert(a =~= b);
}

/// Every query has `n` openings, and opening `l` has height `logn - l`.
pub open spec fn queries_fit(v: Seq<Vec<MerkleTreeProof>>, logn: int, n: nat) -> bool {
    forall|q: int|
        0 <= q < v.len() ==> (#[trigger] v[q])@.len() == n && forall|l: int|
            0 <= l < n ==> (#[trigger] v[q]@[l]).siblings@.len() == logn - l
}

/// The encoding of queries of one shape has one length per query.
pub proof fn lemma_queries_len(v: Seq<Vec<MerkleTreeProof>>, logn: int, n: nat)
    requires
        n <= logn,
        queries_fit(v, logn, n),
    ensures
        0 <= query_len(logn, n),
        n > 0 ==> query_len(logn, n) > 0,
        queries_bytes(v).len() == query_len(logn, n) * v.len(),
        forall|q: int| 0 <= q < v.len() ==> query_bytes(#[trigger] v[q]@).len() == query_len(logn, n),
{
    let rows = v.map_values(|q: Vec<MerkleTreeProof>| query_bytes(q@));
    let first = logn - n + 1;
    lemma_run_len_grows(first, n, n);
    if n > 0 {
        lemma_run_len_grows(first, 1, n);
        assert(run_len(first, 1) == 16 + 32 * first) by {
            reveal_with_fuel(run_len, 2);
        }
    }
    assert forall|q: int| 0 <= q < v.len() implies query_bytes(#[trigger] v[q]@).len() == query_len(
        logn,
        n,
    ) by {
        lemma_written_order(v[q]@, logn);
        lemma_run_bytes_len(v[q]@.reverse(), first);
    }
    assert forall|q: int| 0 <= q < rows.len() implies (#[trigger] rows[q]).len() == query_len(
        logn,
        n,
    ) by {
        assert(rows[q] == query_bytes(v[q]@));
    }
    lemma_flat_len(rows, query_len(logn, n) as nat);
}

/// The openings of all queries are determined by their encoding.
pub proof fn lemma_queries_injective(
    a: Seq<Vec<MerkleTreeProof>>,
    b: Seq<Vec<MerkleTreeProof>>,
    logn: int,
    n: nat,
)
    requires
        n <= logn,
        a.len() == b.len(),
        queries_fit(a, logn, n),
        queries_fit(b, logn, n),
        queries_bytes(a) == queries_bytes(b),
    ensures
        forall|q: int, l: int|
            0 <= q < a.len() && 0 <= l < n ==> same_opening(#[trigger] a[q]@[l], b[q]@[l]),
{
    let query = |q: Vec<MerkleTreeProof>| query_bytes(q@);
    let qa = a.map_values(query);
    let qb = b.map_values(query);
    if n > 0 {
        lemma_queries_len(a, logn, n);
        lemma_queries_len(b, logn, n);
        assert forall|q: int| 0 <= q < qa.len() implies (#[trigger] qa[q]).len() == query_len(
            logn,
            n,
        ) by {
            assert(qa[q] == query_bytes(a[q]@));
        }
        assert forall|q: int| 0 <= q < qb.len() implies (#[trigger] qb[q]).len() == query_len(
            logn,
            n,
        ) by {
            assert(qb[q] == query_bytes(b[q]@));
        }
        lemma_flat_injective(qa, qb, query_len(logn, n) as nat);
        assert forall|q: int, l: int| 0 <= q < a.len() && 0 <= l < n implies same_opening(
            #[trigger] a[q]@[l],
            b[q]@[l],
        ) by {
            assert(qa[q] == query_bytes(a[q]@));
            assert(qb[q] == query_bytes(b[q]@));
            lemma_query_injective(a[q]@, b[q]@, logn);
        }
    }
}

/// Every twiddle opening has height `h`.
pub open spec fn twiddles_fit(v: Seq<TwiddleMerkleTreeProof>, h: nat) -> bool {
    forall|q: int| 0 <= q < v.len() ==> (#[trigger] v[q]).siblings@.len() == h
}

/// The encoding of twiddle openings of one height has one length per
/// opening.
pub proof fn lemma_twiddles_len(v: Seq<TwiddleMerkleTreeProof>, h: nat)
    requires
        twiddles_fit(v, h),
    ensures
        twiddles_bytes(v).len() == (8 + 32 * h) * v.len(),
        forall|q: int| 0 <= q < v.len() ==> twiddle_bytes(#[trigger] v[q]).len() == 8 + 32 * h,
{
    let rows = v.map_values(|p: TwiddleMerkleTreeProof| twiddle_bytes(p));
    assert forall|q: int| 0 <= q < v.len() implies twiddle_bytes(#[trigger] v[q]).len() == 8 + 32
        * h by {
        lemma_flat_len(digest_rows(v[q].siblings@), 32);
    }
    assert forall|q: int| 0 <= q < rows.len() implies (#[trigger] rows[q]).len() == 8 + 32 * h by {
        assert(rows[q] == twiddle_bytes(v[q]));
    }
    lemma_flat_len(rows, (8 + 32 * h) as nat);
}

/// The twiddle openings of all queries are determined by their encoding.
pub proof fn lemma_twiddles_injective(
    a: Seq<TwiddleMerkleTreeProof>,
    b: Seq<TwiddleMerkleTreeProof>,
    h: nat,
)
    requires
        twiddles_fit(a, h),
        twiddles_fit(b, h),
        twiddles_bytes(a) == twiddles_bytes(b),
    ensures
        a.len() == b.len(),
        forall|q: int| 0 <= q < a.len() ==> same_twiddle(#[trigger] a[q], b[q]),
{
    let twiddle = |p: TwiddleMerkleTreeProof| twiddle_bytes(p);
    let ta = a.map_values(twiddle);
    let tb = b.map_values(twiddle);
    lemma_twiddles_len(a, h);
    lemma_twiddles_len(b, h);
    assert forall|q: int| 0 <= q < ta.len() implies (#[trigger] ta[q]).len() == 8 + 32 * h by {
        assert(ta[q] == twiddle_bytes(a[q]));
    }
    assert forall|q: int| 0 <= q < tb.len() implies (#[trigger] tb[q]).len() == 8 + 32 * h by {
        assert(tb[q] == twiddle_bytes(b[q]));
    }
    lemma_flat_injective(ta, tb, (8 + 32 * h) as nat);
    assert forall|q: int| 0 <= q < a.len() implies same_twiddle(#[trigger] a[q], b[q]) by {
        assert(ta[q] == twiddle_bytes(a[q]));
        assert(tb[q] == twiddle_bytes(b[q]));
        lemma_twiddle_injective(a[q], b[q]);
    }
}

/// What the shape of a proof says of its parts.
pub proof fn lemma_shape(p: FriProof, logn: usize)
    requires
        p.shape_error(logn) is None,
    ensures
        1 <= logn <= 31,
        p.n_layers() <= logn,
        p.merkle_proofs@.len() == 5,
        p.twiddle_merkle_proofs@.len() == 5,
        queries_fit(p.merkle_proofs@, logn as int, p.n_layers()),
        twiddles_fit(p.twiddle_merkle_proofs@, (logn - 1) as nat),
        flat(commitment_rows(p.commitments@)).len() == 32 * p.n_layers(),
        last_layer_bytes(p.last_layer@).len() == 16 * p.last_layer@.len(),
        queries_bytes(p.merkle_proofs@).len() == query_len(logn as int, p.n_layers()) * 5,
{
    assert(p.twiddle_fits(0, logn));
    assert forall|q: int| 0 <= q < 5 implies (#[trigger] p.merkle_proofs@[q])@.len()
        == p.n_layers() && forall|l: int|
        0 <= l < p.n_layers() ==> (#[trigger] p.merkle_proofs@[q]@[l]).siblings@.len() == logn
            - l by {
        assert(p.query_fits(q, logn));
    }
    assert forall|q: int| 0 <= q < 5 implies (#[trigger] p.twiddle_merkle_proofs@[q]).siblings@.len()
        == logn - 1 by {
        assert(p.twiddle_fits(q, logn));
    }
    lemma_flat_len(commitment_rows(p.commitments@), 32);
    lemma_flat_len(p.last_layer@.map_values(|v: QM31| v.packed()), 16);
    lemma_queries_len(p.merkle_proofs@, logn as int, p.n_layers());
}

/// The layout loses nothing: two proofs of the shape of a proof for
/// `2^logn` points, with the same number of layers and the same encoding,
/// have the same contents. So what `from_bytes` reads from the bytes that
/// `to_bytes` wrote for a proof has the contents of that proof.
pub proof fn lemma_encoding_injective(a: FriProof, b: FriProof, logn: usize)
    requires
        a.shape_error(logn) is None,
        b.shape_error(logn) is None,
        a.n_layers() == b.n_layers(),
        proof_bytes(a) == proof_bytes(b),
    ensures
        same_contents(a, b),
{
    let n = a.n_layers();
    let h = (logn - 1) as nat;
    lemma_shape(a, logn);
    lemma_shape(b, logn);
    lemma_split(
        flat(commitment_rows(a.commitments@)),
        last_layer_bytes(a.last_layer@),
        queries_bytes(a.merkle_proofs@),
        twiddles_bytes(a.twiddle_merkle_proofs@),
        flat(commitment_rows(b.commitments@)),
        last_layer_bytes(b.last_layer@),
        queries_bytes(b.merkle_proofs@),
        twiddles_bytes(b.twiddle_merkle_proofs@),
    );
    lemma_flat_injective(commitment_rows(a.commitments@), commitment_rows(b.commitments@), 32);
    lemma_last_layer_injective(a.last_layer@, b.last_layer@);
    lemma_queries_injective(a.merkle_proofs@, b.merkle_proofs@, logn as int, n);
    lemma_twiddles_injective(a.twiddle_merkle_proofs@, b.twiddle_merkle_proofs@, h);
}

/// The encoding of a proof of the right shape has the length that
/// `from_bytes` asks for: what `to_bytes` writes for such a proof,
/// `from_bytes` reads.
pub proof fn lemma_encoded_length(proof: FriProof, logn: usize)
    requires
        proof.shape_error(logn) is None,
    ensures
        wire_error(proof_bytes(proof).len(), logn, proof.commitments@.len() as usize) is None,
{
    let n = proof.n_layers();
    let h = (logn - 1) as nat;
    let c = flat(commitment_rows(proof.commitments@));
    let v = last_layer_bytes(proof.last_layer@);
    let q = queries_bytes(proof.merkle_proofs@);
    let t = twiddles_bytes(proof.twiddle_merkle_proofs@);
    lemma_shape(proof, logn);
    lemma_twiddles_len(proof.twiddle_merkle_proofs@, h);
    assert(proof_bytes(proof).len() == c.len() + v.len() + q.len() + t.len());
    assert(q.len() == 5 * query_len(logn as int, n));
    assert(t.len() == 5 * twiddle_len(logn as int));
    assert(v.len() == 16 * pow2((logn - n) as nat));
}

} // verus!
