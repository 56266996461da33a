//! The Merkle openings of a FRI proof on the constrained machine: the
//! witness that is pushed for them and the programs that check them.

use crate::fri::lemma_pushes_add;
use crate::fri::FRIGadget;
use crate::fri_proof::digest_rows;
use crate::fri_proof::FriError;
use crate::fri_proof::FriProof;
use crate::fri_proof::MAX_LOGN;
use crate::fri_proof::N_QUERIES;
use crate::machine::byte_items;
use crate::machine::join;
use crate::machine::nums;
use crate::machine::pushes;
use crate::machine::ItemV;
use crate::merkle::MerkleTreeProof;
use crate::merkle::TwiddleMerkleTreeProof;
use crate::script::repeat;
use crate::script::Instr;
use crate::script::InstrV;
use crate::script::Script;
use vstd::prelude::*;

verus! {

/// The witness of the twiddle checks: the openings in the order of the
/// queries.
pub open spec fn twiddle_witness(proofs: Seq<TwiddleMerkleTreeProof>) -> Seq<ItemV> {
    join(proofs.map_values(|p: TwiddleMerkleTreeProof| p.items()))
}

/// The witness of one query's layer checks: the openings from the smallest
/// tree to the largest, that is from the last layer to the first.
pub open spec fn query_witness(openings: Seq<MerkleTreeProof>) -> Seq<ItemV> {
    join(openings.reverse().map_values(|p: MerkleTreeProof| p.items()))
}

/// The twiddle check of one query: the known root, the query's position,
/// and the path check.
pub open spec fn twiddle_round_program(root: Seq<u8>, height: usize) -> Seq<InstrV> {
    seq![InstrV::PushBytes(root), InstrV::FromAltStack, InstrV::TwiddleVerify(height)]
}

/// The twiddle checks of all queries in a domain of `2^logn` points: the
/// five positions are put aside and taken back one by one.
pub open spec fn check_twiddle_program(logn: usize, root: Seq<u8>) -> Seq<InstrV> {
    repeat(seq![InstrV::ToAltStack], N_QUERIES as nat) + repeat(
        twiddle_round_program(root, (logn - 1) as usize),
        N_QUERIES as nat,
    )
}

/// The check of one query in the tree of height `i`: the `i` low bits of
/// the query are copied aside, the root of that tree is brought up from
/// below the `logn` bits, the path is checked and the leaf is put aside.
pub open spec fn merkle_round_program(logn: usize, i: usize) -> Seq<InstrV> {
    seq![
        InstrV::CopyToAltStack(i),
        InstrV::PushNum(logn as u32),
        InstrV::Roll,
        InstrV::MerkleVerify(i),
        InstrV::Qm31ToAltStack,
    ]
}

/// The checks in the trees of heights 2 to `upto`, the smallest first.
pub open spec fn merkle_rounds_program(logn: usize, upto: nat) -> Seq<InstrV>
    decreases upto,
{
    if upto < 2 {
        Seq::empty()
    } else {
        merkle_rounds_program(logn, (upto - 1) as nat) + merkle_round_program(
            logn,
            upto as usize,
        )
    }
}

/// Removes the `logn` bits of the query, two at a time and a last one
/// where `logn` is odd.
pub open spec fn drop_bits_program(logn: usize) -> Seq<InstrV> {
    repeat(seq![InstrV::Drop2], (logn / 2) as nat) + if logn % 2 == 1 {
        seq![InstrV::Drop]
    } else {
        Seq::empty()
    }
}

/// The number of trees that a query is checked in: those of heights 2 to
/// `logn`.
pub open spec fn n_trees(logn: usize) -> nat {
    if logn >= 2 {
        (logn - 1) as nat
    } else {
        0
    }
}

/// The check of one query in every layer.
pub open spec fn check_single_query_program(logn: usize) -> Seq<InstrV> {
    seq![InstrV::LimbToBeBits(logn as u32)] + merkle_rounds_program(logn, logn as nat)
        + drop_bits_program(logn) + repeat(seq![InstrV::Qm31FromAltStack], n_trees(logn))
}

/// The first reason for which the layer openings of query `idx` of
/// `proof` cannot be pushed; `None` if there is no such reason.
pub open spec fn query_push_error(idx: usize, proof: FriProof) -> Option<FriError> {
    if proof.merkle_proofs@.len() != N_QUERIES {
        Some(FriError::QueryCount)
    } else if idx >= N_QUERIES {
        Some(FriError::QueryIndex)
    } else if proof.merkle_proofs@[idx as int]@.len() != proof.n_layers() {
        Some(FriError::PathLength)
    } else {
        None
    }
}

/// A group more at the end of `parts` is a group more at the end of their
/// items.
pub proof fn lemma_join_push(parts: Seq<Seq<ItemV>>, part: Seq<ItemV>)
    ensures
        join(parts.push(part)) == join(parts) + part,
{
    assert(parts.push(part).drop_last() =~= parts);
}

/// Appends pushes of the digests `siblings`, the first one first.
fn push_siblings(script: &mut Script, siblings: &Vec<[u8; 32]>)
    ensures
        final(script)@ == old(script)@ + pushes(byte_items(digest_rows(siblings@))),
{
    let ghost rows = digest_rows(siblings@);
    let mut i: usize = 0;
    assert(script@ =~= old(script)@ + pushes(byte_items(rows.take(0))));
    while i < siblings.len()
        invariant
            i <= siblings.len(),
            rows == digest_rows(siblings@),
            script@ == old(script)@ + pushes(byte_items(rows.take(i as int))),
        decreases siblings.len() - i,
    {
        script.push_bytes(siblings[i].as_slice());
        assert(rows[i as int] == siblings@[i as int]@);
        assert(script@ =~= old(script)@ + pushes(byte_items(rows.take(i + 1))));
        i = i + 1;
    }
    assert(rows.take(siblings.len() as int) =~= rows);
}

impl FRIGadget {
    /// Emits the pushes of the twiddle openings of the five queries. A
    /// proof that does not hold exactly five of them is refused.
    pub fn push_twiddle_merkle_tree_proof(fri_proof: &FriProof) -> (r: Result<Script, FriError>)
        ensures
            match r {
                Ok(s) => fri_proof.twiddle_merkle_proofs@.len() == N_QUERIES && s@ == pushes(
                    twiddle_witness(fri_proof.twiddle_merkle_proofs@),
                ),
                Err(e) => fri_proof.twiddle_merkle_proofs@.len() != N_QUERIES && e
                    == FriError::QueryCount,
            },
    {
        if fri_proof.twiddle_merkle_proofs.len() != N_QUERIES {
            return Err(FriError::QueryCount);
        }
        let ghost parts = fri_proof.twiddle_merkle_proofs@.map_values(
            |p: TwiddleMerkleTreeProof| p.items(),
        );
        let n = fri_proof.twiddle_merkle_proofs.len();
        let mut script = Script::new();
        let mut q: usize = 0;
        assert(parts.take(0) =~= Seq::<Seq<ItemV>>::empty());
        assert(script@ =~= pushes(join(parts.take(0))));
        while q < n
            invariant
                q <= n == fri_proof.twiddle_merkle_proofs.len(),
                parts == fri_proof.twiddle_merkle_proofs@.map_values(
                    |p: TwiddleMerkleTreeProof| p.items(),
                ),
                script@ == pushes(join(parts.take(q as int))),
            decreases n - q,
        {
            let opening = &fri_proof.twiddle_merkle_proofs[q];
            let ghost before = script@;
            script.push_num(opening.leaf[0].0);
            script.push_num(opening.leaf[1].0);
            push_siblings(&mut script, &opening.siblings);
            proof {
                let pair = nums(crate::extract::raw_values(opening.leaf@));
                let sibs = byte_items(digest_rows(opening.siblings@));
                assert(parts[q as int] == pair + sibs);
                assert(before.push(InstrV::PushNum(opening.leaf@[0].0)).push(
                    InstrV::PushNum(opening.leaf@[1].0),
                ) =~= before + pushes(pair));
                lemma_pushes_add(pair, sibs);
                lemma_pushes_add(join(parts.take(q as int)), pair + sibs);
                assert(parts.take(q + 1) =~= parts.take(q as int).push(parts[q as int]));
                lemma_join_push(parts.take(q as int), parts[q as int]);
                assert(script@ =~= pushes(join(parts.take(q + 1))));
            }
            q = q + 1;
        }
        assert(parts.take(n as int) =~= parts);
        Ok(script)
    }

    /// Emits the program that checks the twiddle openings of the five
    /// queries against `twiddle_merkle_tree_root`. It expects the five
    /// positions on top, the one of the last query highest, and leaves the
    /// five leaves, the one of the last query highest.
    pub fn check_twiddle_merkle_tree_proof(logn: usize, twiddle_merkle_tree_root: [u8; 32]) -> (r:
        Result<Script, FriError>)
        ensures
            match r {
                Ok(s) => logn >= 1 && s@ == check_twiddle_program(logn, twiddle_merkle_tree_root@),
                Err(e) => logn == 0 && e == FriError::DomainTooSmall,
            },
    {
        if logn == 0 {
            return Err(FriError::DomainTooSmall);
        }
        let mut script = Script::new();
        let mut stash = Script::new();
        stash.push(Instr::ToAltStack);
        assert(stash@ =~= seq![InstrV::ToAltStack]);
        script.extend_repeated(&stash, N_QUERIES);
        let mut round = Script::new();
        round.push_bytes(twiddle_merkle_tree_root.as_slice());
        round.push(Instr::FromAltStack);
        round.push(Instr::TwiddleVerify(logn - 1));
        assert(round@ =~= twiddle_round_program(twiddle_merkle_tree_root@, (logn - 1) as usize));
        script.extend_repeated(&round, N_QUERIES);
        Ok(script)
    }

    /// Emits the pushes of the layer openings of query `idx`, those of the
    /// smallest tree first. A proof that does not answer exactly five
    /// queries, an index that is not one of the five, and a query without
    /// one opening per layer are refused.
    pub fn push_single_query_merkle_tree_proof(idx: usize, fri_proof: &FriProof) -> (r: Result<
        Script,
        FriError,
    >)
        ensures
            match query_push_error(idx, *fri_proof) {
                Some(e) => r == Err::<Script, FriError>(e),
                None => r is Ok && r->Ok_0@ == pushes(
                    query_witness(fri_proof.merkle_proofs@[idx as int]@),
                ),
            },
    {
        if fri_proof.merkle_proofs.len() != N_QUERIES {
            return Err(FriError::QueryCount);
        }
        if idx >= N_QUERIES {
            return Err(FriError::QueryIndex);
        }
        if fri_proof.merkle_proofs[idx].len() != fri_proof.commitments.len() {
            return Err(FriError::PathLength);
        }
        let openings = &fri_proof.merkle_proofs[idx];
        let ghost parts = openings@.reverse().map_values(|p: MerkleTreeProof| p.items());
        let n = openings.len();
        let mut script = Script::new();
        let mut i: usize = n;
        assert(parts.take(0) =~= Seq::<Seq<ItemV>>::empty());
        assert(script@ =~= pushes(join(parts.take(0))));
        while i > 0
            invariant
                i <= n == openings.len(),
                parts == openings@.reverse().map_values(|p: MerkleTreeProof| p.items()),
                script@ == pushes(join(parts.take(n - i))),
            decreases i,
        {
            i = i - 1;
            let opening = &openings[i];
            script.push_qm31(&opening.leaf);
            push_siblings(&mut script, &opening.siblings);
            proof {
                let t = n - i - 1;
                let leaf = nums(opening.leaf.limbs());
                let sibs = byte_items(digest_rows(opening.siblings@));
                assert(parts[t] == leaf + sibs);
                lemma_pushes_add(leaf, sibs);
                lemma_pushes_add(join(parts.take(t)), leaf + sibs);
                assert(parts.take(t + 1) =~= parts.take(t).push(parts[t]));
                lemma_join_push(parts.take(t), parts[t]);
                assert(script@ =~= pushes(join(parts.take(t + 1))));
            }
        }
        assert(parts.take(n as int) =~= parts);
        Ok(script)
    }

    /// Emits the program that checks one query in every layer. It expects
    /// the roots, the one of the largest tree lowest, and above them the
    /// query, and leaves the leaves, the one of the smallest tree highest.
    pub fn check_single_query_merkle_tree_proof(logn: usize) -> (r: Result<Script, FriError>)
        ensures
            match r {
                Ok(s) => logn <= MAX_LOGN && s@ == check_single_query_program(logn),
                Err(e) => logn > MAX_LOGN && e == FriError::DomainTooLarge,
            },
    {
        if logn > MAX_LOGN {
            return Err(FriError::DomainTooLarge);
        }
        let mut script = Script::new();
        script.push(Instr::LimbToBeBits(logn as u32));
        let ghost head = seq![InstrV::LimbToBeBits(logn as u32)];
        assert(script@ =~= head + merkle_rounds_program(logn, 1));
        let mut i: usize = 2;
        while i <= logn
            invariant
                2 <= i,
                i <= logn + 1 || (logn < 2 && i == 2),
                logn <= MAX_LOGN,
                head == seq![InstrV::LimbToBeBits(logn as u32)],
                script@ == head + merkle_rounds_program(logn, (i - 1) as nat),
            decreases logn + 2 - i,
        {
            script.push(Instr::CopyToAltStack(i));
            script.push_num(logn as u32);
            script.push(Instr::Roll);
            script.push(Instr::MerkleVerify(i));
            script.push(Instr::Qm31ToAltStack);
            assert(script@ =~= head + merkle_rounds_program(logn, i as nat));
            i = i + 1;
        }
        if logn < 2 {
            assert(merkle_rounds_program(logn, 1) =~= merkle_rounds_program(logn, logn as nat));
        }
        let ghost checked = head + merkle_rounds_program(logn, logn as nat);
        assert(script@ == checked);
        let mut drop2 = Script::new();
        drop2.push(Instr::Drop2);
        assert(drop2@ =~= seq![InstrV::Drop2]);
        script.extend_repeated(&drop2, logn / 2);
        if logn % 2 == 1 {
            script.push(Instr::Drop);
        }
        assert(script@ =~= checked + drop_bits_program(logn));
        let mut restore = Script::new();
        restore.push(Instr::Qm31FromAltStack);
        assert(restore@ =~= seq![InstrV::Qm31FromAltStack]);
        let trees: usize = if logn >= 2 {
            logn - 1
        } else {
            0
        };
        script.extend_repeated(&restore, trees);
        assert(script@ =~= check_single_query_program(logn));
        Ok(script)
    }
}

} // verus!
