//! The FRI proof as the verifier receives it, and the checks on its shape
//! that are made before any program is built from it.

use crate::channel::Commitment;
use crate::extract::power_of_two;
use crate::extract::raw_values;
use crate::fields::QM31;
use crate::machine::byte_items;
use crate::machine::nums;
use crate::machine::ItemV;
use crate::merkle::MerkleTreeProof;
use crate::merkle::TwiddleMerkleTreeProof;
use vstd::arithmetic::power2::pow2;
use vstd::prelude::*;

verus! {

/// The number of queries that a proof answers.
pub const N_QUERIES: usize = 5;

/// The largest logarithm of a domain size that programs are built for: a query index is a
/// base-field value and has 31 bits.
pub const MAX_LOGN: usize = 31;

/// Why a proof or a parameter was refused before a program was built.
#[derive(Clone, Copy, Debug, PartialEq, Eq, Structural)]
pub enum FriError {
    /// The domain has more than `2^31` points.
    DomainTooLarge,
    /// The domain has a single point, so that there is no twiddle table.
    DomainTooSmall,
    /// There are more folding layers than the domain can be halved.
    TooManyLayers,
    /// The last layer does not hold `2^(logn - n_layers)` values.
    LastLayerSize,
    /// The proof does not answer exactly five queries.
    QueryCount,
    /// A query lacks the opening of a layer, or a path has the wrong length
    /// for its tree.
    PathLength,
    /// The query asked for is not among the five.
    QueryIndex,
    /// An encoded proof does not have the length that its domain size and
    /// number of layers ask for.
    EncodingLength,
}

/// A FRI proof: one commitment per folding layer, the values of the last
/// layer, and for each query the openings of every layer (the unfolded
/// layer first) and of the twiddle table.
#[derive(Debug, PartialEq, Eq)]
pub struct FriProof {
    pub commitments: Vec<Commitment>,
    pub last_layer: Vec<QM31>,
    pub merkle_proofs: Vec<Vec<MerkleTreeProof>>,
    pub twiddle_merkle_proofs: Vec<TwiddleMerkleTreeProof>,
}

/// The bytes of each commitment.
pub open spec fn commitment_rows(v: Seq<Commitment>) -> Seq<Seq<u8>> {
    v.map_values(|c: Commitment| c.0@)
}

/// The limbs of each field element.
pub open spec fn limb_rows(v: Seq<QM31>) -> Seq<Seq<u32>> {
    v.map_values(|x: QM31| x.limbs())
}

/// The bytes of each digest.
pub open spec fn digest_rows(v: Seq<[u8; 32]>) -> Seq<Seq<u8>> {
    v.map_values(|d: [u8; 32]| d@)
}

impl MerkleTreeProof {
    /// The opening as witness items: the four limbs of the leaf, then the
    /// siblings from the lowest up.
    pub open spec fn items(&self) -> Seq<ItemV> {
        nums(self.leaf.limbs()) + byte_items(digest_rows(self.siblings@))
    }
}

impl TwiddleMerkleTreeProof {
    /// The opening as witness items: the pair of the leaf, then the
    /// siblings from the lowest up.
    pub open spec fn items(&self) -> Seq<ItemV> {
        nums(raw_values(self.leaf@)) + byte_items(digest_rows(self.siblings@))
    }
}

impl FriProof {
    /// The number of folding layers.
    pub open spec fn n_layers(&self) -> nat {
        self.commitments@.len()
    }

    /// Query `q` has one opening per layer, and the path of layer `i` has
    /// the height of that layer's tree, `logn - i`.
    pub open spec fn query_fits(&self, q: int, logn: usize) -> bool {
        &&& self.merkle_proofs@[q]@.len() == self.n_layers()
        &&& forall|i: int|
            0 <= i < self.n_layers() ==> (#[trigger] self.merkle_proofs@[q]@[i]).siblings@.len()
                == logn - i
    }

    /// The twiddle opening of query `q` has the height of the twiddle
    /// table, `logn - 1`.
    pub open spec fn twiddle_fits(&self, q: int, logn: usize) -> bool {
        self.twiddle_merkle_proofs@[q].siblings@.len() + 1 == logn
    }

    /// Every opening has the length that its tree asks for.
    pub open spec fn paths_fit(&self, logn: usize) -> bool {
        &&& forall|q: int| 0 <= q < self.merkle_proofs@.len() ==> self.query_fits(q, logn)
        &&& forall|q: int| 0 <= q < self.twiddle_merkle_proofs@.len() ==> self.twiddle_fits(q, logn)
    }

    /// The first reason, in the order of `FriError`, for which the proof
    /// does not have the shape of a proof for a domain of `2^logn` points;
    /// `None` if it has that shape.
    pub open spec fn shape_error(&self, logn: usize) -> Option<FriError> {
        if logn > MAX_LOGN {
            Some(FriError::DomainTooLarge)
        } else if self.n_layers() > logn {
            Some(FriError::TooManyLayers)
        } else if self.last_layer@.len() != pow2((logn - self.n_layers()) as nat) {
            Some(FriError::LastLayerSize)
        } else if self.merkle_proofs@.len() != N_QUERIES || self.twiddle_merkle_proofs@.len()
            != N_QUERIES {
            Some(FriError::QueryCount)
        } else if !self.paths_fit(logn) {
            Some(FriError::PathLength)
        } else {
            None
        }
    }

    fn check_query(&self, q: usize, logn: usize) -> (r: bool)
        requires
            q < self.merkle_proofs@.len(),
            self.n_layers() <= logn,
        ensures
            r == self.query_fits(q as int, logn),
    {
        let n = self.commitments.len();
        let openings = &self.merkle_proofs[q];
        if openings.len() != n {
            return false;
        }
        let mut i: usize = 0;
        while i < n
            invariant
                i <= n == self.n_layers() <= logn,
                openings@.len() == n,
                openings == self.merkle_proofs@[q as int],
                forall|j: int| 0 <= j < i ==> (#[trigger] openings@[j]).siblings@.len() == logn - j,
            decreases n - i,
        {
            if openings[i].siblings.len() != logn - i {
                return false;
            }
            i = i + 1;
        }
        true
    }

    /// Checks the shape of the proof for a domain of `2^logn` points.
    pub fn validate(&self, logn: usize) -> (r: Result<(), FriError>)
        ensures
            match self.shape_error(logn) {
                Some(e) => r == Err::<(), FriError>(e),
                None => r is Ok,
            },
    {
        let n = self.commitments.len();
        if logn > MAX_LOGN {
            return Err(FriError::DomainTooLarge);
        }
        if n > logn {
            return Err(FriError::TooManyLayers);
        }
        if self.last_layer.len() as u64 != power_of_two(logn - n) {
            return Err(FriError::LastLayerSize);
        }
        if self.merkle_proofs.len() != N_QUERIES || self.twiddle_merkle_proofs.len() != N_QUERIES {
            return Err(FriError::QueryCount);
        }
        let mut q: usize = 0;
        while q < N_QUERIES
            invariant
                q <= N_QUERIES,
                self.n_layers() <= logn,
                self.merkle_proofs@.len() == N_QUERIES,
                self.twiddle_merkle_proofs@.len() == N_QUERIES,
                self.shape_error(logn) == if self.paths_fit(logn) {
                    None
                } else {
                    Some(FriError::PathLength)
                },
                forall|j: int| 0 <= j < q ==> self.query_fits(j, logn) && self.twiddle_fits(j, logn),
            decreases N_QUERIES - q,
        {
            if !self.check_query(q, logn) {
                assert(!self.query_fits(q as int, logn));
                return Err(FriError::PathLength);
            }
            let height = self.twiddle_merkle_proofs[q].siblings.len();
            if height >= logn || height + 1 != logn {
                assert(!self.twiddle_fits(q as int, logn));
                return Err(FriError::PathLength);
            }
            q = q + 1;
        }
        Ok(())
    }
}

} // verus!
