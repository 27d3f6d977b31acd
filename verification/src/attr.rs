//! The `merkle_root` attribute: a root, its algorithm, and the hashes bound to it.
//!
//! Packed form (129 bytes): root (32), algorithm identifier (1), integrity hash
//! (32), companion hash (32), grid hash (32).

use crate::bytes::{le64_all, lemma_le64_all_injective, push_le64_all};
use crate::digest::{
    collision, compute_sha256, constant_time_eq, digest_at, digest_of, integrity_preimage, is_zero,
    is_zero_digest, lemma_digest_ext, sha256_digest, zero_digest, HashAlg,
};
use crate::error::{InvalidAttrReason, MerkleError};
use crate::tree::MerkleTree;
use vstd::prelude::*;

verus! {

/// The attribute format in use.
pub const MERKLE_ATTR_VERSION_0: u8 = 0;

/// Bytes in a packed attribute.
pub const MERKLE_ATTR_SIZE: usize = 129;

/// The name under which the attribute is stored.
pub const MERKLE_ATTR_NAME: &'static str = "merkle_root";

/// Outcome of a companion check.
#[derive(Debug, Clone, Copy, PartialEq, Eq, Structural)]
pub enum CompanionVerifyResult {
    /// The nodes hash to the stored companion hash.
    Valid,
    /// No companion hash is stored.
    NoCompanion,
    /// The nodes hash to something else.
    HashMismatch,
}

/// Outcome of a grid check.
#[derive(Debug, Clone, Copy, PartialEq, Eq, Structural)]
pub enum GridVerifyResult {
    /// The parameters hash to the stored grid hash.
    Valid,
    /// No grid hash is stored.
    NoGrid,
    /// The parameters hash to something else.
    HashMismatch,
}

/// A root with its algorithm, and what is bound to it.
#[derive(Debug, Clone, PartialEq, Eq)]
pub struct MerkleAttr {
    /// The tree's root.
    pub root: [u8; 32],
    /// The digest algorithm.
    pub algorithm: HashAlg,
    /// Binds root and algorithm.
    pub integrity: [u8; 32],
    /// SHA-256 of the stored nodes; all zeros when none are stored.
    pub companion_hash: [u8; 32],
    /// Hash of the chunk grid; all zeros when not bound.
    pub grid_hash: [u8; 32],
}

/// The integrity hash of `root` under `alg`.
pub open spec fn integrity_digest(alg: HashAlg, root: Seq<u8>) -> [u8; 32] {
    digest_of(alg, integrity_preimage(root, alg.spec_id()))
}

/// The hash of a chunk grid: dimensions, then chunk shape, eight bytes each. It is
/// not the hash in `ChunkGridParams`, which also covers layout class and element size
/// (see `law_grid_hashes_differ`).
pub open spec fn chunk_grid_digest(alg: HashAlg, dims: Seq<u64>, chunk_shape: Seq<u64>) -> [u8;
    32] {
    digest_of(alg, le64_all(dims) + le64_all(chunk_shape))
}

/// Hashes a chunk grid's dimensions and chunk shape, as `verify_grid` does.
/// `verify_subset` does not accept this hash: it goes by `ChunkGridParams::grid_hash`.
pub fn compute_chunk_grid_hash(dims: &[u64], chunk_shape: &[u64], alg: HashAlg) -> (h: [u8; 32])
    ensures
        h == chunk_grid_digest(alg, dims@, chunk_shape@),
{
    let mut buf: Vec<u8> = Vec::new();
    push_le64_all(&mut buf, dims);
    push_le64_all(&mut buf, chunk_shape);
    assert(buf@ =~= le64_all(dims@) + le64_all(chunk_shape@));
    alg.hash_raw(buf.as_slice())
}

/// The packed form of the five fields.
pub open spec fn packed_fields(
    root: Seq<u8>,
    id: u8,
    integrity: Seq<u8>,
    companion: Seq<u8>,
    grid: Seq<u8>,
) -> Seq<u8> {
    root + seq![id] + integrity + companion + grid
}

/// Why packed bytes are rejected, `None` when they are accepted.
pub open spec fn unpack_rejection(data: Seq<u8>) -> Option<InvalidAttrReason> {
    if data.len() != MERKLE_ATTR_SIZE {
        Some(InvalidAttrReason::WrongSize)
    } else {
        match HashAlg::spec_from_id(data[32]) {
            None => Some(InvalidAttrReason::UnknownAlgorithm),
            Some(alg) => if integrity_digest(alg, data.subrange(0, 32))@ == data.subrange(33, 65) {
                None
            } else {
                Some(InvalidAttrReason::IntegrityMismatch)
            },
        }
    }
}

/// The answer to a companion check of `nodes` against the stored hash.
pub open spec fn companion_answer(stored: Seq<u8>, nodes: Seq<u8>) -> CompanionVerifyResult {
    if is_zero(stored) {
        CompanionVerifyResult::NoCompanion
    } else if sha256_digest(nodes)@ == stored {
        CompanionVerifyResult::Valid
    } else {
        CompanionVerifyResult::HashMismatch
    }
}

/// The answer to a grid check against the stored hash.
pub open spec fn grid_answer(
    stored: Seq<u8>,
    alg: HashAlg,
    dims: Seq<u64>,
    chunk_shape: Seq<u64>,
) -> GridVerifyResult {
    if is_zero(stored) {
        GridVerifyResult::NoGrid
    } else if chunk_grid_digest(alg, dims, chunk_shape)@ == stored {
        GridVerifyResult::Valid
    } else {
        GridVerifyResult::HashMismatch
    }
}

fn put_digest(buf: &mut [u8; 129], at: usize, h: &[u8; 32])
    requires
        at + 32 <= 129,
    ensures
        forall|i: int|
            0 <= i < 129 ==> #[trigger] final(buf)[i] == if at <= i < at + 32 {
                h[i - at]
            } else {
                old(buf)[i]
            },
{
    let mut i: usize = 0;
    while i < 32
        invariant
            i <= 32,
            at + 32 <= 129,
            forall|j: int|
                0 <= j < 129 ==> #[trigger] buf[j] == if at <= j < at + i {
                    h[j - at]
                } else {
                    old(buf)[j]
                },
        decreases 32 - i,
    {
        buf[at + i] = h[i];
        i = i + 1;
    }
}

impl MerkleAttr {
    /// The packed form.
    pub open spec fn packed(&self) -> Seq<u8> {
        packed_fields(
            self.root@,
            self.algorithm.spec_id(),
            self.integrity@,
            self.companion_hash@,
            self.grid_hash@,
        )
    }

    /// Whether the integrity hash is that of root and algorithm.
    pub open spec fn intact(&self) -> bool {
        self.integrity == integrity_digest(self.algorithm, self.root@)
    }

    /// Whether the fields are those of `tree`, with the given bindings.
    pub open spec fn describes(
        &self,
        tree: &MerkleTree,
        companion_hash: [u8; 32],
        grid_hash: [u8; 32],
    ) -> bool {
        &&& self.root == tree.spec_nodes()[0]
        &&& self.algorithm == tree.spec_alg()
        &&& self.intact()
        &&& self.companion_hash == companion_hash
        &&& self.grid_hash == grid_hash
    }

    /// The attribute of `tree`, with nothing else bound.
    pub fn from_tree(tree: &MerkleTree) -> (a: Self)
        requires
            tree.wf(),
        ensures
            a.describes(tree, a.companion_hash, a.grid_hash),
            is_zero(a.companion_hash@),
            is_zero(a.grid_hash@),
    {
        Self::from_tree_with_companion(tree, zero_digest())
    }

    /// The attribute of `tree`, with a companion hash.
    pub fn from_tree_with_companion(tree: &MerkleTree, companion_hash: [u8; 32]) -> (a: Self)
        requires
            tree.wf(),
        ensures
            a.describes(tree, companion_hash, a.grid_hash),
            is_zero(a.grid_hash@),
    {
        Self::from_tree_with_companion_and_grid(tree, companion_hash, zero_digest())
    }

    /// The attribute of `tree`, with a companion hash and a grid hash: either that of
    /// `compute_chunk_grid_hash`, for `verify_grid`, or `ChunkGridParams::grid_hash`,
    /// for `verify_subset`.
    pub fn from_tree_with_companion_and_grid(
        tree: &MerkleTree,
        companion_hash: [u8; 32],
        grid_hash: [u8; 32],
    ) -> (a: Self)
        requires
            tree.wf(),
        ensures
            a.describes(tree, companion_hash, grid_hash),
    {
        let root: [u8; 32] = *tree.root();
        let algorithm: HashAlg = tree.algorithm();
        let integrity: [u8; 32] = algorithm.hash_integrity(&root);
        MerkleAttr { root, algorithm, integrity, companion_hash, grid_hash }
    }

    /// The packed form.
    pub fn pack(&self) -> (buf: [u8; 129])
        ensures
            buf@ == self.packed(),
    {
        let mut buf: [u8; 129] = [0u8;129];
        put_digest(&mut buf, 0, &self.root);
        buf[32] = self.algorithm.to_id();
        put_digest(&mut buf, 33, &self.integrity);
        put_digest(&mut buf, 65, &self.companion_hash);
        put_digest(&mut buf, 97, &self.grid_hash);
        assert(buf@ =~= self.packed());
        buf
    }

    /// Reads a packed attribute, checking its integrity hash.
    pub fn unpack(data: &[u8]) -> (r: Result<Self, MerkleError>)
        ensures
            match unpack_rejection(data@) {
                Some(reason) => r == Err::<MerkleAttr, MerkleError>(
                    MerkleError::InvalidAttribute { reason },
                ),
                None => r is Ok && r->Ok_0.packed() == data@ && r->Ok_0.intact(),
            },
            r is Ok ==> {
                &&& data@.len() == 129
                &&& r->Ok_0.root@ == data@.subrange(0, 32)
                &&& HashAlg::spec_from_id(data@[32]) == Some(r->Ok_0.algorithm)
                &&& r->Ok_0.integrity@ == data@.subrange(33, 65)
                &&& r->Ok_0.companion_hash@ == data@.subrange(65, 97)
                &&& r->Ok_0.grid_hash@ == data@.subrange(97, 129)
                &&& r->Ok_0.integrity == integrity_digest(r->Ok_0.algorithm, data@.subrange(0, 32))
            },
            r is Err ==> {
                ||| data@.len() != 129
                ||| HashAlg::spec_from_id(data@[32]) is None
                ||| integrity_digest(
                    HashAlg::spec_from_id(data@[32])->0,
                    data@.subrange(0, 32),
                )@ != data@.subrange(33, 65)
            },
    {
        if data.len() != MERKLE_ATTR_SIZE {
            return Err(MerkleError::InvalidAttribute { reason: InvalidAttrReason::WrongSize });
        }
        let root: [u8; 32] = digest_at(data, 0);
        let algorithm: HashAlg = match HashAlg::from_id(data[32]) {
            Some(alg) => alg,
            None => {
                return Err(
                    MerkleError::InvalidAttribute { reason: InvalidAttrReason::UnknownAlgorithm },
                );
            },
        };
        let integrity: [u8; 32] = digest_at(data, 33);
        let companion_hash: [u8; 32] = digest_at(data, 65);
        let grid_hash: [u8; 32] = digest_at(data, 97);
        let expected: [u8; 32] = algorithm.hash_integrity(&root);
        let same: bool = constant_time_eq(&integrity, &expected);
        assert(same == (integrity_digest(algorithm, data@.subrange(0, 32))@ == data@.subrange(
            33,
            65,
        ))) by {
            if integrity@ == expected@ {
                assert(integrity =~= expected);
            }
        }
        if !same {
            return Err(
                MerkleError::InvalidAttribute { reason: InvalidAttrReason::IntegrityMismatch },
            );
        }
        let attr = MerkleAttr { root, algorithm, integrity, companion_hash, grid_hash };
        assert(attr.packed() =~= data@);
        Ok(attr)
    }

    /// Whether `tree` has this root and algorithm.
    pub fn verify_tree(&self, tree: &MerkleTree) -> (r: bool)
        requires
            tree.wf(),
        ensures
            r == (tree.spec_alg() == self.algorithm && tree.spec_nodes()[0] == self.root),
    {
        tree.algorithm() == self.algorithm && constant_time_eq(tree.root(), &self.root)
    }

    /// Checks stored nodes against the companion hash.
    pub fn verify_companion(&self, nodes_data: &[u8]) -> (r: CompanionVerifyResult)
        ensures
            r == companion_answer(self.companion_hash@, nodes_data@),
            r is NoCompanion <==> forall|i: int| 0 <= i < 32 ==> self.companion_hash@[i] == 0,
            r is Valid ==> sha256_digest(nodes_data@) == self.companion_hash,
            r is HashMismatch ==> sha256_digest(nodes_data@) != self.companion_hash,
    {
        if is_zero_digest(&self.companion_hash) {
            return CompanionVerifyResult::NoCompanion;
        }
        let computed: [u8; 32] = compute_sha256(nodes_data);
        proof {
            broadcast use lemma_digest_ext;
        }
        if constant_time_eq(&computed, &self.companion_hash) {
            CompanionVerifyResult::Valid
        } else {
            CompanionVerifyResult::HashMismatch
        }
    }

    /// Whether a companion hash is stored.
    pub fn has_companion(&self) -> (r: bool)
        ensures
            r == !is_zero(self.companion_hash@),
            r <==> exists|i: int| 0 <= i < 32 && self.companion_hash@[i] != 0,
    {
        !is_zero_digest(&self.companion_hash)
    }

    /// Checks dimensions and chunk shape against the grid hash.
    pub fn verify_grid(&self, dims: &[u64], chunk_shape: &[u64]) -> (r: GridVerifyResult)
        ensures
            r == grid_answer(self.grid_hash@, self.algorithm, dims@, chunk_shape@),
            r is NoGrid <==> forall|i: int| 0 <= i < 32 ==> self.grid_hash@[i] == 0,
            r is Valid ==> chunk_grid_digest(self.algorithm, dims@, chunk_shape@)
                == self.grid_hash,
            r is HashMismatch ==> chunk_grid_digest(self.algorithm, dims@, chunk_shape@)
                != self.grid_hash,
    {
        if is_zero_digest(&self.grid_hash) {
            return GridVerifyResult::NoGrid;
        }
        let computed: [u8; 32] = compute_chunk_grid_hash(dims, chunk_shape, self.algorithm);
        proof {
            broadcast use lemma_digest_ext;
        }
        if constant_time_eq(&computed, &self.grid_hash) {
            GridVerifyResult::Valid
        } else {
            GridVerifyResult::HashMismatch
        }
    }

    /// Whether a grid hash is stored.
    pub fn has_grid_hash(&self) -> (r: bool)
        ensures
            r == !is_zero(self.grid_hash@),
            r <==> exists|i: int| 0 <= i < 32 && self.grid_hash@[i] != 0,
    {
        !is_zero_digest(&self.grid_hash)
    }

    /// The grid hash.
    pub fn grid_hash(&self) -> (r: &[u8; 32])
        ensures
            *r == self.grid_hash,
    {
        &self.grid_hash
    }

    /// The attribute format.
    pub fn version(&self) -> (v: u8)
        ensures
            v == MERKLE_ATTR_VERSION_0,
    {
        MERKLE_ATTR_VERSION_0
    }
}

/// Attribute bytes, borrowed or owned.
#[derive(Debug, Clone)]
pub enum AttrBytes<'a> {
    Borrowed(&'a [u8]),
    Owned(Vec<u8>),
}

/// A packed attribute read in place.
#[derive(Debug, Clone)]
pub struct MerkleAttrRef<'a> {
    data: AttrBytes<'a>,
}

impl<'a> MerkleAttrRef<'a> {
    /// The packed bytes.
    pub closed spec fn bytes(&self) -> Seq<u8> {
        match self.data {
            AttrBytes::Borrowed(s) => s@,
            AttrBytes::Owned(v) => v@,
        }
    }

    /// Whether the bytes are borrowed.
    pub closed spec fn borrowed(&self) -> bool {
        self.data is Borrowed
    }

    /// Every reference holds a whole packed attribute.
    pub open spec fn wf(&self) -> bool {
        self.bytes().len() == MERKLE_ATTR_SIZE
    }

    fn validate_size(size: usize) -> (r: Result<(), MerkleError>)
        ensures
            r == if size == MERKLE_ATTR_SIZE {
                Ok::<(), MerkleError>(())
            } else {
                Err(MerkleError::InvalidAttribute { reason: InvalidAttrReason::WrongSize })
            },
    {
        if size != MERKLE_ATTR_SIZE {
            return Err(MerkleError::InvalidAttribute { reason: InvalidAttrReason::WrongSize });
        }
        Ok(())
    }

    /// Reads `data` in place; only its size is checked.
    pub fn from_slice(data: &'a [u8]) -> (r: Result<MerkleAttrRef<'a>, MerkleError>)
        ensures
            match r {
                Ok(a) => a.wf() && a.bytes() == data@ && a.borrowed(),
                Err(e) => data@.len() != MERKLE_ATTR_SIZE && e == (MerkleError::InvalidAttribute {
                    reason: InvalidAttrReason::WrongSize,
                }),
            },
    {
        match Self::validate_size(data.len()) {
            Ok(_) => Ok(MerkleAttrRef { data: AttrBytes::Borrowed(data) }),
            Err(e) => Err(e),
        }
    }

    /// Takes `data` over; only its size is checked.
    pub fn from_vec(data: Vec<u8>) -> (r: Result<MerkleAttrRef<'static>, MerkleError>)
        ensures
            match r {
                Ok(a) => a.wf() && a.bytes() == data@ && !a.borrowed(),
                Err(e) => data@.len() != MERKLE_ATTR_SIZE && e == (MerkleError::InvalidAttribute {
                    reason: InvalidAttrReason::WrongSize,
                }),
            },
    {
        match Self::validate_size(data.len()) {
            Ok(_) => Ok(MerkleAttrRef { data: AttrBytes::Owned(data) }),
            Err(e) => Err(e),
        }
    }

    /// The packed form of `attr`.
    pub fn from_attr(attr: &MerkleAttr) -> (r: MerkleAttrRef<'static>)
        ensures
            r.wf(),
            r.bytes() == attr.packed(),
            !r.borrowed(),
    {
        let packed: [u8; 129] = attr.pack();
        let mut data: Vec<u8> = Vec::with_capacity(MERKLE_ATTR_SIZE);
        crate::bytes::extend(&mut data, packed.as_slice());
        assert(data@ =~= attr.packed());
        MerkleAttrRef { data: AttrBytes::Owned(data) }
    }

    /// The attribute format.
    pub fn version(&self) -> (v: u8)
        ensures
            v == MERKLE_ATTR_VERSION_0,
    {
        MERKLE_ATTR_VERSION_0
    }

    /// The packed bytes.
    pub fn as_bytes(&self) -> (r: &[u8])
        ensures
            r@ == self.bytes(),
    {
        match &self.data {
            AttrBytes::Borrowed(s) => s,
            AttrBytes::Owned(v) => v.as_slice(),
        }
    }

    /// The root bytes.
    pub fn root(&self) -> (r: &[u8])
        requires
            self.wf(),
        ensures
            r@ == self.bytes().subrange(0, 32),
    {
        &self.as_bytes()[0..32]
    }

    /// The root as an array.
    pub fn root_array(&self) -> (r: [u8; 32])
        requires
            self.wf(),
        ensures
            r@ == self.bytes().subrange(0, 32),
    {
        digest_at(self.as_bytes(), 0)
    }

    /// The stored algorithm identifier.
    pub fn algorithm_id(&self) -> (id: u8)
        requires
            self.wf(),
        ensures
            id == self.bytes()[32],
    {
        self.as_bytes()[32]
    }

    /// The algorithm, if the stored identifier names one.
    pub fn algorithm(&self) -> (r: Result<HashAlg, MerkleError>)
        requires
            self.wf(),
        ensures
            r == match HashAlg::spec_from_id(self.bytes()[32]) {
                Some(alg) => Ok::<HashAlg, MerkleError>(alg),
                None => Err(
                    MerkleError::InvalidAttribute { reason: InvalidAttrReason::UnknownAlgorithm },
                ),
            },
    {
        match HashAlg::from_id(self.algorithm_id()) {
            Some(alg) => Ok(alg),
            None => Err(
                MerkleError::InvalidAttribute { reason: InvalidAttrReason::UnknownAlgorithm },
            ),
        }
    }

    /// The integrity hash bytes.
    pub fn integrity(&self) -> (r: &[u8])
        requires
            self.wf(),
        ensures
            r@ == self.bytes().subrange(33, 65),
    {
        &self.as_bytes()[33..65]
    }

    /// The companion hash bytes.
    pub fn companion_hash(&self) -> (r: &[u8])
        requires
            self.wf(),
        ensures
            r@ == self.bytes().subrange(65, 97),
    {
        &self.as_bytes()[65..97]
    }

    /// Whether a companion hash is stored.
    pub fn has_companion(&self) -> (r: bool)
        requires
            self.wf(),
        ensures
            r == !is_zero(self.bytes().subrange(65, 97)),
            r <==> exists|i: int| 65 <= i < 97 && self.bytes()[i] != 0,
    {
        let h: [u8; 32] = digest_at(self.as_bytes(), 65);
        proof {
            let part = h@;
            if exists|i: int| 65 <= i < 97 && self.bytes()[i] != 0 {
                let i = choose|i: int| 65 <= i < 97 && self.bytes()[i] != 0;
                assert(part[i - 65] != 0);
            }
            if !is_zero(part) {
                let i = choose|i: int| 0 <= i < 32 && part[i] != 0;
                assert(self.bytes()[65 + i] != 0);
            }
        }
        !is_zero_digest(&h)
    }

    /// The grid hash bytes.
    pub fn grid_hash(&self) -> (r: &[u8])
        requires
            self.wf(),
        ensures
            r@ == self.bytes().subrange(97, 129),
    {
        &self.as_bytes()[97..129]
    }

    /// Whether a grid hash is stored.
    pub fn has_grid_hash(&self) -> (r: bool)
        requires
            self.wf(),
        ensures
            r == !is_zero(self.bytes().subrange(97, 129)),
            r <==> exists|i: int| 97 <= i < 129 && self.bytes()[i] != 0,
    {
        let h: [u8; 32] = digest_at(self.as_bytes(), 97);
        proof {
            let part = h@;
            if exists|i: int| 97 <= i < 129 && self.bytes()[i] != 0 {
                let i = choose|i: int| 97 <= i < 129 && self.bytes()[i] != 0;
                assert(part[i - 97] != 0);
            }
            if !is_zero(part) {
                let i = choose|i: int| 0 <= i < 32 && part[i] != 0;
                assert(self.bytes()[97 + i] != 0);
            }
        }
        !is_zero_digest(&h)
    }

    /// Checks the integrity hash.
    pub fn verify_integrity(&self) -> (r: Result<(), MerkleError>)
        requires
            self.wf(),
        ensures
            r == match unpack_rejection(self.bytes()) {
                None => Ok::<(), MerkleError>(()),
                Some(reason) => Err(MerkleError::InvalidAttribute { reason }),
            },
    {
        match MerkleAttr::unpack(self.as_bytes()) {
            Ok(_) => Ok(()),
            Err(e) => Err(e),
        }
    }

    /// Checks stored nodes against the companion hash.
    pub fn verify_companion(&self, nodes_data: &[u8]) -> (r: CompanionVerifyResult)
        requires
            self.wf(),
        ensures
            r == companion_answer(self.bytes().subrange(65, 97), nodes_data@),
    {
        let stored: [u8; 32] = digest_at(self.as_bytes(), 65);
        if is_zero_digest(&stored) {
            return CompanionVerifyResult::NoCompanion;
        }
        let computed: [u8; 32] = compute_sha256(nodes_data);
        proof {
            broadcast use lemma_digest_ext;
        }
        if constant_time_eq(&computed, &stored) {
            CompanionVerifyResult::Valid
        } else {
            CompanionVerifyResult::HashMismatch
        }
    }

    /// Checks dimensions and chunk shape against the grid hash.
    pub fn verify_grid(&self, dims: &[u64], chunk_shape: &[u64]) -> (r: Result<
        GridVerifyResult,
        MerkleError,
    >)
        requires
            self.wf(),
        ensures
            r == if is_zero(self.bytes().subrange(97, 129)) {
                Ok::<GridVerifyResult, MerkleError>(GridVerifyResult::NoGrid)
            } else {
                match HashAlg::spec_from_id(self.bytes()[32]) {
                    Some(alg) => Ok(
                        grid_answer(self.bytes().subrange(97, 129), alg, dims@, chunk_shape@),
                    ),
                    None => Err(
                        MerkleError::InvalidAttribute {
                            reason: InvalidAttrReason::UnknownAlgorithm,
                        },
                    ),
                }
            },
    {
        let stored: [u8; 32] = digest_at(self.as_bytes(), 97);
        if is_zero_digest(&stored) {
            return Ok(GridVerifyResult::NoGrid);
        }
        let algorithm: HashAlg = match self.algorithm() {
            Ok(alg) => alg,
            Err(e) => {
                return Err(e);
            },
        };
        let computed: [u8; 32] = compute_chunk_grid_hash(dims, chunk_shape, algorithm);
        proof {
            broadcast use lemma_digest_ext;
        }
        if constant_time_eq(&computed, &stored) {
            Ok(GridVerifyResult::Valid)
        } else {
            Ok(GridVerifyResult::HashMismatch)
        }
    }

    /// Unpacks into an owned attribute, checking the integrity hash.
    pub fn to_owned_attr(&self) -> (r: Result<MerkleAttr, MerkleError>)
        requires
            self.wf(),
        ensures
            match unpack_rejection(self.bytes()) {
                Some(reason) => r == Err::<MerkleAttr, MerkleError>(
                    MerkleError::InvalidAttribute { reason },
                ),
                None => r is Ok && r->Ok_0.packed() == self.bytes() && r->Ok_0.intact(),
            },
    {
        MerkleAttr::unpack(self.as_bytes())
    }

    /// The packed bytes, copied if they were borrowed.
    pub fn into_owned(self) -> (v: Vec<u8>)
        ensures
            v@ == self.bytes(),
    {
        match self.data {
            AttrBytes::Borrowed(s) => {
                let mut v: Vec<u8> = Vec::with_capacity(s.len());
                crate::bytes::extend(&mut v, s);
                assert(v@ =~= s@);
                v
            },
            AttrBytes::Owned(v) => v,
        }
    }

    /// Whether the bytes are borrowed.
    pub fn is_borrowed(&self) -> (r: bool)
        ensures
            r == self.borrowed(),
    {
        match &self.data {
            AttrBytes::Borrowed(_) => true,
            AttrBytes::Owned(_) => false,
        }
    }
}

impl<'a> AsRef<[u8]> for MerkleAttrRef<'a> {
    /// The packed bytes.
    fn as_ref(&self) -> (r: &[u8])
        ensures
            r@ == self.bytes(),
    {
        self.as_bytes()
    }
}

impl<'a> From<&'a MerkleAttr> for MerkleAttrRef<'static> {
    /// The packed form of `attr`.
    fn from(attr: &'a MerkleAttr) -> (r: Self)
        ensures
            r.wf(),
            r.bytes() == attr.packed(),
            !r.borrowed(),
    {
        Self::from_attr(attr)
    }
}

// Two references with the same bytes need not be equal, so no one value is named.
impl<'a> vstd::std_specs::convert::FromSpecImpl<&'a MerkleAttr> for MerkleAttrRef<'static> {
    open spec fn obeys_from_spec() -> bool {
        false
    }

    open spec fn from_spec(attr: &'a MerkleAttr) -> Self {
        choose|r: Self| r.bytes() == attr.packed() && !r.borrowed()
    }
}

proof fn lemma_packed_injective(a: MerkleAttr, b: MerkleAttr)
    requires
        a.packed() == b.packed(),
    ensures
        a == b,
{
    let p = a.packed();
    let q = b.packed();
    assert forall|i: int| 0 <= i < 32 implies a.root[i] == b.root[i] && a.integrity[i]
        == b.integrity[i] && a.companion_hash[i] == b.companion_hash[i] && a.grid_hash[i]
        == b.grid_hash[i] by {
        assert(p[i] == a.root@[i] && q[i] == b.root@[i]);
        assert(p[33 + i] == a.integrity@[i] && q[33 + i] == b.integrity@[i]);
        assert(p[65 + i] == a.companion_hash@[i] && q[65 + i] == b.companion_hash@[i]);
        assert(p[97 + i] == a.grid_hash@[i] && q[97 + i] == b.grid_hash@[i]);
    }
    assert(a.root =~= b.root);
    assert(a.integrity =~= b.integrity);
    assert(a.companion_hash =~= b.companion_hash);
    assert(a.grid_hash =~= b.grid_hash);
    assert(p[32] == a.algorithm.spec_id() && q[32] == b.algorithm.spec_id());
}

/// Packing an intact attribute gives bytes that are accepted, and no other
/// attribute packs to the same bytes: unpacking gives the attribute back.
pub proof fn law_attr_roundtrip(a: MerkleAttr, b: MerkleAttr)
    requires
        a.intact(),
    ensures
        a.packed().len() == MERKLE_ATTR_SIZE,
        unpack_rejection(a.packed()) is None,
        b.packed() == a.packed() ==> b == a,
{
    let p = a.packed();
    assert(p.subrange(0, 32) =~= a.root@);
    assert(p.subrange(33, 65) =~= a.integrity@);
    assert(p[32] == a.algorithm.spec_id());
    if b.packed() == a.packed() {
        lemma_packed_injective(a, b);
    }
}

/// A packed attribute has the root, the algorithm's number, the integrity hash, the
/// hash of stored nodes and the grid hash, in this order.
pub proof fn law_packed_fields_stand(a: MerkleAttr)
    ensures
        a.packed().len() == 129,
        a.packed().subrange(0, 32) == a.root@,
        a.packed()[32] == a.algorithm.spec_id(),
        a.packed().subrange(33, 65) == a.integrity@,
        a.packed().subrange(65, 97) == a.companion_hash@,
        a.packed().subrange(97, 129) == a.grid_hash@,
{
    let p = a.packed();
    assert(p.subrange(0, 32) =~= a.root@);
    assert(p.subrange(33, 65) =~= a.integrity@);
    assert(p.subrange(65, 97) =~= a.companion_hash@);
    assert(p.subrange(97, 129) =~= a.grid_hash@);
}

/// The attribute of a tree has the tree's root and algorithm and what was bound to
/// it, under an integrity hash that a reader accepts.
pub proof fn law_attr_describes_tree(
    a: MerkleAttr,
    tree: &MerkleTree,
    companion_hash: [u8; 32],
    grid_hash: [u8; 32],
)
    requires
        a.describes(tree, companion_hash, grid_hash),
    ensures
        a.root == tree.spec_nodes()[0],
        a.algorithm == tree.spec_alg(),
        a.companion_hash == companion_hash,
        a.grid_hash == grid_hash,
        a.integrity == digest_of(a.algorithm, integrity_preimage(a.root@, a.algorithm.spec_id())),
        unpack_rejection(a.packed()) is None,
{
    law_attr_roundtrip(a, a);
}

/// What a stored hash says of some nodes: nothing where it is all zeros; otherwise
/// they are accepted if and only if they have that hash.
pub proof fn law_companion_check_is_exact(stored: [u8; 32], nodes: Seq<u8>, i: int)
    requires
        0 <= i < 32,
        stored@[i] != 0,
    ensures
        sha256_digest(nodes) == stored ==> companion_answer(stored@, nodes)
            == CompanionVerifyResult::Valid,
        sha256_digest(nodes)@ != stored@ ==> companion_answer(stored@, nodes)
            == CompanionVerifyResult::HashMismatch,
{
}

/// What a stored grid hash says of a grid: nothing where it is all zeros; otherwise
/// the grid is accepted if and only if it has that hash.
pub proof fn law_grid_check_is_exact(
    stored: [u8; 32],
    alg: HashAlg,
    dims: Seq<u64>,
    chunk_shape: Seq<u64>,
    i: int,
)
    requires
        0 <= i < 32,
        stored@[i] != 0,
    ensures
        chunk_grid_digest(alg, dims, chunk_shape) == stored ==> grid_answer(
            stored@,
            alg,
            dims,
            chunk_shape,
        ) == GridVerifyResult::Valid,
        chunk_grid_digest(alg, dims, chunk_shape)@ != stored@ ==> grid_answer(
            stored@,
            alg,
            dims,
            chunk_shape,
        ) == GridVerifyResult::HashMismatch,
{
}

/// An integrity hash belongs to one root only, unless the digest has a
/// collision: a changed root does not pass with the old integrity hash.
pub proof fn law_integrity_binds_root(alg: HashAlg, root1: Seq<u8>, root2: Seq<u8>)
    requires
        root1.len() == 32,
        root2.len() == 32,
        integrity_digest(alg, root1) == integrity_digest(alg, root2),
    ensures
        root1 == root2 || collision(alg),
{
    let p1 = integrity_preimage(root1, alg.spec_id());
    let p2 = integrity_preimage(root2, alg.spec_id());
    if p1 == p2 {
        assert(p1.subrange(1, 33) =~= root1);
        assert(p2.subrange(1, 33) =~= root2);
    } else {
        assert(digest_of(alg, p1) == digest_of(alg, p2));
    }
}

/// Two grids of the same rank with the same hash are the same grid, unless the
/// digest has a collision.
pub proof fn law_grid_hash_binds_grid(
    alg: HashAlg,
    dims1: Seq<u64>,
    shape1: Seq<u64>,
    dims2: Seq<u64>,
    shape2: Seq<u64>,
)
    requires
        dims1.len() == dims2.len(),
        chunk_grid_digest(alg, dims1, shape1) == chunk_grid_digest(alg, dims2, shape2),
    ensures
        (dims1 == dims2 && shape1 == shape2) || collision(alg),
{
    let p1 = le64_all(dims1) + le64_all(shape1);
    let p2 = le64_all(dims2) + le64_all(shape2);
    if p1 == p2 {
        crate::bytes::lemma_le64_all_len(dims1);
        crate::bytes::lemma_le64_all_len(dims2);
        let n = 8 * dims1.len() as int;
        assert(p1.take(n) =~= le64_all(dims1));
        assert(p2.take(n) =~= le64_all(dims2));
        assert(p1.skip(n) =~= le64_all(shape1));
        assert(p2.skip(n) =~= le64_all(shape2));
        lemma_le64_all_injective(dims1, dims2);
        lemma_le64_all_injective(shape1, shape2);
    } else {
        assert(digest_of(alg, p1) == digest_of(alg, p2));
    }
}

} // verus!
