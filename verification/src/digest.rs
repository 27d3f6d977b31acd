//! The three digest algorithms, and the domain-separated hashes built on them.

use k12::digest::ExtendableOutput;
use sha2::Digest;
use vstd::prelude::*;

verus! {

/// Bytes in a digest.
pub const HASH_SIZE: usize = 32;

/// First byte of a leaf's preimage.
pub const LEAF_PREFIX: u8 = 0x00;

/// First byte of an internal node's preimage.
pub const INTERNAL_PREFIX: u8 = 0x01;

/// First byte of the padding leaf's preimage.
pub const NULL_PREFIX: u8 = 0x02;

/// First byte of an attribute integrity preimage.
pub const INTEGRITY_PREFIX: u8 = 0x03;

/// First byte of a grid preimage.
pub const GRID_PREFIX: u8 = 0x04;

/// The SHA-256 digest of `data`.
pub uninterp spec fn sha256_digest(data: Seq<u8>) -> [u8; 32];

/// The BLAKE3 digest of `data` (plain hash mode).
pub uninterp spec fn blake3_digest(data: Seq<u8>) -> [u8; 32];

/// The first 32 output bytes of KangarooTwelve, empty customization, over `data`.
pub uninterp spec fn k12_digest(data: Seq<u8>) -> [u8; 32];

/// `sha2::Sha256`: the digest of the three slices fed in order, which is the
/// digest of their concatenation.
#[verifier::external_body]
fn sha256_parts(a: &[u8], b: &[u8], c: &[u8]) -> (h: [u8; 32])
    ensures
        h == sha256_digest(a@ + b@ + c@),
{
    sha2::Sha256::new().chain_update(a).chain_update(b).chain_update(c).finalize().into()
}

/// `blake3::Hasher` in plain hash mode: the digest of the three slices fed in
/// order, which is the digest of their concatenation.
#[verifier::external_body]
fn blake3_parts(a: &[u8], b: &[u8], c: &[u8]) -> (h: [u8; 32])
    ensures
        h == blake3_digest(a@ + b@ + c@),
{
    blake3::Hasher::new().update(a).update(b).update(c).finalize().into()
}

/// `k12::KangarooTwelve` with no customization, 32 bytes of output: the digest
/// of the three slices fed in order, which is the digest of their concatenation.
#[verifier::external_body]
fn k12_parts(a: &[u8], b: &[u8], c: &[u8]) -> (h: [u8; 32])
    ensures
        h == k12_digest(a@ + b@ + c@),
{
    let mut hasher = k12::KangarooTwelve::default();
    k12::digest::Update::update(&mut hasher, a);
    k12::digest::Update::update(&mut hasher, b);
    k12::digest::Update::update(&mut hasher, c);
    let mut output = [0u8; 32];
    hasher.finalize_xof_into(&mut output);
    output
}

/// A digest algorithm.
#[derive(Debug, Clone, Copy, PartialEq, Eq, Hash, Structural)]
pub enum HashAlg {
    Sha256,
    Blake3,
    K12,
}

impl Default for HashAlg {
    /// BLAKE3.
    fn default() -> (r: Self)
        ensures
            r == HashAlg::Blake3,
    {
        HashAlg::Blake3
    }
}

/// The digest of `data` under `alg`.
pub open spec fn digest_of(alg: HashAlg, data: Seq<u8>) -> [u8; 32] {
    match alg {
        HashAlg::Sha256 => sha256_digest(data),
        HashAlg::Blake3 => blake3_digest(data),
        HashAlg::K12 => k12_digest(data),
    }
}

/// What is hashed for a leaf holding `data`.
pub open spec fn leaf_preimage(data: Seq<u8>) -> Seq<u8> {
    seq![LEAF_PREFIX] + data
}

/// What is hashed for the parent of `left` and `right`.
pub open spec fn pair_preimage(left: [u8; 32], right: [u8; 32]) -> Seq<u8> {
    seq![INTERNAL_PREFIX] + left@ + right@
}

/// What is hashed for a padding leaf: the prefix, then `null` in ASCII.
pub open spec fn null_preimage() -> Seq<u8> {
    seq![NULL_PREFIX, 0x6e, 0x75, 0x6c, 0x6c]
}

/// What is hashed to bind a root to its algorithm.
pub open spec fn integrity_preimage(root: Seq<u8>, alg_id: u8) -> Seq<u8> {
    seq![INTEGRITY_PREFIX] + root + seq![alg_id]
}

/// The hash of a leaf holding `data`.
pub open spec fn leaf_digest(alg: HashAlg, data: Seq<u8>) -> [u8; 32] {
    digest_of(alg, leaf_preimage(data))
}

/// The hash of the parent of `left` and `right`.
pub open spec fn pair_digest(alg: HashAlg, left: [u8; 32], right: [u8; 32]) -> [u8; 32] {
    digest_of(alg, pair_preimage(left, right))
}

/// The hash of a padding leaf.
pub open spec fn null_digest(alg: HashAlg) -> [u8; 32] {
    digest_of(alg, null_preimage())
}

/// Whether two different inputs have the same digest under `alg`.
pub open spec fn collision(alg: HashAlg) -> bool {
    exists|a: Seq<u8>, b: Seq<u8>|
        a != b && #[trigger] digest_of(alg, a) == #[trigger] digest_of(alg, b)
}

impl HashAlg {
    /// The digest of `a`, `b` and `c` one after the other.
    fn hash_parts(&self, a: &[u8], b: &[u8], c: &[u8]) -> (h: [u8; 32])
        ensures
            h == digest_of(*self, a@ + b@ + c@),
    {
        match self {
            HashAlg::Sha256 => sha256_parts(a, b, c),
            HashAlg::Blake3 => blake3_parts(a, b, c),
            HashAlg::K12 => k12_parts(a, b, c),
        }
    }

    /// The hash that binds `root` to this algorithm.
    pub(crate) fn hash_integrity(&self, root: &[u8; 32]) -> (h: [u8; 32])
        ensures
            h == digest_of(*self, integrity_preimage(root@, self.spec_id())),
    {
        let prefix: [u8; 1] = [INTEGRITY_PREFIX];
        let id: [u8; 1] = [self.to_id()];
        assert(prefix@ =~= seq![INTEGRITY_PREFIX]);
        assert(id@ =~= seq![self.spec_id()]);
        self.hash_parts(prefix.as_slice(), root.as_slice(), id.as_slice())
    }

    /// The plain digest of `data`, without a domain prefix.
    pub fn hash_raw(&self, data: &[u8]) -> (h: [u8; 32])
        ensures
            h == digest_of(*self, data@),
    {
        let empty: [u8; 0] = [];
        let h = self.hash_parts(data, empty.as_slice(), empty.as_slice());
        assert(data@ + empty@ + empty@ =~= data@);
        h
    }

    /// The hash of a leaf holding `data`.
    pub fn hash_leaf(&self, data: &[u8]) -> (h: [u8; 32])
        ensures
            h == leaf_digest(*self, data@),
    {
        hash_chunk(data, *self)
    }

    /// The hash of the parent of `left` and `right`.
    pub fn hash_pair(&self, left: &[u8; 32], right: &[u8; 32]) -> (h: [u8; 32])
        ensures
            h == pair_digest(*self, *left, *right),
    {
        let prefix: [u8; 1] = [INTERNAL_PREFIX];
        assert(prefix@ =~= seq![INTERNAL_PREFIX]);
        self.hash_parts(prefix.as_slice(), left.as_slice(), right.as_slice())
    }

    /// The hash that fills the positions after the last real leaf.
    pub fn null_sentinel(&self) -> (h: [u8; 32])
        ensures
            h == null_digest(*self),
    {
        let data: [u8; 5] = [NULL_PREFIX, 0x6e, 0x75, 0x6c, 0x6c];
        assert(data@ =~= null_preimage());
        self.hash_raw(data.as_slice())
    }

    /// The identifier under which the algorithm is stored.
    pub fn to_id(self) -> (id: u8)
        ensures
            id == self.spec_id(),
    {
        match self {
            HashAlg::Sha256 => 0x00,
            HashAlg::Blake3 => 0x01,
            HashAlg::K12 => 0x02,
        }
    }

    pub open spec fn spec_id(self) -> u8 {
        match self {
            HashAlg::Sha256 => 0x00u8,
            HashAlg::Blake3 => 0x01u8,
            HashAlg::K12 => 0x02u8,
        }
    }

    /// The algorithm stored under `id`.
    pub fn from_id(id: u8) -> (alg: Option<Self>)
        ensures
            alg == Self::spec_from_id(id),
    {
        match id {
            0x00 => Some(HashAlg::Sha256),
            0x01 => Some(HashAlg::Blake3),
            0x02 => Some(HashAlg::K12),
            _ => None,
        }
    }

    pub open spec fn spec_from_id(id: u8) -> Option<Self> {
        if id == 0x00 {
            Some(HashAlg::Sha256)
        } else if id == 0x01 {
            Some(HashAlg::Blake3)
        } else if id == 0x02 {
            Some(HashAlg::K12)
        } else {
            None
        }
    }
}

/// The leaf hash of a chunk's bytes.
pub fn hash_chunk(data: &[u8], alg: HashAlg) -> (h: [u8; 32])
    ensures
        h == leaf_digest(alg, data@),
{
    let prefix: [u8; 1] = [LEAF_PREFIX];
    let empty: [u8; 0] = [];
    assert(prefix@ =~= seq![LEAF_PREFIX]);
    let h = alg.hash_parts(prefix.as_slice(), data, empty.as_slice());
    assert(prefix@ + data@ + empty@ =~= leaf_preimage(data@));
    h
}

/// The SHA-256 digest of `data`.
pub fn compute_sha256(data: &[u8]) -> (h: [u8; 32])
    ensures
        h == sha256_digest(data@),
{
    HashAlg::Sha256.hash_raw(data)
}

/// Whether two digests are equal; every byte is looked at either way.
pub fn constant_time_eq(a: &[u8; 32], b: &[u8; 32]) -> (r: bool)
    ensures
        r == (*a == *b),
{
    let mut result: u8 = 0;
    let mut i: usize = 0;
    while i < 32
        invariant
            i <= 32,
            result == 0 <==> forall|j: int| 0 <= j < i ==> a[j] == b[j],
        decreases 32 - i,
    {
        let x: u8 = a[i];
        let y: u8 = b[i];
        assert(((result | (x ^ y)) == 0) <==> (result == 0 && x == y)) by (bit_vector);
        result = result | (x ^ y);
        i = i + 1;
    }
    assert(result == 0 ==> *a =~= *b);
    result == 0
}

/// Digests with the same bytes are equal.
pub broadcast proof fn lemma_digest_ext(a: [u8; 32], b: [u8; 32])
    requires
        #[trigger] a@ == #[trigger] b@,
    ensures
        a == b,
{
    assert(a =~= b);
}

/// Copies 32 bytes out of `data`, starting at `at`.
pub fn digest_at(data: &[u8], at: usize) -> (h: [u8; 32])
    requires
        at + 32 <= data@.len(),
    ensures
        h@ == data@.subrange(at as int, at + 32),
{
    let len: usize = data.len();
    let mut h: [u8; 32] = [0u8;32];
    let mut i: usize = 0;
    while i < 32
        invariant
            i <= 32,
            at + 32 <= len == data@.len(),
            forall|j: int| 0 <= j < i ==> h[j] == data@[at + j],
        decreases 32 - i,
    {
        h[i] = data[at + i];
        i = i + 1;
    }
    assert(h@ =~= data@.subrange(at as int, at + 32));
    h
}

/// Whether every byte is zero, which stands for "no hash".
pub open spec fn is_zero(s: Seq<u8>) -> bool {
    forall|i: int| 0 <= i < s.len() ==> s[i] == 0
}

/// The all-zero value that stands for "no hash".
pub fn zero_digest() -> (h: [u8; 32])
    ensures
        is_zero(h@),
{
    [0u8;32]
}

/// Whether every byte of `h` is zero.
pub fn is_zero_digest(h: &[u8; 32]) -> (r: bool)
    ensures
        r == is_zero(h@),
{
    let mut i: usize = 0;
    while i < 32
        invariant
            i <= 32,
            forall|j: int| 0 <= j < i ==> h@[j] == 0,
        decreases 32 - i,
    {
        if h[i] != 0 {
            assert(h@[i as int] != 0);
            return false;
        }
        i = i + 1;
    }
    true
}

/// Leaf, node, padding and integrity preimages never coincide: they start with
/// different bytes.
pub proof fn law_preimages_are_disjoint(
    data: Seq<u8>,
    left: [u8; 32],
    right: [u8; 32],
    root: Seq<u8>,
    id: u8,
)
    ensures
        leaf_preimage(data) != pair_preimage(left, right),
        leaf_preimage(data) != null_preimage(),
        leaf_preimage(data) != integrity_preimage(root, id),
        pair_preimage(left, right) != null_preimage(),
        pair_preimage(left, right) != integrity_preimage(root, id),
        null_preimage() != integrity_preimage(root, id),
{
    assert(leaf_preimage(data)[0] == LEAF_PREFIX);
    assert(pair_preimage(left, right)[0] == INTERNAL_PREFIX);
    assert(null_preimage()[0] == NULL_PREFIX);
    assert(integrity_preimage(root, id)[0] == INTEGRITY_PREFIX);
}

/// An algorithm's identifier leads back to the algorithm, and no other
/// identifier names one.
pub proof fn law_algorithm_id_roundtrip(alg: HashAlg, id: u8)
    ensures
        HashAlg::spec_from_id(alg.spec_id()) == Some(alg),
        HashAlg::spec_from_id(id) is Some ==> HashAlg::spec_from_id(id)->0.spec_id() == id,
        HashAlg::spec_from_id(id) is None <==> id > 2,
{
}

/// What is hashed starts with a byte that says what it is, and has all of it behind
/// that byte: 0 and the data of a leaf; 1 and the left and the right child of a node;
/// 2 and `null` for padding; 3, a root and the number of its algorithm.
pub proof fn law_preimages_hold_everything(
    data: Seq<u8>,
    left: [u8; 32],
    right: [u8; 32],
    root: Seq<u8>,
    id: u8,
)
    ensures
        leaf_preimage(data)[0] == 0 && leaf_preimage(data).skip(1) == data,
        pair_preimage(left, right).len() == 65 && pair_preimage(left, right)[0] == 1,
        pair_preimage(left, right).subrange(1, 33) == left@,
        pair_preimage(left, right).subrange(33, 65) == right@,
        null_preimage() == seq![2u8, 0x6e, 0x75, 0x6c, 0x6c],
        integrity_preimage(root, id).len() == root.len() + 2,
        integrity_preimage(root, id)[0] == 3,
        integrity_preimage(root, id).subrange(1, 1 + root.len() as int) == root,
        integrity_preimage(root, id)[1 + root.len() as int] == id,
{
    assert(leaf_preimage(data).skip(1) =~= data);
    assert(pair_preimage(left, right).subrange(1, 33) =~= left@);
    assert(pair_preimage(left, right).subrange(33, 65) =~= right@);
    assert(integrity_preimage(root, id).subrange(1, 1 + root.len() as int) =~= root);
}

/// The hashes are taken under the algorithm that is asked for, and algorithms have
/// the numbers 0, 1 and 2.
pub proof fn law_algorithms_are_kept_apart(alg: HashAlg, data: Seq<u8>)
    ensures
        alg == HashAlg::Sha256 ==> digest_of(alg, data) == sha256_digest(data) && alg.spec_id() == 0,
        alg == HashAlg::Blake3 ==> digest_of(alg, data) == blake3_digest(data) && alg.spec_id() == 1,
        alg == HashAlg::K12 ==> digest_of(alg, data) == k12_digest(data) && alg.spec_id() == 2,
        leaf_digest(alg, data) == digest_of(alg, seq![0u8] + data),
{
}

} // verus!
