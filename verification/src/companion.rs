//! Storing trees in files: the root attribute and the nodes.

use crate::attr::{chunk_grid_digest, compute_chunk_grid_hash, MerkleAttr, MERKLE_ATTR_NAME};
use crate::builders::{DatasetBuilder, FinishedGroup, GroupBuilder};
use crate::dataset::{flat_nodes, flatten, law_nodes_stand_in_order};
use crate::digest::{compute_sha256, is_zero, sha256_digest, zero_digest};
use crate::error::MerkleError;
use crate::file_writer::FileWriter;
use crate::messages::{AttrValue, Datatype};
use crate::tree::MerkleTree;
use vstd::prelude::*;
use vstd::slice::slice_to_vec;

verus! {

/// Leaves up to which a tree's nodes go into an attribute.
pub const INLINE_CHUNK_THRESHOLD: usize = 256;

/// The attribute that holds the nodes of a small tree.
pub const MERKLE_NODES_ATTR_NAME: &'static str = "merkle_nodes";

/// The group that holds the nodes of large trees.
pub const MERKLE_GROUP_NAME: &'static str = "merkle";

/// Whether `h` is the grid hash of a dataset as it is described: bound to
/// extent and chunk extents where both are set, and unbound otherwise.
pub open spec fn is_grid_hash(d: DatasetBuilder, tree: &MerkleTree, h: [u8; 32]) -> bool {
    if d.shape is Some && d.chunk_options.chunk_dims is Some {
        h == chunk_grid_digest(
            tree.spec_alg(),
            d.shape->0@,
            d.chunk_options.chunk_dims->0@,
        )
    } else {
        is_zero(h@)
    }
}

/// Adds the root attribute of `tree` to a dataset, with the grid hash that
/// `MerkleAttr::verify_grid` checks. For `verify_subset` to authenticate a grid, the
/// attribute is made with `ChunkGridParams::grid_hash` instead.
pub fn write_merkle_attr(dataset: &mut DatasetBuilder, tree: &MerkleTree) -> (r: Result<
    (),
    MerkleError,
>)
    requires
        tree.wf(),
    ensures
        r is Ok,
        final(dataset).attrs@.len() == old(dataset).attrs@.len() + 1,
        final(dataset).attrs@.drop_last() == old(dataset).attrs@,
        final(dataset).attrs@.last().0@ == MERKLE_ATTR_NAME@,
        exists|a: MerkleAttr|
            {
                &&& #[trigger] a.describes(tree, a.companion_hash, a.grid_hash)
                &&& is_zero(a.companion_hash@)
                &&& is_grid_hash(*old(dataset), tree, a.grid_hash)
                &&& final(dataset).attrs@.last().1 matches AttrValue::Bytes(b)
                &&& b@ == a.packed()
            },
        *final(dataset) == (DatasetBuilder { attrs: final(dataset).attrs, ..*old(dataset) }),
{
    let grid_hash: [u8; 32] = match (&dataset.shape, &dataset.chunk_options.chunk_dims) {
        (Some(dims), Some(chunk_dims)) => compute_chunk_grid_hash(
            dims.as_slice(),
            chunk_dims.as_slice(),
            tree.algorithm(),
        ),
        _ => zero_digest(),
    };
    let attr: MerkleAttr = MerkleAttr::from_tree_with_companion_and_grid(
        tree,
        zero_digest(),
        grid_hash,
    );
    let packed: Vec<u8> = slice_to_vec(attr.pack().as_slice());
    dataset.set_attr(MERKLE_ATTR_NAME, AttrValue::Bytes(packed));
    assert(attr.describes(tree, attr.companion_hash, attr.grid_hash));
    Ok(())
}

/// Where a tree's nodes went.
#[derive(Debug, Clone, PartialEq, Eq)]
pub enum MerkleCompanionResult {
    /// Into the caller's hands, to be written as an attribute.
    Inline {
        /// The nodes, 32 bytes each.
        nodes: Vec<u8>,
        /// Their SHA-256.
        companion_hash: [u8; 32],
    },
    /// Into a dataset of the group for nodes.
    Dataset {
        /// The SHA-256 of the dataset.
        companion_hash: [u8; 32],
    },
}

/// Whether `r` is what storing `tree` gives: the nodes themselves for small
/// trees, and in any case their hash.
pub open spec fn is_companion(r: MerkleCompanionResult, tree: &MerkleTree) -> bool {
    let flat = flatten(tree.spec_nodes());
    if tree.spec_leaf_count() <= INLINE_CHUNK_THRESHOLD {
        r matches MerkleCompanionResult::Inline { nodes, companion_hash } && nodes@ == flat
            && companion_hash == sha256_digest(flat)
    } else {
        r == (MerkleCompanionResult::Dataset { companion_hash: sha256_digest(flat) })
    }
}

/// Whether `d` is a dataset of bytes, and nothing else.
pub open spec fn is_byte_dataset(d: DatasetBuilder, name: Seq<char>, data: Seq<u8>) -> bool {
    exists|blank: DatasetBuilder|
        {
            &&& #[trigger] blank.is_blank()
            &&& blank.name@ == name
            &&& crate::builders::with_data(
                blank,
                d,
                Datatype::FixedPoint { size: 1, signed: false },
                data,
                data.len(),
            )
        }
}

/// A dataset waiting to be written.
#[derive(Debug, Clone)]
pub struct PendingCompanion {
    pub name: String,
    pub data: Vec<u8>,
}

/// Whether `g` is the group for nodes, with these datasets.
pub open spec fn is_companion_group(g: FinishedGroup, pending: Seq<PendingCompanion>) -> bool {
    &&& g.name@ == MERKLE_GROUP_NAME@
    &&& g.attrs@.len() == 0
    &&& g.external_links@.len() == 0
    &&& g.datasets@.len() == pending.len()
    &&& forall|i: int|
        0 <= i < pending.len() ==> is_byte_dataset(
            #[trigger] g.datasets@[i],
            pending[i].name@,
            pending[i].data@,
        )
}

fn add_companion(group: &mut GroupBuilder, name: &str, data: &[u8])
    ensures
        final(group).spec_group().datasets@.len() == old(group).spec_group().datasets@.len() + 1,
        final(group).spec_group().datasets@.drop_last() == old(group).spec_group().datasets@,
        is_byte_dataset(final(group).spec_group().datasets@.last(), name@, data@),
        final(group).spec_group().name == old(group).spec_group().name,
        final(group).spec_group().attrs == old(group).spec_group().attrs,
        final(group).spec_group().external_links == old(group).spec_group().external_links,
{
    let ghost before = group.spec_group().datasets@;
    let ds: &mut DatasetBuilder = group.create_dataset(name);
    let ghost blank = *ds;
    ds.with_u8_data(data);
    proof {
        assert(blank.is_blank());
        let d = group.spec_group().datasets@.last();
        assert(group.spec_group().datasets@.drop_last() =~= before);
    }
}

/// Collects the nodes of large trees for one group.
#[derive(Debug)]
pub struct MerkleCompanionWriter {
    pending: Vec<PendingCompanion>,
}

impl MerkleCompanionWriter {
    pub closed spec fn spec_pending(&self) -> Seq<PendingCompanion> {
        self.pending@
    }

    /// A writer with nothing collected.
    pub fn new() -> (w: Self)
        ensures
            w.spec_pending().len() == 0,
    {
        MerkleCompanionWriter { pending: Vec::new() }
    }

    /// Takes the nodes of a tree: those of a small tree are handed back, those of
    /// a large one kept for the group.
    pub fn add(&mut self, name: &str, tree: &MerkleTree) -> (r: MerkleCompanionResult)
        ensures
            is_companion(r, tree),
            if tree.spec_leaf_count() <= INLINE_CHUNK_THRESHOLD {
                final(self).spec_pending() == old(self).spec_pending()
            } else {
                &&& final(self).spec_pending().len() == old(self).spec_pending().len() + 1
                &&& final(self).spec_pending().drop_last() == old(self).spec_pending()
                &&& final(self).spec_pending().last().name@ == name@
                &&& final(self).spec_pending().last().data@ == flatten(tree.spec_nodes())
            },
    {
        let nodes: Vec<u8> = flat_nodes(tree);
        let companion_hash: [u8; 32] = compute_sha256(nodes.as_slice());
        if tree.leaf_count() <= INLINE_CHUNK_THRESHOLD {
            MerkleCompanionResult::Inline { nodes, companion_hash }
        } else {
            self.pending.push(PendingCompanion { name: name.to_owned(), data: nodes });
            assert(self.pending@.drop_last() =~= old(self).pending@);
            MerkleCompanionResult::Dataset { companion_hash }
        }
    }

    /// Adds the group with what was collected to a file; nothing if nothing was.
    pub fn finish(self, file: &mut FileWriter)
        ensures
            if self.spec_pending().len() == 0 {
                *final(file) == *old(file)
            } else {
                &&& final(file).groups@.len() == old(file).groups@.len() + 1
                &&& final(file).groups@.drop_last() == old(file).groups@
                &&& is_companion_group(final(file).groups@.last(), self.spec_pending())
                &&& *final(file) == (FileWriter { groups: final(file).groups, ..*old(file) })
            },
    {
        if self.pending.len() == 0 {
            return ;
        }
        let mut group: GroupBuilder = file.create_group(MERKLE_GROUP_NAME);
        let mut i: usize = 0;
        while i < self.pending.len()
            invariant
                i <= self.pending@.len(),
                group.spec_group().name@ == MERKLE_GROUP_NAME@,
                group.spec_group().attrs@.len() == 0,
                group.spec_group().external_links@.len() == 0,
                group.spec_group().datasets@.len() == i,
                forall|k: int|
                    0 <= k < i ==> is_byte_dataset(
                        #[trigger] group.spec_group().datasets@[k],
                        self.pending@[k].name@,
                        self.pending@[k].data@,
                    ),
            decreases self.pending@.len() - i,
        {
            let ghost before = group.spec_group().datasets@;
            add_companion(
                &mut group,
                self.pending[i].name.as_str(),
                self.pending[i].data.as_slice(),
            );
            proof {
                let after = group.spec_group().datasets@;
                assert forall|k: int| 0 <= k < i + 1 implies is_byte_dataset(
                    #[trigger] after[k],
                    self.pending@[k].name@,
                    self.pending@[k].data@,
                ) by {
                    if k < i {
                        assert(after.drop_last()[k] == before[k]);
                    }
                }
            }
            i = i + 1;
        }
        file.add_group(group.finish());
        assert(file.groups@.drop_last() =~= old(file).groups@);
    }

    /// Whether anything is collected.
    pub fn has_pending(&self) -> (r: bool)
        ensures
            r == (self.spec_pending().len() > 0),
    {
        self.pending.len() > 0
    }

    /// How much is collected.
    pub fn pending_count(&self) -> (n: usize)
        ensures
            n == self.spec_pending().len(),
    {
        self.pending.len()
    }
}

impl Default for MerkleCompanionWriter {
    fn default() -> (w: Self)
        ensures
            w.spec_pending().len() == 0,
    {
        MerkleCompanionWriter::new()
    }
}

/// Stores a tree's nodes: those of a small tree are handed back, those of a
/// large one go into a dataset of a group of their own.
pub fn write_merkle_companion(file: &mut FileWriter, name: &str, tree: &MerkleTree) -> (r: Result<
    MerkleCompanionResult,
    MerkleError,
>)
    ensures
        r is Ok,
        is_companion(r->Ok_0, tree),
        if tree.spec_leaf_count() <= INLINE_CHUNK_THRESHOLD {
            *final(file) == *old(file)
        } else {
            &&& final(file).groups@.len() == old(file).groups@.len() + 1
            &&& final(file).groups@.drop_last() == old(file).groups@
            &&& final(file).groups@.last().name@ == MERKLE_GROUP_NAME@
            &&& final(file).groups@.last().attrs@.len() == 0
            &&& final(file).groups@.last().external_links@.len() == 0
            &&& final(file).groups@.last().datasets@.len() == 1
            &&& is_byte_dataset(
                final(file).groups@.last().datasets@[0],
                name@,
                flatten(tree.spec_nodes()),
            )
            &&& *final(file) == (FileWriter { groups: final(file).groups, ..*old(file) })
        },
{
    let nodes: Vec<u8> = flat_nodes(tree);
    let companion_hash: [u8; 32] = compute_sha256(nodes.as_slice());
    if tree.leaf_count() <= INLINE_CHUNK_THRESHOLD {
        Ok(MerkleCompanionResult::Inline { nodes, companion_hash })
    } else {
        let mut group: GroupBuilder = file.create_group(MERKLE_GROUP_NAME);
        add_companion(&mut group, name, nodes.as_slice());
        file.add_group(group.finish());
        assert(file.groups@.drop_last() =~= old(file).groups@);
        Ok(MerkleCompanionResult::Dataset { companion_hash })
    }
}

/// The hash that comes with stored nodes is the one that verification expects of
/// them: an attribute made with it accepts the nodes.
pub proof fn law_companion_hash_verifies(r: MerkleCompanionResult, tree: &MerkleTree)
    requires
        is_companion(r, tree),
    ensures
        ({
            let h = match r {
                MerkleCompanionResult::Inline { companion_hash, .. } => companion_hash,
                MerkleCompanionResult::Dataset { companion_hash } => companion_hash,
            };
            is_zero(h@) || crate::attr::companion_answer(h@, flatten(tree.spec_nodes()))
                == crate::attr::CompanionVerifyResult::Valid
        }),
{
}

/// The grid hash that goes with a dataset binds its extent and its chunk extents,
/// where it has both: checking them against it succeeds, unless the hash is all
/// zeros. Otherwise no grid is bound.
pub proof fn law_written_grid_hash_verifies(d: DatasetBuilder, tree: &MerkleTree, h: [u8; 32])
    requires
        is_grid_hash(d, tree, h),
    ensures
        d.shape is Some && d.chunk_options.chunk_dims is Some ==> {
            &&& h == chunk_grid_digest(
                tree.spec_alg(),
                d.shape->0@,
                d.chunk_options.chunk_dims->0@,
            )
            &&& (exists|i: int| 0 <= i < 32 && h@[i] != 0) ==> crate::attr::grid_answer(
                h@,
                tree.spec_alg(),
                d.shape->0@,
                d.chunk_options.chunk_dims->0@,
            ) == crate::attr::GridVerifyResult::Valid
        },
        d.shape is None || d.chunk_options.chunk_dims is None ==> forall|i: int|
            0 <= i < 32 ==> h@[i] == 0,
{
}

/// The nodes of a tree with up to 256 leaves are handed back, 32 bytes each, one
/// behind another; those of a larger one are not. Either way their hash is.
pub proof fn law_small_trees_are_inline(r: MerkleCompanionResult, tree: &MerkleTree, i: int)
    requires
        is_companion(r, tree),
        0 <= i < tree.spec_nodes().len(),
    ensures
        tree.spec_leaf_count() <= 256 <==> r is Inline,
        r matches MerkleCompanionResult::Inline { nodes, companion_hash } ==> {
            &&& nodes@.len() == 32 * tree.spec_nodes().len()
            &&& nodes@.subrange(32 * i, 32 * i + 32) == tree.spec_nodes()[i]@
            &&& companion_hash == sha256_digest(nodes@)
        },
        r matches MerkleCompanionResult::Dataset { companion_hash } ==> companion_hash
            == sha256_digest(flatten(tree.spec_nodes())),
{
    law_nodes_stand_in_order(tree.spec_nodes(), i);
}

/// Nodes that go into a dataset are its data, as a list of unsigned bytes.
pub proof fn law_companion_dataset_holds_nodes(d: DatasetBuilder, name: Seq<char>, data: Seq<u8>)
    requires
        is_byte_dataset(d, name, data),
    ensures
        d.name@ == name,
        d.datatype == Some(Datatype::FixedPoint { size: 1, signed: false }),
        d.data is Some,
        d.data->0@ == data,
        d.shape is Some,
        d.shape->0@ == seq![data.len() as u64],
        d.maxshape is None,
        d.chunk_options.chunk_dims is None,
        d.virtual_sources is None,
        d.attrs@.len() == 0,
        !d.compact,
{
}

/// The group for nodes has one dataset for each tree that was collected, under its
/// name.
pub proof fn law_companion_group_holds_all(
    g: FinishedGroup,
    pending: Seq<PendingCompanion>,
    i: int,
)
    requires
        is_companion_group(g, pending),
        0 <= i < pending.len(),
    ensures
        g.name@ == "merkle"@,
        g.datasets@.len() == pending.len(),
        g.datasets@[i].name@ == pending[i].name@,
        g.datasets@[i].data is Some,
        g.datasets@[i].data->0@ == pending[i].data@,
        g.attrs@.len() == 0,
        g.external_links@.len() == 0,
{
    assert(is_byte_dataset(g.datasets@[i], pending[i].name@, pending[i].data@));
}

} // verus!
