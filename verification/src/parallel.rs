//! Files from datasets that were described independently of each other.

use crate::builders::{DatasetBuilder, FillTime, FormatError};
use crate::chunked::ChunkOptions;
use crate::file_writer::FileWriter;
use crate::messages::{AttrValue, Datatype};
use crate::text::same_text;
use vstd::prelude::*;

verus! {

/// A complete description of a dataset.
#[derive(Debug)]
pub struct DatasetMetadata {
    pub name: String,
    pub datatype: Datatype,
    pub shape: Vec<u64>,
    pub raw_data: Vec<u8>,
    pub chunk_options: ChunkOptions,
    pub maxshape: Option<Vec<u64>>,
    pub attrs: Vec<(String, AttrValue)>,
}

/// Describes a dataset.
pub fn build_dataset_metadata(
    name: &str,
    datatype: Datatype,
    shape: Vec<u64>,
    raw_data: Vec<u8>,
    chunk_options: ChunkOptions,
    maxshape: Option<Vec<u64>>,
    attrs: Vec<(String, AttrValue)>,
) -> (m: DatasetMetadata)
    ensures
        m.name@ == name@,
        m == (DatasetMetadata {
            name: m.name,
            datatype,
            shape,
            raw_data,
            chunk_options,
            maxshape,
            attrs,
        }),
{
    DatasetMetadata {
        name: name.to_owned(),
        datatype,
        shape,
        raw_data,
        chunk_options,
        maxshape,
        attrs,
    }
}

/// The datasets that one creator describes.
#[derive(Debug)]
pub struct MetadataBlock {
    pub creator_id: u32,
    pub datasets: Vec<DatasetMetadata>,
}

impl MetadataBlock {
    /// An empty block.
    pub fn new(creator_id: u32) -> (b: Self)
        ensures
            b.creator_id == creator_id,
            b.datasets@.len() == 0,
    {
        MetadataBlock { creator_id, datasets: Vec::new() }
    }

    /// Adds a dataset.
    pub fn add_dataset(&mut self, meta: DatasetMetadata)
        ensures
            final(self).creator_id == old(self).creator_id,
            final(self).datasets@ == old(self).datasets@.push(meta),
    {
        self.datasets.push(meta);
    }
}

/// Collects one creator's datasets. Each creator has its own.
#[derive(Debug)]
pub struct IndependentDatasetBuilder {
    block: MetadataBlock,
}

impl IndependentDatasetBuilder {
    pub closed spec fn spec_block(&self) -> MetadataBlock {
        self.block
    }

    /// A builder without datasets.
    pub fn new(creator_id: u32) -> (b: Self)
        ensures
            b.spec_block().creator_id == creator_id,
            b.spec_block().datasets@.len() == 0,
    {
        IndependentDatasetBuilder { block: MetadataBlock::new(creator_id) }
    }

    /// Adds a dataset.
    pub fn add_dataset(&mut self, meta: DatasetMetadata)
        ensures
            final(self).spec_block().creator_id == old(self).spec_block().creator_id,
            final(self).spec_block().datasets@ == old(self).spec_block().datasets@.push(meta),
    {
        self.block.add_dataset(meta);
    }

    /// The block.
    pub fn finish(self) -> (b: MetadataBlock)
        ensures
            b == self.spec_block(),
    {
        self.block
    }
}

/// The datasets of the first `n` blocks.
pub open spec fn block_datasets(blocks: Seq<MetadataBlock>, n: int) -> Seq<DatasetMetadata>
    decreases n,
{
    if n <= 0 {
        Seq::empty()
    } else {
        block_datasets(blocks, n - 1) + blocks[n - 1].datasets@
    }
}

/// Whether a dataset before `i` has the name of dataset `i`.
pub open spec fn repeats(ms: Seq<DatasetMetadata>, i: int) -> bool {
    exists|j: int| 0 <= j < i && (#[trigger] ms[j]).name@ == ms[i].name@
}

/// The first dataset, from `i` on, whose name an earlier one has.
pub open spec fn first_repeat(ms: Seq<DatasetMetadata>, i: int) -> Option<int>
    decreases ms.len() - i,
{
    if i < 0 || i >= ms.len() {
        None
    } else if repeats(ms, i) {
        Some(i)
    } else {
        first_repeat(ms, i + 1)
    }
}

/// The datasets of several blocks, no two with the same name.
#[derive(Debug)]
pub struct MetadataIndex {
    pub datasets: Vec<DatasetMetadata>,
}

proof fn lemma_block_datasets_same(a: Seq<MetadataBlock>, b: Seq<MetadataBlock>, n: int)
    requires
        n <= a.len(),
        n <= b.len(),
        forall|i: int| 0 <= i < n ==> a[i] == b[i],
    ensures
        block_datasets(a, n) == block_datasets(b, n),
    decreases n,
{
    if n > 0 {
        lemma_block_datasets_same(a, b, n - 1);
    }
}

impl MetadataIndex {
    /// Puts blocks together, in their order; a name that occurs twice is an
    /// error.
    pub fn merge_blocks(blocks: Vec<MetadataBlock>) -> (r: Result<MetadataIndex, FormatError>)
        ensures
            ({
                let all = block_datasets(blocks@, blocks@.len() as int);
                match first_repeat(all, 0) {
                    None => r is Ok && r->Ok_0.datasets@ == all,
                    Some(i) => r matches Err(FormatError::DuplicateDatasetName(name)) && name@
                        == all[i].name@,
                }
            }),
    {
        let ghost all = block_datasets(blocks@, blocks@.len() as int);
        let ghost whole = blocks@;
        let mut rest: Vec<MetadataBlock> = blocks;
        let mut datasets: Vec<DatasetMetadata> = Vec::new();
        assert(block_datasets(rest@, rest@.len() as int) + datasets@ =~= all);
        while rest.len() > 0
            invariant
                rest@.len() <= whole.len(),
                forall|i: int| 0 <= i < rest@.len() ==> rest@[i] == whole[i],
                block_datasets(rest@, rest@.len() as int) + datasets@ == all,
            decreases rest@.len(),
        {
            let ghost before = rest@;
            let n: usize = rest.len();
            match rest.pop() {
                None => {},
                Some(block) => {
                    let ghost tail = datasets@;
                    let mut head: Vec<DatasetMetadata> = block.datasets;
                    let ghost list = head@;
                    head.append(&mut datasets);
                    datasets = head;
                    proof {
                        lemma_block_datasets_same(before, rest@, n - 1);
                        assert(block_datasets(before, n as int) == block_datasets(
                            rest@,
                            n - 1,
                        ) + list);
                        assert(block_datasets(rest@, n - 1) + (list + tail) =~= (block_datasets(
                            rest@,
                            n - 1,
                        ) + list) + tail);
                    }
                },
            }
        }
        assert(datasets@ =~= all);
        let mut i: usize = 0;
        while i < datasets.len()
            invariant
                i <= datasets@.len(),
                datasets@ == all,
                all == block_datasets(blocks@, blocks@.len() as int),
                first_repeat(all, i as int) == first_repeat(all, 0),
            decreases datasets@.len() - i,
        {
            let mut j: usize = 0;
            while j < i
                invariant
                    j <= i < datasets@.len(),
                    datasets@ == all,
                    all == block_datasets(blocks@, blocks@.len() as int),
                    first_repeat(all, i as int) == first_repeat(all, 0),
                    forall|k: int|
                        0 <= k < j ==> (#[trigger] datasets@[k]).name@ != datasets@[i as int].name@,
                decreases i - j,
            {
                if same_text(datasets[j].name.as_str(), datasets[i].name.as_str()) {
                    assert(repeats(all, i as int));
                    let name: String = datasets[i].name.as_str().to_owned();
                    return Err(FormatError::DuplicateDatasetName(name));
                }
                j = j + 1;
            }
            i = i + 1;
        }
        Ok(MetadataIndex { datasets })
    }
}

/// A dataset as its description says, with nothing else set.
pub open spec fn dataset_of(m: DatasetMetadata, d: DatasetBuilder) -> bool {
    &&& d.name == m.name
    &&& d.datatype == Some(m.datatype)
    &&& d.shape == Some(m.shape)
    &&& d.maxshape == m.maxshape
    &&& d.data == Some(m.raw_data)
    &&& d.attrs == m.attrs
    &&& d.chunk_options == m.chunk_options
    &&& d.fill_time == FillTime::IfSet
    &&& !d.compact
    &&& d.alignment == 0
    &&& d.virtual_sources is None
}

/// Whether `fw` is the file with just these datasets, in the root group.
pub open spec fn is_file_of(fw: FileWriter, ms: Seq<DatasetMetadata>) -> bool {
    &&& fw.root_datasets@.len() == ms.len()
    &&& forall|i: int| 0 <= i < ms.len() ==> dataset_of(ms[i], #[trigger] fw.root_datasets@[i])
    &&& fw.root_attrs@.len() == 0
    &&& fw.groups@.len() == 0
    &&& fw.alignment_threshold == 0
    &&& fw.alignment_bytes == 0
}

/// Whether the file with these datasets fits in memory.
pub open spec fn file_fits(ms: Seq<DatasetMetadata>) -> bool {
    forall|fw: FileWriter| #[trigger]
        is_file_of(fw, ms) && fw.error() is None ==> fw.eof() <= isize::MAX
}

/// What writing the file with these datasets gives.
pub open spec fn is_written(ms: Seq<DatasetMetadata>, r: Result<Vec<u8>, FormatError>) -> bool {
    exists|fw: FileWriter| #[trigger]
        is_file_of(fw, ms) && match fw.error() {
            Some(e) => r == Err::<Vec<u8>, FormatError>(e),
            None => r is Ok && r->Ok_0@ == fw.image(),
        }
}

fn to_dataset(m: DatasetMetadata) -> (d: DatasetBuilder)
    ensures
        dataset_of(m, d),
{
    DatasetBuilder {
        name: m.name,
        datatype: Some(m.datatype),
        shape: Some(m.shape),
        maxshape: m.maxshape,
        data: Some(m.raw_data),
        attrs: m.attrs,
        chunk_options: m.chunk_options,
        fill_time: FillTime::IfSet,
        compact: false,
        alignment: 0,
        virtual_sources: None,
    }
}

/// The file with merged datasets.
fn index_writer(index: MetadataIndex) -> (fw: FileWriter)
    ensures
        is_file_of(fw, index.datasets@),
{
    let ghost ms = index.datasets@;
    let mut left: Vec<DatasetMetadata> = index.datasets;
    let mut reversed: Vec<DatasetMetadata> = Vec::new();
    while left.len() > 0
        invariant
            left@.len() + reversed@.len() == ms.len(),
            forall|i: int| 0 <= i < left@.len() ==> #[trigger] left@[i] == ms[i],
            forall|i: int|
                0 <= i < reversed@.len() ==> #[trigger] reversed@[i] == ms[ms.len() - 1 - i],
        decreases left@.len(),
    {
        match left.pop() {
            Some(m) => {
                reversed.push(m);
            },
            None => {},
        }
    }
    let mut fw: FileWriter = FileWriter::new();
    while reversed.len() > 0
        invariant
            reversed@.len() + fw.root_datasets@.len() == ms.len(),
            forall|i: int|
                0 <= i < reversed@.len() ==> #[trigger] reversed@[i] == ms[ms.len() - 1 - i],
            forall|i: int|
                0 <= i < fw.root_datasets@.len() ==> dataset_of(
                    ms[i],
                    #[trigger] fw.root_datasets@[i],
                ),
            fw.root_attrs@.len() == 0,
            fw.groups@.len() == 0,
            fw.alignment_threshold == 0,
            fw.alignment_bytes == 0,
        decreases reversed@.len(),
    {
        match reversed.pop() {
            Some(m) => {
                fw.root_datasets.push(to_dataset(m));
            },
            None => {},
        }
    }
    fw
}

/// Writes the file of merged datasets.
fn finalize_from_index(index: MetadataIndex) -> (r: Result<Vec<u8>, FormatError>)
    requires
        file_fits(index.datasets@),
    ensures
        is_written(index.datasets@, r),
{
    let ghost ms = index.datasets@;
    let fw: FileWriter = index_writer(index);
    assert(is_file_of(fw, ms));
    fw.finish()
}

/// The file with the datasets of several blocks, not laid out yet: where its
/// size is not known, `FileWriter::fits` tells whether it can be.
pub fn parallel_writer(blocks: Vec<MetadataBlock>) -> (r: Result<FileWriter, FormatError>)
    ensures
        ({
            let all = block_datasets(blocks@, blocks@.len() as int);
            match first_repeat(all, 0) {
                None => r matches Ok(fw) && is_file_of(fw, all),
                Some(i) => r matches Err(FormatError::DuplicateDatasetName(name)) && name@
                    == all[i].name@,
            }
        }),
{
    match MetadataIndex::merge_blocks(blocks) {
        Ok(index) => Ok(index_writer(index)),
        Err(e) => Err(e),
    }
}

/// Merging leaves nothing out and keeps the order: dataset `j` of block `b` stands
/// behind the datasets of the blocks before it.
pub proof fn law_merged_datasets_keep_order(blocks: Seq<MetadataBlock>, n: int, b: int, j: int)
    requires
        0 <= b < n <= blocks.len(),
        0 <= j < blocks[b].datasets@.len(),
    ensures
        block_datasets(blocks, 0).len() == 0,
        block_datasets(blocks, b + 1).len() == block_datasets(blocks, b).len()
            + blocks[b].datasets@.len(),
        block_datasets(blocks, b).len() + j < block_datasets(blocks, n).len(),
        block_datasets(blocks, n)[block_datasets(blocks, b).len() + j] == blocks[b].datasets@[j],
    decreases n,
{
    if b < n - 1 {
        law_merged_datasets_keep_order(blocks, n - 1, b, j);
    }
}

/// A list is refused for a repeated name if and only if two of its datasets share
/// one; the dataset that is named shares its name with an earlier one, and those
/// before it have names of their own.
pub proof fn law_repeated_names_are_refused(ms: Seq<DatasetMetadata>, i: int, j: int)
    requires
        0 <= i < j < ms.len(),
    ensures
        first_repeat(ms, 0) is None ==> ms[i].name@ != ms[j].name@,
        first_repeat(ms, 0) matches Some(k) ==> 0 <= k < ms.len() && (j < k ==> ms[i].name@
            != ms[j].name@) && exists|e: int| 0 <= e < k && (#[trigger] ms[e]).name@ == ms[k].name@,
{
    lemma_first_repeat(ms, 0, i, j);
}

proof fn lemma_first_repeat(ms: Seq<DatasetMetadata>, from: int, i: int, j: int)
    requires
        0 <= i < j < ms.len(),
        0 <= from <= ms.len(),
    ensures
        first_repeat(ms, from) is None && j >= from ==> ms[i].name@ != ms[j].name@,
        first_repeat(ms, from) matches Some(k) ==> from <= k < ms.len() && repeats(ms, k) && (from
            <= j < k ==> ms[i].name@ != ms[j].name@),
    decreases ms.len() - from,
{
    if from < ms.len() {
        lemma_first_repeat(ms, from + 1, i, j);
        if from == j && ms[i].name@ == ms[j].name@ {
            assert(repeats(ms, j));
        }
    }
}

/// The file of described datasets has them all in its root group, each with the
/// name, type, extents, data, chunking and attributes of its description; it has
/// nothing else.
pub proof fn law_file_has_described_datasets(fw: FileWriter, ms: Seq<DatasetMetadata>, i: int)
    requires
        is_file_of(fw, ms),
        0 <= i < ms.len(),
    ensures
        fw.all().len() == ms.len(),
        fw.root_attrs@.len() == 0,
        fw.groups@.len() == 0,
        fw.all()[i].name@ == ms[i].name@,
        fw.all()[i].datatype == Some(ms[i].datatype),
        fw.all()[i].shape == Some(ms[i].shape),
        fw.all()[i].maxshape == ms[i].maxshape,
        fw.all()[i].data == Some(ms[i].raw_data),
        fw.all()[i].chunk_options == ms[i].chunk_options,
        fw.all()[i].attrs@ == ms[i].attrs@,
        fw.all()[i].virtual_sources is None,
        !fw.all()[i].compact,
{
    assert(dataset_of(ms[i], fw.root_datasets@[i]));
}

/// Writes a file of the datasets of several blocks.
pub fn finalize_parallel(blocks: Vec<MetadataBlock>) -> (r: Result<Vec<u8>, FormatError>)
    requires
        file_fits(block_datasets(blocks@, blocks@.len() as int)),
    ensures
        ({
            let all = block_datasets(blocks@, blocks@.len() as int);
            match first_repeat(all, 0) {
                None => is_written(all, r),
                Some(i) => r matches Err(FormatError::DuplicateDatasetName(name)) && name@
                    == all[i].name@,
            }
        }),
{
    match MetadataIndex::merge_blocks(blocks) {
        Ok(index) => finalize_from_index(index),
        Err(e) => Err(e),
    }
}

/// What was written of described datasets is the file with those datasets, or what is
/// wrong with it.
pub proof fn law_written_file_is_described_file(
    ms: Seq<DatasetMetadata>,
    r: Result<Vec<u8>, FormatError>,
) -> (fw: FileWriter)
    requires
        is_written(ms, r),
    ensures
        is_file_of(fw, ms),
        fw.error() is None ==> r is Ok && r->Ok_0@ == fw.image(),
        fw.error() matches Some(e) ==> r == Err::<Vec<u8>, FormatError>(e),
{
    choose|fw: FileWriter| #[trigger]
        is_file_of(fw, ms) && match fw.error() {
            Some(e) => r == Err::<Vec<u8>, FormatError>(e),
            None => r is Ok && r->Ok_0@ == fw.image(),
        }
}

} // verus!
