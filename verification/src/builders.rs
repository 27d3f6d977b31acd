//! What goes into a file: datasets, groups and attributes, described before
//! they are laid out.

use crate::bytes::{from_le, le_bytes};
use crate::chunked::ChunkOptions;
use crate::messages::{AttrValue, Datatype};
use crate::vds::VdsMapping;
use vstd::prelude::*;
use vstd::slice::slice_to_vec;

verus! {

/// Why a file could not be written, or a chunk not read.
#[derive(Debug, PartialEq, Eq)]
pub enum FormatError {
    /// A dataset has no datatype or no data.
    DatasetMissingData,
    /// A dataset has no extent.
    DatasetMissingShape,
    /// Two datasets share a name.
    DuplicateDatasetName(String),
    /// A dataset cannot be cut into the chunks asked for.
    InvalidChunking,
    /// A filter that is not supported.
    UnsupportedFilter(u16),
    /// Chunk data that cannot be decoded.
    ChunkedReadError(String),
    /// A decoder that failed.
    DecompressionError(String),
}

/// When fill values are written.
#[derive(Clone, Copy, PartialEq, Eq, Debug, Structural)]
pub enum FillTime {
    /// On allocation.
    Alloc,
    /// Never.
    Never,
    /// Where a fill value is set.
    IfSet,
}

impl FillTime {
    pub open spec fn spec_byte(self) -> u8 {
        match self {
            FillTime::Alloc => 0x02,
            FillTime::Never => 0x06,
            FillTime::IfSet => 0x0a,
        }
    }

    /// The flags of a fill value message: late allocation, and the write time.
    pub fn to_byte(self) -> (r: u8)
        ensures
            r == self.spec_byte(),
    {
        match self {
            FillTime::Alloc => 0x02,
            FillTime::Never => 0x06,
            FillTime::IfSet => 0x0a,
        }
    }
}

/// A dataset to be written.
#[derive(Debug)]
pub struct DatasetBuilder {
    /// The name within its group.
    pub name: String,
    /// The element type.
    pub datatype: Option<Datatype>,
    /// The extent.
    pub shape: Option<Vec<u64>>,
    /// The extent it can grow to.
    pub maxshape: Option<Vec<u64>>,
    /// The elements, row-major.
    pub data: Option<Vec<u8>>,
    /// The attributes.
    pub attrs: Vec<(String, AttrValue)>,
    /// The chunking.
    pub chunk_options: ChunkOptions,
    /// When fill values are written.
    pub fill_time: FillTime,
    /// Whether the data may go into the header.
    pub compact: bool,
    /// The alignment of the data; 0 for the file's own.
    pub alignment: usize,
    /// The sources of a virtual dataset.
    pub virtual_sources: Option<Vec<VdsMapping>>,
}

/// Eight little-endian bytes per number.
pub open spec fn bits64_bytes(v: Seq<u64>) -> Seq<u8> {
    crate::bytes::le64_all(v)
}

/// Four little-endian bytes per number.
pub open spec fn bits32_bytes(v: Seq<u32>) -> Seq<u8>
    decreases v.len(),
{
    if v.len() == 0 {
        Seq::empty()
    } else {
        bits32_bytes(v.drop_last()) + le_bytes(v.last() as nat, 4)
    }
}

/// `b` with data of a type, and the extent of a list where none is set.
pub open spec fn with_data(
    b: DatasetBuilder,
    r: DatasetBuilder,
    datatype: Datatype,
    data: Seq<u8>,
    count: nat,
) -> bool {
    &&& r.datatype == Some(datatype)
    &&& r.data is Some
    &&& r.data->0@ == data
    &&& if b.shape is Some {
        r.shape == b.shape
    } else {
        r.shape is Some && r.shape->0@ == seq![count as u64]
    }
    &&& r.name == b.name
    &&& r.maxshape == b.maxshape
    &&& r.attrs == b.attrs
    &&& r.chunk_options == b.chunk_options
    &&& r.fill_time == b.fill_time
    &&& r.compact == b.compact
    &&& r.alignment == b.alignment
    &&& r.virtual_sources == b.virtual_sources
}

/// Numbers stand one behind another, each in its own bytes, the lowest first.
pub proof fn law_numbers_stand_in_order(wide: Seq<u64>, narrow: Seq<u32>, i: int)
    ensures
        bits64_bytes(wide).len() == 8 * wide.len(),
        bits32_bytes(narrow).len() == 4 * narrow.len(),
        0 <= i < wide.len() ==> from_le(bits64_bytes(wide).subrange(8 * i, 8 * i + 8)) == wide[i],
        0 <= i < narrow.len() ==> from_le(bits32_bytes(narrow).subrange(4 * i, 4 * i + 4))
            == narrow[i],
{
    lemma_wide_numbers(wide, i);
    lemma_narrow_numbers(narrow, i);
}

proof fn lemma_wide_numbers(v: Seq<u64>, i: int)
    ensures
        bits64_bytes(v).len() == 8 * v.len(),
        0 <= i < v.len() ==> from_le(bits64_bytes(v).subrange(8 * i, 8 * i + 8)) == v[i],
    decreases v.len(),
{
    if v.len() > 0 {
        let front = v.drop_last();
        lemma_wide_numbers(front, i);
        crate::bytes::lemma_byte_span();
        crate::bytes::lemma_le_len(v.last() as nat, 8);
        crate::bytes::lemma_le_roundtrip(v.last() as nat, 8);
        if i == v.len() - 1 {
            assert(bits64_bytes(v).subrange(8 * i, 8 * i + 8) =~= le_bytes(v.last() as nat, 8));
        } else if 0 <= i < front.len() {
            assert(bits64_bytes(v).subrange(8 * i, 8 * i + 8) =~= bits64_bytes(front).subrange(
                8 * i,
                8 * i + 8,
            ));
        }
    }
}

proof fn lemma_narrow_numbers(v: Seq<u32>, i: int)
    ensures
        bits32_bytes(v).len() == 4 * v.len(),
        0 <= i < v.len() ==> from_le(bits32_bytes(v).subrange(4 * i, 4 * i + 4)) == v[i],
    decreases v.len(),
{
    if v.len() > 0 {
        let front = v.drop_last();
        lemma_narrow_numbers(front, i);
        crate::bytes::lemma_byte_span();
        crate::bytes::lemma_le_len(v.last() as nat, 4);
        crate::bytes::lemma_le_roundtrip(v.last() as nat, 4);
        if i == v.len() - 1 {
            assert(bits32_bytes(v).subrange(4 * i, 4 * i + 4) =~= le_bytes(v.last() as nat, 4));
        } else if 0 <= i < front.len() {
            assert(bits32_bytes(v).subrange(4 * i, 4 * i + 4) =~= bits32_bytes(front).subrange(
                4 * i,
                4 * i + 4,
            ));
        }
    }
}

impl DatasetBuilder {
    /// A dataset without anything but a name.
    pub fn new(name: &str) -> (b: Self)
        ensures
            b.name@ == name@,
            b.is_blank(),
    {
        DatasetBuilder {
            name: name.to_owned(),
            datatype: None,
            shape: None,
            maxshape: None,
            data: None,
            attrs: Vec::new(),
            chunk_options: ChunkOptions { chunk_dims: None },
            fill_time: FillTime::IfSet,
            compact: false,
            alignment: 0,
            virtual_sources: None,
        }
    }

    /// Whether nothing but the name is set.
    pub open spec fn is_blank(&self) -> bool {
        &&& self.datatype is None
        &&& self.shape is None
        &&& self.maxshape is None
        &&& self.data is None
        &&& self.attrs@.len() == 0
        &&& self.chunk_options.chunk_dims is None
        &&& self.fill_time == FillTime::IfSet
        &&& !self.compact
        &&& self.alignment == 0
        &&& self.virtual_sources is None
    }

    fn set_data(&mut self, datatype: Datatype, data: Vec<u8>, count: usize)
        ensures
            with_data(*old(self), *final(self), datatype, data@, count as nat),
    {
        self.datatype = Some(datatype);
        self.data = Some(data);
        if self.shape.is_none() {
            let mut shape: Vec<u64> = Vec::new();
            shape.push(count as u64);
            assert(shape@ =~= seq![count as u64]);
            self.shape = Some(shape);
        }
    }

    /// Sets bytes as the data.
    pub fn with_u8_data(&mut self, data: &[u8]) -> (r: &mut Self)
        ensures
            with_data(
                *old(self),
                *r,
                Datatype::FixedPoint { size: 1, signed: false },
                data@,
                data@.len(),
            ),
            r.datatype == Some(Datatype::FixedPoint { size: 1, signed: false }),
            r.data is Some,
            r.data->0@ == data@,
            old(self).shape is Some ==> r.shape == old(self).shape,
            old(self).shape is None ==> r.shape is Some && r.shape->0@ == seq![data@.len() as u64],
            *r == (DatasetBuilder {
                datatype: r.datatype,
                data: r.data,
                shape: r.shape,
                ..*old(self)
            }),
            *final(self) == *final(r),
    {
        self.set_data(
            Datatype::FixedPoint { size: 1, signed: false },
            slice_to_vec(data),
            data.len(),
        );
        self
    }

    /// Sets 64-bit IEEE 754 numbers, given by their bits, as the data.
    pub fn with_f64_bits(&mut self, bits: &[u64]) -> (r: &mut Self)
        ensures
            with_data(*old(self), *r, Datatype::Float64, bits64_bytes(bits@), bits@.len()),
            r.datatype == Some(Datatype::Float64),
            r.data is Some,
            r.data->0@ == bits64_bytes(bits@),
            old(self).shape is Some ==> r.shape == old(self).shape,
            old(self).shape is None ==> r.shape is Some && r.shape->0@ == seq![bits@.len() as u64],
            *r == (DatasetBuilder {
                datatype: r.datatype,
                data: r.data,
                shape: r.shape,
                ..*old(self)
            }),
            *final(self) == *final(r),
    {
        let mut data: Vec<u8> = Vec::new();
        crate::bytes::push_le64_all(&mut data, bits);
        assert(data@ =~= bits64_bytes(bits@));
        self.set_data(Datatype::Float64, data, bits.len());
        self
    }

    /// Sets 32-bit IEEE 754 numbers, given by their bits, as the data.
    pub fn with_f32_bits(&mut self, bits: &[u32]) -> (r: &mut Self)
        ensures
            with_data(*old(self), *r, Datatype::Float32, bits32_bytes(bits@), bits@.len()),
            r.datatype == Some(Datatype::Float32),
            r.data is Some,
            r.data->0@ == bits32_bytes(bits@),
            old(self).shape is Some ==> r.shape == old(self).shape,
            old(self).shape is None ==> r.shape is Some && r.shape->0@ == seq![bits@.len() as u64],
            *r == (DatasetBuilder {
                datatype: r.datatype,
                data: r.data,
                shape: r.shape,
                ..*old(self)
            }),
            *final(self) == *final(r),
    {
        let mut data: Vec<u8> = Vec::new();
        let mut i: usize = 0;
        assert(bits@.take(0) =~= Seq::empty());
        while i < bits.len()
            invariant
                i <= bits@.len(),
                data@ == bits32_bytes(bits@.take(i as int)),
            decreases bits@.len() - i,
        {
            assert(bits@.take(i + 1).drop_last() =~= bits@.take(i as int));
            crate::bytes::push_le(&mut data, bits[i] as u64, 4);
            i = i + 1;
        }
        assert(bits@.take(i as int) =~= bits@);
        self.set_data(Datatype::Float32, data, bits.len());
        self
    }

    /// Sets the extent.
    pub fn with_shape(&mut self, shape: &[u64]) -> (r: &mut Self)
        ensures
            r.shape is Some,
            r.shape->0@ == shape@,
            *r == (DatasetBuilder { shape: r.shape, ..*old(self) }),
            *final(self) == *final(r),
    {
        self.shape = Some(slice_to_vec(shape));
        self
    }

    /// Sets the extent the dataset can grow to.
    pub fn with_maxshape(&mut self, maxshape: &[u64]) -> (r: &mut Self)
        ensures
            r.maxshape is Some,
            r.maxshape->0@ == maxshape@,
            *r == (DatasetBuilder { maxshape: r.maxshape, ..*old(self) }),
            *final(self) == *final(r),
    {
        self.maxshape = Some(slice_to_vec(maxshape));
        self
    }

    /// Sets the chunk extents.
    pub fn with_chunks(&mut self, chunk_dims: &[u64]) -> (r: &mut Self)
        ensures
            r.chunk_options.chunk_dims is Some,
            r.chunk_options.chunk_dims->0@ == chunk_dims@,
            *r == (DatasetBuilder { chunk_options: r.chunk_options, ..*old(self) }),
            *final(self) == *final(r),
    {
        self.chunk_options = ChunkOptions { chunk_dims: Some(slice_to_vec(chunk_dims)) };
        self
    }

    /// Lets the data go into the header, where it fits.
    pub fn with_compact(&mut self) -> (r: &mut Self)
        ensures
            *r == (DatasetBuilder { compact: true, ..*old(self) }),
            *final(self) == *final(r),
    {
        self.compact = true;
        self
    }

    /// Sets the alignment of the data.
    pub fn with_alignment(&mut self, alignment: usize) -> (r: &mut Self)
        ensures
            *r == (DatasetBuilder { alignment, ..*old(self) }),
            *final(self) == *final(r),
    {
        self.alignment = alignment;
        self
    }

    /// Makes the dataset a virtual one. An empty list changes nothing.
    pub fn with_virtual_sources(&mut self, sources: Vec<VdsMapping>) -> (r: &mut Self)
        ensures
            *r == if sources@.len() == 0 {
                *old(self)
            } else {
                DatasetBuilder { virtual_sources: Some(sources), ..*old(self) }
            },
            *final(self) == *final(r),
    {
        if sources.len() > 0 {
            self.virtual_sources = Some(sources);
        }
        self
    }

    /// Adds an attribute.
    pub fn set_attr(&mut self, name: &str, value: AttrValue) -> (r: &mut Self)
        ensures
            r.attrs@.len() == old(self).attrs@.len() + 1,
            r.attrs@.drop_last() == old(self).attrs@,
            r.attrs@.last().0@ == name@,
            r.attrs@.last().1 == value,
            *r == (DatasetBuilder { attrs: r.attrs, ..*old(self) }),
            *final(self) == *final(r),
    {
        self.attrs.push((name.to_owned(), value));
        assert(self.attrs@.drop_last() =~= old(self).attrs@);
        self
    }
}

/// A dataset that was just made has neither type, extent, data nor attributes; its
/// fill values are written where one is set, and its data goes into the file as it
/// comes.
pub proof fn law_new_dataset_has_nothing_set(b: DatasetBuilder)
    requires
        b.is_blank(),
    ensures
        b.datatype is None,
        b.shape is None,
        b.maxshape is None,
        b.data is None,
        b.attrs@.len() == 0,
        b.chunk_options.chunk_dims is None,
        b.fill_time == FillTime::IfSet,
        !b.compact,
        b.alignment == 0,
        b.virtual_sources is None,
{
}

/// A link from a group to an object of another file.
#[derive(Debug, PartialEq, Eq)]
pub struct ExternalLink {
    pub name: String,
    pub filename: String,
    pub object_path: String,
}

/// A group to be written, complete.
#[derive(Debug)]
pub struct FinishedGroup {
    pub name: String,
    pub attrs: Vec<(String, AttrValue)>,
    pub datasets: Vec<DatasetBuilder>,
    pub external_links: Vec<ExternalLink>,
}

/// A group under construction.
#[derive(Debug)]
pub struct GroupBuilder {
    group: FinishedGroup,
}

impl GroupBuilder {
    pub closed spec fn spec_group(&self) -> FinishedGroup {
        self.group
    }

    /// An empty group.
    pub fn new(name: &str) -> (g: Self)
        ensures
            g.spec_group().name@ == name@,
            g.spec_group().attrs@.len() == 0,
            g.spec_group().datasets@.len() == 0,
            g.spec_group().external_links@.len() == 0,
    {
        GroupBuilder {
            group: FinishedGroup {
                name: name.to_owned(),
                attrs: Vec::new(),
                datasets: Vec::new(),
                external_links: Vec::new(),
            },
        }
    }

    /// Adds a dataset and gives access to it.
    pub fn create_dataset(&mut self, name: &str) -> (r: &mut DatasetBuilder)
        ensures
            r.name@ == name@,
            r.is_blank(),
            final(self).spec_group().datasets@ == old(self).spec_group().datasets@.push(*final(r)),
            final(self).spec_group() == (FinishedGroup {
                datasets: final(self).spec_group().datasets,
                ..old(self).spec_group()
            }),
    {
        let n: usize = self.group.datasets.len();
        self.group.datasets.push(DatasetBuilder::new(name));
        &mut self.group.datasets[n]
    }

    /// Adds an attribute.
    pub fn set_attr(&mut self, name: &str, value: AttrValue)
        ensures
            final(self).spec_group().attrs@.len() == old(self).spec_group().attrs@.len() + 1,
            final(self).spec_group().attrs@.drop_last() == old(self).spec_group().attrs@,
            final(self).spec_group().attrs@.last().0@ == name@,
            final(self).spec_group().attrs@.last().1 == value,
            final(self).spec_group() == (FinishedGroup {
                attrs: final(self).spec_group().attrs,
                ..old(self).spec_group()
            }),
    {
        self.group.attrs.push((name.to_owned(), value));
        assert(self.group.attrs@.drop_last() =~= old(self).group.attrs@);
    }

    /// Adds a link to an object of another file.
    pub fn add_external_link(&mut self, name: &str, filename: &str, object_path: &str)
        ensures
            final(self).spec_group().external_links@.len()
                == old(self).spec_group().external_links@.len() + 1,
            final(self).spec_group().external_links@.drop_last()
                == old(self).spec_group().external_links@,
            final(self).spec_group().external_links@.last().name@ == name@,
            final(self).spec_group().external_links@.last().filename@ == filename@,
            final(self).spec_group().external_links@.last().object_path@ == object_path@,
            final(self).spec_group() == (FinishedGroup {
                external_links: final(self).spec_group().external_links,
                ..old(self).spec_group()
            }),
    {
        self.group.external_links.push(
            ExternalLink {
                name: name.to_owned(),
                filename: filename.to_owned(),
                object_path: object_path.to_owned(),
            },
        );
        assert(self.group.external_links@.drop_last() =~= old(self).group.external_links@);
    }

    /// The complete group.
    pub fn finish(self) -> (g: FinishedGroup)
        ensures
            g == self.spec_group(),
    {
        self.group
    }
}

} // verus!
