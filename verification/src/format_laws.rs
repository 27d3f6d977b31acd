//! What the bytes of a written file say to any reader of the format: how types,
//! extents and layouts are stated, where data stands, and what marks each part.

use crate::builders::{DatasetBuilder, FillTime, FormatError};
use crate::bytes::{
    from_le, le64_all, le_bytes, lemma_byte_span, lemma_le64_all_len, lemma_le_len,
    lemma_le_roundtrip,
};
use crate::chunk_grid::{checked_total, chunk_counts};
use crate::chunked::{chunked_layout, chunks_len, layout_head, resolved_dims};
use crate::dense::{btree_bytes, btree_header_fields, BTHD_SIZE};
use crate::file_laws::{
    dataset_views, is_writable, law_data_stands_at_its_address, lemma_header_found, small_messages,
};
use crate::file_writer::{
    cdims_of, dataset_error, dense_attrs, dense_links, first_error, layout_of, oh_len, raw_of,
    storable, storage_of, FileWriter, Storage,
};
use crate::fractal_heap::{block_head, direct_block, heap_header_bytes, indirect_block, HeapHeader};
use crate::layout::first_message;
use crate::messages::{AttrValue, Datatype, LinkView, MessageType};
use crate::object_header::{header_bytes, parsed_header};
use crate::vds::{
    as_read, collection_bytes, law_vds_roundtrip, length_width, parsed_vds, readable, same_file,
    vds_bytes, vds_version, VdsView,
};
use vstd::prelude::*;

verus! {

// ---------------------------------------------------------------------------
// Types
// ---------------------------------------------------------------------------

/// Each message type has the number that the format gives it, and only numbers
/// without a type of their own are unknown.
pub proof fn law_message_types_are_numbered(kind: MessageType)
    ensures
        kind is Dataspace ==> kind.spec_id() == 1,
        kind is LinkInfo ==> kind.spec_id() == 2,
        kind is Datatype ==> kind.spec_id() == 3,
        kind is FillValue ==> kind.spec_id() == 5,
        kind is Link ==> kind.spec_id() == 6,
        kind is DataLayout ==> kind.spec_id() == 8,
        kind is FilterPipeline ==> kind.spec_id() == 11,
        kind is Attribute ==> kind.spec_id() == 12,
        kind is AttributeInfo ==> kind.spec_id() == 21,
        kind is Unknown || MessageType::spec_from_id(kind.spec_id()) == kind,
{
}

/// An integer type states its size, that its bytes are little-endian, whether it
/// is signed, and that all its bits count.
pub proof fn law_integer_type_is_stated(size: u32, signed: bool)
    requires
        size < 0x2000,
    ensures
        ({
            let data = Datatype::FixedPoint { size, signed }.bytes();
            &&& data.len() == 12
            &&& data[0] == 0x10
            &&& data[1] % 2 == 0
            &&& (data[1] / 8) % 2 == if signed {
                1int
            } else {
                0int
            }
            &&& data[1] < 16
            &&& data[2] == 0 && data[3] == 0
            &&& from_le(data.subrange(4, 8)) == size
            &&& from_le(data.subrange(8, 10)) == 0
            &&& from_le(data.subrange(10, 12)) == 8 * size
        }),
{
    let data = Datatype::FixedPoint { size, signed }.bytes();
    lemma_byte_span();
    lemma_le_len(size as nat, 4);
    lemma_le_len(0, 2);
    lemma_le_len(8 * size as nat, 2);
    lemma_le_roundtrip(size as nat, 4);
    lemma_le_roundtrip(0, 2);
    lemma_le_roundtrip(8 * size as nat, 2);
    assert(data.subrange(4, 8) =~= le_bytes(size as nat, 4));
    assert(data.subrange(8, 10) =~= le_bytes(0, 2));
    assert(data.subrange(10, 12) =~= le_bytes(8 * size as nat, 2));
}

/// A floating-point type states the layout of an IEEE 754 number: the sign is its
/// highest bit, below it the exponent, below that the mantissa with an implied
/// leading bit; the exponent's bias is half its range.
pub proof fn law_float_type_is_stated(dt: Datatype)
    requires
        dt is Float16 || dt is Float32 || dt is Float64,
    ensures
        ({
            let data = dt.bytes();
            let bits: int = match dt {
                Datatype::Float16 => 16,
                Datatype::Float32 => 32,
                _ => 64,
            };
            let exponent: int = match dt {
                Datatype::Float16 => 5,
                Datatype::Float32 => 8,
                _ => 11,
            };
            &&& data.len() == 20
            &&& data[0] == 0x11
            &&& data[1] == 0x20
            &&& data[2] == bits - 1
            &&& data[3] == 0
            &&& 8 * from_le(data.subrange(4, 8)) == bits
            &&& from_le(data.subrange(8, 10)) == 0
            &&& from_le(data.subrange(10, 12)) == bits
            &&& data[12] == bits - 1 - exponent
            &&& data[13] == exponent
            &&& data[14] == 0
            &&& data[15] == bits - 1 - exponent
            &&& from_le(data.subrange(16, 20)) == match dt {
                Datatype::Float16 => 15nat,
                Datatype::Float32 => 127nat,
                _ => 1023nat,
            }
        }),
{
    let data = dt.bytes();
    let size: nat = dt.spec_size() as nat;
    let bits: nat = 8 * size;
    let bias: nat = match dt {
        Datatype::Float16 => 15,
        Datatype::Float32 => 127,
        _ => 1023,
    };
    lemma_byte_span();
    lemma_le_len(size, 4);
    lemma_le_len(0, 2);
    lemma_le_len(bits, 2);
    lemma_le_len(bias, 4);
    lemma_le_roundtrip(size, 4);
    lemma_le_roundtrip(0, 2);
    lemma_le_roundtrip(bits, 2);
    lemma_le_roundtrip(bias, 4);
    assert(data.subrange(4, 8) =~= le_bytes(size, 4));
    assert(data.subrange(8, 10) =~= le_bytes(0, 2));
    assert(data.subrange(10, 12) =~= le_bytes(bits, 2));
    assert(data.subrange(16, 20) =~= le_bytes(bias, 4));
}

/// A text type states its size and that texts are padded with zeros.
pub proof fn law_text_type_is_stated(size: u32)
    ensures
        ({
            let data = Datatype::FixedString { size }.bytes();
            &&& data.len() == 8
            &&& data[0] == 0x13
            &&& data[1] == 1
            &&& data[2] == 0 && data[3] == 0
            &&& from_le(data.subrange(4, 8)) == size
        }),
{
    let data = Datatype::FixedString { size }.bytes();
    lemma_byte_span();
    lemma_le_len(size as nat, 4);
    lemma_le_roundtrip(size as nat, 4);
    assert(data.subrange(4, 8) =~= le_bytes(size as nat, 4));
}

// ---------------------------------------------------------------------------
// Datasets
// ---------------------------------------------------------------------------

/// In a written file the header of a dataset has its datatype, and a fill value
/// message that asks for late allocation and says when fill values are written.
#[verifier::spinoff_prover]
pub proof fn law_type_and_fill_time_stand_in_header(fw: &FileWriter, i: int)
    requires
        is_writable(fw),
        0 <= i < fw.all().len(),
        small_messages(fw.all()[i]),
        layout_of(fw.all()[i], fw.data_addr(i) as u64).len() < 0x1_0000,
    ensures
        ({
            let d = fw.all()[i];
            let found = parsed_header(fw.image(), fw.head_addr(i) as int);
            let fill = first_message(found->0, MessageType::FillValue);
            &&& found is Some
            &&& first_message(found->0, MessageType::Datatype) == Some(d.datatype->0.bytes())
            &&& fill is Some
            &&& fill->0.len() == 2
            &&& fill->0[0] == 3
            &&& fill->0[1] % 4 == 2
            &&& fill->0[1] / 4 == match d.fill_time {
                FillTime::Alloc => 0int,
                FillTime::Never => 1int,
                FillTime::IfSet => 2int,
            }
        }),
{
    let d = fw.all()[i];
    let layout = layout_of(d, fw.data_addr(i) as u64);
    let blob_addr = (fw.head_addr(i) + oh_len(d)) as u64;
    lemma_header_found(fw, i);
    let ms = dataset_views(d, layout, blob_addr);
    let one = ms.skip(1);
    let two = one.skip(1);
    assert(one[0] == ms[1] && two[0] == ms[2]);
    assert(first_message(two, MessageType::FillValue) == Some(ms[2].data));
    assert(first_message(one, MessageType::FillValue) == Some(ms[2].data));
}

/// Data stored in one piece starts at a multiple of the dataset's own alignment
/// where it has one; else of the file's, where the file has one and the data is
/// no smaller than its threshold; else of eight.
pub proof fn law_data_is_aligned(fw: &FileWriter, i: int)
    requires
        is_writable(fw),
        0 <= i < fw.all().len(),
        storage_of(fw.all()[i]) is Contiguous,
    ensures
        ({
            let d = fw.all()[i];
            let at = fw.data_addr(i);
            let own = d.alignment as nat;
            let general = fw.alignment_bytes as nat;
            &&& own > 0 ==> at % own == 0
            &&& own == 0 && general > 0 && raw_of(d).len() >= fw.alignment_threshold ==> at
                % general == 0
            &&& own == 0 && (general == 0 || raw_of(d).len() < fw.alignment_threshold) ==> at % 8
                == 0
        }),
{
    law_data_stands_at_its_address(fw, i);
}

/// The data of a dataset is what it was given.
pub proof fn law_raw_data_is_given_data(d: DatasetBuilder)
    ensures
        d.data is Some ==> raw_of(d) == d.data->0@,
        d.data is None ==> raw_of(d).len() == 0,
{
}

/// Where a dataset's data goes, by the class in its layout message: a virtual
/// dataset has sources (3); one with chunk extents or a maximum extent has chunks
/// (2); one that may and can be has its data in the header (0); the others have it
/// in one piece (1).
pub proof fn law_layout_class_follows_dataset(d: DatasetBuilder, addr: u64)
    ensures
        ({
            let message = layout_of(d, addr);
            let chunks = d.chunk_options.chunk_dims is Some || d.maxshape is Some;
            &&& message.len() >= 2
            &&& message[0] == 4
            &&& d.virtual_sources is Some ==> message[1] == 3
            &&& d.virtual_sources is None && chunks ==> message[1] == 2
            &&& d.virtual_sources is None && !chunks ==> {
                &&& d.compact && raw_of(d).len() <= 65535 ==> message[1] == 0 && message.skip(4)
                    == raw_of(d)
                &&& !d.compact || raw_of(d).len() > 65535 ==> message[1] == 1
            }
        }),
{
    let message = layout_of(d, addr);
    lemma_le_len(raw_of(d).len(), 2);
    match storage_of(d) {
        Storage::Virtual => {},
        Storage::Chunked => {
            let cdims = crate::file_writer::cdims_of(d);
            lemma_le64_all_len(cdims);
            assert(layout_head(d.shape->0@.len(), cdims, d.datatype->0.spec_size()).take(2)
                =~= seq![4u8, 2u8]);
            assert(message.take(2) =~= seq![4u8, 2u8]);
            assert(message[0] == message.take(2)[0] && message[1] == message.take(2)[1]);
        },
        Storage::Compact => {
            assert(message.skip(4) =~= raw_of(d));
        },
        Storage::Contiguous => {},
    }
}

/// The layout message of a chunked dataset states the chunk extents that were
/// asked for, and the element size behind them.
pub proof fn law_chunk_extents_are_stated(
    dims: Seq<u64>,
    cdims: Seq<u64>,
    elem_size: u32,
    base: u64,
    resizable: bool,
)
    requires
        dims.len() == cdims.len(),
        dims.len() < 255,
    ensures
        ({
            let message = chunked_layout(dims, cdims, elem_size, base, resizable);
            let rank = dims.len() as int;
            &&& message.len() >= 13 + 8 * rank
            &&& message[3] == rank + 1
            &&& message[4] == 8
            &&& message.subrange(5, 5 + 8 * rank) == le64_all(cdims)
            &&& from_le(message.subrange(5 + 8 * rank, 13 + 8 * rank)) == elem_size
        }),
{
    let message = chunked_layout(dims, cdims, elem_size, base, resizable);
    let rank = dims.len() as int;
    let head = layout_head(dims.len(), cdims, elem_size);
    lemma_byte_span();
    lemma_le64_all_len(cdims);
    lemma_le_len(elem_size as nat, 8);
    lemma_le_roundtrip(elem_size as nat, 8);
    assert(head.len() == 13 + 8 * rank);
    assert(message.take(13 + 8 * rank) =~= head);
    assert(head.subrange(5, 5 + 8 * rank) =~= le64_all(cdims));
    assert(head.subrange(5 + 8 * rank, 13 + 8 * rank) =~= le_bytes(elem_size as nat, 8));
    assert(message.subrange(5, 5 + 8 * rank) =~= head.subrange(5, 5 + 8 * rank));
    assert(message.subrange(5 + 8 * rank, 13 + 8 * rank) =~= head.subrange(
        5 + 8 * rank,
        13 + 8 * rank,
    ));
    assert(message[3] == message.take(13 + 8 * rank)[3]);
    assert(message[4] == message.take(13 + 8 * rank)[4]);
}

/// Chunks have the extents that were asked for; without any, there is one chunk
/// as large as the dataset, one element long along an axis that has none.
pub proof fn law_chunk_extents_are_chosen(asked: Option<Seq<u64>>, dims: Seq<u64>, d: int)
    requires
        0 <= d < dims.len(),
    ensures
        asked is Some ==> resolved_dims(asked, dims) == asked->0,
        asked is None ==> {
            &&& resolved_dims(asked, dims).len() == dims.len()
            &&& dims[d] > 0 ==> resolved_dims(asked, dims)[d] == dims[d]
            &&& dims[d] == 0 ==> resolved_dims(asked, dims)[d] == 1
        },
{
}

// ---------------------------------------------------------------------------
// Signatures
// ---------------------------------------------------------------------------

/// A file starts with the signature of the format and the version of its
/// superblock.
pub proof fn law_file_starts_with_signature(eof: u64, root: u64)
    ensures
        ({
            let data = crate::object_header::superblock_bytes(eof, root);
            &&& data.len() == 48
            &&& data.take(8) == seq![0x89u8, 0x48, 0x44, 0x46, 0x0d, 0x0a, 0x1a, 0x0a]
            &&& data[8] == 3
            &&& data[9] == 8
            &&& data[10] == 8
            &&& from_le(data.subrange(28, 36)) == eof
            &&& from_le(data.subrange(36, 44)) == root
        }),
{
    let data = crate::object_header::superblock_bytes(eof, root);
    let sum = crate::checksum::lookup3(crate::object_header::superblock_fields(eof, root));
    lemma_byte_span();
    lemma_le_len(0, 8);
    lemma_le_len(u64::MAX as nat, 8);
    lemma_le_len(eof as nat, 8);
    lemma_le_len(root as nat, 8);
    lemma_le_len(sum as nat, 4);
    lemma_le_roundtrip(eof as nat, 8);
    lemma_le_roundtrip(root as nat, 8);
    assert(data.take(8) =~= seq![0x89u8, 0x48, 0x44, 0x46, 0x0d, 0x0a, 0x1a, 0x0a]);
    assert(data.subrange(28, 36) =~= le_bytes(eof as nat, 8));
    assert(data.subrange(36, 44) =~= le_bytes(root as nat, 8));
}

/// An object header starts with `OHDR` and its version.
pub proof fn law_object_header_starts_with_signature(body: Seq<u8>)
    ensures
        header_bytes(body).len() > 4,
        header_bytes(body).take(4) == seq![0x4fu8, 0x48, 0x44, 0x52],
        header_bytes(body)[4] == 2,
{
    assert(header_bytes(body).take(4) =~= seq![0x4fu8, 0x48, 0x44, 0x52]);
}

/// A heap's header starts with `FRHP`.
#[verifier::spinoff_prover]
#[verifier::rlimit(50)]
pub proof fn law_heap_header_starts_with_signature(heap: HeapHeader)
    ensures
        heap_header_bytes(heap).len() > 4,
        heap_header_bytes(heap).take(4) == seq![0x46u8, 0x52, 0x48, 0x50],
{
    assert(heap_header_bytes(heap).take(4) =~= seq![0x46u8, 0x52, 0x48, 0x50]);
}

/// A heap's block starts with `FHDB` and the address of the heap.
pub proof fn law_direct_block_starts_with_signature(
    heap_addr: u64,
    offset: nat,
    max_heap_size: u16,
    data: Seq<u8>,
    size: nat,
)
    requires
        size >= 13,
    ensures
        ({
            let block = direct_block(heap_addr, offset, max_heap_size, data, size);
            &&& block.len() == size
            &&& block.take(4) == seq![0x46u8, 0x48, 0x44, 0x42]
            &&& from_le(block.subrange(5, 13)) == heap_addr
        }),
{
    let block = direct_block(heap_addr, offset, max_heap_size, data, size);
    let head = block_head(heap_addr, offset, max_heap_size);
    lemma_byte_span();
    lemma_le_len(heap_addr as nat, 8);
    lemma_le_roundtrip(heap_addr as nat, 8);
    assert(head.take(4) =~= seq![0x46u8, 0x48, 0x44, 0x42]);
    assert(head.subrange(5, 13) =~= le_bytes(heap_addr as nat, 8));
    assert(block.take(13) =~= head.take(13));
    assert(block.take(4) =~= block.take(13).take(4));
    assert(head.take(4) =~= head.take(13).take(4));
    assert(block.subrange(5, 13) =~= block.take(13).subrange(5, 13));
    assert(head.subrange(5, 13) =~= head.take(13).subrange(5, 13));
}

/// A heap's table of blocks starts with `FHIB` and the address of the heap.
pub proof fn law_indirect_block_starts_with_signature(
    heap_addr: u64,
    max_heap_size: u16,
    first: nat,
    n: int,
)
    ensures
        ({
            let block = indirect_block(heap_addr, max_heap_size, first, n);
            &&& block.len() >= 13
            &&& block.take(4) == seq![0x46u8, 0x48, 0x49, 0x42]
            &&& from_le(block.subrange(5, 13)) == heap_addr
        }),
{
    let block = indirect_block(heap_addr, max_heap_size, first, n);
    lemma_byte_span();
    lemma_le_len(heap_addr as nat, 8);
    lemma_le_roundtrip(heap_addr as nat, 8);
    assert(block.take(4) =~= seq![0x46u8, 0x48, 0x49, 0x42]);
    assert(block.subrange(5, 13) =~= le_bytes(heap_addr as nat, 8));
}

/// A collection of objects starts with `GCOL` and its version.
pub proof fn law_collection_starts_with_signature(object: Seq<u8>)
    ensures
        collection_bytes(object).len() > 4,
        collection_bytes(object).take(4) == seq![0x47u8, 0x43, 0x4f, 0x4c],
        collection_bytes(object)[4] == 1,
{
    assert(collection_bytes(object).take(4) =~= seq![0x47u8, 0x43, 0x4f, 0x4c]);
}

/// A tree of records has `BTHD` at its start, and `BTLF` at the start of the leaf
/// that follows, with the records behind it.
pub proof fn law_record_trees_start_with_signatures(
    kind: u8,
    addr: u64,
    record_size: u16,
    records: Seq<u8>,
    n: nat,
)
    ensures
        ({
            let data = btree_bytes(kind, addr, record_size, records, n);
            &&& data.len() >= 44 + records.len()
            &&& data.take(4) == seq![0x42u8, 0x54, 0x48, 0x44]
            &&& data[5] == kind
            &&& data.subrange(38, 42) == seq![0x42u8, 0x54, 0x4c, 0x46]
            &&& data[43] == kind
            &&& data.subrange(44, (44 + records.len()) as int) == records
        }),
{
    let data = btree_bytes(kind, addr, record_size, records, n);
    let node = crate::dense::node_size(records.len());
    let head = btree_header_fields(kind, node, record_size, addr as nat + BTHD_SIZE as nat, n);
    lemma_le_len(node, 4);
    lemma_le_len(record_size as nat, 2);
    lemma_le_len(0, 2);
    lemma_le_len(addr as nat + BTHD_SIZE as nat, 8);
    lemma_le_len(n, 2);
    lemma_le_len(n, 8);
    lemma_le_len(crate::checksum::lookup3(head) as nat, 4);
    assert(head.len() == 34);
    assert(data.take(4) =~= seq![0x42u8, 0x54, 0x48, 0x44]);
    assert(data.subrange(38, 42) =~= seq![0x42u8, 0x54, 0x4c, 0x46]);
    assert(data.subrange(44, (44 + records.len()) as int) =~= records);
}

// ---------------------------------------------------------------------------
// Virtual datasets
// ---------------------------------------------------------------------------

/// Reading the mappings of a virtual dataset gives back each source file that was
/// named, its dataset and both selections. A source in the file itself may be given
/// as a dot.
pub proof fn law_vds_sources_read_back(ms: Seq<VdsView>, length_size: u8, tail: Seq<u8>, j: int)
    requires
        forall|k: int| 0 <= k < ms.len() ==> readable(#[trigger] ms[k]),
        ms.len() < crate::bytes::byte_span(length_width(length_size)),
        0 <= j < ms.len(),
    ensures
        ({
            let found = parsed_vds(vds_bytes(ms, length_size) + tail, length_size);
            &&& found is Some
            &&& found->0.len() == ms.len()
            &&& found->0[j].source_dataset == ms[j].source_dataset
            &&& found->0[j].source_selection == ms[j].source_selection
            &&& found->0[j].virtual_selection == ms[j].virtual_selection
            &&& ms[j].source_file.len() > 0 ==> found->0[j].source_file == ms[j].source_file
            &&& ms[j].source_file.len() == 0 ==> found->0[j].source_file.len() == 0
                || found->0[j].source_file == "."@
        }),
{
    law_vds_roundtrip(ms, length_size, tail);
    assert(vds_version(ms) != 0 ==> same_file(ms[j]));
    let read = as_read(ms[j], vds_version(ms));
    assert(read.source_dataset == ms[j].source_dataset);
}

// ---------------------------------------------------------------------------
// What is refused
// ---------------------------------------------------------------------------

proof fn lemma_first_error(ds: Seq<DatasetBuilder>, from: int, i: int)
    requires
        0 <= from <= ds.len(),
    ensures
        first_error(ds, from) is None && from <= i < ds.len() ==> dataset_error(ds[i]) is None,
        first_error(ds, from) is Some && (forall|j: int|
            from <= j < ds.len() ==> dataset_error(#[trigger] ds[j]) is None) ==> false,
    decreases ds.len() - from,
{
    if from < ds.len() {
        lemma_first_error(ds, from + 1, i);
        if forall|j: int| from <= j < ds.len() ==> dataset_error(#[trigger] ds[j]) is None {
            assert(dataset_error(ds[from]) is None);
        }
    }
}

/// A file is written only if every dataset has a type, an extent, and data or
/// sources, and every chunked one can be cut: chunk extents above zero, one for each
/// axis, and elements of some size.
pub proof fn law_incomplete_file_is_refused(fw: &FileWriter, i: int)
    requires
        fw.error() is None,
        0 <= i < fw.all().len(),
    ensures
        ({
            let d = fw.all()[i];
            &&& d.datatype is Some
            &&& d.shape is Some
            &&& d.data is Some || d.virtual_sources is Some
            &&& d.virtual_sources is None && d.chunk_options.chunk_dims is Some ==> {
                let cdims = d.chunk_options.chunk_dims->0@;
                &&& d.datatype->0.spec_size() >= 1
                &&& d.shape->0@.len() >= 1
                &&& cdims.len() == d.shape->0@.len()
                &&& forall|k: int| 0 <= k < cdims.len() ==> #[trigger] cdims[k] > 0
            }
        }),
{
    let d = fw.all()[i];
    lemma_first_error(fw.all(), 0, i);
    assert(dataset_error(d) is None);
    assert(storable(fw.all()[i]));
    if d.virtual_sources is None && d.chunk_options.chunk_dims is Some {
        let cdims = d.chunk_options.chunk_dims->0@;
        assert(cdims_of(d) == cdims);
        assert forall|k: int| 0 <= k < cdims.len() implies #[trigger] cdims[k] > 0 by {
            assert(cdims.contains(cdims[k]));
        }
    }
}

/// No file is refused whose datasets are complete and whose chunked datasets are
/// of some axes, in elements of some size, with chunk extents above zero, one for
/// each axis, and small enough for memory.
pub proof fn law_complete_file_is_accepted(fw: &FileWriter)
    requires
        forall|i: int|
            0 <= i < fw.all().len() ==> {
                let d = #[trigger] fw.all()[i];
                &&& d.datatype is Some
                &&& d.shape is Some
                &&& d.data is Some || d.virtual_sources is Some
                &&& d.virtual_sources is None && (d.chunk_options.chunk_dims is Some
                    || d.maxshape is Some) ==> {
                    let dims = d.shape->0@;
                    let cdims = cdims_of(d);
                    &&& d.datatype->0.spec_size() >= 1
                    &&& dims.len() >= 1
                    &&& d.chunk_options.chunk_dims is Some ==> {
                        &&& d.chunk_options.chunk_dims->0@.len() == dims.len()
                        &&& forall|k: int|
                            0 <= k < dims.len() ==> #[trigger] d.chunk_options.chunk_dims->0@[k] > 0
                    }
                    &&& checked_total(cdims) is Some
                    &&& checked_total(chunk_counts(dims, cdims)) is Some
                    &&& chunks_len(dims, cdims, d.datatype->0.spec_size()) <= isize::MAX
                }
            },
    ensures
        fw.error() is None,
{
    assert forall|i: int| 0 <= i < fw.all().len() implies dataset_error(
        #[trigger] fw.all()[i],
    ) is None by {}
    lemma_first_error(fw.all(), 0, 0);
    assert forall|i: int| 0 <= i < fw.all().len() implies storable(#[trigger] fw.all()[i]) by {
        let d = fw.all()[i];
        if storage_of(d) is Chunked {
            let cdims = cdims_of(d);
            assert(cdims.len() == d.shape->0@.len());
            assert forall|k: int| 0 <= k < cdims.len() implies #[trigger] cdims[k] != 0 by {
                if d.chunk_options.chunk_dims is Some {
                    assert(d.chunk_options.chunk_dims->0@[k] > 0);
                }
            }
        }
    }
}

/// Why a dataset is refused: without a type or without data and sources for missing
/// data, without an extent for that.
pub proof fn law_refusal_names_what_is_missing(d: DatasetBuilder)
    ensures
        d.datatype is None ==> dataset_error(d) == Some(FormatError::DatasetMissingData),
        d.datatype is Some && d.shape is None ==> dataset_error(d) == Some(
            FormatError::DatasetMissingShape,
        ),
        d.datatype is Some && d.shape is Some && d.data is None && d.virtual_sources is None
            ==> dataset_error(d) == Some(FormatError::DatasetMissingData),
        d.datatype is Some && d.shape is Some && (d.data is Some || d.virtual_sources is Some)
            ==> dataset_error(d) is None,
{
}

/// More than eight attributes, and more than eight links, go into storage of their
/// own; up to eight are messages.
pub proof fn law_many_go_into_dense_storage(attrs: Seq<(String, AttrValue)>, links: Seq<LinkView>)
    ensures
        dense_attrs(attrs) <==> attrs.len() > 8,
        dense_links(links) <==> links.len() > 8,
{
}

} // verus!
