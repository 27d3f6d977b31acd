//! What a reader accepts of a file that may be damaged or strange: nothing whose
//! checksum is wrong, nothing beyond the end, and nothing under another name.

use crate::bytes::{from_le, le_bytes, zeros};
use crate::checksum::lookup3;
use crate::chunk_reader::{
    chunk_entries, chunked_answer, is_sound, parsed_chunked, stored_elem, stored_elems, ChunkIndex,
};
use crate::dense_reader::{
    heap_info, index_info, index_records, parsed_heap, parsed_index, records_len,
};
use crate::layout::first_message;
use crate::memory_file::{column_bytes, column_texts, memory_fault, row_count, MemoryFault};
use crate::messages::{parsed_dataspace, parsed_datatype, parsed_layout, DataLayout, MessageType};
use crate::object_header::{parsed_header, parsed_superblock, MessageView, Superblock};
use crate::reader::{
    attr_named, child, dataset_data, hard_link, int_attr, name_end, object_messages, parsed_attr,
    parsed_link, read_answer, resolved, ReadFault,
};
use crate::verification_grid::suffix_product;
use vstd::prelude::*;
use vstd::utf8::encode_utf8;

verus! {

// ---------------------------------------------------------------------------
// Checksums
// ---------------------------------------------------------------------------

/// A header is read only where `OHDR` and its version stand, and only with the
/// checksum of all its bytes behind it.
pub proof fn law_header_is_checked(file: Seq<u8>, at: int)
    requires
        parsed_header(file, at) is Some,
    ensures
        0 <= at && at + 6 < file.len(),
        file.subrange(at, at + 4) == seq![0x4fu8, 0x48, 0x44, 0x52],
        file[at + 4] == 2,
        file[at + 5] <= 3,
        ({
            let width: int = if file[at + 5] == 0 {
                1
            } else if file[at + 5] == 1 {
                2
            } else if file[at + 5] == 2 {
                4
            } else {
                8
            };
            let end = at + 6 + width + from_le(file.subrange(at + 6, at + 6 + width));
            &&& end + 4 <= file.len()
            &&& file.subrange(end, end + 4) == le_bytes(
                lookup3(file.subrange(at, end)) as nat,
                4,
            )
        }),
{
}

/// A superblock is read only where the format's signature and its version stand, and
/// only with the checksum of its bytes behind it; what is read are its fields.
pub proof fn law_superblock_is_checked(file: Seq<u8>)
    requires
        parsed_superblock(file) is Some,
    ensures
        file.len() >= 48,
        file.take(8) == seq![0x89u8, 0x48, 0x44, 0x46, 0x0d, 0x0a, 0x1a, 0x0a],
        file[8] == 3,
        file.subrange(44, 48) == le_bytes(lookup3(file.take(44)) as nat, 4),
        parsed_superblock(file)->0.offset_size == file[9],
        parsed_superblock(file)->0.length_size == file[10],
        parsed_superblock(file)->0.eof_address == from_le(file.subrange(28, 36)) as u64,
        parsed_superblock(file)->0.root_group_address == from_le(file.subrange(36, 44)) as u64,
{
    assert(file.take(8) =~= file.subrange(0, 8));
    assert(file.take(44) =~= file.subrange(0, 44));
}

/// A heap's header is read only with its signature and its checksum.
pub proof fn law_heap_is_checked(file: Seq<u8>, at: nat)
    requires
        parsed_heap(file, at) is Some,
    ensures
        at + 146 <= file.len(),
        ({
            let h = file.subrange(at as int, at as int + 146);
            &&& h.take(4) == seq![0x46u8, 0x52, 0x48, 0x50]
            &&& from_le(h.subrange(142, 146)) == lookup3(h.take(142))
        }),
{
    let h = file.subrange(at as int, at as int + 146);
    assert(heap_info(h) is Some);
    assert(h.take(4) =~= seq![0x46u8, 0x52, 0x48, 0x50]);
    assert(h.take(142) =~= h.subrange(0, 142));
}

/// A tree of records is read only with the signatures and checksums of its header
/// and of its leaf, and only as the kind that is asked for.
pub proof fn law_index_is_checked(file: Seq<u8>, at: nat, kind: u8)
    requires
        parsed_index(file, at, kind) is Some,
        index_records(file, parsed_index(file, at, kind)->0, kind) is Some,
    ensures
        at + 38 <= file.len(),
        ({
            let h = file.subrange(at as int, at as int + 38);
            let leaf = from_le(h.subrange(16, 24)) as u64 as int;
            let count = from_le(h.subrange(26, 34)) as u64 as nat;
            let size = from_le(h.subrange(10, 12)) as u16 as nat;
            let end = leaf + 6 + count * size;
            &&& h.take(4) == seq![0x42u8, 0x54, 0x48, 0x44]
            &&& h[5] == kind
            &&& from_le(h.subrange(34, 38)) == lookup3(h.take(34))
            &&& end + 4 <= file.len()
            &&& file.subrange(leaf, leaf + 4) == seq![0x42u8, 0x54, 0x4c, 0x46]
            &&& file[leaf + 5] == kind
            &&& from_le(file.subrange(end, end + 4)) == lookup3(file.subrange(leaf, end))
            &&& index_records(file, parsed_index(file, at, kind)->0, kind)->0 == file.subrange(
                leaf + 6,
                end,
            )
        }),
{
    let h = file.subrange(at as int, at as int + 38);
    assert(index_info(h, kind) is Some);
    let info = index_info(h, kind)->0;
    let leaf = info.leaf_addr as int;
    let end = leaf + 6 + records_len(info);
    assert(0 <= records_len(info)) by (nonlinear_arith)
        requires
            records_len(info) == info.count as nat * info.record_size as nat,
    ;
    assert(h.take(4) =~= seq![0x42u8, 0x54, 0x48, 0x44]);
    assert(h.take(34) =~= h.subrange(0, 34));
    assert(file.subrange(leaf, leaf + 4) =~= seq![0x42u8, 0x54, 0x4c, 0x46]);
}

// ---------------------------------------------------------------------------
// Names
// ---------------------------------------------------------------------------

/// The link that is found under a name is a link message with that name and that
/// address; where none is found, no link message has the name.
pub proof fn law_link_has_its_name(ms: Seq<MessageView>, name: Seq<u8>) -> (k: int)
    ensures
        match hard_link(ms, name) {
            Some(address) => {
                &&& 0 <= k < ms.len()
                &&& ms[k].kind == MessageType::Link
                &&& parsed_link(ms[k].data) == Some((name, address))
            },
            None => forall|j: int|
                0 <= j < ms.len() && (#[trigger] ms[j]).kind == MessageType::Link ==> !(parsed_link(
                    ms[j].data,
                ) matches Some(link) && link.0 == name),
        },
    decreases ms.len(),
{
    if ms.len() == 0 {
        0
    } else {
        let found = parsed_link(ms[0].data) matches Some(link) && ms[0].kind == MessageType::Link
            && link.0 == name;
        if found {
            0
        } else {
            let rest = ms.skip(1);
            let k = law_link_has_its_name(rest, name);
            if hard_link(ms, name) is Some {
                assert(rest[k] == ms[k + 1]);
            } else {
                assert forall|j: int|
                    0 <= j < ms.len() && (#[trigger] ms[j]).kind == MessageType::Link implies !(
                parsed_link(ms[j].data) matches Some(link) && link.0 == name) by {
                    if j > 0 {
                        assert(rest[j - 1] == ms[j]);
                    }
                }
            }
            k + 1
        }
    }
}

/// The attribute that is found under a name is an attribute message with that name;
/// where none is found, no attribute message has the name.
pub proof fn law_attr_has_its_name(ms: Seq<MessageView>, name: Seq<u8>) -> (k: int)
    ensures
        match attr_named(ms, name) {
            Some(a) => {
                &&& 0 <= k < ms.len()
                &&& ms[k].kind == MessageType::Attribute
                &&& parsed_attr(ms[k].data) == Some(a)
                &&& a.name == name
            },
            None => forall|j: int|
                0 <= j < ms.len() && (#[trigger] ms[j]).kind == MessageType::Attribute ==> !(
                parsed_attr(ms[j].data) matches Some(a) && a.name == name),
        },
    decreases ms.len(),
{
    if ms.len() == 0 {
        0
    } else {
        let found = parsed_attr(ms[0].data) matches Some(a) && ms[0].kind == MessageType::Attribute
            && a.name == name;
        if found {
            0
        } else {
            let rest = ms.skip(1);
            let k = law_attr_has_its_name(rest, name);
            if attr_named(ms, name) is Some {
                assert(rest[k] == ms[k + 1]);
            } else {
                assert forall|j: int|
                    0 <= j < ms.len() && (#[trigger] ms[j]).kind
                        == MessageType::Attribute implies !(parsed_attr(ms[j].data) matches Some(a)
                    && a.name == name) by {
                    if j > 0 {
                        assert(rest[j - 1] == ms[j]);
                    }
                }
            }
            k + 1
        }
    }
}

proof fn lemma_name_end(name: Seq<u8>, rest: Seq<u8>)
    requires
        !name.contains(0x2f),
        rest.len() > 0 ==> rest[0] == 0x2f,
    ensures
        name_end(name + rest) == name.len(),
    decreases name.len(),
{
    let path = name + rest;
    if name.len() > 0 {
        assert(name[0] != 0x2f) by {
            assert(name.contains(name[0]));
        }
        assert(path[0] == name[0]);
        let less = name.skip(1);
        assert forall|i: int| 0 <= i < less.len() implies less[i] != 0x2f by {
            assert(name.contains(name[i + 1]));
        }
        assert(path.skip(1) =~= less + rest);
        lemma_name_end(less, rest);
    }
}

/// A path leads to where its first name leads, and from there by the rest of it.
pub proof fn law_path_goes_step_by_step(file: Seq<u8>, at: u64, name: Seq<u8>, rest: Seq<u8>)
    requires
        name.len() > 0,
        !name.contains(0x2f),
    ensures
        resolved(file, at, name + (seq![0x2fu8] + rest)) == match child(file, at, name) {
            Some(next) => resolved(file, next, rest),
            None => None,
        },
{
    let slash = seq![0x2fu8] + rest;
    lemma_name_end(name, slash);
    lemma_step(file, at, name, slash);
    if child(file, at, name) is Some {
        law_slashes_are_skipped(file, child(file, at, name)->0, rest);
    }
}

proof fn lemma_step(file: Seq<u8>, at: u64, name: Seq<u8>, rest: Seq<u8>)
    requires
        name.len() > 0,
        !name.contains(0x2f),
        name_end(name + rest) == name.len(),
    ensures
        resolved(file, at, name + rest) == match child(file, at, name) {
            Some(next) => resolved(file, next, rest),
            None => None,
        },
{
    let path = name + rest;
    assert(name.contains(name[0]));
    assert(path[0] == name[0] && path[0] != 0x2f);
    assert(path.take(name.len() as int) =~= name);
    assert(path.skip(name.len() as int) =~= rest);
    reveal_with_fuel(resolved, 1);
}

/// A name alone leads to the member with that name.
pub proof fn law_name_leads_to_member(file: Seq<u8>, at: u64, name: Seq<u8>)
    requires
        name.len() > 0,
        !name.contains(0x2f),
    ensures
        resolved(file, at, name) == child(file, at, name),
{
    let none = Seq::<u8>::empty();
    lemma_name_end(name, none);
    lemma_step(file, at, name, none);
    assert(name + none =~= name);
}

/// Slashes before a name do not count, and an empty path stays where it is.
pub proof fn law_slashes_are_skipped(file: Seq<u8>, at: u64, rest: Seq<u8>)
    ensures
        resolved(file, at, Seq::empty()) == Some(at),
        resolved(file, at, seq![0x2fu8] + rest) == resolved(file, at, rest),
{
    let slash = seq![0x2fu8] + rest;
    assert(slash[0] == 0x2f);
    assert(slash.skip(1) =~= rest);
}

// ---------------------------------------------------------------------------
// Data
// ---------------------------------------------------------------------------

/// What is read of a dataset in one piece are the bytes at its address; a piece that
/// goes beyond the end of the file, or that was never allocated, is refused, and so
/// are filtered chunks.
pub proof fn law_data_is_inside_file(file: Seq<u8>, ms: Seq<MessageView>, sb: Superblock)
    requires
        first_message(ms, MessageType::Datatype) is Some,
        parsed_datatype(first_message(ms, MessageType::Datatype)->0) is Some,
        first_message(ms, MessageType::Dataspace) is Some,
        parsed_dataspace(first_message(ms, MessageType::Dataspace)->0, sb.length_size) is Some,
        first_message(ms, MessageType::DataLayout) is Some,
    ensures
        match parsed_layout(
            first_message(ms, MessageType::DataLayout)->0,
            sb.offset_size,
            sb.length_size,
        ) {
            Some(DataLayout::Contiguous { address: Some(a), size }) => {
                &&& a + size <= file.len() ==> dataset_data(file, ms, sb) == Ok::<
                    Seq<u8>,
                    ReadFault,
                >(file.subrange(a as int, a + size))
                &&& a + size > file.len() ==> dataset_data(file, ms, sb) == Err::<
                    Seq<u8>,
                    ReadFault,
                >(ReadFault::Truncated)
            },
            Some(DataLayout::Contiguous { address: None, .. }) => dataset_data(file, ms, sb)
                == Err::<Seq<u8>, ReadFault>(ReadFault::UnsupportedLayout),
            Some(DataLayout::Chunked) => {
                let filters = first_message(ms, MessageType::FilterPipeline);
                sb.offset_size == 8 && filters is Some && filters->0.len() >= 2 && 1
                    <= filters->0[0] <= 2 && filters->0[1] > 0 ==> dataset_data(file, ms, sb)
                    == Err::<Seq<u8>, ReadFault>(ReadFault::UnsupportedFilter)
            },
            Some(_) => true,
            None => dataset_data(file, ms, sb) == Err::<Seq<u8>, ReadFault>(
                ReadFault::NoDataLayout,
            ),
        },
{
    reveal(dataset_data);
}

/// A dataset is read only with a datatype, a dataspace and a layout that can be
/// understood; which of them is missing is told, the datatype first.
pub proof fn law_missing_messages_are_told(file: Seq<u8>, ms: Seq<MessageView>, sb: Superblock)
    ensures
        first_message(ms, MessageType::Datatype) is None ==> dataset_data(file, ms, sb) == Err::<
            Seq<u8>,
            ReadFault,
        >(ReadFault::NoDatatype),
        first_message(ms, MessageType::Datatype) is Some && parsed_datatype(
            first_message(ms, MessageType::Datatype)->0,
        ) is Some && first_message(ms, MessageType::Dataspace) is None ==> dataset_data(
            file,
            ms,
            sb,
        ) == Err::<Seq<u8>, ReadFault>(ReadFault::NoDataspace),
        dataset_data(file, ms, sb) is Ok ==> first_message(ms, MessageType::Datatype) is Some
            && first_message(ms, MessageType::Dataspace) is Some && first_message(
            ms,
            MessageType::DataLayout,
        ) is Some,
{
    reveal(dataset_data);
}

proof fn lemma_no_entries(
    file: Seq<u8>,
    dims: Seq<u64>,
    cdims: Seq<u64>,
    elem_size: nat,
    n: int,
)
    requires
        0 <= n,
    ensures
        stored_elems(file, Seq::empty(), dims, cdims, elem_size, n).len() == n * elem_size,
        forall|i: int|
            0 <= i < n * elem_size ==> #[trigger] stored_elems(
                file,
                Seq::empty(),
                dims,
                cdims,
                elem_size,
                n,
            )[i] == 0,
    decreases n,
{
    if n > 0 {
        lemma_no_entries(file, dims, cdims, elem_size, n - 1);
        let none = Seq::<(u64, Seq<u64>)>::empty();
        assert(stored_elem(file, none, dims, cdims, elem_size, n - 1) == zeros(elem_size));
        assert((n - 1) * elem_size + elem_size == n * elem_size) by (nonlinear_arith);
    } else {
        assert(n * elem_size == 0) by (nonlinear_arith)
            requires
                n == 0,
        ;
    }
}

/// A chunked dataset without any chunk reads as zeros.
pub proof fn law_missing_chunks_read_as_zeros(file: Seq<u8>, data: Seq<u8>, dims: Seq<u64>, i: int)
    requires
        parsed_chunked(data) is Some,
        is_sound(parsed_chunked(data)->0, dims),
        parsed_chunked(data)->0.index matches ChunkIndex::Single(a) ==> a == u64::MAX,
        parsed_chunked(data)->0.index matches ChunkIndex::Tree(a) ==> a == u64::MAX,
        0 <= i < suffix_product(dims, 0) * parsed_chunked(data)->0.elem_size,
    ensures
        chunked_answer(file, data, dims) is Ok,
        chunked_answer(file, data, dims)->Ok_0.len() == suffix_product(dims, 0) * parsed_chunked(
            data,
        )->0.elem_size,
        chunked_answer(file, data, dims)->Ok_0[i] == 0,
{
    let l = parsed_chunked(data)->0;
    reveal(chunk_entries);
    assert(chunk_entries(file, l.index, dims.len()) == Some(Seq::<(u64, Seq<u64>)>::empty()));
    lemma_no_entries(file, dims, l.cdims, l.elem_size as nat, suffix_product(dims, 0) as int);
}

// ---------------------------------------------------------------------------
// Memory files
// ---------------------------------------------------------------------------

/// A memory file is read only if each of its tables is there, and each that has rows
/// has all its columns.
pub proof fn law_readable_memory_has_all_columns(file: Seq<u8>)
    requires
        memory_fault(file) is None,
    ensures
        row_count(file, "chunks"@) is Ok,
        row_count(file, "sessions"@) is Ok,
        row_count(file, "entities"@) is Ok,
        row_count(file, "relations"@) is Ok,
        row_count(file, "chunks"@)->Ok_0 != 0 ==> {
            &&& column_bytes(file, "chunks/id"@) is Ok
            &&& column_texts(file, "chunks/text"@) is Ok
            &&& column_texts(file, "chunks/source_channel"@) is Ok
            &&& column_bytes(file, "chunks/timestamp"@) is Ok
            &&& column_texts(file, "chunks/session_id"@) is Ok
            &&& column_texts(file, "chunks/tags"@) is Ok
            &&& column_bytes(file, "chunks/deleted"@) is Ok
            &&& column_bytes(file, "chunks/embeddings"@) is Ok
        },
        row_count(file, "sessions"@)->Ok_0 != 0 ==> {
            &&& column_texts(file, "sessions/id"@) is Ok
            &&& column_bytes(file, "sessions/start_idx"@) is Ok
            &&& column_bytes(file, "sessions/end_idx"@) is Ok
            &&& column_texts(file, "sessions/channel"@) is Ok
            &&& column_bytes(file, "sessions/timestamp"@) is Ok
            &&& column_texts(file, "sessions/summary"@) is Ok
        },
        row_count(file, "entities"@)->Ok_0 != 0 ==> {
            &&& column_bytes(file, "entities/id"@) is Ok
            &&& column_texts(file, "entities/name"@) is Ok
            &&& column_texts(file, "entities/type"@) is Ok
            &&& column_bytes(file, "entities/embedding_idx"@) is Ok
        },
        row_count(file, "relations"@)->Ok_0 != 0 ==> {
            &&& column_bytes(file, "relations/src"@) is Ok
            &&& column_bytes(file, "relations/tgt"@) is Ok
            &&& column_texts(file, "relations/relation"@) is Ok
            &&& column_bytes(file, "relations/weight"@) is Ok
            &&& column_bytes(file, "relations/timestamp"@) is Ok
        },
{
}

/// A file that is no memory file is refused with the reason why it cannot be read.
pub proof fn law_strange_file_is_refused(file: Seq<u8>, path: Seq<u8>)
    requires
        parsed_superblock(file) is None,
    ensures
        read_answer(file, path) == Err::<Seq<u8>, ReadFault>(ReadFault::NoSuperblock),
        memory_fault(file) == Some(MemoryFault::Unreadable(ReadFault::NotFound)),
{
    reveal(row_count);
}

/// A column has the bytes of the dataset at its path, and is refused where that
/// dataset cannot be read. The rows of a table are counted by its group's attribute;
/// without the group there is no table.
pub proof fn law_columns_are_datasets(file: Seq<u8>, path: Seq<char>)
    ensures
        read_answer(file, encode_utf8(path)) matches Ok(data) ==> column_bytes(file, path) == Ok::<
            Seq<u8>,
            MemoryFault,
        >(data),
        read_answer(file, encode_utf8(path)) matches Err(fault) ==> column_bytes(file, path)
            == Err::<Seq<u8>, MemoryFault>(MemoryFault::Unreadable(fault)),
        object_messages(file, encode_utf8(path)) is None ==> row_count(file, path) == Err::<
            i64,
            MemoryFault,
        >(MemoryFault::Unreadable(ReadFault::NotFound)),
        object_messages(file, encode_utf8(path)) is Some && int_attr(
            file,
            encode_utf8(path),
            encode_utf8("count"@),
        ) is Some ==> row_count(file, path) == Ok::<i64, MemoryFault>(
            int_attr(file, encode_utf8(path), encode_utf8("count"@))->0,
        ),
{
    reveal(column_bytes);
    reveal(row_count);
}

} // verus!
