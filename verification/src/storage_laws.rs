//! What is stated in the parts of a file that hold many small objects, and in the
//! columns of a table.

use crate::bytes::{
    from_le, le64_all, le_bytes, lemma_byte_span, lemma_le64_all_len, lemma_le_len,
    lemma_le_roundtrip,
};
use crate::builders::law_numbers_stand_in_order;
use crate::checksum::lookup3;
use crate::columns::{f32_values, i32_words, i64_words, trimmed, ColumnView};
use crate::dense::{attr_hashes, attr_records, link_hashes, link_records};
use crate::file_laws::lemma_numbers;
use crate::fractal_heap::{
    heap_header_bytes, heap_header_fields, heap_header_of, row_size, rows_size, HeapHeader,
};
use crate::half::widened;
use crate::messages::{
    parsed_dataspace, parsed_layout, AttrValue, DataLayout, DatatypeInfo, LinkView,
};
use vstd::arithmetic::power2::{lemma2_to64, lemma_pow2_unfold, pow2};
use vstd::prelude::*;
use vstd::utf8::encode_utf8;

verus! {

// ---------------------------------------------------------------------------
// Heaps and their indexes
// ---------------------------------------------------------------------------

/// A heap's header states the size of its identifiers, what an object may take at
/// most, how much room is free, managed and allocated, how many objects there are,
/// and where the first block is.
#[verifier::spinoff_prover]
#[verifier::rlimit(60)]
pub proof fn law_heap_header_states_fields(p: HeapHeader)
    ensures
        ({
            let h = heap_header_bytes(p);
            &&& h.len() == 146
            &&& from_le(h.subrange(5, 7)) == p.heap_id_length
            &&& from_le(h.subrange(10, 14)) == p.max_managed
            &&& from_le(h.subrange(30, 38)) == p.free_space
            &&& from_le(h.subrange(46, 54)) == p.managed_space
            &&& from_le(h.subrange(54, 62)) == p.alloc_space
            &&& from_le(h.subrange(70, 78)) == p.nobjects
            &&& from_le(h.subrange(110, 112)) == 4
            &&& from_le(h.subrange(112, 120)) == p.starting_block_size
            &&& from_le(h.subrange(120, 128)) == 65536
            &&& from_le(h.subrange(128, 130)) == p.max_heap_size
            &&& from_le(h.subrange(132, 140)) == p.root_addr
            &&& from_le(h.subrange(140, 142)) == p.cur_rows
        }),
{
    let h = heap_header_bytes(p);
    lemma_byte_span();
    lemma_le_len(p.heap_id_length as nat, 2);
    lemma_le_len(0, 2);
    lemma_le_len(p.max_managed as nat, 4);
    lemma_le_len(0, 8);
    lemma_le_len(u64::MAX as nat, 8);
    lemma_le_len(p.free_space as nat, 8);
    lemma_le_len(p.managed_space as nat, 8);
    lemma_le_len(p.alloc_space as nat, 8);
    lemma_le_len(p.nobjects as nat, 8);
    lemma_le_len(4, 2);
    lemma_le_len(p.starting_block_size as nat, 8);
    lemma_le_len(65536, 8);
    lemma_le_len(p.max_heap_size as nat, 2);
    lemma_le_len(1, 2);
    lemma_le_len(p.root_addr as nat, 8);
    lemma_le_len(p.cur_rows as nat, 2);
    lemma_le_len(lookup3(heap_header_fields(p)) as nat, 4);
    lemma_le_roundtrip(p.heap_id_length as nat, 2);
    lemma_le_roundtrip(p.max_managed as nat, 4);
    lemma_le_roundtrip(p.free_space as nat, 8);
    lemma_le_roundtrip(p.managed_space as nat, 8);
    lemma_le_roundtrip(p.alloc_space as nat, 8);
    lemma_le_roundtrip(p.nobjects as nat, 8);
    lemma_le_roundtrip(4, 2);
    lemma_le_roundtrip(p.starting_block_size as nat, 8);
    lemma_le_roundtrip(65536, 8);
    lemma_le_roundtrip(p.max_heap_size as nat, 2);
    lemma_le_roundtrip(p.root_addr as nat, 8);
    lemma_le_roundtrip(p.cur_rows as nat, 2);
    assert(h.subrange(5, 7) =~= le_bytes(p.heap_id_length as nat, 2));
    assert(h.subrange(10, 14) =~= le_bytes(p.max_managed as nat, 4));
    assert(h.subrange(30, 38) =~= le_bytes(p.free_space as nat, 8));
    assert(h.subrange(46, 54) =~= le_bytes(p.managed_space as nat, 8));
    assert(h.subrange(54, 62) =~= le_bytes(p.alloc_space as nat, 8));
    assert(h.subrange(70, 78) =~= le_bytes(p.nobjects as nat, 8));
    assert(h.subrange(110, 112) =~= le_bytes(4, 2));
    assert(h.subrange(112, 120) =~= le_bytes(p.starting_block_size as nat, 8));
    assert(h.subrange(120, 128) =~= le_bytes(65536, 8));
    assert(h.subrange(128, 130) =~= le_bytes(p.max_heap_size as nat, 2));
    assert(h.subrange(132, 140) =~= le_bytes(p.root_addr as nat, 8));
    assert(h.subrange(140, 142) =~= le_bytes(p.cur_rows as nat, 2));
}

/// The header of a heap counts the heap's objects, and leads to the block behind it.
pub proof fn law_heap_header_counts_objects(
    objs: Seq<Seq<u8>>,
    base: u64,
    max_heap_size: u16,
    id_length: u16,
)
    requires
        objs.len() <= u64::MAX,
        base + 146 <= u64::MAX,
    ensures
        heap_header_of(objs, base, max_heap_size, id_length).nobjects == objs.len(),
        heap_header_of(objs, base, max_heap_size, id_length).root_addr == base + 146,
        heap_header_of(objs, base, max_heap_size, id_length).heap_id_length == id_length,
        heap_header_of(objs, base, max_heap_size, id_length).max_heap_size == max_heap_size,
{
}

/// The record of a dense attribute ends with its place in the order of creation and
/// the checksum of its name; that of a dense link starts with the checksum.
pub proof fn law_dense_records_state_name_hash(
    attrs: Seq<(String, AttrValue)>,
    links: Seq<LinkView>,
    i: int,
)
    ensures
        0 <= i < attrs.len() && i <= u32::MAX ==> {
            let r = attr_records(attrs)[i];
            let n = r.len() as int;
            &&& n >= 9
            &&& from_le(r.subrange(n - 4, n)) == lookup3(encode_utf8(attrs[i].0@))
            &&& from_le(r.subrange(n - 8, n - 4)) == i
            &&& r[n - 9] == 0
        },
        0 <= i < links.len() ==> {
            let r = link_records(links)[i];
            &&& r.len() >= 4
            &&& from_le(r.subrange(0, 4)) == lookup3(encode_utf8(links[i].name()))
        },
{
    lemma_byte_span();
    if 0 <= i < attrs.len() && i <= u32::MAX {
        let hash = lookup3(encode_utf8(attrs[i].0@)) as nat;
        let r = attr_records(attrs)[i];
        let n = r.len() as int;
        assert(attr_hashes(attrs)[i] == hash);
        lemma_le_len(hash, 4);
        lemma_le_len(i as nat, 4);
        lemma_le_roundtrip(hash, 4);
        lemma_le_roundtrip(i as nat, 4);
        assert(r.subrange(n - 4, n) =~= le_bytes(hash, 4));
        assert(r.subrange(n - 8, n - 4) =~= le_bytes(i as nat, 4));
    }
    if 0 <= i < links.len() {
        let hash = lookup3(encode_utf8(links[i].name())) as nat;
        let r = link_records(links)[i];
        assert(link_hashes(links)[i] == hash);
        lemma_le_len(hash, 4);
        lemma_le_roundtrip(hash, 4);
        assert(r.subrange(0, 4) =~= le_bytes(hash, 4));
    }
}

// ---------------------------------------------------------------------------
// Messages of other writers
// ---------------------------------------------------------------------------

/// A dataspace message of the first version has its extent behind eight bytes, one of
/// the second behind four; both read as the extent.
pub proof fn law_both_dataspace_versions_read(dims: Seq<u64>, max_dims: Seq<u64>, grows: bool)
    requires
        dims.len() <= 255,
        max_dims.len() == dims.len(),
    ensures
        ({
            let rank = dims.len() as u8;
            let flag: u8 = if grows {
                1
            } else {
                0
            };
            let tail = if grows {
                le64_all(dims) + le64_all(max_dims)
            } else {
                le64_all(dims)
            };
            &&& parsed_dataspace(seq![1u8, rank, flag, 0, 0, 0, 0, 0] + tail, 8) == Some(dims)
            &&& parsed_dataspace(seq![2u8, rank, flag, 1] + tail, 8) == Some(dims)
        }),
{
    let rank = dims.len() as int;
    let flag: u8 = if grows {
        1
    } else {
        0
    };
    let tail = if grows {
        le64_all(dims) + le64_all(max_dims)
    } else {
        le64_all(dims)
    };
    lemma_le64_all_len(dims);
    lemma_le64_all_len(max_dims);
    let one = seq![1u8, rank as u8, flag, 0, 0, 0, 0, 0] + tail;
    let two = seq![2u8, rank as u8, flag, 1] + tail;
    assert(one.subrange(8, 8 + 8 * rank) =~= le64_all(dims));
    assert(two.subrange(4, 4 + 8 * rank) =~= le64_all(dims));
    lemma_numbers(one, 8, dims, rank);
    lemma_numbers(two, 4, dims, rank);
    assert(dims.take(rank) =~= dims);
    assert(1 * rank * 8 == 8 * rank && 2 * rank * 8 == 16 * rank);
}

/// The class of a layout message says how data is stored; contiguous data has an
/// address, or none where all its bits are set, and a size.
pub proof fn law_layout_classes_are_read(address: u64, size: u64, index: u32, rest: Seq<u8>)
    ensures
        parsed_layout(seq![3u8, 1] + le_bytes(address as nat, 8) + le_bytes(size as nat, 8), 8, 8)
            matches Some(DataLayout::Contiguous { size: s, address: a }) && s == size && (
        address < u64::MAX ==> a == Some(address)),
        parsed_layout(seq![4u8, 2] + rest, 8, 8) == Some(DataLayout::Chunked),
        parsed_layout(seq![4u8, 3] + le_bytes(address as nat, 8) + le_bytes(index as nat, 4), 8, 8)
            == Some(DataLayout::Virtual { heap_address: address, heap_index: index }),
        rest.len() < 0x1_0000 ==> parsed_layout(
            seq![4u8, 0] + le_bytes(rest.len(), 2) + rest,
            8,
            8,
        ) == Some(DataLayout::Compact { size: rest.len() as u16 }),
{
    lemma_byte_span();
    lemma_le_len(address as nat, 8);
    lemma_le_len(size as nat, 8);
    lemma_le_len(index as nat, 4);
    lemma_le_len(rest.len(), 2);
    lemma_le_roundtrip(address as nat, 8);
    lemma_le_roundtrip(size as nat, 8);
    lemma_le_roundtrip(index as nat, 4);
    let flat = seq![3u8, 1] + le_bytes(address as nat, 8) + le_bytes(size as nat, 8);
    assert(flat.subrange(2, 10) =~= le_bytes(address as nat, 8));
    assert(flat.subrange(10, 18) =~= le_bytes(size as nat, 8));
    if address < u64::MAX {
        lemma_some_bit_clear(address);
        let k = choose|k: int| 0 <= k < 8 && #[trigger] le_bytes(address as nat, 8)[k] != 0xff;
        assert(flat[2 + k] == le_bytes(address as nat, 8)[k]);
    }
    let mapped = seq![4u8, 3] + le_bytes(address as nat, 8) + le_bytes(index as nat, 4);
    assert(mapped.subrange(2, 10) =~= le_bytes(address as nat, 8));
    assert(mapped.subrange(10, 14) =~= le_bytes(index as nat, 4));
    if rest.len() < 0x1_0000 {
        let small = seq![4u8, 0] + le_bytes(rest.len(), 2) + rest;
        lemma_le_roundtrip(rest.len(), 2);
        assert(small.subrange(2, 4) =~= le_bytes(rest.len(), 2));
    }
}

proof fn lemma_some_bit_clear(address: u64)
    requires
        address < u64::MAX,
    ensures
        exists|k: int| 0 <= k < 8 && #[trigger] le_bytes(address as nat, 8)[k] != 0xff,
{
    lemma_byte_span();
    lemma_le_len(address as nat, 8);
    lemma_le_len(u64::MAX as nat, 8);
    lemma_le_roundtrip(address as nat, 8);
    lemma_le_roundtrip(u64::MAX as nat, 8);
    if forall|k: int| 0 <= k < 8 ==> #[trigger] le_bytes(address as nat, 8)[k] == 0xff {
        assert forall|k: int| 0 <= k < 8 implies #[trigger] le_bytes(u64::MAX as nat, 8)[k]
            == 0xff by {
            reveal_with_fuel(le_bytes, 9);
        }
        assert(le_bytes(address as nat, 8) =~= le_bytes(u64::MAX as nat, 8));
    }
}

// ---------------------------------------------------------------------------
// Columns
// ---------------------------------------------------------------------------

/// A column of numbers has one element for each, in order; negative integers stand
/// as their two's complement.
pub proof fn law_number_columns_stand_in_order(
    longs: Seq<i64>,
    ints: Seq<i32>,
    doubles: Seq<u64>,
    singles: Seq<u32>,
    i: int,
)
    ensures
        0 <= i < longs.len() ==> from_le(
            ColumnView::I64(longs).bytes().subrange(8 * i, 8 * i + 8),
        ) == if longs[i] >= 0 {
            longs[i] as int
        } else {
            longs[i] + 0x1_0000_0000_0000_0000
        },
        0 <= i < ints.len() ==> from_le(ColumnView::I32(ints).bytes().subrange(4 * i, 4 * i + 4))
            == if ints[i] >= 0 {
            ints[i] as int
        } else {
            ints[i] + 0x1_0000_0000
        },
        0 <= i < doubles.len() ==> from_le(
            ColumnView::F64(doubles).bytes().subrange(8 * i, 8 * i + 8),
        ) == doubles[i],
        0 <= i < singles.len() ==> from_le(
            ColumnView::F32(singles).bytes().subrange(4 * i, 4 * i + 4),
        ) == singles[i],
{
    law_numbers_stand_in_order(i64_words(longs), i32_words(ints), i);
    law_numbers_stand_in_order(doubles, singles, i);
}

/// Embeddings are read by their type: two bytes each where it is a 16-bit number, and
/// four otherwise.
pub proof fn law_embedding_type_decides(data: Seq<u8>, info: Option<DatatypeInfo>, i: int)
    requires
        0 <= i,
    ensures
        info == Some(DatatypeInfo { class: 1, size: 2 }) && i < data.len() / 2 ==> f32_values(
            data,
            info,
        )[i] == widened(from_le(data.subrange(2 * i, 2 * i + 2)) as u16),
        info != Some(DatatypeInfo { class: 1, size: 2 }) && i < data.len() / 4 ==> f32_values(
            data,
            info,
        )[i] == from_le(data.subrange(4 * i, 4 * i + 4)) as u32,
{
}

/// Trimming takes away zeros at the end, all of them and nothing else.
pub proof fn law_trimming_takes_only_zeros(s: Seq<u8>)
    ensures
        trimmed(s).len() <= s.len(),
        trimmed(s) == s.take(trimmed(s).len() as int),
        forall|i: int| trimmed(s).len() <= i < s.len() ==> #[trigger] s[i] == 0,
        trimmed(s).len() > 0 ==> trimmed(s).last() != 0,
    decreases s.len(),
{
    if s.len() > 0 && s.last() == 0 {
        let less = s.drop_last();
        law_trimming_takes_only_zeros(less);
        let n = trimmed(s).len() as int;
        assert(s.take(n) =~= less.take(n));
        assert forall|i: int| n <= i < s.len() implies #[trigger] s[i] == 0 by {
            if i < less.len() {
                assert(less[i] == s[i]);
            }
        }
    } else {
        assert(s.take(s.len() as int) =~= s);
    }
}

/// Rows of a heap's table have blocks of 512 bytes twice, and then of twice the size
/// with each row; together they manage what all their blocks hold.
pub proof fn law_heap_rows_double(row: nat)
    ensures
        row_size(0) == 512,
        row_size(row + 1) == 512 * pow2(row),
        rows_size(0) == 0,
        rows_size(row + 1) == 2048 * pow2(row),
    decreases row,
{
    lemma2_to64();
    if row > 0 {
        law_heap_rows_double((row - 1) as nat);
        lemma_pow2_unfold(row);
    } else {
        assert(rows_size(1) == rows_size(0) + 4 * row_size(0));
    }
}

} // verus!
