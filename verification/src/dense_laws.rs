//! What was stored densely is read back.

use crate::bytes::{from_le, joined, le_bytes, lemma_byte_span, lemma_le_len, lemma_le_roundtrip};
use crate::checksum::lookup3;
use crate::dense::{
    attr_hashes, attr_messages, attr_record, attr_records, btree_bytes, btree_header_fields,
    btree_leaf_fields, dense_attr_bytes, dense_attr_info, dense_attr_len, dense_link_bytes,
    dense_link_info, dense_link_len, info_bytes, lemma_attr_records_len, lemma_btree_len,
    lemma_dense_attr_len, lemma_dense_link_len, lemma_id_len, lemma_joined_uniform,
    lemma_link_records_len, lemma_order_in_range, link_hashes, link_messages, link_records,
    node_size, reordered, sorted_order, BTHD_SIZE,
};
use crate::dense_reader::{
    block_holding, dense_objects, heap_info, heap_object, heap_place, index_info, index_records,
    indexed_objects, parsed_heap, parsed_index, parsed_info, record_id, records_len, HeapInfo,
    IndexInfo,
};
use crate::fractal_heap::{
    block_addresses, block_header_len, block_offset, block_size, decoded_id,
    direct_blocks, heap_bytes, heap_data_start,
    heap_header_bytes, heap_header_fields, heap_header_of, heap_len, indirect_block, indirect_len,
    law_heap_holds_objects, law_managed_id_roundtrip, lemma_block_addresses_len,
    lemma_block_offset_monotonic, lemma_heap_bytes_len, lemma_heap_header_len, lemma_indirect_len,
    lemma_last_block, lemma_packed_grows, object_ids, object_offset, offset_bytes, one_block,
    packed, row_size, rows_of, HeapHeader, FRHP_SIZE,
};
use crate::messages::{AttrValue, LinkView};
use vstd::arithmetic::power2::{
    lemma2_to64, lemma2_to64_rest, lemma_pow2_strictly_increases, lemma_pow2_unfold, pow2,
};
use vstd::prelude::*;

verus! {

// ---------------------------------------------------------------------------
// Heap headers
// ---------------------------------------------------------------------------

spec fn heap_start(p: HeapHeader) -> Seq<u8> {
    seq![0x46u8, 0x52, 0x48, 0x50] + seq![0u8] + le_bytes(p.heap_id_length as nat, 2) + le_bytes(
        0,
        2,
    ) + seq![2u8] + le_bytes(p.max_managed as nat, 4)
}

spec fn heap_counts(p: HeapHeader) -> Seq<u8> {
    le_bytes(0, 8) + le_bytes(u64::MAX as nat, 8) + le_bytes(p.free_space as nat, 8) + le_bytes(
        u64::MAX as nat,
        8,
    ) + le_bytes(p.managed_space as nat, 8) + le_bytes(p.alloc_space as nat, 8) + le_bytes(0, 8)
        + le_bytes(p.nobjects as nat, 8) + le_bytes(0, 8) + le_bytes(0, 8) + le_bytes(0, 8)
        + le_bytes(0, 8)
}

spec fn heap_table(p: HeapHeader) -> Seq<u8> {
    le_bytes(4, 2) + le_bytes(p.starting_block_size as nat, 8) + le_bytes(65536, 8) + le_bytes(
        p.max_heap_size as nat,
        2,
    ) + le_bytes(1, 2) + le_bytes(p.root_addr as nat, 8) + le_bytes(p.cur_rows as nat, 2)
}

proof fn lemma_heap_parts(p: HeapHeader)
    ensures
        heap_start(p).len() == 14,
        heap_counts(p).len() == 96,
        heap_table(p).len() == 32,
        heap_header_fields(p) == heap_start(p) + heap_counts(p) + heap_table(p),
{
    lemma_le_len(p.heap_id_length as nat, 2);
    lemma_le_len(0, 2);
    lemma_le_len(p.max_managed as nat, 4);
    lemma_le_len(0, 8);
    lemma_le_len(u64::MAX as nat, 8);
    lemma_le_len(p.free_space as nat, 8);
    lemma_le_len(p.managed_space as nat, 8);
    lemma_le_len(p.alloc_space as nat, 8);
    lemma_le_len(p.nobjects as nat, 8);
    lemma_le_len(4, 2);
    lemma_le_len(p.starting_block_size as nat, 8);
    lemma_le_len(65536, 8);
    lemma_le_len(p.max_heap_size as nat, 2);
    lemma_le_len(1, 2);
    lemma_le_len(p.root_addr as nat, 8);
    lemma_le_len(p.cur_rows as nat, 2);
    assert(heap_header_fields(p) =~= heap_start(p) + heap_counts(p) + heap_table(p));
}

proof fn lemma_heap_start(p: HeapHeader)
    ensures
        heap_start(p)[0] == 0x46,
        heap_start(p)[1] == 0x52,
        heap_start(p)[2] == 0x48,
        heap_start(p)[3] == 0x50,
        heap_start(p).len() == 14,
        heap_start(p).subrange(5, 7) == le_bytes(p.heap_id_length as nat, 2),
{
    lemma_heap_parts(p);
    lemma_le_len(p.heap_id_length as nat, 2);
    lemma_le_len(0, 2);
    lemma_le_len(p.max_managed as nat, 4);
    assert(heap_start(p).subrange(5, 7) =~= le_bytes(p.heap_id_length as nat, 2));
}

proof fn lemma_heap_table(p: HeapHeader)
    ensures
        heap_table(p).len() == 32,
        heap_table(p).subrange(0, 2) == le_bytes(4, 2),
        heap_table(p).subrange(2, 10) == le_bytes(p.starting_block_size as nat, 8),
        heap_table(p).subrange(18, 20) == le_bytes(p.max_heap_size as nat, 2),
        heap_table(p).subrange(22, 30) == le_bytes(p.root_addr as nat, 8),
        heap_table(p).subrange(30, 32) == le_bytes(p.cur_rows as nat, 2),
{
    lemma_le_len(4, 2);
    lemma_le_len(p.starting_block_size as nat, 8);
    lemma_le_len(65536, 8);
    lemma_le_len(p.max_heap_size as nat, 2);
    lemma_le_len(1, 2);
    lemma_le_len(p.root_addr as nat, 8);
    lemma_le_len(p.cur_rows as nat, 2);
    assert(heap_table(p).subrange(0, 2) =~= le_bytes(4, 2));
    assert(heap_table(p).subrange(2, 10) =~= le_bytes(p.starting_block_size as nat, 8));
    assert(heap_table(p).subrange(18, 20) =~= le_bytes(p.max_heap_size as nat, 2));
    assert(heap_table(p).subrange(22, 30) =~= le_bytes(p.root_addr as nat, 8));
    assert(heap_table(p).subrange(30, 32) =~= le_bytes(p.cur_rows as nat, 2));
}

/// A heap header reads back.
pub proof fn law_heap_header_roundtrip(p: HeapHeader)
    requires
        p.max_heap_size < 64,
        p.cur_rows == 0 || p.starting_block_size == 512,
    ensures
        heap_info(heap_header_bytes(p)) == Some(
            HeapInfo {
                id_length: p.heap_id_length,
                max_heap_size: p.max_heap_size,
                root_addr: p.root_addr,
                rows: p.cur_rows,
            },
        ),
{
    let h = heap_header_bytes(p);
    let a = heap_start(p);
    let b = heap_counts(p);
    let c = heap_table(p);
    let sum = lookup3(heap_header_fields(p)) as nat;
    lemma_heap_header_len(p);
    lemma_heap_parts(p);
    lemma_heap_start(p);
    lemma_heap_table(p);
    lemma_le_len(sum, 4);
    lemma_byte_span();
    assert(h =~= a + b + c + le_bytes(sum, 4));
    assert(h.subrange(0, 142) =~= heap_header_fields(p));
    assert(h.subrange(142, 146) =~= le_bytes(sum, 4));
    assert(h.subrange(5, 7) =~= a.subrange(5, 7));
    assert(h.subrange(110, 112) =~= c.subrange(0, 2));
    assert(h.subrange(112, 120) =~= c.subrange(2, 10));
    assert(h.subrange(128, 130) =~= c.subrange(18, 20));
    assert(h.subrange(132, 140) =~= c.subrange(22, 30));
    assert(h.subrange(140, 142) =~= c.subrange(30, 32));
    assert(h[0] == a[0] && h[1] == a[1] && h[2] == a[2] && h[3] == a[3]);
    lemma_le_roundtrip(sum, 4);
    lemma_le_roundtrip(p.heap_id_length as nat, 2);
    lemma_le_roundtrip(4, 2);
    lemma_le_roundtrip(p.starting_block_size as nat, 8);
    lemma_le_roundtrip(p.max_heap_size as nat, 2);
    lemma_le_roundtrip(p.root_addr as nat, 8);
    lemma_le_roundtrip(p.cur_rows as nat, 2);
}

// ---------------------------------------------------------------------------
// Heaps
// ---------------------------------------------------------------------------

/// Whether object `i` is of a size that an identifier can say.
pub open spec fn has_length(objs: Seq<Seq<u8>>, i: int) -> bool {
    0 < objs[i].len() < 0x1_0000
}

/// Whether objects can be found again in their heap: each is of a size that an
/// identifier can say, and so is the heap.
pub open spec fn is_recoverable(objs: Seq<Seq<u8>>, max_heap_size: u16) -> bool {
    &&& heap_len(objs, max_heap_size) <= (1u64 << (max_heap_size as u64))
    &&& heap_len(objs, max_heap_size) <= 0x100_0000_0000
    &&& forall|i: int|
        0 <= i < objs.len() ==> #[trigger] has_length(objs, i)
}

/// Whether the heap of `objs` stands in a file at `at`.
pub open spec fn holds_heap(
    file: Seq<u8>,
    at: u64,
    objs: Seq<Seq<u8>>,
    max_heap_size: u16,
    id_length: u16,
) -> bool {
    let len = heap_len(objs, max_heap_size);
    &&& at + len <= file.len()
    &&& at + len <= u64::MAX
    &&& file.subrange(at as int, (at + len) as int) == heap_bytes(
        objs,
        at,
        max_heap_size,
        id_length,
    )
}

proof fn lemma_row_grows(row: nat)
    ensures
        row_size(row) >= pow2(row),
    decreases row,
{
    lemma2_to64();
    if row > 1 {
        lemma_row_grows((row - 1) as nat);
        lemma_pow2_unfold(row);
    }
}

/// A heap of moderate size has few rows.
proof fn lemma_few_rows(n: int)
    requires
        n >= 1,
        block_offset(n) <= 0x100_0000_0000,
    ensures
        1 <= rows_of(n) <= 41,
{
    let row = ((n - 1) / 4) as nat;
    lemma_row_grows(row);
    lemma2_to64();
    lemma2_to64_rest();
    if row > 40 {
        lemma_pow2_strictly_increases(40, row);
        assert(block_size(n - 1) == row_size(row));
    }
}

/// What a reader finds out about the heap of `objs` at `at`.
pub open spec fn info_of_heap(
    objs: Seq<Seq<u8>>,
    at: u64,
    max_heap_size: u16,
    id_length: u16,
) -> HeapInfo {
    HeapInfo {
        id_length,
        max_heap_size,
        root_addr: (at + FRHP_SIZE) as u64,
        rows: heap_header_of(objs, at, max_heap_size, id_length).cur_rows,
    }
}

/// A heap that stands in a file is found there.
pub proof fn law_heap_is_found(
    file: Seq<u8>,
    at: u64,
    objs: Seq<Seq<u8>>,
    max_heap_size: u16,
    id_length: u16,
)
    requires
        holds_heap(file, at, objs, max_heap_size, id_length),
        max_heap_size < 64,
    ensures
        parsed_heap(file, at as nat) == Some(info_of_heap(objs, at, max_heap_size, id_length)),
{
    reveal(heap_bytes);
    let p = heap_header_of(objs, at, max_heap_size, id_length);
    let whole = heap_bytes(objs, at, max_heap_size, id_length);
    lemma_heap_bytes_len(objs, at, max_heap_size, id_length);
    lemma_heap_header_len(p);
    law_heap_header_roundtrip(p);
    assert(whole.take(146) =~= heap_header_bytes(p));
    assert(file.subrange(at as int, at + 146) =~= whole.take(146));
}

proof fn lemma_holding(offset: nat, n: int, j: int, k: int)
    requires
        0 <= j <= k < n,
        block_offset(k) <= offset < block_offset(k + 1),
    ensures
        block_holding(offset, n, j) == Some(k),
    decreases k - j,
{
    if j < k {
        lemma_block_offset_monotonic(j + 1, k);
        lemma_holding(offset, n, j + 1, k);
    }
}

proof fn lemma_address_entry(first: nat, n: int, k: int)
    requires
        0 <= k < n,
    ensures
        block_addresses(first, n).len() == 8 * n,
        block_addresses(first, n).subrange(8 * k, 8 * k + 8) == le_bytes(
            first + block_offset(k),
            8,
        ),
    decreases n,
{
    lemma_block_addresses_len(first, n);
    lemma_block_addresses_len(first, n - 1);
    lemma_le_len(first + block_offset(n - 1), 8);
    let all = block_addresses(first, n);
    if k < n - 1 {
        lemma_address_entry(first, n - 1, k);
        assert(all.subrange(8 * k, 8 * k + 8) =~= block_addresses(first, n - 1).subrange(
            8 * k,
            8 * k + 8,
        ));
    } else {
        assert(all.subrange(8 * k, 8 * k + 8) =~= le_bytes(first + block_offset(k), 8));
    }
}

/// The root block says where block `k` is.
proof fn lemma_root_entry(heap_addr: u64, max_heap_size: u16, first: nat, n: int, k: int)
    requires
        0 <= k < n,
    ensures
        ({
            let root = indirect_block(heap_addr, max_heap_size, first, n);
            let from = 13 + offset_bytes(max_heap_size) + 8 * k;
            &&& from + 8 <= root.len()
            &&& root.subrange(from, from + 8) == le_bytes(first + block_offset(k), 8)
        }),
{
    let root = indirect_block(heap_addr, max_heap_size, first, n);
    let from = 13 + offset_bytes(max_heap_size) + 8 * k;
    lemma_indirect_len(heap_addr, max_heap_size, first, n);
    lemma_address_entry(first, n, k);
    lemma_le_len(heap_addr as nat, 8);
    lemma_le_len(first + block_offset(k), 8);
    assert(root.subrange(from, from + 8) =~= block_addresses(first, n).subrange(
        8 * k,
        8 * k + 8,
    ));
}

/// A part of what stands in a file stands there too.
pub(crate) proof fn lemma_part(file: Seq<u8>, at: int, whole: Seq<u8>, from: int, to: int)
    requires
        0 <= at,
        at + whole.len() <= file.len(),
        file.subrange(at, at + whole.len()) == whole,
        0 <= from <= to <= whole.len(),
    ensures
        file.subrange(at + from, at + to) == whole.subrange(from, to),
{
    assert(file.subrange(at + from, at + to) =~= whole.subrange(from, to));
}

proof fn lemma_middle(head: Seq<u8>, mid: Seq<u8>, tail: Seq<u8>, from: int, to: int)
    requires
        0 <= from <= to <= mid.len(),
    ensures
        (head + mid + tail).subrange(head.len() + from, head.len() + to) == mid.subrange(from, to),
{
    assert((head + mid + tail).subrange(head.len() + from, head.len() + to) =~= mid.subrange(
        from,
        to,
    ));
}

/// In a heap, the root block says where block `k` is.
proof fn lemma_entry_in_heap(
    at: u64,
    objs: Seq<Seq<u8>>,
    max_heap_size: u16,
    id_length: u16,
    k: int,
)
    requires
        !one_block(objs, block_header_len(max_heap_size)),
        0 <= k < packed(objs, block_header_len(max_heap_size), objs.len() as int).len(),
    ensures
        ({
            let whole = heap_bytes(objs, at, max_heap_size, id_length);
            let from = FRHP_SIZE + 13 + offset_bytes(max_heap_size) + 8 * k;
            &&& from + 8 <= whole.len()
            &&& whole.subrange(from, from + 8) == le_bytes(
                (at + heap_data_start(objs, max_heap_size) + block_offset(k)) as nat,
                8,
            )
        }),
{
    reveal(heap_bytes);
    let header = block_header_len(max_heap_size);
    let blocks = packed(objs, header, objs.len() as int);
    let n = blocks.len() as int;
    let first = (at + FRHP_SIZE + indirect_len(n, max_heap_size)) as nat;
    let head = heap_header_bytes(heap_header_of(objs, at, max_heap_size, id_length));
    let root = indirect_block(at, max_heap_size, first, n);
    let tail = direct_blocks(at, max_heap_size, blocks, n);
    let from = 13 + offset_bytes(max_heap_size) + 8 * k;
    lemma_heap_header_len(heap_header_of(objs, at, max_heap_size, id_length));
    lemma_root_entry(at, max_heap_size, first, n, k);
    lemma_middle(head, root, tail, from, from + 8);
    assert(heap_bytes(objs, at, max_heap_size, id_length) == head + root + tail);
}

/// In a file, the root block of a heap says where block `k` is.
proof fn lemma_entry_read(
    file: Seq<u8>,
    at: u64,
    objs: Seq<Seq<u8>>,
    max_heap_size: u16,
    id_length: u16,
    k: int,
)
    requires
        holds_heap(file, at, objs, max_heap_size, id_length),
        !one_block(objs, block_header_len(max_heap_size)),
        0 <= k < packed(objs, block_header_len(max_heap_size), objs.len() as int).len(),
    ensures
        ({
            let entry = at + FRHP_SIZE + 13 + offset_bytes(max_heap_size) + 8 * k;
            &&& entry + 8 <= file.len()
            &&& from_le(file.subrange(entry, entry + 8)) == at + heap_data_start(
                objs,
                max_heap_size,
            ) + block_offset(k)
        }),
{
    let n = packed(objs, block_header_len(max_heap_size), objs.len() as int).len() as int;
    let whole = heap_bytes(objs, at, max_heap_size, id_length);
    let from = FRHP_SIZE + 13 + offset_bytes(max_heap_size) + 8 * k;
    let place = (at + heap_data_start(objs, max_heap_size) + block_offset(k)) as nat;
    lemma_heap_bytes_len(objs, at, max_heap_size, id_length);
    lemma_entry_in_heap(at, objs, max_heap_size, id_length, k);
    lemma_part(file, at as int, whole, from, from + 8);
    lemma_block_offset_monotonic(k, n);
    assert(place <= u64::MAX);
    lemma_byte_span();
    lemma_le_roundtrip(place, 8);
}

/// The block that object `i` is in.
proof fn lemma_object_block(objs: Seq<Seq<u8>>, max_heap_size: u16, i: int)
    requires
        is_recoverable(objs, max_heap_size),
        !one_block(objs, block_header_len(max_heap_size)),
        0 <= i < objs.len(),
    ensures
        ({
            let header = block_header_len(max_heap_size);
            let n = packed(objs, header, objs.len() as int).len() as int;
            let k = packed(objs, header, i + 1).len() - 1;
            let offset = object_offset(objs, max_heap_size, i);
            &&& 0 <= k < n <= 4 * rows_of(n)
            &&& 1 <= rows_of(n) <= 41
            &&& block_offset(k) <= offset < block_offset(k + 1)
        }),
{
    let header = block_header_len(max_heap_size);
    let n = packed(objs, header, objs.len() as int).len() as int;
    assert(has_length(objs, i));
    lemma_packed_grows(objs, header, i + 1, objs.len() as int);
    lemma_last_block(objs, header, i);
    lemma_few_rows(n);
}

/// Every object of a heap is where the reader looks for it.
proof fn lemma_object_place(
    file: Seq<u8>,
    at: u64,
    objs: Seq<Seq<u8>>,
    max_heap_size: u16,
    id_length: u16,
    i: int,
)
    requires
        holds_heap(file, at, objs, max_heap_size, id_length),
        is_recoverable(objs, max_heap_size),
        0 <= i < objs.len(),
    ensures
        heap_place(
            file,
            info_of_heap(objs, at, max_heap_size, id_length),
            object_offset(objs, max_heap_size, i),
        ) == Some(
            (at + heap_data_start(objs, max_heap_size) + object_offset(objs, max_heap_size, i))
                as nat,
        ),
{
    let header = block_header_len(max_heap_size);
    let info = info_of_heap(objs, at, max_heap_size, id_length);
    let offset = object_offset(objs, max_heap_size, i);
    lemma_info_fields(objs, at, max_heap_size, id_length);
    if one_block(objs, header) {
        assert(heap_data_start(objs, max_heap_size) == FRHP_SIZE);
    } else {
        let k = packed(objs, header, i + 1).len() - 1;
        let start = (at + heap_data_start(objs, max_heap_size)) as nat;
        lemma_object_block(objs, max_heap_size, i);
        lemma_entry_read(file, at, objs, max_heap_size, id_length, k);
        lemma_place_in_block(file, info, offset, k, start);
    }
}

/// A place in a block, by the block's entry in the root block.
proof fn lemma_place_in_block(file: Seq<u8>, info: HeapInfo, offset: nat, k: int, start: nat)
    requires
        info.rows > 0,
        0 <= k < 4 * info.rows,
        block_offset(k) <= offset < block_offset(k + 1),
        ({
            let entry = info.root_addr + 13 + offset_bytes(info.max_heap_size) + 8 * k;
            &&& entry + 8 <= file.len()
            &&& from_le(file.subrange(entry, entry + 8)) == start + block_offset(k)
        }),
    ensures
        heap_place(file, info, offset) == Some(start + offset),
{
    lemma_holding(offset, 4 * info.rows, 0, k);
}

/// What a reader finds out about a heap of moderate size.
proof fn lemma_info_fields(objs: Seq<Seq<u8>>, at: u64, max_heap_size: u16, id_length: u16)
    requires
        is_recoverable(objs, max_heap_size),
        at + heap_len(objs, max_heap_size) <= u64::MAX,
        objs.len() > 0,
    ensures
        ({
            let header = block_header_len(max_heap_size);
            let n = packed(objs, header, objs.len() as int).len() as int;
            let info = info_of_heap(objs, at, max_heap_size, id_length);
            &&& info.root_addr == at + FRHP_SIZE
            &&& info.max_heap_size == max_heap_size
            &&& one_block(objs, header) ==> info.rows == 0
            &&& !one_block(objs, header) ==> info.rows == rows_of(n)
        }),
{
    if !one_block(objs, block_header_len(max_heap_size)) {
        lemma_object_block(objs, max_heap_size, 0);
    }
}

/// The objects of a heap that stands in a file are read by their identifiers.
pub proof fn law_heap_objects_read_back(
    file: Seq<u8>,
    at: u64,
    objs: Seq<Seq<u8>>,
    max_heap_size: u16,
    id_length: u16,
    i: int,
)
    requires
        (max_heap_size == 40 && id_length == 8) || (max_heap_size == 32 && id_length == 7),
        holds_heap(file, at, objs, max_heap_size, id_length),
        is_recoverable(objs, max_heap_size),
        0 <= i < objs.len(),
    ensures
        heap_object(
            file,
            info_of_heap(objs, at, max_heap_size, id_length),
            object_ids(objs, max_heap_size, id_length)[i],
        ) == Some(objs[i]),
{
    let offset = object_offset(objs, max_heap_size, i);
    let whole = heap_bytes(objs, at, max_heap_size, id_length);
    let from = (heap_data_start(objs, max_heap_size) + offset) as int;
    let len = objs[i].len() as int;
    assert(has_length(objs, i));
    lemma_heap_bytes_len(objs, at, max_heap_size, id_length);
    law_heap_holds_objects(objs, at, max_heap_size, id_length, i);
    lemma_part(file, at as int, whole, from, from + len);
    lemma_object_place(file, at, objs, max_heap_size, id_length, i);
    lemma_object_id(objs, max_heap_size, id_length, i);
}

/// The identifier of an object says where it is.
proof fn lemma_object_id(objs: Seq<Seq<u8>>, max_heap_size: u16, id_length: u16, i: int)
    requires
        (max_heap_size == 40 && id_length == 8) || (max_heap_size == 32 && id_length == 7),
        0 <= i < objs.len(),
        0 < objs[i].len() < 0x1_0000,
        object_offset(objs, max_heap_size, i) < (1u64 << (max_heap_size as u64)),
    ensures
        decoded_id(object_ids(objs, max_heap_size, id_length)[i], max_heap_size) == Some(
            (object_offset(objs, max_heap_size, i) as u64, objs[i].len() as u64),
        ),
{
    law_managed_id_roundtrip(
        object_offset(objs, max_heap_size, i) as u64,
        objs[i].len() as u64,
        max_heap_size,
        id_length,
    );
}

// ---------------------------------------------------------------------------
// Indexes
// ---------------------------------------------------------------------------

/// The header of an index reads back.
proof fn lemma_index_header(kind: u8, node: nat, record_size: u16, leaf_addr: u64, n: u64)
    ensures
        ({
            let fields = btree_header_fields(kind, node, record_size, leaf_addr as nat, n as nat);
            let h = fields + le_bytes(lookup3(fields) as nat, 4);
            &&& h.len() == BTHD_SIZE
            &&& index_info(h, kind) == Some(IndexInfo { record_size, leaf_addr, count: n })
        }),
{
    let fields = btree_header_fields(kind, node, record_size, leaf_addr as nat, n as nat);
    let sum = lookup3(fields) as nat;
    let h = fields + le_bytes(sum, 4);
    lemma_le_len(node, 4);
    lemma_le_len(record_size as nat, 2);
    lemma_le_len(0, 2);
    lemma_le_len(leaf_addr as nat, 8);
    lemma_le_len(n as nat, 2);
    lemma_le_len(n as nat, 8);
    lemma_le_len(sum, 4);
    lemma_byte_span();
    assert(fields.len() == 34);
    assert(h.subrange(0, 34) =~= fields);
    assert(h.subrange(34, 38) =~= le_bytes(sum, 4));
    assert(h.subrange(10, 12) =~= le_bytes(record_size as nat, 2));
    assert(h.subrange(12, 14) =~= le_bytes(0, 2));
    assert(h.subrange(16, 24) =~= le_bytes(leaf_addr as nat, 8));
    assert(h.subrange(26, 34) =~= le_bytes(n as nat, 8));
    lemma_le_roundtrip(sum, 4);
    lemma_le_roundtrip(record_size as nat, 2);
    lemma_le_roundtrip(0, 2);
    lemma_le_roundtrip(leaf_addr as nat, 8);
    lemma_le_roundtrip(n as nat, 8);
}

proof fn lemma_btree_parts(kind: u8, at: u64, record_size: u16, records: Seq<u8>, n: u64)
    ensures
        ({
            let node = node_size(records.len());
            let fields = btree_header_fields(
                kind,
                node,
                record_size,
                at as nat + BTHD_SIZE as nat,
                n as nat,
            );
            let leaf = btree_leaf_fields(kind, records);
            let whole = btree_bytes(kind, at, record_size, records, n as nat);
            let len = records.len() as int;
            &&& whole.len() >= 48 + len
            &&& whole.take(38) == fields + le_bytes(lookup3(fields) as nat, 4)
            &&& whole.subrange(38, 48 + len) == leaf + le_bytes(lookup3(leaf) as nat, 4)
        }),
{
    let node = node_size(records.len());
    let fields = btree_header_fields(
        kind,
        node,
        record_size,
        at as nat + BTHD_SIZE as nat,
        n as nat,
    );
    let leaf = btree_leaf_fields(kind, records);
    let whole = btree_bytes(kind, at, record_size, records, n as nat);
    lemma_btree_len(kind, at, record_size, records, n as nat);
    lemma_le_len(node, 4);
    lemma_le_len(record_size as nat, 2);
    lemma_le_len(0, 2);
    lemma_le_len(at as nat + BTHD_SIZE as nat, 8);
    lemma_le_len(n as nat, 2);
    lemma_le_len(n as nat, 8);
    lemma_le_len(lookup3(fields) as nat, 4);
    lemma_le_len(lookup3(leaf) as nat, 4);
    assert(fields.len() == 34);
    let len = records.len() as int;
    assert(whole.take(38) =~= fields + le_bytes(lookup3(fields) as nat, 4));
    assert(whole.subrange(38, 48 + len) =~= leaf + le_bytes(lookup3(leaf) as nat, 4));
}

/// A leaf that stands in a file is read there.
proof fn lemma_leaf_read(file: Seq<u8>, kind: u8, index: IndexInfo, records: Seq<u8>)
    requires
        records.len() == records_len(index),
        index.leaf_addr + 10 + records.len() <= file.len(),
        file.subrange(index.leaf_addr as int, index.leaf_addr + 10 + records.len()) == ({
            let leaf = btree_leaf_fields(kind, records);
            leaf + le_bytes(lookup3(leaf) as nat, 4)
        }),
    ensures
        index_records(file, index, kind) == Some(records),
{
    let leaf = btree_leaf_fields(kind, records);
    let sum = lookup3(leaf) as nat;
    let a = index.leaf_addr as int;
    let len = records.len() as int;
    let f = file.subrange(a, a + 10 + len);
    lemma_le_len(sum, 4);
    lemma_byte_span();
    lemma_le_roundtrip(sum, 4);
    assert(leaf.len() == 6 + len);
    assert(f.take(6 + len) =~= leaf);
    assert(file.subrange(a, a + 6 + len) =~= f.take(6 + len));
    assert(f.subrange(6 + len, 10 + len) =~= le_bytes(sum, 4));
    assert(file.subrange(a + 6 + len, a + 6 + len + 4) =~= f.subrange(6 + len, 10 + len));
    assert(leaf.skip(6) =~= records);
    assert(file.subrange(a + 6, a + 6 + len) =~= leaf.skip(6));
    assert(leaf[0] == f[0] && leaf[1] == f[1] && leaf[2] == f[2] && leaf[3] == f[3] && leaf[5]
        == f[5]);
    assert(f[0] == file[a] && f[1] == file[a + 1] && f[2] == file[a + 2] && f[3] == file[a + 3]
        && f[5] == file[a + 5]);
}

/// An index that stands in a file is found there, with its records.
pub proof fn law_index_is_found(
    file: Seq<u8>,
    kind: u8,
    at: u64,
    record_size: u16,
    records: Seq<u8>,
    n: u64,
)
    requires
        records.len() == n as nat * record_size as nat,
        at + BTHD_SIZE + node_size(records.len()) <= file.len(),
        at + BTHD_SIZE <= u64::MAX,
        file.subrange(at as int, (at + BTHD_SIZE + node_size(records.len())) as int)
            == btree_bytes(kind, at, record_size, records, n as nat),
    ensures
        ({
            let leaf_addr = (at + BTHD_SIZE) as u64;
            let index = IndexInfo { record_size, leaf_addr, count: n };
            &&& parsed_index(file, at as nat, kind) == Some(index)
            &&& index_records(file, index, kind) == Some(records)
        }),
{
    let node = node_size(records.len());
    let leaf_addr = (at + BTHD_SIZE) as u64;
    let whole = btree_bytes(kind, at, record_size, records, n as nat);
    let len = records.len() as int;
    let a = at as int;
    lemma_btree_len(kind, at, record_size, records, n as nat);
    lemma_index_header(kind, node, record_size, leaf_addr, n);
    lemma_btree_parts(kind, at, record_size, records, n);
    assert(file.subrange(a, a + 38) =~= whole.take(38));
    assert(file.subrange(a + 38, a + 48 + len) =~= whole.subrange(38, 48 + len));
    lemma_leaf_read(file, kind, IndexInfo { record_size, leaf_addr, count: n }, records);
}

// ---------------------------------------------------------------------------
// Heaps and their indexes
// ---------------------------------------------------------------------------

/// A message that leads to a heap and its index reads back.
pub proof fn law_info_roundtrip(heap_addr: u64, index_addr: u64)
    ensures
        parsed_info(info_bytes(heap_addr, index_addr)) == Some((heap_addr, index_addr)),
{
    let data = info_bytes(heap_addr, index_addr);
    lemma_le_len(heap_addr as nat, 8);
    lemma_le_len(index_addr as nat, 8);
    lemma_byte_span();
    lemma_le_roundtrip(heap_addr as nat, 8);
    lemma_le_roundtrip(index_addr as nat, 8);
    assert(data.subrange(2, 10) =~= le_bytes(heap_addr as nat, 8));
    assert(data.subrange(10, 18) =~= le_bytes(index_addr as nat, 8));
}

proof fn lemma_record_at(recs: Seq<Seq<u8>>, size: nat, r: int)
    requires
        0 <= r < recs.len(),
        forall|i: int| 0 <= i < recs.len() ==> (#[trigger] recs[i]).len() == size,
    ensures
        0 <= r * size,
        r * size + size <= joined(recs).len(),
        joined(recs).subrange(r * size, r * size + size) == recs[r],
    decreases recs.len(),
{
    let rest = recs.drop_last();
    let n = recs.len() as int;
    assert forall|i: int| 0 <= i < rest.len() implies (#[trigger] rest[i]).len() == size by {
        assert(rest[i] == recs[i]);
    }
    lemma_joined_uniform(recs, size);
    lemma_joined_uniform(rest, size);
    assert(0 <= r * size && r * size + size <= n * size && (n - 1) * size + size == n * size)
        by (nonlinear_arith)
        requires
            0 <= r < n,
            0 <= size,
    ;
    assert(recs[n - 1].len() == size);
    if r < n - 1 {
        lemma_record_at(rest, size, r);
        assert(joined(recs).subrange(r * size, r * size + size) =~= joined(rest).subrange(
            r * size,
            r * size + size,
        ));
    } else {
        assert(joined(recs).subrange(r * size, r * size + size) =~= recs[r]);
    }
}

/// Whether `recs` are index records of `objs` in some order: each of one size,
/// with the identifier of its object from `id_at` on.
pub open spec fn are_records(
    recs: Seq<Seq<u8>>,
    objs: Seq<Seq<u8>>,
    order: Seq<usize>,
    max_heap_size: u16,
    id_length: u16,
    record_size: u16,
    id_at: nat,
) -> bool {
    &&& recs.len() == objs.len()
    &&& order.len() == objs.len()
    &&& id_at + id_length <= record_size
    &&& forall|r: int| 0 <= r < order.len() ==> (#[trigger] order[r]) < objs.len()
    &&& forall|r: int| 0 <= r < recs.len() ==> (#[trigger] recs[r]).len() == record_size
    &&& forall|r: int|
        0 <= r < recs.len() ==> (#[trigger] recs[r]).subrange(
            id_at as int,
            (id_at + id_length) as int,
        ) == object_ids(objs, max_heap_size, id_length)[order[r] as int]
}

proof fn lemma_record_object(
    file: Seq<u8>,
    at: u64,
    objs: Seq<Seq<u8>>,
    recs: Seq<Seq<u8>>,
    order: Seq<usize>,
    max_heap_size: u16,
    id_length: u16,
    index: IndexInfo,
    id_at: nat,
    r: int,
)
    requires
        (max_heap_size == 40 && id_length == 8) || (max_heap_size == 32 && id_length == 7),
        holds_heap(file, at, objs, max_heap_size, id_length),
        is_recoverable(objs, max_heap_size),
        are_records(recs, objs, order, max_heap_size, id_length, index.record_size, id_at),
        0 <= r < recs.len(),
    ensures
        ({
            let heap = info_of_heap(objs, at, max_heap_size, id_length);
            heap_object(file, heap, record_id(joined(recs), index, heap, id_at, r)) == Some(
                objs[order[r] as int],
            )
        }),
{
    let size = index.record_size as nat;
    let heap = info_of_heap(objs, at, max_heap_size, id_length);
    let all = joined(recs);
    let from = r * size;
    lemma_record_at(recs, size, r);
    assert(order[r] < objs.len());
    assert(record_id(all, index, heap, id_at, r) =~= all.subrange(from, from + size).subrange(
        id_at as int,
        (id_at + id_length) as int,
    ));
    law_heap_objects_read_back(file, at, objs, max_heap_size, id_length, order[r] as int);
}

/// Objects in a heap, indexed by records, are read in the order of the index.
pub proof fn law_dense_objects_read_back(
    file: Seq<u8>,
    at: u64,
    objs: Seq<Seq<u8>>,
    recs: Seq<Seq<u8>>,
    order: Seq<usize>,
    max_heap_size: u16,
    id_length: u16,
    kind: u8,
    record_size: u16,
    id_at: nat,
)
    requires
        (max_heap_size == 40 && id_length == 8) || (max_heap_size == 32 && id_length == 7),
        holds_heap(file, at, objs, max_heap_size, id_length),
        is_recoverable(objs, max_heap_size),
        are_records(recs, objs, order, max_heap_size, id_length, record_size, id_at),
        ({
            let index_at = (at + heap_len(objs, max_heap_size)) as u64;
            let end = index_at + BTHD_SIZE + node_size(joined(recs).len());
            &&& objs.len() <= u64::MAX
            &&& end <= file.len()
            &&& end <= u64::MAX
            &&& file.subrange(index_at as int, end) == btree_bytes(
                kind,
                index_at,
                record_size,
                joined(recs),
                objs.len(),
            )
        }),
    ensures
        ({
            let index_at = (at + heap_len(objs, max_heap_size)) as u64;
            dense_objects(file, info_bytes(at, index_at), kind, id_at) == Some(
                reordered(objs, order),
            )
        }),
{
    let index_at = (at + heap_len(objs, max_heap_size)) as u64;
    let all = joined(recs);
    let heap = info_of_heap(objs, at, max_heap_size, id_length);
    let index = IndexInfo {
        record_size,
        leaf_addr: (index_at + BTHD_SIZE) as u64,
        count: objs.len() as u64,
    };
    law_info_roundtrip(at, index_at);
    law_heap_is_found(file, at, objs, max_heap_size, id_length);
    lemma_joined_uniform(recs, record_size as nat);
    law_index_is_found(file, kind, index_at, record_size, all, objs.len() as u64);
    assert forall|r: int| 0 <= r < index.count implies (#[trigger] heap_object(
        file,
        heap,
        record_id(all, index, heap, id_at, r),
    )) == Some(objs[order[r] as int]) by {
        lemma_record_object(
            file,
            at,
            objs,
            recs,
            order,
            max_heap_size,
            id_length,
            index,
            id_at,
            r,
        );
    }
    assert(indexed_objects(file, heap, index, all, id_at)->0 =~= reordered(objs, order));
}

// ---------------------------------------------------------------------------
// Links
// ---------------------------------------------------------------------------

/// Links in the order of their index.
pub open spec fn indexed_links(links: Seq<LinkView>) -> Seq<LinkView> {
    let order = sorted_order(link_hashes(links), links.len());
    Seq::new(order.len(), |r: int| links[order[r] as int])
}

proof fn lemma_link_records(links: Seq<LinkView>)
    requires
        links.len() <= usize::MAX,
    ensures
        ({
            let order = sorted_order(link_hashes(links), links.len());
            let recs = reordered(link_records(links), order);
            are_records(recs, link_messages(links), order, 32, 7, 11, 4)
        }),
{
    let objs = link_messages(links);
    let ids = object_ids(objs, 32, 7);
    let order = sorted_order(link_hashes(links), links.len());
    let recs = reordered(link_records(links), order);
    lemma_order_in_range(link_hashes(links), links.len());
    assert forall|r: int| 0 <= r < recs.len() implies (#[trigger] recs[r]).len() == 11
        && recs[r].subrange(4, 11) == ids[order[r] as int] by {
        let k = order[r] as int;
        assert(order[r] < links.len());
        lemma_id_len(object_offset(objs, 32, k) as u64, objs[k].len() as u64, 32, 7);
        lemma_le_len(link_hashes(links)[k] as nat, 4);
        assert(recs[r] == le_bytes(link_hashes(links)[k] as nat, 4) + ids[k]);
        assert(recs[r].subrange(4, 11) =~= ids[k]);
    }
}

/// What stands in a file as two parts stands there part by part.
proof fn lemma_two_parts(file: Seq<u8>, at: int, a: Seq<u8>, b: Seq<u8>)
    requires
        0 <= at,
        at + a.len() + b.len() <= file.len(),
        file.subrange(at, at + a.len() + b.len()) == a + b,
    ensures
        file.subrange(at, at + a.len()) == a,
        file.subrange(at + a.len(), at + a.len() + b.len()) == b,
{
    let whole = a + b;
    assert(whole.subrange(0, a.len() as int) =~= a);
    assert(whole.subrange(a.len() as int, whole.len() as int) =~= b);
    lemma_part(file, at, whole, 0, a.len() as int);
    lemma_part(file, at, whole, a.len() as int, whole.len() as int);
}

/// Dense links that stand in a file are read in the order of their index.
#[verifier::spinoff_prover]
#[verifier::rlimit(50)]
pub proof fn law_dense_links_read_back(file: Seq<u8>, at: u64, links: Seq<LinkView>)
    requires
        links.len() <= usize::MAX,
        is_recoverable(link_messages(links), 32),
        dense_link_len(links) <= isize::MAX,
        at + dense_link_len(links) <= file.len(),
        at + dense_link_len(links) <= u64::MAX,
        file.subrange(at as int, (at + dense_link_len(links)) as int) == dense_link_bytes(
            links,
            at,
        ),
    ensures
        dense_objects(file, dense_link_info(links, at), 5, 4) == Some(
            link_messages(indexed_links(links)),
        ),
{
    let objs = link_messages(links);
    let order = sorted_order(link_hashes(links), links.len());
    let recs = reordered(link_records(links), order);
    let heap = heap_bytes(objs, at, 32, 7);
    let index_at = (at + heap_len(objs, 32)) as u64;
    let index = btree_bytes(5, index_at, 11, joined(recs), links.len());
    assert(dense_link_bytes(links, at) == heap + index);
    lemma_dense_link_len(links, at);
    lemma_heap_bytes_len(objs, at, 32, 7);
    lemma_link_records(links);
    lemma_link_records_len(links);
    lemma_btree_len(5, index_at, 11, joined(recs), links.len());
    lemma_order_in_range(link_hashes(links), links.len());
    lemma_two_parts(file, at as int, heap, index);
    law_dense_objects_read_back(file, at, objs, recs, order, 32, 7, 5, 11, 4);
    assert(reordered(objs, order) =~= link_messages(indexed_links(links)));
}

// ---------------------------------------------------------------------------
// Attributes
// ---------------------------------------------------------------------------

/// Attributes in the order of their index.
pub open spec fn indexed_attrs(attrs: Seq<(String, AttrValue)>) -> Seq<(String, AttrValue)> {
    let order = sorted_order(attr_hashes(attrs), attrs.len());
    Seq::new(order.len(), |r: int| attrs[order[r] as int])
}

proof fn lemma_attr_records(attrs: Seq<(String, AttrValue)>)
    requires
        attrs.len() <= usize::MAX,
    ensures
        ({
            let order = sorted_order(attr_hashes(attrs), attrs.len());
            let recs = reordered(attr_records(attrs), order);
            are_records(recs, attr_messages(attrs, true), order, 40, 8, 17, 0)
        }),
{
    let objs = attr_messages(attrs, true);
    let ids = object_ids(objs, 40, 8);
    let order = sorted_order(attr_hashes(attrs), attrs.len());
    let recs = reordered(attr_records(attrs), order);
    lemma_order_in_range(attr_hashes(attrs), attrs.len());
    assert forall|r: int| 0 <= r < recs.len() implies (#[trigger] recs[r]).len() == 17
        && recs[r].subrange(0, 8) == ids[order[r] as int] by {
        let k = order[r] as int;
        assert(order[r] < attrs.len());
        lemma_id_len(object_offset(objs, 40, k) as u64, objs[k].len() as u64, 40, 8);
        lemma_le_len(k as nat, 4);
        lemma_le_len(attr_hashes(attrs)[k] as nat, 4);
        assert(recs[r] == attr_record(ids[k], k as nat, attr_hashes(attrs)[k]));
        assert(recs[r].subrange(0, 8) =~= ids[k]);
    }
}

/// Dense attributes that stand in a file are read in the order of their index.
#[verifier::spinoff_prover]
#[verifier::rlimit(50)]
pub proof fn law_dense_attrs_read_back(file: Seq<u8>, at: u64, attrs: Seq<(String, AttrValue)>)
    requires
        attrs.len() <= usize::MAX,
        is_recoverable(attr_messages(attrs, true), 40),
        dense_attr_len(attrs) <= isize::MAX,
        at + dense_attr_len(attrs) <= file.len(),
        at + dense_attr_len(attrs) <= u64::MAX,
        file.subrange(at as int, (at + dense_attr_len(attrs)) as int) == dense_attr_bytes(
            attrs,
            at,
        ),
    ensures
        dense_objects(file, dense_attr_info(attrs, at), 8, 0) == Some(
            attr_messages(indexed_attrs(attrs), true),
        ),
{
    let objs = attr_messages(attrs, true);
    let order = sorted_order(attr_hashes(attrs), attrs.len());
    let recs = reordered(attr_records(attrs), order);
    let heap = heap_bytes(objs, at, 40, 8);
    let index_at = (at + heap_len(objs, 40)) as u64;
    let index = btree_bytes(8, index_at, 17, joined(recs), attrs.len());
    assert(dense_attr_bytes(attrs, at) == heap + index);
    lemma_dense_attr_len(attrs, at);
    lemma_heap_bytes_len(objs, at, 40, 8);
    lemma_attr_records(attrs);
    lemma_attr_records_len(attrs);
    lemma_btree_len(8, index_at, 17, joined(recs), attrs.len());
    lemma_order_in_range(attr_hashes(attrs), attrs.len());
    lemma_two_parts(file, at as int, heap, index);
    law_dense_objects_read_back(file, at, objs, recs, order, 40, 8, 8, 17, 0);
    assert(reordered(objs, order) =~= attr_messages(indexed_attrs(attrs), true));
}

} // verus!
