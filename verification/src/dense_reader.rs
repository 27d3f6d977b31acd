//! Reading dense storage: a heap of messages and the index over it.

use crate::bytes::{copy_range, from_le, lemma_byte_span, lemma_from_le_bound, read_le};
use crate::checksum::{jenkins_lookup3, lookup3};
use crate::dense::BTHD_SIZE;
use crate::fractal_heap::{
    block_offset, block_size, decode_managed_id, decoded_id, object_views, offset_bytes, FRHP_SIZE,
    STARTING_BLOCK_SIZE,
};
use vstd::prelude::*;

verus! {

// ---------------------------------------------------------------------------
// Heaps
// ---------------------------------------------------------------------------

/// What a reader needs of a heap header.
#[derive(Clone, Copy, PartialEq, Eq, Debug, Structural)]
pub struct HeapInfo {
    /// Bytes of an identifier.
    pub id_length: u16,
    /// Bits of an offset.
    pub max_heap_size: u16,
    /// Where the root block is.
    pub root_addr: u64,
    /// Rows of the root block; none, if it is a direct block.
    pub rows: u16,
}

/// What the 146 bytes of a heap header say, `None` if they are not one that is
/// read here.
pub open spec fn heap_info(h: Seq<u8>) -> Option<HeapInfo> {
    let max_heap_size = from_le(h.subrange(128, 130));
    let rows = from_le(h.subrange(140, 142));
    if h[0] != 0x46 || h[1] != 0x52 || h[2] != 0x48 || h[3] != 0x50 || from_le(
        h.subrange(142, 146),
    ) != lookup3(h.subrange(0, 142)) || max_heap_size >= 64 || (rows > 0 && (from_le(
        h.subrange(110, 112),
    ) != 4 || from_le(h.subrange(112, 120)) != 512)) {
        None
    } else {
        Some(
            HeapInfo {
                id_length: from_le(h.subrange(5, 7)) as u16,
                max_heap_size: max_heap_size as u16,
                root_addr: from_le(h.subrange(132, 140)) as u64,
                rows: rows as u16,
            },
        )
    }
}

/// The heap whose header is at `at`.
pub open spec fn parsed_heap(file: Seq<u8>, at: nat) -> Option<HeapInfo> {
    if at + FRHP_SIZE > file.len() {
        None
    } else {
        heap_info(file.subrange(at as int, (at + FRHP_SIZE) as int))
    }
}

fn parse_heap(file: &[u8], at: u64) -> (r: Option<HeapInfo>)
    ensures
        r == parsed_heap(file@, at as nat),
{
    let len: usize = file.len();
    if at as u128 + FRHP_SIZE as u128 > len as u128 {
        return None;
    }
    let from: usize = at as usize;
    let head: Vec<u8> = copy_range(file, from, from + FRHP_SIZE as usize);
    let h: &[u8] = head.as_slice();
    let fields: Vec<u8> = copy_range(h, 0, 142);
    proof {
        lemma_from_le_bound(h@.subrange(5, 7));
        lemma_from_le_bound(h@.subrange(128, 130));
        lemma_from_le_bound(h@.subrange(140, 142));
        lemma_from_le_bound(h@.subrange(142, 146));
        lemma_byte_span();
    }
    let max_heap_size: u16 = read_le(h, 128, 2) as u16;
    let rows: u16 = read_le(h, 140, 2) as u16;
    if h[0] != 0x46 || h[1] != 0x52 || h[2] != 0x48 || h[3] != 0x50 || read_le(h, 142, 4) as u32
        != jenkins_lookup3(fields.as_slice()) || max_heap_size >= 64 || (rows > 0 && (read_le(
        h,
        110,
        2,
    ) != 4 || read_le(h, 112, 8) != 512)) {
        return None;
    }
    Some(
        HeapInfo {
            id_length: read_le(h, 5, 2) as u16,
            max_heap_size,
            root_addr: read_le(h, 132, 8),
            rows,
        },
    )
}

/// The first of the blocks from `k` on, of `n` in all, that reaches beyond
/// `offset`.
pub open spec fn block_holding(offset: nat, n: int, k: int) -> Option<int>
    decreases n - k,
{
    if k >= n {
        None
    } else if offset < block_offset(k + 1) {
        Some(k)
    } else {
        block_holding(offset, n, k + 1)
    }
}

fn find_block(offset: u64, n: usize) -> (r: Option<(usize, u64)>)
    ensures
        match r {
            Some(b) => {
                &&& block_holding(offset as nat, n as int, 0) == Some(b.0 as int)
                &&& b.0 < n
                &&& b.1 == block_offset(b.0 as int)
                &&& b.1 <= offset
            },
            None => block_holding(offset as nat, n as int, 0) is None,
        },
{
    let mut k: usize = 0;
    let mut from: u64 = 0;
    let mut size: u128 = STARTING_BLOCK_SIZE as u128;
    while k < n
        invariant
            k <= n,
            from == block_offset(k as int),
            size == block_size(k as int),
            from <= offset,
            size <= 0x2_0000_0000_0000_0000,
            block_holding(offset as nat, n as int, 0) == block_holding(
                offset as nat,
                n as int,
                k as int,
            ),
        decreases n - k,
    {
        let end: u128 = from as u128 + size;
        if (offset as u128) < end {
            return Some((k, from));
        }
        from = end as u64;
        k = k + 1;
        if k % 4 == 0 && k >= 8 {
            size = 2 * size;
        }
    }
    None
}

/// Where in a file an offset of a heap is.
pub open spec fn heap_place(file: Seq<u8>, heap: HeapInfo, offset: nat) -> Option<nat> {
    if heap.rows == 0 {
        Some(heap.root_addr as nat + offset)
    } else {
        match block_holding(offset, 4 * heap.rows, 0) {
            None => None,
            Some(k) => {
                let entry = heap.root_addr + 13 + offset_bytes(heap.max_heap_size) + 8 * k;
                if entry + 8 > file.len() {
                    None
                } else {
                    Some(
                        (from_le(file.subrange(entry, entry + 8)) + offset - block_offset(k))
                            as nat,
                    )
                }
            },
        }
    }
}

fn place_in_heap(file: &[u8], heap: &HeapInfo, offset: u64) -> (r: Option<u128>)
    ensures
        match r {
            Some(p) => heap_place(file@, *heap, offset as nat) == Some(p as nat),
            None => heap_place(file@, *heap, offset as nat) is None,
        },
        r is Some ==> r->0 <= 0x2_0000_0000_0000_0000,
{
    if heap.rows == 0 {
        return Some(heap.root_addr as u128 + offset as u128);
    }
    let n: usize = 4 * (heap.rows as usize);
    match find_block(offset, n) {
        None => None,
        Some((k, from)) => {
            let skipped: u128 = 13 + (heap.max_heap_size as u128 + 7) / 8 + 8 * (k as u128);
            let entry: u128 = heap.root_addr as u128 + skipped;
            if entry + 8 > file.len() as u128 {
                return None;
            }
            let block: u64 = read_le(file, entry as usize, 8);
            Some(block as u128 + (offset - from) as u128)
        },
    }
}

/// The object of an identifier in a heap.
pub open spec fn heap_object(file: Seq<u8>, heap: HeapInfo, id: Seq<u8>) -> Option<Seq<u8>> {
    match decoded_id(id, heap.max_heap_size) {
        None => None,
        Some(place) => match heap_place(file, heap, place.0 as nat) {
            None => None,
            Some(p) => if p + place.1 <= file.len() {
                Some(file.subrange(p as int, (p + place.1) as int))
            } else {
                None
            },
        },
    }
}

fn read_object(file: &[u8], heap: &HeapInfo, id: &[u8]) -> (r: Option<Vec<u8>>)
    requires
        heap.max_heap_size < 64,
    ensures
        match r {
            Some(v) => heap_object(file@, *heap, id@) == Some(v@),
            None => heap_object(file@, *heap, id@) is None,
        },
{
    match decode_managed_id(id, heap.max_heap_size) {
        None => None,
        Some((offset, length)) => match place_in_heap(file, heap, offset) {
            None => None,
            Some(p) => {
                if p + length as u128 <= file.len() as u128 {
                    let from: usize = p as usize;
                    Some(copy_range(file, from, from + length as usize))
                } else {
                    None
                }
            },
        },
    }
}

// ---------------------------------------------------------------------------
// Indexes
// ---------------------------------------------------------------------------

/// What a reader needs of the header of an index of one leaf.
#[derive(Clone, Copy, PartialEq, Eq, Debug, Structural)]
pub struct IndexInfo {
    /// Bytes of a record.
    pub record_size: u16,
    /// Where the leaf is.
    pub leaf_addr: u64,
    /// How many records there are.
    pub count: u64,
}

/// What the 38 bytes of an index header say, `None` if they are not one of a
/// single leaf with records of this kind.
pub open spec fn index_info(h: Seq<u8>, kind: u8) -> Option<IndexInfo> {
    if h[0] != 0x42 || h[1] != 0x54 || h[2] != 0x48 || h[3] != 0x44 || h[5] != kind || from_le(
        h.subrange(34, 38),
    ) != lookup3(h.subrange(0, 34)) || from_le(h.subrange(12, 14)) != 0 {
        None
    } else {
        Some(
            IndexInfo {
                record_size: from_le(h.subrange(10, 12)) as u16,
                leaf_addr: from_le(h.subrange(16, 24)) as u64,
                count: from_le(h.subrange(26, 34)) as u64,
            },
        )
    }
}

/// The index whose header is at `at`.
pub open spec fn parsed_index(file: Seq<u8>, at: nat, kind: u8) -> Option<IndexInfo> {
    if at + BTHD_SIZE > file.len() {
        None
    } else {
        index_info(file.subrange(at as int, (at + BTHD_SIZE) as int), kind)
    }
}

pub(crate) fn parse_index(file: &[u8], at: u64, kind: u8) -> (r: Option<IndexInfo>)
    ensures
        r == parsed_index(file@, at as nat, kind),
{
    let len: usize = file.len();
    if at as u128 + BTHD_SIZE as u128 > len as u128 {
        return None;
    }
    let from: usize = at as usize;
    let head: Vec<u8> = copy_range(file, from, from + BTHD_SIZE as usize);
    let h: &[u8] = head.as_slice();
    let fields: Vec<u8> = copy_range(h, 0, 34);
    proof {
        lemma_from_le_bound(h@.subrange(10, 12));
        lemma_from_le_bound(h@.subrange(34, 38));
        lemma_byte_span();
    }
    if h[0] != 0x42 || h[1] != 0x54 || h[2] != 0x48 || h[3] != 0x44 || h[5] != kind || read_le(
        h,
        34,
        4,
    ) as u32 != jenkins_lookup3(fields.as_slice()) || read_le(h, 12, 2) != 0 {
        return None;
    }
    Some(
        IndexInfo {
            record_size: read_le(h, 10, 2) as u16,
            leaf_addr: read_le(h, 16, 8),
            count: read_le(h, 26, 8),
        },
    )
}

/// Bytes of the records of an index.
pub open spec fn records_len(index: IndexInfo) -> nat {
    index.count as nat * index.record_size as nat
}

/// The records of an index, one after another, `None` if there is no leaf of
/// this kind where its header says.
pub open spec fn index_records(file: Seq<u8>, index: IndexInfo, kind: u8) -> Option<Seq<u8>> {
    let at = index.leaf_addr as int;
    let end = at + 6 + records_len(index);
    if end + 4 > file.len() || file[at] != 0x42 || file[at + 1] != 0x54 || file[at + 2] != 0x4c
        || file[at + 3] != 0x46 || file[at + 5] != kind || from_le(file.subrange(end, end + 4))
        != lookup3(file.subrange(at, end)) {
        None
    } else {
        Some(file.subrange(at + 6, end))
    }
}

pub(crate) fn read_records(file: &[u8], index: &IndexInfo, kind: u8) -> (r: Option<Vec<u8>>)
    ensures
        match r {
            Some(v) => index_records(file@, *index, kind) == Some(v@),
            None => index_records(file@, *index, kind) is None,
        },
{
    assert(index.count * index.record_size <= 0xffff_ffff_ffff_ffff * 0xffff) by (nonlinear_arith)
        requires
            0 <= index.count <= 0xffff_ffff_ffff_ffff,
            0 <= index.record_size <= 0xffff,
    ;
    let size: u128 = index.count as u128 * index.record_size as u128;
    assert(size == records_len(*index));
    if index.leaf_addr as u128 + 6 + size + 4 > file.len() as u128 {
        return None;
    }
    let at: usize = index.leaf_addr as usize;
    let end: usize = at + 6 + size as usize;
    let leaf: Vec<u8> = copy_range(file, at, end);
    proof {
        lemma_from_le_bound(file@.subrange(end as int, end + 4));
        lemma_byte_span();
    }
    if file[at] != 0x42 || file[at + 1] != 0x54 || file[at + 2] != 0x4c || file[at + 3] != 0x46
        || file[at + 5] != kind || read_le(file, end, 4) as u32 != jenkins_lookup3(
        leaf.as_slice(),
    ) {
        return None;
    }
    Some(copy_range(file, at + 6, end))
}

// ---------------------------------------------------------------------------
// Objects
// ---------------------------------------------------------------------------

/// Where a message that leads to a heap and its index says they are, `None` if
/// it does not say, or tracks creation order.
pub open spec fn parsed_info(data: Seq<u8>) -> Option<(u64, u64)> {
    if data.len() < 18 || data[1] != 0 {
        None
    } else {
        Some((from_le(data.subrange(2, 10)) as u64, from_le(data.subrange(10, 18)) as u64))
    }
}

/// The identifier in record `r`.
pub open spec fn record_id(
    recs: Seq<u8>,
    index: IndexInfo,
    heap: HeapInfo,
    id_at: nat,
    r: int,
) -> Seq<u8> {
    let from = r * index.record_size + id_at;
    recs.subrange(from, from + heap.id_length)
}

/// The objects of a heap in the order of an index over it, `None` if one cannot
/// be read.
pub open spec fn indexed_objects(
    file: Seq<u8>,
    heap: HeapInfo,
    index: IndexInfo,
    recs: Seq<u8>,
    id_at: nat,
) -> Option<Seq<Seq<u8>>> {
    if id_at + heap.id_length <= index.record_size && forall|r: int|
        0 <= r < index.count ==> (#[trigger] heap_object(
            file,
            heap,
            record_id(recs, index, heap, id_at, r),
        )) is Some {
        Some(
            Seq::new(
                index.count as nat,
                |r: int| heap_object(file, heap, record_id(recs, index, heap, id_at, r))->0,
            ),
        )
    } else {
        None
    }
}

/// The objects that a message leads to: those of a heap, in the order of an
/// index of the given kind, whose records hold identifiers from `id_at` on.
pub open spec fn dense_objects(file: Seq<u8>, info: Seq<u8>, kind: u8, id_at: nat) -> Option<
    Seq<Seq<u8>>,
> {
    match parsed_info(info) {
        None => None,
        Some(places) => match parsed_heap(file, places.0 as nat) {
            None => None,
            Some(heap) => match parsed_index(file, places.1 as nat, kind) {
                None => None,
                Some(index) => match index_records(file, index, kind) {
                    None => None,
                    Some(recs) => indexed_objects(file, heap, index, recs, id_at),
                },
            },
        },
    }
}

fn read_indexed(
    file: &[u8],
    heap: &HeapInfo,
    index: &IndexInfo,
    recs: &[u8],
    id_at: usize,
) -> (r: Option<Vec<Vec<u8>>>)
    requires
        heap.max_heap_size < 64,
        recs@.len() == records_len(*index),
    ensures
        match r {
            Some(v) => indexed_objects(file@, *heap, *index, recs@, id_at as nat) == Some(
                object_views(v@),
            ),
            None => indexed_objects(file@, *heap, *index, recs@, id_at as nat) is None,
        },
{
    let size: usize = index.record_size as usize;
    let width: usize = heap.id_length as usize;
    if id_at > size || width > size - id_at {
        return None;
    }
    let mut objs: Vec<Vec<u8>> = Vec::new();
    let mut i: u64 = 0;
    let mut base: usize = 0;
    let total: usize = recs.len();
    while i < index.count
        invariant
            i <= index.count,
            total == recs@.len(),
            base == i * size,
            size == index.record_size,
            width == heap.id_length,
            id_at + width <= size,
            heap.max_heap_size < 64,
            recs@.len() == records_len(*index),
            objs@.len() == i,
            forall|r: int|
                0 <= r < i ==> heap_object(
                    file@,
                    *heap,
                    record_id(recs@, *index, *heap, id_at as nat, r),
                ) == Some((#[trigger] objs@[r])@),
        decreases index.count - i,
    {
        proof {
            assert((i + 1) * size == i * size + size && (i + 1) * size <= index.count
                * index.record_size) by (nonlinear_arith)
                requires
                    0 <= i < index.count,
                    size == index.record_size,
            ;
        }
        let from: usize = base + id_at;
        let id: Vec<u8> = copy_range(recs, from, from + width);
        assert(id@ == record_id(recs@, *index, *heap, id_at as nat, i as int));
        match read_object(file, heap, id.as_slice()) {
            Some(obj) => {
                objs.push(obj);
            },
            None => {
                return None;
            },
        }
        base = base + size;
        i = i + 1;
    }
    proof {
        let expected = indexed_objects(file@, *heap, *index, recs@, id_at as nat);
        assert forall|r: int| 0 <= r < index.count implies (#[trigger] heap_object(
            file@,
            *heap,
            record_id(recs@, *index, *heap, id_at as nat, r),
        )) is Some by {
            assert(heap_object(file@, *heap, record_id(recs@, *index, *heap, id_at as nat, r))
                == Some(objs@[r]@));
        }
        assert(expected->0 =~= object_views(objs@));
    }
    Some(objs)
}

/// Reads the objects that a message leads to.
pub fn read_dense(file: &[u8], info: &[u8], kind: u8, id_at: usize) -> (r: Option<Vec<Vec<u8>>>)
    ensures
        match r {
            Some(v) => dense_objects(file@, info@, kind, id_at as nat) == Some(object_views(v@)),
            None => dense_objects(file@, info@, kind, id_at as nat) is None,
        },
{
    if info.len() < 18 || info[1] != 0 {
        return None;
    }
    let heap: HeapInfo = match parse_heap(file, read_le(info, 2, 8)) {
        Some(h) => h,
        None => {
            return None;
        },
    };
    let index: IndexInfo = match parse_index(file, read_le(info, 10, 8), kind) {
        Some(x) => x,
        None => {
            return None;
        },
    };
    match read_records(file, &index, kind) {
        Some(recs) => read_indexed(file, &heap, &index, recs.as_slice(), id_at),
        None => None,
    }
}

} // verus!
