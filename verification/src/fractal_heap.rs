//! Fractal heaps: the store behind dense attributes and links.
//!
//! Objects lie in direct blocks. Few enough of them share one root block;
//! otherwise a root indirect block leads to several direct blocks, whose sizes
//! follow a doubling table: four blocks per row, rows 0 and 1 of 512 bytes, each
//! further row twice the one before.

use crate::bytes::{
    byte_span, extend, from_le, joined, le_bytes, lemma_byte_span, lemma_le_len,
    lemma_le_roundtrip, push1, push4, push_le, push_zeros, read_le, zeros,
};
use crate::checksum::{jenkins_lookup3, lookup3};
use crate::tree::{next_pow2, next_power_of_two};
use vstd::prelude::*;

verus! {

/// Bytes of a heap header.
pub const FRHP_SIZE: u64 = 146;

/// The largest size of a direct block.
pub const MAX_DIRECT_BLOCK_SIZE: u64 = 65536;

/// The smallest size of a direct block.
pub const STARTING_BLOCK_SIZE: u64 = 512;

/// Blocks per row of the doubling table.
pub const TABLE_WIDTH: u16 = 4;

// ---------------------------------------------------------------------------
// Heap identifiers
// ---------------------------------------------------------------------------

/// Offset and length of a managed object in one number.
pub open spec fn combined_id(offset: u64, length: u64, max_heap_size: u16) -> u64 {
    offset | (length << (max_heap_size as u64))
}

/// Bytes of a heap identifier that hold offset and length.
pub open spec fn id_payload(id_length: u16) -> nat {
    if id_length >= 9 {
        8
    } else {
        (id_length - 1) as nat
    }
}

/// The identifier of a managed object.
pub open spec fn managed_id(offset: u64, length: u64, max_heap_size: u16, id_length: u16) -> Seq<
    u8,
> {
    seq![0u8] + le_bytes(
        combined_id(offset, length, max_heap_size) as nat,
        id_payload(id_length),
    ) + zeros((id_length - 1 - id_payload(id_length)) as nat)
}

/// Writes the identifier of a managed object.
pub fn encode_managed_id(offset: u64, length: u64, max_heap_size: u16, id_length: u16) -> (id: Vec<
    u8,
>)
    requires
        max_heap_size < 64,
        id_length >= 1,
    ensures
        id@ == managed_id(offset, length, max_heap_size, id_length),
{
    let mut id: Vec<u8> = Vec::new();
    push1(&mut id, 0);
    let combined: u64 = offset | (length << (max_heap_size as u64));
    let payload: usize = if id_length >= 9 {
        8
    } else {
        (id_length - 1) as usize
    };
    push_le(&mut id, combined, payload);
    push_zeros(&mut id, id_length as usize - 1 - payload);
    assert(id@ =~= managed_id(offset, length, max_heap_size, id_length));
    id
}

/// Offset and length that an identifier stands for, `None` if it is not one of
/// a managed object.
pub open spec fn decoded_id(id: Seq<u8>, max_heap_size: u16) -> Option<(u64, u64)> {
    if id.len() < 2 || id[0] != 0 {
        None
    } else {
        let n: int = if id.len() >= 9 {
            8
        } else {
            id.len() - 1
        };
        let x = from_le(id.subrange(1, 1 + n)) as u64;
        let m = max_heap_size as u64;
        Some((x & ((1u64 << m) - 1) as u64, x >> m))
    }
}

/// Reads the identifier of a managed object.
pub fn decode_managed_id(id: &[u8], max_heap_size: u16) -> (r: Option<(u64, u64)>)
    requires
        max_heap_size < 64,
    ensures
        r == decoded_id(id@, max_heap_size),
{
    if id.len() < 2 || id[0] != 0 {
        return None;
    }
    let n: usize = if id.len() >= 9 {
        8
    } else {
        id.len() - 1
    };
    let x: u64 = read_le(id, 1, n);
    let m: u64 = max_heap_size as u64;
    assert(1u64 << m >= 1) by (bit_vector)
        requires
            m < 64,
    ;
    Some((x & ((1u64 << m) - 1), x >> m))
}

/// Reading an identifier gives back the offset and the length it was made of,
/// for the identifiers of attribute heaps (40 bits of offset, eight bytes) and
/// of link heaps (32 bits, seven bytes).
pub proof fn law_managed_id_roundtrip(
    offset: u64,
    length: u64,
    max_heap_size: u16,
    id_length: u16,
)
    requires
        (max_heap_size == 40 && id_length == 8) || (max_heap_size == 32 && id_length == 7),
        offset < (1u64 << (max_heap_size as u64)),
        length < 0x1_0000,
    ensures
        managed_id(offset, length, max_heap_size, id_length).len() == id_length,
        decoded_id(managed_id(offset, length, max_heap_size, id_length), max_heap_size) == Some(
            (offset, length),
        ),
{
    let m = max_heap_size as u64;
    let x = combined_id(offset, length, max_heap_size);
    let n = id_payload(id_length);
    lemma_byte_span();
    reveal_with_fuel(byte_span, 9);
    if m == 40 {
        assert((offset | (length << 40u64)) >> 40u64 == length && (offset | (length << 40u64)) & (
        ((1u64 << 40u64) - 1) as u64) == offset && (offset | (length << 40u64))
            < 0x100_0000_0000_0000u64) by (bit_vector)
            requires
                offset < (1u64 << 40u64),
                length < 0x1_0000,
        ;
        assert(x < byte_span(7));
    } else {
        assert((offset | (length << 32u64)) >> 32u64 == length && (offset | (length << 32u64)) & (
        ((1u64 << 32u64) - 1) as u64) == offset && (offset | (length << 32u64))
            < 0x1_0000_0000_0000u64) by (bit_vector)
            requires
                offset < (1u64 << 32u64),
                length < 0x1_0000,
        ;
        assert(x < byte_span(6));
    }
    lemma_le_len(x as nat, n);
    lemma_le_roundtrip(x as nat, n);
    let id = managed_id(offset, length, max_heap_size, id_length);
    assert(id.subrange(1, 1 + n as int) =~= le_bytes(x as nat, n));
}

// ---------------------------------------------------------------------------
// Doubling table
// ---------------------------------------------------------------------------

/// The size of a block of row `row`.
pub open spec fn row_size(row: nat) -> nat
    decreases row,
{
    if row <= 1 {
        STARTING_BLOCK_SIZE as nat
    } else {
        2 * row_size((row - 1) as nat)
    }
}

/// The size of block `k`.
pub open spec fn block_size(k: int) -> nat {
    row_size((k / 4) as nat)
}

/// The heap offset of block `k`: the bytes of the blocks before it.
pub open spec fn block_offset(k: int) -> nat
    decreases k,
{
    if k <= 0 {
        0
    } else {
        block_offset(k - 1) + block_size(k - 1)
    }
}

/// The bytes of the first `rows` rows.
pub open spec fn rows_size(rows: nat) -> nat
    decreases rows,
{
    if rows == 0 {
        0
    } else {
        rows_size((rows - 1) as nat) + 4 * row_size((rows - 1) as nat)
    }
}

pub(crate) proof fn lemma_row_size(row: nat)
    ensures
        row_size(row) >= 512,
    decreases row,
{
    if row > 1 {
        lemma_row_size((row - 1) as nat);
    }
}

pub(crate) proof fn lemma_block_offset_monotonic(a: int, b: int)
    requires
        a <= b,
    ensures
        block_offset(a) <= block_offset(b),
    decreases b - a,
{
    if a < b {
        lemma_block_offset_monotonic(a, b - 1);
    }
}

/// Whole rows, closed form: all rows before row `r` are as large as four blocks
/// of row `r` (eight where `r` is counted in).
proof fn lemma_rows(r: nat)
    ensures
        block_offset(4 * r as int) == rows_size(r),
        r >= 1 ==> rows_size(r) == 4 * row_size(r),
    decreases r,
{
    if r > 0 {
        let p = (r - 1) as nat;
        lemma_rows(p);
        let k = 4 * p as int;
        assert(block_offset(k + 1) == block_offset(k) + block_size(k));
        assert(block_offset(k + 2) == block_offset(k + 1) + block_size(k + 1));
        assert(block_offset(k + 3) == block_offset(k + 2) + block_size(k + 2));
        assert(block_offset(k + 4) == block_offset(k + 3) + block_size(k + 3));
        assert(k / 4 == p && (k + 1) / 4 == p && (k + 2) / 4 == p && (k + 3) / 4 == p);
        assert(4 * r == k + 4);
    }
}

/// The managed space of the rows in use exceeds the allocated blocks by less
/// than a factor of two.
proof fn lemma_managed_bound(n: int)
    requires
        n >= 1,
    ensures
        rows_size(((n - 1) / 4 + 1) as nat) < 2 * block_offset(n) + 4096,
{
    let last = ((n - 1) / 4) as nat;
    lemma_rows(last);
    lemma_rows((last + 1) as nat);
    lemma_block_offset_monotonic(4 * last as int, n - 1);
    lemma_row_size(last);
    assert(block_offset(n) == block_offset(n - 1) + block_size(n - 1));
    if last >= 1 {
        assert(block_offset(n) >= 5 * row_size(last));
        assert(rows_size((last + 1) as nat) == rows_size(last) + 4 * row_size(last));
    } else {
        assert(rows_size(1) == 4 * row_size(0)) by {
            assert(rows_size(0) == 0);
        }
    }
}

/// The size of a block of row `row`.
pub(crate) fn block_size_for_row(row: usize) -> (size: u64)
    requires
        row_size(row as nat) <= u64::MAX,
    ensures
        size == row_size(row as nat),
{
    let mut size: u64 = STARTING_BLOCK_SIZE;
    let mut r: usize = 1;
    while r < row
        invariant
            1 <= r,
            r <= row || (row == 0 && r == 1),
            size == row_size(r as nat),
            row_size(row as nat) <= u64::MAX,
        decreases row - r,
    {
        proof {
            lemma_row_monotonic((r + 1) as nat, row as nat);
        }
        size = size * 2;
        r = r + 1;
    }
    assert(row_size(0) == row_size(1));
    size
}

proof fn lemma_row_monotonic(a: nat, b: nat)
    requires
        a <= b,
    ensures
        row_size(a) <= row_size(b),
    decreases b,
{
    lemma_row_size(a);
    if a < b {
        lemma_row_monotonic(a, (b - 1) as nat);
    }
}

// ---------------------------------------------------------------------------
// Heap header
// ---------------------------------------------------------------------------

/// What a heap header says.
pub struct HeapHeader {
    pub heap_id_length: u16,
    pub max_managed: u32,
    pub free_space: u64,
    pub managed_space: u64,
    pub alloc_space: u64,
    pub nobjects: u64,
    pub starting_block_size: u64,
    pub max_heap_size: u16,
    pub root_addr: u64,
    pub cur_rows: u16,
}

/// The heap header without its checksum.
pub open spec fn heap_header_fields(p: HeapHeader) -> Seq<u8> {
    seq![0x46u8, 0x52, 0x48, 0x50] + seq![0u8] + le_bytes(p.heap_id_length as nat, 2) + le_bytes(
        0,
        2,
    ) + seq![2u8] + le_bytes(p.max_managed as nat, 4) + le_bytes(0, 8) + le_bytes(
        u64::MAX as nat,
        8,
    ) + le_bytes(p.free_space as nat, 8) + le_bytes(u64::MAX as nat, 8) + le_bytes(
        p.managed_space as nat,
        8,
    ) + le_bytes(p.alloc_space as nat, 8) + le_bytes(0, 8) + le_bytes(p.nobjects as nat, 8)
        + le_bytes(0, 8) + le_bytes(0, 8) + le_bytes(0, 8) + le_bytes(0, 8) + le_bytes(4, 2)
        + le_bytes(p.starting_block_size as nat, 8) + le_bytes(65536, 8) + le_bytes(
        p.max_heap_size as nat,
        2,
    ) + le_bytes(1, 2) + le_bytes(p.root_addr as nat, 8) + le_bytes(p.cur_rows as nat, 2)
}

/// The heap header.
pub open spec fn heap_header_bytes(p: HeapHeader) -> Seq<u8> {
    heap_header_fields(p) + le_bytes(lookup3(heap_header_fields(p)) as nat, 4)
}

pub proof fn lemma_heap_header_len(p: HeapHeader)
    ensures
        heap_header_bytes(p).len() == FRHP_SIZE,
{
    lemma_le_len(p.heap_id_length as nat, 2);
    lemma_le_len(0, 2);
    lemma_le_len(p.max_managed as nat, 4);
    lemma_le_len(0, 8);
    lemma_le_len(u64::MAX as nat, 8);
    lemma_le_len(p.free_space as nat, 8);
    lemma_le_len(p.managed_space as nat, 8);
    lemma_le_len(p.alloc_space as nat, 8);
    lemma_le_len(p.nobjects as nat, 8);
    lemma_le_len(4, 2);
    lemma_le_len(p.starting_block_size as nat, 8);
    lemma_le_len(65536, 8);
    lemma_le_len(p.max_heap_size as nat, 2);
    lemma_le_len(1, 2);
    lemma_le_len(p.root_addr as nat, 8);
    lemma_le_len(p.cur_rows as nat, 2);
    lemma_le_len(lookup3(heap_header_fields(p)) as nat, 4);
}

/// Writes a heap header.
fn write_frhp(p: &HeapHeader) -> (r: Vec<u8>)
    ensures
        r@ == heap_header_bytes(*p),
{
    let mut frhp: Vec<u8> = Vec::new();
    push4(&mut frhp, 0x46, 0x52, 0x48, 0x50);
    assert(frhp@ =~= seq![0x46u8, 0x52, 0x48, 0x50]);
    push1(&mut frhp, 0);
    push_le(&mut frhp, p.heap_id_length as u64, 2);
    push_le(&mut frhp, 0, 2);
    push1(&mut frhp, 2);
    push_le(&mut frhp, p.max_managed as u64, 4);
    push_le(&mut frhp, 0, 8);
    push_le(&mut frhp, 0xffff_ffff_ffff_ffff, 8);
    push_le(&mut frhp, p.free_space, 8);
    push_le(&mut frhp, 0xffff_ffff_ffff_ffff, 8);
    push_le(&mut frhp, p.managed_space, 8);
    push_le(&mut frhp, p.alloc_space, 8);
    push_le(&mut frhp, 0, 8);
    push_le(&mut frhp, p.nobjects, 8);
    push_le(&mut frhp, 0, 8);
    push_le(&mut frhp, 0, 8);
    push_le(&mut frhp, 0, 8);
    push_le(&mut frhp, 0, 8);
    push_le(&mut frhp, 4, 2);
    push_le(&mut frhp, p.starting_block_size, 8);
    push_le(&mut frhp, 65536, 8);
    push_le(&mut frhp, p.max_heap_size as u64, 2);
    push_le(&mut frhp, 1, 2);
    push_le(&mut frhp, p.root_addr, 8);
    push_le(&mut frhp, p.cur_rows as u64, 2);
    assert(frhp@ == heap_header_fields(*p));
    let checksum: u32 = jenkins_lookup3(frhp.as_slice());
    push_le(&mut frhp, checksum as u64, 4);
    frhp
}

// ---------------------------------------------------------------------------
// Direct blocks
// ---------------------------------------------------------------------------

/// Bytes of a block offset.
pub open spec fn offset_bytes(max_heap_size: u16) -> nat {
    ((max_heap_size + 7) / 8) as nat
}

/// Bytes of a direct block before its objects.
pub open spec fn block_header_len(max_heap_size: u16) -> nat {
    17 + offset_bytes(max_heap_size)
}

/// `s` as `size` bytes: with zeros behind it, or without what is beyond them.
/// What a block holds is never beyond it.
pub open spec fn resized(s: Seq<u8>, size: nat) -> Seq<u8> {
    if s.len() <= size {
        s + zeros((size - s.len()) as nat)
    } else {
        s.take(size as int)
    }
}

/// The head of a direct block, up to its checksum.
pub open spec fn block_head(heap_addr: u64, offset: nat, max_heap_size: u16) -> Seq<u8> {
    seq![0x46u8, 0x48, 0x44, 0x42] + seq![0u8] + le_bytes(heap_addr as nat, 8) + le_bytes(
        offset,
        offset_bytes(max_heap_size),
    )
}

/// A direct block of `size` bytes with `data`. Its checksum covers the block
/// with the checksum itself taken as zero.
pub open spec fn direct_block(
    heap_addr: u64,
    offset: nat,
    max_heap_size: u16,
    data: Seq<u8>,
    size: nat,
) -> Seq<u8> {
    let head = block_head(heap_addr, offset, max_heap_size);
    let blank = resized(head + zeros(4) + data, size);
    resized(head + le_bytes(lookup3(blank) as nat, 4) + data, size)
}

fn resize(buf: &mut Vec<u8>, size: usize)
    ensures
        final(buf)@ == resized(old(buf)@, size as nat),
{
    if buf.len() <= size {
        let missing: usize = size - buf.len();
        push_zeros(buf, missing);
    } else {
        buf.truncate(size);
        assert(buf@ =~= old(buf)@.take(size as int));
    }
}

fn write_direct_block(
    heap_addr: u64,
    offset: u64,
    max_heap_size: u16,
    data: &[u8],
    size: usize,
) -> (r: Vec<u8>)
    ensures
        r@ == direct_block(heap_addr, offset as nat, max_heap_size, data@, size as nat),
{
    let width: usize = (max_heap_size as usize + 7) / 8;
    let mut head: Vec<u8> = Vec::new();
    push4(&mut head, 0x46, 0x48, 0x44, 0x42);
    assert(head@ =~= seq![0x46u8, 0x48, 0x44, 0x42]);
    push1(&mut head, 0);
    push_le(&mut head, heap_addr, 8);
    push_le(&mut head, offset, width);
    assert(head@ == block_head(heap_addr, offset as nat, max_heap_size));
    let mut blank: Vec<u8> = Vec::new();
    extend(&mut blank, head.as_slice());
    push_zeros(&mut blank, 4);
    extend(&mut blank, data);
    assert(blank@ =~= head@ + zeros(4) + data@);
    resize(&mut blank, size);
    let checksum: u32 = jenkins_lookup3(blank.as_slice());
    let mut block: Vec<u8> = head;
    push_le(&mut block, checksum as u64, 4);
    extend(&mut block, data);
    resize(&mut block, size);
    block
}

proof fn lemma_block_len(
    heap_addr: u64,
    offset: nat,
    max_heap_size: u16,
    data: Seq<u8>,
    size: nat,
)
    ensures
        direct_block(heap_addr, offset, max_heap_size, data, size).len() == size,
{
}

// ---------------------------------------------------------------------------
// Packing objects into blocks
// ---------------------------------------------------------------------------

/// The first block from number `from` on that has at least `need` bytes.
pub open spec fn slot_for(from: int, need: nat) -> int
    decreases 4 * need - from,
{
    if from < 0 || block_size(from) >= need {
        from
    } else {
        proof {
            lemma_row_at_least((from / 4) as nat);
        }
        slot_for(from + 1, need)
    }
}

pub proof fn lemma_row_at_least(row: nat)
    ensures
        row_size(row) >= row,
    decreases row,
{
    if row > 1 {
        lemma_row_at_least((row - 1) as nat);
        lemma_row_size((row - 1) as nat);
    }
}

/// The slot is not before `from`, and has the bytes.
pub proof fn lemma_slot(from: int, need: nat)
    requires
        0 <= from,
    ensures
        slot_for(from, need) >= from,
        block_size(slot_for(from, need)) >= need,
    decreases 4 * need - from,
{
    if block_size(from) < need {
        lemma_row_at_least((from / 4) as nat);
        lemma_slot(from + 1, need);
    }
}

/// `n` blocks without objects.
pub open spec fn blank_blocks(n: nat) -> Seq<Seq<u8>> {
    Seq::new(n, |i: int| Seq::<u8>::empty())
}

/// The contents of the blocks once the first `n` objects are placed. An object
/// goes into the last block if that block has room; else it opens the next one
/// that is large enough, and the blocks passed over stay empty.
pub open spec fn packed(objs: Seq<Seq<u8>>, header: nat, n: int) -> Seq<Seq<u8>>
    decreases n,
{
    if n <= 0 {
        Seq::empty()
    } else {
        placed(packed(objs, header, n - 1), header, objs[n - 1])
    }
}

/// The blocks after one more object.
#[verifier::opaque]
pub open spec fn placed(blocks: Seq<Seq<u8>>, header: nat, s: Seq<u8>) -> Seq<Seq<u8>> {
    if blocks.len() > 0 && header + blocks.last().len() + s.len() <= block_size(blocks.len() - 1) {
        blocks.drop_last().push(blocks.last() + s)
    } else {
        let k = slot_for(blocks.len() as int, header + s.len());
        (blocks + blank_blocks((k - blocks.len()) as nat)).push(s)
    }
}

/// Where object `i` is, counted from the start of the heap's blocks.
pub open spec fn packed_offset(objs: Seq<Seq<u8>>, header: nat, i: int) -> nat {
    let blocks = packed(objs, header, i + 1);
    (block_offset(blocks.len() - 1) + header + blocks.last().len() - objs[i].len()) as nat
}

/// Whether one block of at most the largest size holds all objects.
pub open spec fn one_block(objs: Seq<Seq<u8>>, header: nat) -> bool {
    header + joined(objs).len() <= MAX_DIRECT_BLOCK_SIZE
}

/// The size of the one block.
pub open spec fn root_block_size(objs: Seq<Seq<u8>>, header: nat) -> nat {
    let need = next_pow2(header + joined(objs).len());
    if need <= 512 {
        512
    } else {
        need
    }
}

/// Where object `i` is, counted from the start of the heap's blocks.
pub open spec fn object_offset(objs: Seq<Seq<u8>>, max_heap_size: u16, i: int) -> nat {
    let header = block_header_len(max_heap_size);
    if one_block(objs, header) {
        header + joined(objs.take(i)).len()
    } else {
        packed_offset(objs, header, i)
    }
}

/// The identifiers of the objects.
pub open spec fn object_ids(objs: Seq<Seq<u8>>, max_heap_size: u16, id_length: u16) -> Seq<
    Seq<u8>,
> {
    Seq::new(
        objs.len(),
        |i: int|
            managed_id(
                object_offset(objs, max_heap_size, i) as u64,
                objs[i].len() as u64,
                max_heap_size,
                id_length,
            ),
    )
}

// ---------------------------------------------------------------------------
// Heaps
// ---------------------------------------------------------------------------

/// The rows that `n` blocks are in.
pub open spec fn rows_of(n: int) -> nat {
    if n <= 0 {
        1
    } else {
        ((n - 1) / 4 + 1) as nat
    }
}

/// Bytes of the root indirect block over `n` blocks.
pub open spec fn indirect_len(n: int, max_heap_size: u16) -> nat {
    13 + offset_bytes(max_heap_size) + rows_of(n) * 32 + 4
}

/// The entries of the root indirect block: the addresses of the blocks, which
/// lie one after another from `first` on.
pub open spec fn block_addresses(first: nat, n: int) -> Seq<u8>
    decreases n,
{
    if n <= 0 {
        Seq::empty()
    } else {
        block_addresses(first, n - 1) + le_bytes(first + block_offset(n - 1), 8)
    }
}

/// The root indirect block without its checksum.
pub open spec fn indirect_fields(heap_addr: u64, max_heap_size: u16, first: nat, n: int) -> Seq<
    u8,
> {
    seq![0x46u8, 0x48, 0x49, 0x42] + seq![0u8] + le_bytes(heap_addr as nat, 8) + zeros(
        offset_bytes(max_heap_size),
    ) + block_addresses(first, n) + unused_entries((rows_of(n) * 4 - n) as nat)
}

/// `n` undefined addresses.
pub open spec fn unused_entries(n: nat) -> Seq<u8> {
    Seq::new(8 * n, |i: int| 0xffu8)
}

/// The root indirect block.
pub open spec fn indirect_block(heap_addr: u64, max_heap_size: u16, first: nat, n: int) -> Seq<u8> {
    let fields = indirect_fields(heap_addr, max_heap_size, first, n);
    fields + le_bytes(lookup3(fields) as nat, 4)
}

/// The first `k` direct blocks.
pub open spec fn direct_blocks(
    heap_addr: u64,
    max_heap_size: u16,
    blocks: Seq<Seq<u8>>,
    k: int,
) -> Seq<u8>
    decreases k,
{
    if k <= 0 {
        Seq::empty()
    } else {
        direct_blocks(heap_addr, max_heap_size, blocks, k - 1) + direct_block(
            heap_addr,
            block_offset(k - 1),
            max_heap_size,
            blocks[k - 1],
            block_size(k - 1),
        )
    }
}

/// Bytes in use of the first `k` blocks.
pub open spec fn used_space(blocks: Seq<Seq<u8>>, header: nat, k: int) -> nat
    decreases k,
{
    if k <= 0 {
        0
    } else {
        used_space(blocks, header, k - 1) + header + blocks[k - 1].len()
    }
}

/// The bytes of a heap at `base` before its blocks.
pub open spec fn heap_data_start(objs: Seq<Seq<u8>>, max_heap_size: u16) -> nat {
    let header = block_header_len(max_heap_size);
    if one_block(objs, header) {
        FRHP_SIZE as nat
    } else {
        FRHP_SIZE as nat + indirect_len(
            packed(objs, header, objs.len() as int).len() as int,
            max_heap_size,
        )
    }
}

/// Bytes of a heap.
pub open spec fn heap_len(objs: Seq<Seq<u8>>, max_heap_size: u16) -> nat {
    let header = block_header_len(max_heap_size);
    heap_data_start(objs, max_heap_size) + if one_block(objs, header) {
        root_block_size(objs, header)
    } else {
        block_offset(packed(objs, header, objs.len() as int).len() as int)
    }
}

/// The header of the heap with objects `objs` at `base`.
pub open spec fn heap_header_of(
    objs: Seq<Seq<u8>>,
    base: u64,
    max_heap_size: u16,
    id_length: u16,
) -> HeapHeader {
    let header = block_header_len(max_heap_size);
    let max_managed = (65536 - header) as u32;
    if one_block(objs, header) {
        let size = root_block_size(objs, header);
        HeapHeader {
            heap_id_length: id_length,
            max_managed,
            free_space: (size - header - joined(objs).len()) as u64,
            managed_space: size as u64,
            alloc_space: size as u64,
            nobjects: objs.len() as u64,
            starting_block_size: size as u64,
            max_heap_size,
            root_addr: (base + FRHP_SIZE) as u64,
            cur_rows: 0,
        }
    } else {
        let blocks = packed(objs, header, objs.len() as int);
        let n = blocks.len() as int;
        let alloc = block_offset(n);
        let used = used_space(blocks, header, n);
        HeapHeader {
            heap_id_length: id_length,
            max_managed,
            free_space: if alloc >= used {
                (alloc - used) as u64
            } else {
                0
            },
            managed_space: rows_size(rows_of(n)) as u64,
            alloc_space: alloc as u64,
            nobjects: objs.len() as u64,
            starting_block_size: STARTING_BLOCK_SIZE,
            max_heap_size,
            root_addr: (base + FRHP_SIZE) as u64,
            cur_rows: (rows_of(n) % 0x1_0000) as u16,
        }
    }
}

/// The heap with objects `objs` at `base`.
#[verifier::opaque]
pub open spec fn heap_bytes(
    objs: Seq<Seq<u8>>,
    base: u64,
    max_heap_size: u16,
    id_length: u16,
) -> Seq<u8> {
    let header = block_header_len(max_heap_size);
    let head = heap_header_bytes(heap_header_of(objs, base, max_heap_size, id_length));
    if one_block(objs, header) {
        head + direct_block(
            base,
            0,
            max_heap_size,
            joined(objs),
            root_block_size(objs, header),
        )
    } else {
        let blocks = packed(objs, header, objs.len() as int);
        let n = blocks.len() as int;
        head + indirect_block(
            base,
            max_heap_size,
            (base + FRHP_SIZE + indirect_len(n, max_heap_size)) as nat,
            n,
        ) + direct_blocks(base, max_heap_size, blocks, n)
    }
}

/// Contents of byte vectors.
pub open spec fn object_views(v: Seq<Vec<u8>>) -> Seq<Seq<u8>> {
    Seq::new(v.len(), |i: int| v[i]@)
}

/// A heap and the identifiers of its objects.
pub struct FractalHeapBlock {
    /// The heap.
    pub blob: Vec<u8>,
    /// Where the heap starts.
    pub frhp_addr: u64,
    /// Where the heap ends: the place of the index over it.
    pub btree_addr: u64,
    /// The identifiers, in the order of the objects.
    pub heap_ids: Vec<Vec<u8>>,
    /// Bytes of an identifier.
    pub heap_id_length: u16,
}

/// Whether `h` is the heap of `objs` at `base`.
pub open spec fn is_heap_of(
    h: FractalHeapBlock,
    objs: Seq<Seq<u8>>,
    base: u64,
    max_heap_size: u16,
    id_length: u16,
) -> bool {
    &&& h.blob@ == heap_bytes(objs, base, max_heap_size, id_length)
    &&& h.blob@.len() == heap_len(objs, max_heap_size)
    &&& h.frhp_addr == base
    &&& h.btree_addr == base + heap_len(objs, max_heap_size)
    &&& object_views(h.heap_ids@) == object_ids(objs, max_heap_size, id_length)
    &&& h.heap_id_length == id_length
}

/// Whether the parameters and the end of the heap are in range.
pub open spec fn heap_fits(
    objs: Seq<Seq<u8>>,
    base: u64,
    max_heap_size: u16,
    id_length: u16,
) -> bool {
    &&& max_heap_size < 64
    &&& id_length >= 1
    &&& base + heap_len(objs, max_heap_size) <= isize::MAX
}

proof fn lemma_joined_monotonic(objs: Seq<Seq<u8>>, i: int)
    requires
        0 <= i <= objs.len(),
    ensures
        joined(objs.take(i)).len() <= joined(objs).len(),
    decreases objs.len() - i,
{
    if i < objs.len() {
        assert(objs.take(i + 1).drop_last() =~= objs.take(i));
        lemma_joined_monotonic(objs, i + 1);
    } else {
        assert(objs.take(i) =~= objs);
    }
}

/// The objects one after another, `None` once they exceed `limit` bytes.
pub(crate) fn join_within(objs: &[Vec<u8>], limit: usize) -> (r: Option<Vec<u8>>)
    ensures
        match r {
            Some(v) => v@ == joined(object_views(objs@)) && v@.len() <= limit,
            None => joined(object_views(objs@)).len() > limit,
        },
{
    let ghost views = object_views(objs@);
    let mut all: Vec<u8> = Vec::new();
    let mut i: usize = 0;
    assert(views.take(0) =~= Seq::empty());
    while i < objs.len()
        invariant
            i <= objs@.len(),
            views == object_views(objs@),
            all@ == joined(views.take(i as int)),
            all@.len() <= limit,
        decreases objs@.len() - i,
    {
        proof {
            assert(views.take(i + 1).drop_last() =~= views.take(i as int));
            assert(views.take(i + 1).last() == objs@[i as int]@);
        }
        if objs[i].len() > limit - all.len() {
            proof {
                lemma_joined_monotonic(views, i + 1);
            }
            return None;
        }
        extend(&mut all, objs[i].as_slice());
        i = i + 1;
    }
    assert(views.take(i as int) =~= views);
    Some(all)
}

/// Builds the heap of `serialized` at `base_address`.
///
/// The objects share one direct block where they fit in one of the largest size;
/// otherwise they are spread over several under a root indirect block.
pub fn build_single_block_fractal_heap(
    serialized: &[Vec<u8>],
    base_address: u64,
    max_heap_size: u16,
    heap_id_length: u16,
) -> (h: FractalHeapBlock)
    requires
        heap_fits(object_views(serialized@), base_address, max_heap_size, heap_id_length),
    ensures
        is_heap_of(
            h,
            object_views(serialized@),
            base_address,
            max_heap_size,
            heap_id_length,
        ),
{
    proof {
        reveal(heap_bytes);
    }
    let ghost objs = object_views(serialized@);
    let header: usize = 17 + (max_heap_size as usize + 7) / 8;
    assert(header == block_header_len(max_heap_size));
    assert(header <= 25);
    let data: Vec<u8> = match join_within(serialized, 65536 - header) {
        Some(v) => v,
        None => {
            return build_multiblock_fractal_heap(
                serialized,
                base_address,
                max_heap_size,
                heap_id_length,
            );
        },
    };
    let content: usize = header + data.len();
    proof {
        crate::tree::lemma_next_pow2_monotonic(content as nat, 65536);
        assert(crate::tree::is_pow2(65536nat)) by {
            reveal_with_fuel(crate::tree::is_pow2, 18);
        }
        crate::tree::lemma_next_pow2_fixed(65536);
        crate::tree::lemma_next_pow2(content as nat);
    }
    let need: usize = next_power_of_two(content);
    let size: usize = if need <= 512 {
        512
    } else {
        need
    };
    let head: HeapHeader = HeapHeader {
        heap_id_length,
        max_managed: 65536 - header as u32,
        free_space: (size - content) as u64,
        managed_space: size as u64,
        alloc_space: size as u64,
        nobjects: serialized.len() as u64,
        starting_block_size: size as u64,
        max_heap_size,
        root_addr: base_address + FRHP_SIZE,
        cur_rows: 0,
    };
    assert(head == heap_header_of(objs, base_address, max_heap_size, heap_id_length));
    let mut blob: Vec<u8> = write_frhp(&head);
    let block: Vec<u8> = write_direct_block(
        base_address,
        0,
        max_heap_size,
        data.as_slice(),
        size,
    );
    extend(&mut blob, block.as_slice());
    let mut heap_ids: Vec<Vec<u8>> = Vec::new();
    let mut offset: usize = header;
    let mut i: usize = 0;
    assert(objs.take(0) =~= Seq::empty());
    while i < serialized.len()
        invariant
            i <= serialized@.len(),
            objs == object_views(serialized@),
            header == block_header_len(max_heap_size),
            one_block(objs, header as nat),
            max_heap_size < 64,
            heap_id_length >= 1,
            offset == header + joined(objs.take(i as int)).len(),
            offset <= 65536,
            heap_ids@.len() == i,
            forall|j: int|
                0 <= j < i ==> (#[trigger] heap_ids@[j])@ == object_ids(
                    objs,
                    max_heap_size,
                    heap_id_length,
                )[j],
        decreases serialized@.len() - i,
    {
        proof {
            assert(objs.take(i + 1).drop_last() =~= objs.take(i as int));
            assert(objs.take(i + 1).last() == serialized@[i as int]@);
            lemma_joined_monotonic(objs, i + 1);
        }
        heap_ids.push(
            encode_managed_id(
                offset as u64,
                serialized[i].len() as u64,
                max_heap_size,
                heap_id_length,
            ),
        );
        offset = offset + serialized[i].len();
        i = i + 1;
    }
    proof {
        lemma_heap_header_len(head);
        lemma_block_len(base_address, 0, max_heap_size, joined(objs), size as nat);
        assert(object_views(heap_ids@) =~= object_ids(objs, max_heap_size, heap_id_length));
    }
    FractalHeapBlock {
        blob,
        frhp_addr: base_address,
        btree_addr: base_address + FRHP_SIZE + size as u64,
        heap_ids,
        heap_id_length,
    }
}

pub(crate) proof fn lemma_packed_grows(objs: Seq<Seq<u8>>, header: nat, a: int, b: int)
    requires
        0 <= a <= b,
    ensures
        packed(objs, header, a).len() <= packed(objs, header, b).len(),
        b >= 1 ==> packed(objs, header, b).len() >= 1,
    decreases b - a, b,
{
    reveal(placed);
    if b >= 1 {
        let prev = packed(objs, header, b - 1);
        lemma_slot(prev.len() as int, header + objs[b - 1].len());
        if a < b {
            lemma_packed_grows(objs, header, a, b - 1);
        } else {
            lemma_packed_grows(objs, header, b - 1, b - 1);
        }
    }
}

/// What the last block holds once object `i` is placed: the object alone, or
/// the object behind others; either way within the block.
pub(crate) proof fn lemma_last_block(objs: Seq<Seq<u8>>, header: nat, i: int)
    requires
        0 <= i < objs.len(),
    ensures
        ({
            let blocks = packed(objs, header, i + 1);
            let before = blocks.last().len() - objs[i].len();
            &&& blocks.len() >= 1
            &&& before >= 0
            &&& blocks.last().subrange(before, blocks.last().len() as int) == objs[i]
            &&& header + blocks.last().len() <= block_size(blocks.len() - 1)
        }),
{
    reveal(placed);
    let prev = packed(objs, header, i);
    let blocks = packed(objs, header, i + 1);
    let s = objs[i];
    assert(blocks == placed(prev, header, s));
    lemma_slot(prev.len() as int, header + s.len());
    let before = blocks.last().len() - s.len();
    assert(blocks.last().subrange(before, blocks.last().len() as int) =~= s);
}

/// Opens blocks, the last of which is the first with at least `need` bytes.
fn open_block(
    blocks: &mut Vec<Vec<u8>>,
    heap_off: &mut u64,
    size: &mut u64,
    need: u128,
    Ghost(total): Ghost<int>,
)
    requires
        old(blocks)@.len() == 0 ==> *old(heap_off) == 0 && *old(size) == 0,
        old(blocks)@.len() > 0 ==> {
            &&& *old(heap_off) == block_offset(old(blocks)@.len() - 1)
            &&& *old(size) == block_size(old(blocks)@.len() - 1)
        },
        slot_for(old(blocks)@.len() as int, need as nat) < total,
        block_offset(total) <= isize::MAX,
    ensures
        ({
            let n = old(blocks)@.len() as int;
            let k = slot_for(n, need as nat);
            &&& object_views(final(blocks)@) == object_views(old(blocks)@) + blank_blocks(
                (k + 1 - n) as nat,
            )
            &&& *final(heap_off) == block_offset(k)
            &&& *final(size) == block_size(k)
        }),
{
    let ghost first = blocks@.len() as int;
    let ghost prev = object_views(blocks@);
    let ghost k = slot_for(first, need as nat);
    let mut enough: bool = false;
    proof {
        lemma_slot(first, need as nat);
        assert(object_views(blocks@) =~= prev + blank_blocks(0));
    }
    while !enough
        invariant
            0 <= first <= blocks@.len() <= k + 1,
            prev.len() == first,
            k < total,
            block_offset(total) <= isize::MAX,
            object_views(blocks@) == prev + blank_blocks((blocks@.len() - first) as nat),
            blocks@.len() == 0 ==> *heap_off == 0 && *size == 0,
            blocks@.len() > 0 ==> {
                &&& *heap_off == block_offset(blocks@.len() - 1)
                &&& *size == block_size(blocks@.len() - 1)
            },
            enough ==> blocks@.len() == k + 1,
            !enough ==> slot_for(blocks@.len() as int, need as nat) == k,
        decreases k + 1 - blocks@.len(),
    {
        let m: usize = blocks.len();
        let ghost before = object_views(blocks@);
        proof {
            lemma_slot(m as int, need as nat);
            lemma_block_offset_monotonic(m as int, total);
            lemma_block_offset_monotonic(m + 1, total);
            assert(block_offset(m + 1) == block_offset(m as int) + block_size(m as int));
            if m > 0 {
                assert(block_offset(m as int) == block_offset(m - 1) + block_size(m - 1));
            }
        }
        *heap_off = *heap_off + *size;
        *size = block_size_for_row(m / 4);
        blocks.push(Vec::new());
        enough = *size as u128 >= need;
        assert(object_views(blocks@) =~= before.push(Seq::<u8>::empty()));
        assert(object_views(blocks@) =~= prev + blank_blocks((blocks@.len() - first) as nat));
    }
}

/// Builds a heap of several direct blocks under a root indirect block.
fn build_multiblock_fractal_heap(
    serialized: &[Vec<u8>],
    base_address: u64,
    max_heap_size: u16,
    heap_id_length: u16,
) -> (h: FractalHeapBlock)
    requires
        heap_fits(object_views(serialized@), base_address, max_heap_size, heap_id_length),
        !one_block(object_views(serialized@), block_header_len(max_heap_size)),
    ensures
        is_heap_of(
            h,
            object_views(serialized@),
            base_address,
            max_heap_size,
            heap_id_length,
        ),
{
    proof {
        reveal(heap_bytes);
    }
    let ghost objs = object_views(serialized@);
    let header: usize = 17 + (max_heap_size as usize + 7) / 8;
    let ghost total = packed(objs, header as nat, objs.len() as int).len() as int;
    let mut blocks: Vec<Vec<u8>> = Vec::new();
    let mut heap_ids: Vec<Vec<u8>> = Vec::new();
    // The heap offset of the last block, and its size.
    let mut heap_off: u64 = 0;
    let mut size: u64 = 0;
    let mut i: usize = 0;
    assert(object_views(blocks@) =~= Seq::empty());
    while i < serialized.len()
        invariant
            i <= serialized@.len(),
            objs == object_views(serialized@),
            header == block_header_len(max_heap_size),
            header <= 25,
            max_heap_size < 64,
            heap_id_length >= 1,
            !one_block(objs, header as nat),
            total == packed(objs, header as nat, objs.len() as int).len(),
            block_offset(total) <= isize::MAX,
            object_views(blocks@) == packed(objs, header as nat, i as int),
            blocks@.len() == 0 ==> heap_off == 0 && size == 0,
            blocks@.len() > 0 ==> {
                &&& heap_off == block_offset(blocks@.len() - 1)
                &&& size == block_size(blocks@.len() - 1)
            },
            heap_ids@.len() == i,
            forall|j: int|
                0 <= j < i ==> (#[trigger] heap_ids@[j])@ == object_ids(
                    objs,
                    max_heap_size,
                    heap_id_length,
                )[j],
        decreases serialized@.len() - i,
    {
        let s: &Vec<u8> = &serialized[i];
        let ghost prev = object_views(blocks@);
        let count: usize = blocks.len();
        let ghost after = packed(objs, header as nat, i + 1);
        proof {
            lemma_packed_grows(objs, header as nat, i + 1, objs.len() as int);
            lemma_block_offset_monotonic(after.len() as int, total);
            lemma_last_block(objs, header as nat, i as int);
            lemma_row_size(((count - 1) / 4) as nat);
            reveal(placed);
            assert(after == placed(prev, header as nat, s@));
            assert(prev.len() == count);
            if count > 0 {
                assert(prev.last() == blocks@[count - 1]@);
                assert(block_offset(count as int) == block_offset(count - 1) + block_size(
                    count - 1,
                ));
                lemma_block_offset_monotonic(count as int, total);
            }
        }
        let need: u128 = header as u128 + s.len() as u128;
        let has_room: bool = if count == 0 {
            false
        } else {
            need + blocks[count - 1].len() as u128 <= size as u128
        };
        if !has_room {
            open_block(&mut blocks, &mut heap_off, &mut size, need, Ghost(total));
            proof {
                lemma_slot(count as int, need as nat);
            }
        }
        let ghost opened = object_views(blocks@);
        let mut last: Vec<u8> = match blocks.pop() {
            Some(b) => b,
            None => Vec::new(),
        };
        let before: usize = last.len();
        extend(&mut last, s.as_slice());
        blocks.push(last);
        proof {
            assert(object_views(blocks@) =~= opened.drop_last().push(opened.last() + s@));
            if !has_room {
                assert(Seq::<u8>::empty() + s@ =~= s@);
                assert(object_views(blocks@) =~= after);
            }
        }
        proof {
            assert(object_views(blocks@) == after);
            assert(after.last() == blocks@[blocks@.len() - 1]@);
            assert(before == after.last().len() - s@.len());
            assert(block_offset(after.len() as int) == block_offset(after.len() - 1) + block_size(
                after.len() - 1,
            ));
            assert(packed_offset(objs, header as nat, i as int) == heap_off + header + before);
        }
        let offset: u64 = heap_off + header as u64 + before as u64;
        heap_ids.push(encode_managed_id(offset, s.len() as u64, max_heap_size, heap_id_length));
        i = i + 1;
    }
    let ghost bs = packed(objs, header as nat, objs.len() as int);
    let n: usize = blocks.len();
    assert(n == total);
    proof {
        if serialized@.len() == 0 {
            assert(objs =~= Seq::empty());
            assert(joined(objs).len() == 0);
        }
        lemma_packed_grows(objs, header as nat, objs.len() as int, objs.len() as int);
        lemma_managed_bound(n as int);
        assert(block_offset(n as int) == block_offset(n - 1) + block_size(n - 1));
        assert(objs.len() >= 1 && n >= 1);
    }
    let rows: usize = (n - 1) / 4 + 1;
    let width: usize = (max_heap_size as usize + 7) / 8;
    assert(rows == rows_of(n as int));
    assert(indirect_len(n as int, max_heap_size) == 13 + width + rows * 32 + 4);
    let fhib_size: u64 = 13 + width as u64 + rows as u64 * 32 + 4;
    let alloc_space: u64 = heap_off + size;
    let used: u64 = used_bytes(&blocks, header);
    let free_space: u64 = if alloc_space >= used {
        alloc_space - used
    } else {
        0
    };
    let managed_space: u64 = managed_bytes(rows, n);
    let head: HeapHeader = HeapHeader {
        heap_id_length,
        max_managed: 65536 - header as u32,
        free_space,
        managed_space,
        alloc_space,
        nobjects: serialized.len() as u64,
        starting_block_size: STARTING_BLOCK_SIZE,
        max_heap_size,
        root_addr: base_address + FRHP_SIZE,
        cur_rows: (rows as u64 % 0x1_0000) as u16,
    };
    assert(head == heap_header_of(objs, base_address, max_heap_size, heap_id_length));
    let mut blob: Vec<u8> = write_frhp(&head);
    let first: u64 = base_address + FRHP_SIZE + fhib_size;
    let fhib: Vec<u8> = write_indirect_block(base_address, max_heap_size, first, n);
    extend(&mut blob, fhib.as_slice());
    let dblocks: Vec<u8> = write_direct_blocks(base_address, max_heap_size, &blocks);
    extend(&mut blob, dblocks.as_slice());
    proof {
        lemma_heap_header_len(head);
        lemma_indirect_len(base_address, max_heap_size, first as nat, n as int);
        lemma_direct_blocks_len(base_address, max_heap_size, bs, n as int);
        assert(object_views(heap_ids@) =~= object_ids(objs, max_heap_size, heap_id_length));
    }
    FractalHeapBlock {
        blob,
        frhp_addr: base_address,
        btree_addr: first + alloc_space,
        heap_ids,
        heap_id_length,
    }
}

fn used_bytes(blocks: &Vec<Vec<u8>>, header: usize) -> (used: u64)
    requires
        header <= 25,
    ensures
        ({
            let exact = used_space(object_views(blocks@), header as nat, blocks@.len() as int);
            used == if exact <= u64::MAX {
                exact
            } else {
                u64::MAX as nat
            }
        }),
{
    let ghost views = object_views(blocks@);
    let mut used: u64 = 0;
    let mut k: usize = 0;
    while k < blocks.len()
        invariant
            k <= blocks@.len(),
            header <= 25,
            views == object_views(blocks@),
            used == if used_space(views, header as nat, k as int) <= u64::MAX {
                used_space(views, header as nat, k as int)
            } else {
                u64::MAX as nat
            },
        decreases blocks@.len() - k,
    {
        let add: u64 = (blocks[k].len() as u64).saturating_add(header as u64);
        used = used.saturating_add(add);
        k = k + 1;
    }
    used
}

fn managed_bytes(rows: usize, n: usize) -> (total: u64)
    requires
        n >= 1,
        rows == rows_of(n as int),
        block_offset(n as int) <= isize::MAX,
    ensures
        total == rows_size(rows as nat),
{
    proof {
        lemma_managed_bound(n as int);
        assert(isize::MAX <= 0x7fff_ffff_ffff_ffff);
        lemma_managed_tight(n as int);
    }
    let mut total: u64 = 0;
    let mut r: usize = 0;
    while r < rows
        invariant
            r <= rows,
            rows_size(rows as nat) <= u64::MAX,
            total == rows_size(r as nat),
        decreases rows - r,
    {
        proof {
            lemma_rows_monotonic((r + 1) as nat, rows as nat);
        }
        let size: u64 = block_size_for_row(r);
        total = total + 4 * size;
        r = r + 1;
    }
    total
}

proof fn lemma_rows_monotonic(a: nat, b: nat)
    requires
        a <= b,
    ensures
        rows_size(a) <= rows_size(b),
    decreases b,
{
    if a < b {
        lemma_rows_monotonic(a, (b - 1) as nat);
    }
}

proof fn lemma_managed_tight(n: int)
    requires
        n >= 1,
        block_offset(n) <= 0x7fff_ffff_ffff_ffff,
    ensures
        rows_size(rows_of(n)) <= u64::MAX,
{
    let last = ((n - 1) / 4) as nat;
    lemma_rows(last);
    lemma_rows((last + 1) as nat);
    lemma_block_offset_monotonic(4 * last as int, n - 1);
    lemma_row_size(last);
    assert(block_offset(n) == block_offset(n - 1) + block_size(n - 1));
    if last == 0 {
        assert(rows_size(1) == 4 * row_size(0)) by {
            assert(rows_size(0) == 0);
        }
    }
}

fn write_indirect_block(heap_addr: u64, max_heap_size: u16, first: u64, n: usize) -> (r: Vec<u8>)
    requires
        n >= 1,
        max_heap_size < 64,
        first + block_offset(n as int) <= isize::MAX,
        indirect_len(n as int, max_heap_size) <= isize::MAX,
    ensures
        r@ == indirect_block(heap_addr, max_heap_size, first as nat, n as int),
{
    let width: usize = (max_heap_size as usize + 7) / 8;
    let mut fhib: Vec<u8> = Vec::new();
    push4(&mut fhib, 0x46, 0x48, 0x49, 0x42);
    assert(fhib@ =~= seq![0x46u8, 0x48, 0x49, 0x42]);
    push1(&mut fhib, 0);
    push_le(&mut fhib, heap_addr, 8);
    push_zeros(&mut fhib, width);
    let ghost start = fhib@;
    let mut addr: u64 = first;
    let mut k: usize = 0;
    assert(start + block_addresses(first as nat, 0) =~= start);
    while k < n
        invariant
            k <= n,
            first + block_offset(n as int) <= isize::MAX,
            addr == first + block_offset(k as int),
            fhib@ == start + block_addresses(first as nat, k as int),
        decreases n - k,
    {
        proof {
            lemma_block_offset_monotonic(k + 1, n as int);
            assert(block_offset(k + 1) == block_offset(k as int) + block_size(k as int));
        }
        push_le(&mut fhib, addr, 8);
        assert(fhib@ =~= start + block_addresses(first as nat, k + 1));
        addr = addr + block_size_for_row(k / 4);
        k = k + 1;
    }
    let rows: usize = (n - 1) / 4 + 1;
    let unused: usize = rows * 4 - n;
    crate::bytes::push_fill(&mut fhib, 0xff, unused * 8);
    assert(Seq::new((unused * 8) as nat, |i: int| 0xffu8) =~= unused_entries(unused as nat));
    assert(fhib@ == indirect_fields(heap_addr, max_heap_size, first as nat, n as int));
    let checksum: u32 = jenkins_lookup3(fhib.as_slice());
    push_le(&mut fhib, checksum as u64, 4);
    fhib
}

fn write_direct_blocks(heap_addr: u64, max_heap_size: u16, blocks: &Vec<Vec<u8>>) -> (r: Vec<u8>)
    requires
        max_heap_size < 64,
        block_offset(blocks@.len() as int) <= isize::MAX,
    ensures
        r@ == direct_blocks(
            heap_addr,
            max_heap_size,
            object_views(blocks@),
            blocks@.len() as int,
        ),
{
    let ghost views = object_views(blocks@);
    let mut out: Vec<u8> = Vec::new();
    let mut offset: u64 = 0;
    let mut k: usize = 0;
    while k < blocks.len()
        invariant
            k <= blocks@.len(),
            max_heap_size < 64,
            views == object_views(blocks@),
            block_offset(blocks@.len() as int) <= isize::MAX,
            offset == block_offset(k as int),
            out@ == direct_blocks(heap_addr, max_heap_size, views, k as int),
        decreases blocks@.len() - k,
    {
        proof {
            lemma_block_offset_monotonic(k + 1, blocks@.len() as int);
            assert(block_offset(k + 1) == block_offset(k as int) + block_size(k as int));
        }
        let size: u64 = block_size_for_row(k / 4);
        let block: Vec<u8> = write_direct_block(
            heap_addr,
            offset,
            max_heap_size,
            blocks[k].as_slice(),
            size as usize,
        );
        extend(&mut out, block.as_slice());
        offset = offset + size;
        k = k + 1;
    }
    out
}

pub(crate) proof fn lemma_block_addresses_len(first: nat, n: int)
    requires
        n >= 0,
    ensures
        block_addresses(first, n).len() == 8 * n,
    decreases n,
{
    if n > 0 {
        lemma_block_addresses_len(first, n - 1);
        lemma_le_len(first + block_offset(n - 1), 8);
    }
}

pub(crate) proof fn lemma_indirect_len(heap_addr: u64, max_heap_size: u16, first: nat, n: int)
    requires
        n >= 1,
    ensures
        indirect_block(heap_addr, max_heap_size, first, n).len() == indirect_len(n, max_heap_size),
{
    lemma_block_addresses_len(first, n);
    lemma_le_len(heap_addr as nat, 8);
    lemma_le_len(
        lookup3(indirect_fields(heap_addr, max_heap_size, first, n)) as nat,
        4,
    );
}

proof fn lemma_direct_blocks_len(
    heap_addr: u64,
    max_heap_size: u16,
    blocks: Seq<Seq<u8>>,
    k: int,
)
    requires
        k >= 0,
    ensures
        direct_blocks(heap_addr, max_heap_size, blocks, k).len() == block_offset(k),
    decreases k,
{
    if k > 0 {
        lemma_direct_blocks_len(heap_addr, max_heap_size, blocks, k - 1);
        lemma_block_len(
            heap_addr,
            block_offset(k - 1),
            max_heap_size,
            blocks[k - 1],
            block_size(k - 1),
        );
    }
}

/// The size of a heap does not depend on where it stands.
pub proof fn lemma_heap_bytes_len(
    objs: Seq<Seq<u8>>,
    base: u64,
    max_heap_size: u16,
    id_length: u16,
)
    ensures
        heap_bytes(objs, base, max_heap_size, id_length).len() == heap_len(objs, max_heap_size),
{
    reveal(heap_bytes);
    let header = block_header_len(max_heap_size);
    lemma_heap_header_len(heap_header_of(objs, base, max_heap_size, id_length));
    if one_block(objs, header) {
        lemma_block_len(
            base,
            0,
            max_heap_size,
            joined(objs),
            root_block_size(objs, header),
        );
    } else {
        let blocks = packed(objs, header, objs.len() as int);
        let n = blocks.len() as int;
        if objs.len() == 0 {
            assert(joined(objs).len() == 0);
            assert(offset_bytes(max_heap_size) <= 8192);
        }
        lemma_packed_grows(objs, header, objs.len() as int, objs.len() as int);
        lemma_indirect_len(
            base,
            max_heap_size,
            (base + FRHP_SIZE + indirect_len(n, max_heap_size)) as nat,
            n,
        );
        lemma_direct_blocks_len(base, max_heap_size, blocks, n);
    }
}

// ---------------------------------------------------------------------------
// Objects are found where their identifiers say
// ---------------------------------------------------------------------------

/// A direct block has, behind its header, its objects.
proof fn lemma_block_data(
    heap_addr: u64,
    offset: nat,
    max_heap_size: u16,
    data: Seq<u8>,
    size: nat,
    from: int,
    to: int,
)
    requires
        0 <= from <= to <= data.len(),
        block_header_len(max_heap_size) + to <= size,
    ensures
        direct_block(heap_addr, offset, max_heap_size, data, size).subrange(
            block_header_len(max_heap_size) + from,
            block_header_len(max_heap_size) + to,
        ) == data.subrange(from, to),
{
    let head = block_head(heap_addr, offset, max_heap_size);
    let h = block_header_len(max_heap_size) as int;
    lemma_le_len(heap_addr as nat, 8);
    lemma_le_len(offset, offset_bytes(max_heap_size));
    let sum = lookup3(resized(head + zeros(4) + data, size));
    lemma_le_len(sum as nat, 4);
    let full = head + le_bytes(sum as nat, 4) + data;
    assert(head.len() + 4 == h);
    let block = resized(full, size);
    assert forall|j: int| from <= j < to implies #[trigger] block[h + j] == data[j] by {
        assert(full[h + j] == data[j]);
    }
    assert(block.subrange(h + from, h + to) =~= data.subrange(from, to)) by {
        assert forall|j: int| 0 <= j < to - from implies block.subrange(h + from, h + to)[j]
            == data.subrange(from, to)[j] by {
            assert(block[h + (from + j)] == data[from + j]);
        }
    }
}

/// Later objects only add to the end of a block.
proof fn lemma_block_keeps(objs: Seq<Seq<u8>>, header: nat, i: int, n: int)
    requires
        0 <= i < n,
    ensures
        ({
            let early = packed(objs, header, i + 1);
            let late = packed(objs, header, n);
            let k = early.len() - 1;
            &&& 0 <= k < late.len()
            &&& early.last().len() <= late[k].len()
            &&& late[k].take(early.last().len() as int) == early.last()
        }),
    decreases n,
{
    reveal(placed);
    let early = packed(objs, header, i + 1);
    let late = packed(objs, header, n);
    let k = early.len() - 1;
    lemma_packed_grows(objs, header, i + 1, i + 1);
    if i + 1 == n {
        assert(late[k].take(early.last().len() as int) =~= early.last());
    } else {
        lemma_block_keeps(objs, header, i, n - 1);
        let prev = packed(objs, header, n - 1);
        let s = objs[n - 1];
        assert(late == placed(prev, header, s));
        lemma_slot(prev.len() as int, header + s.len());
        if late.len() == prev.len() && k == prev.len() - 1 {
            assert(late[k] == prev.last() + s);
            assert(late[k].take(early.last().len() as int) =~= prev[k].take(
                early.last().len() as int,
            ));
        } else {
            assert(late[k] == prev[k]);
        }
    }
}

/// Block `k` stands at its heap offset.
proof fn lemma_direct_block_at(
    heap_addr: u64,
    max_heap_size: u16,
    blocks: Seq<Seq<u8>>,
    k: int,
    n: int,
)
    requires
        0 <= k < n,
    ensures
        direct_blocks(heap_addr, max_heap_size, blocks, n).subrange(
            block_offset(k) as int,
            (block_offset(k) + block_size(k)) as int,
        ) == direct_block(
            heap_addr,
            block_offset(k),
            max_heap_size,
            blocks[k],
            block_size(k),
        ),
        block_offset(k) + block_size(k) <= block_offset(n),
    decreases n,
{
    let all = direct_blocks(heap_addr, max_heap_size, blocks, n);
    let rest = direct_blocks(heap_addr, max_heap_size, blocks, n - 1);
    lemma_direct_blocks_len(heap_addr, max_heap_size, blocks, n - 1);
    lemma_direct_blocks_len(heap_addr, max_heap_size, blocks, n);
    let from = block_offset(k) as int;
    let to = from + block_size(k);
    assert(block_offset(k + 1) == to);
    if k == n - 1 {
        lemma_block_len(
            heap_addr,
            block_offset(k),
            max_heap_size,
            blocks[k],
            block_size(k),
        );
        assert(all.subrange(from, to) =~= direct_block(
            heap_addr,
            block_offset(k),
            max_heap_size,
            blocks[k],
            block_size(k),
        ));
    } else {
        lemma_direct_block_at(heap_addr, max_heap_size, blocks, k, n - 1);
        assert(all.subrange(from, to) =~= rest.subrange(from, to));
    }
}

proof fn lemma_joined_at(objs: Seq<Seq<u8>>, i: int)
    requires
        0 <= i < objs.len(),
    ensures
        joined(objs.take(i)).len() + objs[i].len() <= joined(objs).len(),
        joined(objs).subrange(
            joined(objs.take(i)).len() as int,
            (joined(objs.take(i)).len() + objs[i].len()) as int,
        ) == objs[i],
    decreases objs.len(),
{
    let head = objs.drop_last();
    let from = joined(objs.take(i)).len() as int;
    let to = from + objs[i].len();
    if i == objs.len() - 1 {
        assert(objs.take(i) =~= head);
        assert(joined(objs).subrange(from, to) =~= objs[i]);
    } else {
        lemma_joined_at(head, i);
        assert(head.take(i) =~= objs.take(i));
        assert(head[i] == objs[i]);
        assert(joined(objs).subrange(from, to) =~= joined(head).subrange(from, to));
    }
}

proof fn lemma_blocks_have_room(objs: Seq<Seq<u8>>, header: nat, n: int, k: int)
    requires
        0 <= n <= objs.len(),
        header <= 512,
        0 <= k < packed(objs, header, n).len(),
    ensures
        header + packed(objs, header, n)[k].len() <= block_size(k),
    decreases n,
{
    reveal(placed);
    let prev = packed(objs, header, n - 1);
    lemma_slot(prev.len() as int, header + objs[n - 1].len());
    lemma_row_size((k / 4) as nat);
    if k < packed(objs, header, n).len() - 1 {
        if k < prev.len() {
            lemma_blocks_have_room(objs, header, n - 1, k);
        }
    } else {
        lemma_last_block(objs, header, n - 1);
    }
}

/// Objects do not span blocks: each lies whole, behind the header, in one block,
/// and no block has more than it has room for.
pub proof fn law_objects_stay_in_their_blocks(objs: Seq<Seq<u8>>, max_heap_size: u16, i: int)
    requires
        0 <= i < objs.len(),
        max_heap_size < 64,
    ensures
        ({
            let header = block_header_len(max_heap_size);
            let blocks = packed(objs, header, objs.len() as int);
            let k = packed(objs, header, i + 1).len() - 1;
            let from = object_offset(objs, max_heap_size, i);
            if one_block(objs, header) {
                &&& header + joined(objs).len() <= root_block_size(objs, header)
                &&& header <= from
                &&& from + objs[i].len() <= header + joined(objs).len()
            } else {
                &&& forall|j: int|
                    0 <= j < blocks.len() ==> header + (#[trigger] blocks[j]).len() <= block_size(j)
                &&& 0 <= k < blocks.len()
                &&& block_offset(k) + header <= from
                &&& from + objs[i].len() <= block_offset(k) + block_size(k)
            }
        }),
{
    let header = block_header_len(max_heap_size);
    let blocks = packed(objs, header, objs.len() as int);
    if one_block(objs, header) {
        crate::tree::lemma_next_pow2(header + joined(objs).len());
        lemma_joined_at(objs, i);
    } else {
        lemma_packed_grows(objs, header, i + 1, objs.len() as int);
        lemma_last_block(objs, header, i);
        assert forall|j: int| 0 <= j < blocks.len() implies header + (#[trigger] blocks[j]).len()
            <= block_size(j) by {
            lemma_blocks_have_room(objs, header, objs.len() as int, j);
        }
    }
}

/// An object is found in the heap at the offset, and with the length, that its
/// identifier was made of.
pub proof fn law_heap_holds_objects(
    objs: Seq<Seq<u8>>,
    base: u64,
    max_heap_size: u16,
    id_length: u16,
    i: int,
)
    requires
        0 <= i < objs.len(),
        base + heap_len(objs, max_heap_size) <= u64::MAX,
    ensures
        ({
            let from = heap_data_start(objs, max_heap_size) + object_offset(
                objs,
                max_heap_size,
                i,
            );
            &&& from + objs[i].len() <= heap_bytes(objs, base, max_heap_size, id_length).len()
            &&& heap_bytes(objs, base, max_heap_size, id_length).subrange(
                from as int,
                (from + objs[i].len()) as int,
            ) == objs[i]
        }),
{
    if one_block(objs, block_header_len(max_heap_size)) {
        lemma_object_in_one(objs, base, max_heap_size, id_length, i);
    } else {
        lemma_object_in_many(objs, base, max_heap_size, id_length, i);
    }
}

proof fn lemma_object_in_one(
    objs: Seq<Seq<u8>>,
    base: u64,
    max_heap_size: u16,
    id_length: u16,
    i: int,
)
    requires
        0 <= i < objs.len(),
        one_block(objs, block_header_len(max_heap_size)),
    ensures
        ({
            let heap = heap_bytes(objs, base, max_heap_size, id_length);
            let from = heap_data_start(objs, max_heap_size) + object_offset(
                objs,
                max_heap_size,
                i,
            );
            &&& from + objs[i].len() <= heap.len()
            &&& heap.subrange(from as int, (from + objs[i].len()) as int) == objs[i]
        }),
{
    reveal(heap_bytes);
    let header = block_header_len(max_heap_size);
    let heap = heap_bytes(objs, base, max_heap_size, id_length);
    let info = heap_header_of(objs, base, max_heap_size, id_length);
    let head = heap_header_bytes(info);
    lemma_heap_header_len(info);
    let size = root_block_size(objs, header);
    let data = joined(objs);
    let block = direct_block(base, 0, max_heap_size, data, size);
    lemma_joined_at(objs, i);
    crate::tree::lemma_next_pow2(header + data.len());
    lemma_block_len(base, 0, max_heap_size, data, size);
    let p = joined(objs.take(i)).len() as int;
    let len = objs[i].len() as int;
    lemma_block_data(base, 0, max_heap_size, data, size, p, p + len);
    lemma_behind(heap, head, block, header + p, header + p + len);
}

/// A range of a tail is that range of the whole, moved by the head.
proof fn lemma_behind(whole: Seq<u8>, head: Seq<u8>, tail: Seq<u8>, from: int, to: int)
    requires
        whole == head + tail,
        0 <= from <= to <= tail.len(),
    ensures
        whole.subrange(head.len() + from, head.len() + to) == tail.subrange(from, to),
        head.len() + to <= whole.len(),
{
    assert(whole.subrange(head.len() + from, head.len() + to) =~= tail.subrange(from, to));
}

proof fn lemma_object_in_many(
    objs: Seq<Seq<u8>>,
    base: u64,
    max_heap_size: u16,
    id_length: u16,
    i: int,
)
    requires
        0 <= i < objs.len(),
        !one_block(objs, block_header_len(max_heap_size)),
    ensures
        ({
            let heap = heap_bytes(objs, base, max_heap_size, id_length);
            let from = heap_data_start(objs, max_heap_size) + object_offset(
                objs,
                max_heap_size,
                i,
            );
            &&& from + objs[i].len() <= heap.len()
            &&& heap.subrange(from as int, (from + objs[i].len()) as int) == objs[i]
        }),
{
    reveal(heap_bytes);
    let header = block_header_len(max_heap_size);
    let heap = heap_bytes(objs, base, max_heap_size, id_length);
    let info = heap_header_of(objs, base, max_heap_size, id_length);
    let blocks = packed(objs, header, objs.len() as int);
    let n = blocks.len() as int;
    let first = (base + FRHP_SIZE + indirect_len(n, max_heap_size)) as nat;
    let root = indirect_block(base, max_heap_size, first, n);
    let all = direct_blocks(base, max_heap_size, blocks, n);
    lemma_heap_header_len(info);
    lemma_block_keeps(objs, header, i, objs.len() as int);
    lemma_indirect_len(base, max_heap_size, first, n);
    lemma_direct_blocks_len(base, max_heap_size, blocks, n);
    lemma_object_in_blocks(objs, base, max_heap_size, i);
    let off = object_offset(objs, max_heap_size, i) as int;
    lemma_behind(heap, heap_header_bytes(info) + root, all, off, off + objs[i].len());
}

/// Among the direct blocks an object is at its offset.
proof fn lemma_object_in_blocks(objs: Seq<Seq<u8>>, base: u64, max_heap_size: u16, i: int)
    requires
        0 <= i < objs.len(),
        !one_block(objs, block_header_len(max_heap_size)),
    ensures
        ({
            let blocks = packed(objs, block_header_len(max_heap_size), objs.len() as int);
            let all = direct_blocks(base, max_heap_size, blocks, blocks.len() as int);
            let off = object_offset(objs, max_heap_size, i) as int;
            &&& 0 <= off <= off + objs[i].len() <= all.len()
            &&& all.subrange(off, off + objs[i].len()) == objs[i]
        }),
{
    let header = block_header_len(max_heap_size);
    let blocks = packed(objs, header, objs.len() as int);
    let n = blocks.len() as int;
    let early = packed(objs, header, i + 1);
    let k = early.len() - 1;
    let all = direct_blocks(base, max_heap_size, blocks, n);
    let off = object_offset(objs, max_heap_size, i) as int;
    let len = objs[i].len() as int;
    lemma_block_keeps(objs, header, i, objs.len() as int);
    lemma_direct_block_at(base, max_heap_size, blocks, k, n);
    lemma_direct_blocks_len(base, max_heap_size, blocks, n);
    lemma_last_block(objs, header, i);
    let pos = early.last().len() - len;
    let bo = block_offset(k) as int;
    let size = block_size(k);
    lemma_block_len(base, block_offset(k), max_heap_size, blocks[k], size);
    assert(off == bo + header + pos);
    lemma_block_data(base, block_offset(k), max_heap_size, blocks[k], size, pos, pos + len);
    assert(blocks[k].subrange(pos, pos + len) =~= blocks[k].take(
        early.last().len() as int,
    ).subrange(pos, pos + len));
    let within = off - bo;
    assert(all.subrange(off, off + len) =~= all.subrange(bo, bo + size).subrange(
        within,
        within + len,
    ));
}

} // verus!
