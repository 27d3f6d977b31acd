//! Reading chunked storage: the layout message, the index over the chunks, and the
//! dataset put together from them.

use crate::bytes::{copy_range, extend, from_le, push_zeros, read_le, zeros};
use crate::chunk_grid::{
    checked_product, checked_total, in_grid, lemma_checked_total, lemma_suffix_push, row_major,
    row_major_index,
};
use crate::chunked::{has_zero, lemma_counts_positive, record_len};
use crate::dense_reader::{
    index_records, parse_index, parsed_index, read_records, records_len, IndexInfo,
};
use crate::messages::numbers_at;
use crate::reader::ReadFault;
use crate::verification_grid::{lemma_suffix_zero, suffix_product, tile_coord};
use vstd::arithmetic::div_mod::{lemma_div_denominator, lemma_mod_bound};
use vstd::arithmetic::mul::lemma_mul_is_commutative;
use vstd::prelude::*;

verus! {

// ---------------------------------------------------------------------------
// Layout messages
// ---------------------------------------------------------------------------

/// Where the chunks of a dataset are listed. The undefined address, all ones,
/// stands for no chunk at all.
#[derive(Clone, Copy, PartialEq, Eq, Debug, Structural)]
pub enum ChunkIndex {
    /// There is one chunk, at this address.
    Single(u64),
    /// There is an index of one leaf, at this address.
    Tree(u64),
}

/// What a layout message says of chunks.
pub struct ChunkedView {
    pub cdims: Seq<u64>,
    pub elem_size: u64,
    pub index: ChunkIndex,
}

/// What a layout message says of chunks.
#[derive(Debug)]
pub struct ChunkedLayout {
    /// The extents of a chunk.
    pub cdims: Vec<u64>,
    /// Bytes of an element.
    pub elem_size: u64,
    /// Where the chunks are listed.
    pub index: ChunkIndex,
}

impl View for ChunkedLayout {
    type V = ChunkedView;

    open spec fn view(&self) -> ChunkedView {
        ChunkedView { cdims: self.cdims@, elem_size: self.elem_size, index: self.index }
    }
}

/// What `data` says as a layout message of version 4 about chunks, `None` if it is
/// not one with numbers and addresses of eight bytes and an index that is read
/// here.
pub open spec fn parsed_chunked(data: Seq<u8>) -> Option<ChunkedView> {
    if data.len() < 5 || data[0] != 4 || data[1] != 2 || data[2] != 0 || data[3] == 0 || data[4]
        != 8 {
        None
    } else {
        let rank = data[3] - 1;
        let tail = 13 + 8 * rank;
        if data.len() < tail + 1 {
            None
        } else {
            let cdims = numbers_at(data, 5, 8, rank);
            let elem_size = from_le(data.subrange(tail - 8, tail)) as u64;
            if data[tail] == 1 && data.len() >= tail + 9 {
                let address = from_le(data.subrange(tail + 1, tail + 9)) as u64;
                Some(ChunkedView { cdims, elem_size, index: ChunkIndex::Single(address) })
            } else if data[tail] == 5 && data.len() >= tail + 15 {
                let address = from_le(data.subrange(tail + 7, tail + 15)) as u64;
                Some(ChunkedView { cdims, elem_size, index: ChunkIndex::Tree(address) })
            } else {
                None
            }
        }
    }
}

fn read_numbers(data: &[u8], at: usize, count: usize) -> (r: Vec<u64>)
    requires
        at + 8 * count <= data@.len(),
    ensures
        r@ == numbers_at(data@, at as int, 8, count as int),
{
    let len: usize = data.len();
    let mut r: Vec<u64> = Vec::new();
    let mut i: usize = 0;
    while i < count
        invariant
            i <= count,
            at + 8 * count <= len == data@.len(),
            r@ == numbers_at(data@, at as int, 8, i as int),
        decreases count - i,
    {
        r.push(read_le(data, at + 8 * i, 8));
        i = i + 1;
    }
    r
}

/// Reads a layout message about chunks.
pub fn parse_chunked(data: &[u8]) -> (r: Option<ChunkedLayout>)
    ensures
        match r {
            Some(l) => parsed_chunked(data@) == Some(l@),
            None => parsed_chunked(data@) is None,
        },
{
    let len: usize = data.len();
    if len < 5 || data[0] != 4 || data[1] != 2 || data[2] != 0 || data[3] == 0 || data[4] != 8 {
        return None;
    }
    let rank: usize = data[3] as usize - 1;
    let tail: usize = 13 + 8 * rank;
    if len < tail + 1 {
        return None;
    }
    let cdims: Vec<u64> = read_numbers(data, 5, rank);
    let elem_size: u64 = read_le(data, tail - 8, 8);
    if data[tail] == 1 && len >= tail + 9 {
        let address: u64 = read_le(data, tail + 1, 8);
        Some(ChunkedLayout { cdims, elem_size, index: ChunkIndex::Single(address) })
    } else if data[tail] == 5 && len >= tail + 15 {
        let address: u64 = read_le(data, tail + 7, 8);
        Some(ChunkedLayout { cdims, elem_size, index: ChunkIndex::Tree(address) })
    } else {
        None
    }
}

// ---------------------------------------------------------------------------
// Indexes
// ---------------------------------------------------------------------------

/// A chunk: where it is, and which one it is.
#[derive(Debug)]
pub struct ChunkEntry {
    pub address: u64,
    pub coords: Vec<u64>,
}

impl View for ChunkEntry {
    type V = (u64, Seq<u64>);

    open spec fn view(&self) -> (u64, Seq<u64>) {
        (self.address, self.coords@)
    }
}

/// The contents of a list of entries.
pub open spec fn entry_views(entries: Seq<ChunkEntry>) -> Seq<(u64, Seq<u64>)> {
    Seq::new(entries.len(), |i: int| entries[i]@)
}

/// The entries that the records of an index hold.
pub open spec fn tree_entries(recs: Seq<u8>, rank: nat, count: nat) -> Seq<(u64, Seq<u64>)> {
    Seq::new(
        count,
        |r: int|
            {
                let at = r * record_len(rank);
                (
                    from_le(recs.subrange(at, at + 8)) as u64,
                    numbers_at(recs, at + 8, 8, rank as int),
                )
            },
    )
}

/// The chunks of a dataset of `rank` axes, `None` if their index is not where the
/// layout says.
#[verifier::opaque]
pub open spec fn chunk_entries(file: Seq<u8>, index: ChunkIndex, rank: nat) -> Option<
    Seq<(u64, Seq<u64>)>,
> {
    match index {
        ChunkIndex::Single(a) => if a == u64::MAX {
            Some(Seq::empty())
        } else {
            Some(seq![(a, Seq::new(rank, |d: int| 0u64))])
        },
        ChunkIndex::Tree(a) => if a == u64::MAX {
            Some(Seq::empty())
        } else {
            match parsed_index(file, a as nat, 10) {
                None => None,
                Some(info) => if info.record_size != record_len(rank) {
                    None
                } else {
                    match index_records(file, info, 10) {
                        None => None,
                        Some(recs) => Some(tree_entries(recs, rank, info.count as nat)),
                    }
                },
            }
        },
    }
}

fn read_tree_entries(recs: &[u8], rank: usize, count: u64) -> (r: Vec<ChunkEntry>)
    requires
        recs@.len() == count * record_len(rank as nat),
    ensures
        entry_views(r@) == tree_entries(recs@, rank as nat, count as nat),
{
    let len: usize = recs.len();
    let ghost w = record_len(rank as nat) as int;
    let ghost goal = tree_entries(recs@, rank as nat, count as nat);
    let mut r: Vec<ChunkEntry> = Vec::new();
    let mut at: usize = 0;
    let mut i: u64 = 0;
    assert(0 * w == 0) by (nonlinear_arith);
    while i < count
        invariant
            i <= count,
            w == record_len(rank as nat),
            len == recs@.len(),
            len == count * w,
            at == i * w,
            r@.len() == i,
            goal == tree_entries(recs@, rank as nat, count as nat),
            forall|k: int| 0 <= k < i ==> (#[trigger] r@[k])@ == goal[k],
        decreases count - i,
    {
        assert(i * w + w <= count * w) by (nonlinear_arith)
            requires
                i + 1 <= count,
                w >= 0,
        ;
        assert((i + 1) * w == i * w + w) by (nonlinear_arith);
        let address: u64 = read_le(recs, at, 8);
        let coords: Vec<u64> = read_numbers(recs, at + 8, rank);
        r.push(ChunkEntry { address, coords });
        at = at + 8 + 8 * rank;
        i = i + 1;
    }
    assert(entry_views(r@) =~= goal);
    r
}

fn read_entries(file: &[u8], index: ChunkIndex, rank: usize) -> (r: Option<Vec<ChunkEntry>>)
    ensures
        match r {
            Some(es) => chunk_entries(file@, index, rank as nat) == Some(entry_views(es@)),
            None => chunk_entries(file@, index, rank as nat) is None,
        },
{
    reveal(chunk_entries);
    match index {
        ChunkIndex::Single(a) => {
            let mut es: Vec<ChunkEntry> = Vec::new();
            if a != u64::MAX {
                let mut coords: Vec<u64> = Vec::new();
                let mut d: usize = 0;
                while d < rank
                    invariant
                        d <= rank,
                        coords@ == Seq::new(d as nat, |e: int| 0u64),
                    decreases rank - d,
                {
                    coords.push(0);
                    assert(coords@ =~= Seq::new((d + 1) as nat, |e: int| 0u64));
                    d = d + 1;
                }
                es.push(ChunkEntry { address: a, coords });
                assert(entry_views(es@) =~= seq![(a, Seq::new(rank as nat, |e: int| 0u64))]);
            } else {
                assert(entry_views(es@) =~= Seq::empty());
            }
            Some(es)
        },
        ChunkIndex::Tree(a) => {
            if a == u64::MAX {
                let es: Vec<ChunkEntry> = Vec::new();
                assert(entry_views(es@) =~= Seq::empty());
                return Some(es);
            }
            let info: IndexInfo = match parse_index(file, a, 10) {
                Some(i) => i,
                None => {
                    return None;
                },
            };
            if info.record_size as u128 != rank as u128 * 8 + 8 {
                return None;
            }
            match read_records(file, &info, 10) {
                Some(recs) => {
                    assert(recs@.len() == records_len(info));
                    Some(read_tree_entries(recs.as_slice(), rank, info.count))
                },
                None => None,
            }
        },
    }
}

/// Where the chunk `coords` is, by the first `n` entries; the last of them counts.
pub open spec fn entry_for(entries: Seq<(u64, Seq<u64>)>, coords: Seq<u64>, n: int) -> Option<u64>
    decreases n,
{
    if n <= 0 {
        None
    } else if entries[n - 1].1 == coords {
        Some(entries[n - 1].0)
    } else {
        entry_for(entries, coords, n - 1)
    }
}

fn same_coords(a: &Vec<u64>, b: &Vec<u64>) -> (r: bool)
    ensures
        r == (a@ == b@),
{
    if a.len() != b.len() {
        return false;
    }
    let mut i: usize = 0;
    while i < a.len()
        invariant
            i <= a@.len() == b@.len(),
            forall|j: int| 0 <= j < i ==> a@[j] == b@[j],
        decreases a@.len() - i,
    {
        if a[i] != b[i] {
            return false;
        }
        i = i + 1;
    }
    assert(a@ =~= b@);
    true
}

fn find_entry(entries: &Vec<ChunkEntry>, coords: &Vec<u64>) -> (r: Option<u64>)
    ensures
        r == entry_for(entry_views(entries@), coords@, entries@.len() as int),
        r is Some ==> exists|i: int|
            0 <= i < entries@.len() && (#[trigger] entries@[i]).address == r->0,
{
    let ghost views = entry_views(entries@);
    let mut n: usize = entries.len();
    while n > 0
        invariant
            n <= entries@.len(),
            views == entry_views(entries@),
            entry_for(views, coords@, entries@.len() as int) == entry_for(
                views,
                coords@,
                n as int,
            ),
        decreases n,
    {
        assert(views[n - 1] == entries@[n - 1]@);
        if same_coords(&entries[n - 1].coords, coords) {
            assert(entries@[n - 1].address == views[n - 1].0);
            return Some(entries[n - 1].address);
        }
        n = n - 1;
    }
    None
}

// ---------------------------------------------------------------------------
// Elements
// ---------------------------------------------------------------------------

/// The chunk that element `j` of a dataset is in.
pub open spec fn chunk_of(dims: Seq<u64>, cdims: Seq<u64>, j: int) -> Seq<u64> {
    Seq::new(dims.len(), |d: int| (tile_coord(dims, j, d) / cdims[d] as int) as u64)
}

/// Where element `j` of a dataset is within its chunk, along each axis.
pub open spec fn coords_within(dims: Seq<u64>, cdims: Seq<u64>, j: int) -> Seq<u64> {
    Seq::new(dims.len(), |d: int| (tile_coord(dims, j, d) % cdims[d] as int) as u64)
}

/// Where element `j` of a dataset is within its chunk, in elements.
pub open spec fn place_within(dims: Seq<u64>, cdims: Seq<u64>, j: int) -> nat {
    row_major(coords_within(dims, cdims, j), cdims, 0)
}

/// Element `j`: from its chunk, or zeros where that is not stored.
pub open spec fn stored_elem(
    file: Seq<u8>,
    entries: Seq<(u64, Seq<u64>)>,
    dims: Seq<u64>,
    cdims: Seq<u64>,
    elem_size: nat,
    j: int,
) -> Seq<u8> {
    match entry_for(entries, chunk_of(dims, cdims, j), entries.len() as int) {
        None => zeros(elem_size),
        Some(a) => {
            let from = a + place_within(dims, cdims, j) * elem_size;
            file.subrange(from, from + elem_size)
        },
    }
}

/// The first `n` elements.
pub open spec fn stored_elems(
    file: Seq<u8>,
    entries: Seq<(u64, Seq<u64>)>,
    dims: Seq<u64>,
    cdims: Seq<u64>,
    elem_size: nat,
    n: int,
) -> Seq<u8>
    decreases n,
{
    if n <= 0 {
        Seq::empty()
    } else {
        stored_elems(file, entries, dims, cdims, elem_size, n - 1) + stored_elem(
            file,
            entries,
            dims,
            cdims,
            elem_size,
            n - 1,
        )
    }
}

/// Whether a layout and an extent go together and make a dataset that memory can
/// hold.
pub open spec fn is_sound(l: ChunkedView, dims: Seq<u64>) -> bool {
    &&& dims.len() >= 1
    &&& l.cdims.len() == dims.len()
    &&& !l.cdims.contains(0)
    &&& l.elem_size >= 1
    &&& checked_total(l.cdims) is Some
    &&& suffix_product(dims, 0) * l.elem_size as nat <= isize::MAX
}

/// Whether every chunk of `len` bytes lies within a file of `total` bytes.
pub open spec fn chunks_inside(entries: Seq<(u64, Seq<u64>)>, len: nat, total: nat) -> bool {
    forall|i: int| 0 <= i < entries.len() ==> (#[trigger] entries[i]).0 + len <= total
}

/// The bytes of a chunked dataset of extent `dims` with the layout message `data`.
pub open spec fn chunked_answer(file: Seq<u8>, data: Seq<u8>, dims: Seq<u64>) -> Result<
    Seq<u8>,
    ReadFault,
> {
    match parsed_chunked(data) {
        None => Err(ReadFault::UnsupportedLayout),
        Some(l) => if !is_sound(l, dims) {
            Err(ReadFault::UnsupportedLayout)
        } else {
            match chunk_entries(file, l.index, dims.len()) {
                None => Err(ReadFault::NoChunkIndex),
                Some(entries) => if !chunks_inside(
                    entries,
                    suffix_product(l.cdims, 0) * l.elem_size as nat,
                    file.len(),
                ) {
                    Err(ReadFault::Truncated)
                } else {
                    Ok(
                        stored_elems(
                            file,
                            entries,
                            dims,
                            l.cdims,
                            l.elem_size as nat,
                            suffix_product(dims, 0) as int,
                        ),
                    )
                },
            }
        },
    }
}

/// Where a partial product overflows and no factor is zero, the product does not
/// fit.
proof fn lemma_overflow(n: Seq<u64>)
    ensures
        checked_total(n) is None && !n.contains(0) ==> suffix_product(n, 0) > u64::MAX,
    decreases n.len(),
{
    if n.len() > 0 && checked_total(n) is None && !n.contains(0) {
        let rest = n.drop_last();
        lemma_overflow(rest);
        lemma_checked_total(rest);
        lemma_suffix_push(rest, n.last(), 0);
        assert(rest.push(n.last()) =~= n);
        assert(n.contains(n.last()));
        assert forall|i: int| 0 <= i < rest.len() implies #[trigger] rest[i] != 0 by {
            assert(n.contains(n[i]));
        }
        let p = suffix_product(rest, 0) as int;
        let x = n.last() as int;
        assert(p > u64::MAX ==> p * x > u64::MAX) by (nonlinear_arith)
            requires
                x >= 1,
        ;
    }
}

/// The number of elements, `None` if it does not fit.
fn element_count(dims: &Vec<u64>) -> (r: Option<u64>)
    ensures
        match r {
            Some(count) => count == suffix_product(dims@, 0),
            None => suffix_product(dims@, 0) > u64::MAX,
        },
{
    if has_zero(dims.as_slice()) {
        proof {
            let z = dims@.index_of(0);
            lemma_suffix_zero(dims@, 0, z);
        }
        return Some(0);
    }
    proof {
        lemma_checked_total(dims@);
        lemma_overflow(dims@);
    }
    checked_product(dims.as_slice())
}

fn check_sound(l: &ChunkedLayout, dims: &Vec<u64>) -> (r: Option<(u64, u64)>)
    ensures
        match r {
            Some((volume, count)) => {
                &&& is_sound(l@, dims@)
                &&& volume == suffix_product(l.cdims@, 0)
                &&& count == suffix_product(dims@, 0)
            },
            None => !is_sound(l@, dims@),
        },
{
    if dims.len() == 0 || l.cdims.len() != dims.len() || has_zero(l.cdims.as_slice())
        || l.elem_size == 0 {
        return None;
    }
    proof {
        lemma_checked_total(l.cdims@);
    }
    let size: u64 = l.elem_size;
    assert(suffix_product(dims@, 0) > u64::MAX ==> suffix_product(dims@, 0) * size > isize::MAX)
        by (nonlinear_arith)
        requires
            size >= 1,
    ;
    match (checked_product(l.cdims.as_slice()), element_count(dims)) {
        (Some(volume), Some(count)) => {
            assert(0 <= count * size <= 0xffff_ffff_ffff_ffff * 0xffff_ffff_ffff_ffff)
                by (nonlinear_arith)
                requires
                    0 <= count <= 0xffff_ffff_ffff_ffff,
                    0 <= size <= 0xffff_ffff_ffff_ffff,
            ;
            if count as u128 * size as u128 <= isize::MAX as u128 {
                Some((volume, count))
            } else {
                None
            }
        },
        _ => None,
    }
}

fn all_inside(entries: &Vec<ChunkEntry>, len: u128, total: usize) -> (r: bool)
    requires
        len <= 0xffff_ffff_ffff_ffff * 0xffff_ffff_ffff_ffff,
    ensures
        r == chunks_inside(entry_views(entries@), len as nat, total as nat),
{
    let ghost views = entry_views(entries@);
    let mut i: usize = 0;
    while i < entries.len()
        invariant
            i <= entries@.len(),
            len <= 0xffff_ffff_ffff_ffff * 0xffff_ffff_ffff_ffff,
            views == entry_views(entries@),
            forall|j: int| 0 <= j < i ==> (#[trigger] views[j]).0 + len <= total,
        decreases entries@.len() - i,
    {
        assert(views[i as int] == entries@[i as int]@);
        if entries[i].address as u128 + len > total as u128 {
            assert(!(views[i as int].0 + len <= total));
            return false;
        }
        i = i + 1;
    }
    true
}

/// The chunk that element `j` is in, and where it is within it.
fn locate(dims: &Vec<u64>, cdims: &Vec<u64>, j: u64) -> (r: (Vec<u64>, Vec<u64>))
    requires
        dims@.len() == cdims@.len(),
        forall|d: int| 0 <= d < dims@.len() ==> #[trigger] dims@[d] >= 1,
        forall|d: int| 0 <= d < cdims@.len() ==> #[trigger] cdims@[d] >= 1,
    ensures
        r.0@ == chunk_of(dims@, cdims@, j as int),
        r.1@ == coords_within(dims@, cdims@, j as int),
{
    let rank: usize = dims.len();
    let mut chunk: Vec<u64> = Vec::new();
    let mut within: Vec<u64> = Vec::new();
    let mut i: usize = 0;
    while i < rank
        invariant
            i <= rank,
            chunk@.len() == i,
            within@.len() == i,
        decreases rank - i,
    {
        chunk.push(0);
        within.push(0);
        i = i + 1;
    }
    let mut rem: u64 = j;
    let mut d: usize = rank;
    assert(j as int / 1 == j);
    while d > 0
        invariant
            d <= rank == dims@.len(),
            rank == cdims@.len(),
            chunk@.len() == rank,
            within@.len() == rank,
            forall|k: int| 0 <= k < dims@.len() ==> #[trigger] dims@[k] >= 1,
            forall|k: int| 0 <= k < cdims@.len() ==> #[trigger] cdims@[k] >= 1,
            rem == j as int / suffix_product(dims@, d as int) as int,
            forall|k: int|
                d <= k < rank ==> #[trigger] chunk@[k] == chunk_of(dims@, cdims@, j as int)[k],
            forall|k: int|
                d <= k < rank ==> #[trigger] within@[k] == coords_within(
                    dims@,
                    cdims@,
                    j as int,
                )[k],
        decreases d,
    {
        d = d - 1;
        let n: u64 = dims[d];
        let c: u64 = cdims[d];
        proof {
            assert(dims@[d as int] >= 1 && cdims@[d as int] >= 1);
            crate::verification_grid::lemma_suffix_le(dims@, d + 1, dims@.len() as int);
            lemma_div_denominator(
                j as int,
                suffix_product(dims@, d + 1) as int,
                dims@[d as int] as int,
            );
            lemma_mul_is_commutative(
                dims@[d as int] as int,
                suffix_product(dims@, d + 1) as int,
            );
            lemma_mod_bound(rem as int, n as int);
        }
        let x: u64 = rem % n;
        assert(x == tile_coord(dims@, j as int, d as int));
        chunk.set(d, x / c);
        within.set(d, x % c);
        rem = rem / n;
    }
    assert(chunk@ =~= chunk_of(dims@, cdims@, j as int));
    assert(within@ =~= coords_within(dims@, cdims@, j as int));
    (chunk, within)
}

/// Puts a dataset together from its chunks.
fn assemble(
    file: &[u8],
    entries: &Vec<ChunkEntry>,
    dims: &Vec<u64>,
    l: &ChunkedLayout,
    volume: u64,
    count: u64,
) -> (out: Vec<u8>)
    requires
        is_sound(l@, dims@),
        volume == suffix_product(l.cdims@, 0),
        count == suffix_product(dims@, 0),
        chunks_inside(
            entry_views(entries@),
            suffix_product(l.cdims@, 0) * l.elem_size as nat,
            file@.len(),
        ),
    ensures
        out@ == stored_elems(
            file@,
            entry_views(entries@),
            dims@,
            l.cdims@,
            l.elem_size as nat,
            count as int,
        ),
{
    let ghost views = entry_views(entries@);
    let ghost cdims = l.cdims@;
    let size: u64 = l.elem_size;
    let total: usize = file.len();
    let mut out: Vec<u8> = Vec::new();
    if count == 0 {
        return out;
    }
    proof {
        lemma_counts_positive(dims@);
        lemma_checked_total(cdims);
        assert forall|d: int| 0 <= d < cdims.len() implies #[trigger] cdims[d] >= 1 by {
            assert(cdims.contains(cdims[d]));
        }
        assert(size <= isize::MAX) by (nonlinear_arith)
            requires
                count >= 1,
                size >= 1,
                count * size <= isize::MAX,
        ;
    }
    // The chunk that was looked up last.
    let mut seen: Vec<u64> = Vec::new();
    let mut seen_at: Option<u64> = find_entry(entries, &seen);
    let mut j: u64 = 0;
    while j < count
        invariant
            j <= count,
            views == entry_views(entries@),
            cdims == l.cdims@,
            size == l.elem_size,
            1 <= size <= isize::MAX,
            total == file@.len(),
            dims@.len() == cdims.len(),
            volume == suffix_product(cdims, 0),
            volume <= u64::MAX,
            chunks_inside(views, suffix_product(cdims, 0) * size as nat, total as nat),
            forall|d: int| 0 <= d < dims@.len() ==> #[trigger] dims@[d] >= 1,
            forall|d: int| 0 <= d < cdims.len() ==> #[trigger] cdims[d] >= 1,
            seen_at == entry_for(views, seen@, entries@.len() as int),
            seen_at is Some ==> exists|i: int|
                0 <= i < entries@.len() && (#[trigger] entries@[i]).address == seen_at->0,
            out@ == stored_elems(file@, views, dims@, cdims, size as nat, j as int),
        decreases count - j,
    {
        let (chunk, within) = locate(dims, &l.cdims, j);
        proof {
            assert forall|d: int| 0 <= d < cdims.len() implies #[trigger] within@[d] < cdims[d] by {
                assert(cdims[d] >= 1);
                lemma_mod_bound(tile_coord(dims@, j as int, d), cdims[d] as int);
            }
            assert(in_grid(within@, cdims));
            crate::chunk_grid::lemma_row_major_bound(within@, cdims, 0);
        }
        let place: u64 = row_major_index(within.as_slice(), l.cdims.as_slice());
        if !same_coords(&seen, &chunk) {
            seen_at = find_entry(entries, &chunk);
            seen = chunk;
        }
        match seen_at {
            None => {
                push_zeros(&mut out, size as usize);
            },
            Some(a) => {
                proof {
                    let i = choose|i: int|
                        0 <= i < entries@.len() && (#[trigger] entries@[i]).address == a;
                    assert(views[i] == entries@[i]@);
                    assert(views[i].0 + suffix_product(cdims, 0) * size as nat <= total);
                    assert(place * size + size <= volume * size) by (nonlinear_arith)
                        requires
                            place + 1 <= volume,
                            size >= 0,
                    ;
                    assert(place * size >= 0) by (nonlinear_arith)
                        requires
                            place >= 0,
                            size >= 0,
                    ;
                }
                let from: usize = a as usize + (place * size) as usize;
                let bytes: Vec<u8> = copy_range(file, from, from + size as usize);
                extend(&mut out, bytes.as_slice());
            },
        }
        j = j + 1;
    }
    out
}

/// Reads a chunked dataset of extent `dims` with the layout message `data`.
pub(crate) fn read_chunked(file: &[u8], data: &[u8], dims: &Vec<u64>) -> (r: Result<
    Vec<u8>,
    ReadFault,
>)
    ensures
        match chunked_answer(file@, data@, dims@) {
            Ok(bytes) => r is Ok && r->Ok_0@ == bytes,
            Err(fault) => r == Err::<Vec<u8>, ReadFault>(fault),
        },
{
    let l: ChunkedLayout = match parse_chunked(data) {
        Some(l) => l,
        None => {
            return Err(ReadFault::UnsupportedLayout);
        },
    };
    let (volume, count) = match check_sound(&l, dims) {
        Some(p) => p,
        None => {
            return Err(ReadFault::UnsupportedLayout);
        },
    };
    let entries: Vec<ChunkEntry> = match read_entries(file, l.index, dims.len()) {
        Some(es) => es,
        None => {
            return Err(ReadFault::NoChunkIndex);
        },
    };
    let size: u64 = l.elem_size;
    assert(0 <= volume * size <= 0xffff_ffff_ffff_ffff * 0xffff_ffff_ffff_ffff)
        by (nonlinear_arith)
        requires
            0 <= volume <= 0xffff_ffff_ffff_ffff,
            0 <= size <= 0xffff_ffff_ffff_ffff,
    ;
    if !all_inside(&entries, volume as u128 * size as u128, file.len()) {
        return Err(ReadFault::Truncated);
    }
    Ok(assemble(file, &entries, dims, &l, volume, count))
}

} // verus!
