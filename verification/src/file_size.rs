//! Whether a file fits in memory, found out before it is laid out.
//!
//! Lengths are counted up to the most that one allocation can hold; a length
//! beyond it is `None`.

use crate::builders::DatasetBuilder;
use crate::chunked::{chunked_len, PrecompressedChunks};
use crate::dense::{
    attr_messages, link_messages, node_size, DenseAttrBlob, DenseLinkBlob, BTHD_SIZE,
};
use crate::file_writer::{
    attr_blob_len, build_attr_blob, build_group_oh, build_header, build_link_blob, cdims_of,
    check_datasets, complete, cut_all, data_bytes, dummy_layout, group_header_len, group_len,
    head_len, is_cut, is_prepared, layout_of, lemma_cut_len, lemma_no_error, lemma_parts_inside,
    link_blob_len, no_addrs, oh_len, padding, storable, storage_of, sum_to, zero_addrs, FileWriter,
    COMPACT_LIMIT, DENSE_ATTR_THRESHOLD, DENSE_LINK_THRESHOLD,
};
use crate::fractal_heap::{
    block_header_len, block_offset, block_size, block_size_for_row, heap_len, indirect_len,
    join_within, lemma_block_offset_monotonic, lemma_packed_grows, lemma_row_size, lemma_slot,
    object_views, packed, placed, root_block_size, rows_of, slot_for, FRHP_SIZE,
};
use crate::messages::{link_views, write_attr, AttrValue, LinkMessage};
use crate::object_header::SUPERBLOCK_SIZE;
use crate::tree::next_power_of_two;
use crate::vds::{collection_len, lemma_collection_len, write_vds_object};
use vstd::prelude::*;

verus! {

/// A length, `None` if it is beyond what one allocation can hold.
pub open spec fn bounded(len: nat) -> Option<usize> {
    if len <= isize::MAX {
        Some(len as usize)
    } else {
        None
    }
}

/// A length as far as one allocation can hold it.
pub(crate) fn bound_len(len: u128) -> (r: Option<usize>)
    ensures
        r == bounded(len as nat),
{
    if len <= isize::MAX as u128 {
        Some(len as usize)
    } else {
        None
    }
}

/// The sum of two lengths.
pub(crate) fn add_lens(
    a: Option<usize>,
    b: Option<usize>,
    Ghost(x): Ghost<nat>,
    Ghost(y): Ghost<nat>,
) -> (r: Option<usize>)
    requires
        a == bounded(x),
        b == bounded(y),
    ensures
        r == bounded(x + y),
{
    match (a, b) {
        (Some(p), Some(q)) => bound_len(p as u128 + q as u128),
        _ => None,
    }
}

// ---------------------------------------------------------------------------
// Dense storage
// ---------------------------------------------------------------------------

/// A leaf is longer than its records.
pub(crate) proof fn lemma_leaf_holds_records(len: nat)
    ensures
        node_size(len) >= 10 + len,
{
    crate::tree::lemma_next_pow2(10 + len);
}

/// Bytes of a leaf with `len` bytes of records.
pub(crate) fn leaf_len(len: u128) -> (r: Option<usize>)
    ensures
        r == bounded(node_size(len as nat)),
{
    proof {
        lemma_leaf_holds_records(len as nat);
        crate::tree::lemma_next_pow2(10 + len as nat);
    }
    let limit: u128 = isize::MAX as u128;
    if len > limit - 10 {
        return None;
    }
    let need: usize = next_power_of_two(10 + len as usize);
    bound_len(
        if need <= 512 {
            512
        } else {
            need as u128
        },
    )
}

/// The number of blocks up to the first behind `count` that has at least `need`
/// bytes, their bytes, and the bytes of that one; `None` if the bytes of all are
/// beyond what one allocation can hold.
fn pass_blocks(count: usize, space: u64, size: u64, need: u128, Ghost(n): Ghost<int>) -> (r: Option<
    (usize, u64, u64),
>)
    requires
        space == block_offset(count as int),
        space <= isize::MAX,
        count == 0 ==> size == 0,
        count > 0 ==> size == block_size(count - 1) && size <= space,
        slot_for(count as int, need as nat) < n,
    ensures
        match r {
            Some((k, total, last)) => {
                &&& k == slot_for(count as int, need as nat) + 1
                &&& total == block_offset(k as int)
                &&& last == block_size(k - 1)
                &&& last <= total <= isize::MAX
            },
            None => block_offset(n) > isize::MAX,
        },
{
    let limit: u64 = isize::MAX as u64;
    let ghost goal = slot_for(count as int, need as nat);
    let mut k: usize = count;
    let mut total: u64 = space;
    let mut last: u64 = size;
    let mut enough: bool = false;
    proof {
        lemma_slot(count as int, need as nat);
    }
    while !enough
        invariant
            limit == isize::MAX,
            k <= goal + 1,
            goal < n,
            total == block_offset(k as int),
            total <= limit,
            k == 0 ==> last == 0,
            k > 0 ==> last == block_size(k - 1) && last <= total,
            enough ==> k == goal + 1,
            !enough ==> slot_for(k as int, need as nat) == goal,
        decreases goal + 1 - k,
    {
        proof {
            lemma_slot(k as int, need as nat);
            lemma_few_blocks(k as int);
            if k > 0 && k / 4 > (k - 1) / 4 {
                assert(k / 4 == (k - 1) / 4 + 1);
            }
            assert(block_offset(k + 1) == block_offset(k as int) + block_size(k as int));
            lemma_block_offset_monotonic(k + 1, n);
        }
        last = block_size_for_row(k / 4);
        if last > limit - total {
            return None;
        }
        total = total + last;
        k = k + 1;
        enough = last as u128 >= need;
    }
    Some((k, total, last))
}

/// There are at most as many blocks as bytes in them.
proof fn lemma_few_blocks(k: int)
    requires
        k >= 0,
    ensures
        block_offset(k) >= k,
    decreases k,
{
    if k > 0 {
        lemma_few_blocks(k - 1);
        lemma_row_size(((k - 1) / 4) as nat);
    }
}

/// The number of blocks that objects are packed into, and their bytes; `None` if
/// those are beyond what one allocation can hold.
fn count_blocks(objs: &[Vec<u8>], header: usize) -> (r: Option<(usize, u64)>)
    requires
        header <= 25,
    ensures
        ({
            let n = packed(object_views(objs@), header as nat, objs@.len() as int).len() as int;
            match r {
                Some((count, space)) => count == n && space == block_offset(n) && space
                    <= isize::MAX,
                None => block_offset(n) > isize::MAX,
            }
        }),
{
    let ghost views = object_views(objs@);
    let ghost h = header as nat;
    let limit: u64 = isize::MAX as u64;
    let mut count: usize = 0;
    let mut space: u64 = 0;
    // What the last block holds, and its size.
    let mut filled: usize = 0;
    let mut size: u64 = 0;
    let mut i: usize = 0;
    while i < objs.len()
        invariant
            i <= objs@.len(),
            views == object_views(objs@),
            h == header,
            header <= 25,
            limit == isize::MAX,
            count == packed(views, h, i as int).len(),
            space == block_offset(count as int),
            size <= space <= limit,
            count == 0 ==> size == 0,
            count > 0 ==> {
                &&& filled == packed(views, h, i as int).last().len()
                &&& size == block_size(count - 1)
            },
        decreases objs@.len() - i,
    {
        let len: usize = objs[i].len();
        let ghost before = packed(views, h, i as int);
        let ghost after = packed(views, h, i + 1);
        proof {
            reveal(placed);
            assert(after == placed(before, h, objs@[i as int]@));
        }
        let need: u128 = header as u128 + len as u128;
        if count > 0 && need + filled as u128 <= size as u128 {
            assert(after.last() == before.last() + objs@[i as int]@);
            filled = filled + len;
        } else {
            let ghost n = packed(views, h, objs@.len() as int).len() as int;
            proof {
                lemma_slot(count as int, need as nat);
                lemma_packed_grows(views, h, i + 1, objs@.len() as int);
            }
            match pass_blocks(count, space, size, need, Ghost(n)) {
                Some((next, total, last)) => {
                    count = next;
                    space = total;
                    size = last;
                },
                None => {
                    return None;
                },
            }
            filled = len;
        }
        i = i + 1;
    }
    Some((count, space))
}

/// Bytes of the heap of `objs`.
pub(crate) fn heap_size(objs: &[Vec<u8>], max_heap_size: u16) -> (r: Option<usize>)
    requires
        max_heap_size < 64,
    ensures
        r == bounded(heap_len(object_views(objs@), max_heap_size)),
{
    let width: usize = (max_heap_size as usize + 7) / 8;
    let header: usize = 17 + width;
    assert(header == block_header_len(max_heap_size));
    match join_within(objs, 65536 - header) {
        Some(v) => {
            let content: usize = header + v.len();
            proof {
                crate::tree::lemma_next_pow2(content as nat);
            }
            let need: usize = next_power_of_two(content);
            let size: usize = if need <= 512 {
                512
            } else {
                need
            };
            assert(size == root_block_size(object_views(objs@), header as nat));
            bound_len(FRHP_SIZE as u128 + size as u128)
        },
        None => {
            match count_blocks(objs, header) {
                None => None,
                Some((n, space)) => {
                    let rows: usize = if n == 0 {
                        1
                    } else {
                        (n - 1) / 4 + 1
                    };
                    assert(rows == rows_of(n as int));
                    let index: u128 = 13 + width as u128 + rows as u128 * 32 + 4;
                    assert(index == indirect_len(n as int, max_heap_size));
                    bound_len(FRHP_SIZE as u128 + index + space as u128)
                },
            }
        },
    }
}

/// Bytes of dense storage with `n` records of `width` bytes over a heap.
fn dense_size(
    heap: Option<usize>,
    n: usize,
    width: usize,
    Ghost(len): Ghost<nat>,
) -> (r: Option<usize>)
    requires
        heap == bounded(len),
        width <= 100,
    ensures
        r == bounded(len + BTHD_SIZE as nat + node_size(n as nat * width as nat)),
{
    assert(n * width <= 100 * 0xffff_ffff_ffff_ffff) by (nonlinear_arith)
        requires
            0 <= n <= 0xffff_ffff_ffff_ffff,
            0 <= width <= 100,
    ;
    let leaf: Option<usize> = leaf_len(n as u128 * width as u128);
    let ghost node = node_size(n as nat * width as nat);
    let index: Option<usize> = add_lens(
        Some(BTHD_SIZE as usize),
        leaf,
        Ghost(BTHD_SIZE as nat),
        Ghost(node),
    );
    add_lens(heap, index, Ghost(len), Ghost(BTHD_SIZE as nat + node))
}

/// Bytes of dense attribute storage, where attributes have any.
fn attr_blob_size(attrs: &Vec<(String, AttrValue)>) -> (r: Option<usize>)
    ensures
        r == bounded(attr_blob_len(attrs@)),
{
    if attrs.len() <= DENSE_ATTR_THRESHOLD {
        return Some(0);
    }
    let ghost objs = attr_messages(attrs@, true);
    let mut serialized: Vec<Vec<u8>> = Vec::new();
    let mut i: usize = 0;
    while i < attrs.len()
        invariant
            i <= attrs@.len(),
            objs == attr_messages(attrs@, true),
            serialized@.len() == i,
            forall|j: int| 0 <= j < i ==> (#[trigger] serialized@[j])@ == objs[j],
        decreases attrs@.len() - i,
    {
        serialized.push(write_attr(attrs[i].0.as_str(), &attrs[i].1, true));
        i = i + 1;
    }
    assert(object_views(serialized@) =~= objs);
    let heap: Option<usize> = heap_size(serialized.as_slice(), 40);
    dense_size(heap, attrs.len(), 17, Ghost(heap_len(objs, 40)))
}

/// Bytes of dense link storage, where there are enough links.
fn link_blob_size(links: &Vec<LinkMessage>) -> (r: Option<usize>)
    ensures
        r == bounded(link_blob_len(link_views(links@))),
{
    if links.len() <= DENSE_LINK_THRESHOLD {
        return Some(0);
    }
    let ghost views = link_views(links@);
    let ghost objs = link_messages(views);
    let mut serialized: Vec<Vec<u8>> = Vec::new();
    let mut i: usize = 0;
    while i < links.len()
        invariant
            i <= links@.len(),
            views == link_views(links@),
            objs == link_messages(views),
            serialized@.len() == i,
            forall|j: int| 0 <= j < i ==> (#[trigger] serialized@[j])@ == objs[j],
        decreases links@.len() - i,
    {
        assert(views[i as int] == links@[i as int]@);
        serialized.push(links[i].serialize());
        i = i + 1;
    }
    assert(object_views(serialized@) =~= objs);
    let heap: Option<usize> = heap_size(serialized.as_slice(), 32);
    dense_size(heap, links.len(), 11, Ghost(heap_len(objs, 32)))
}

// ---------------------------------------------------------------------------
// Groups and datasets
// ---------------------------------------------------------------------------

/// Bytes of a group.
fn group_size(links: &Vec<LinkMessage>, attrs: &Vec<(String, AttrValue)>) -> (r: Option<usize>)
    ensures
        r == bounded(group_len(link_views(links@), attrs@)),
{
    let ghost views = link_views(links@);
    proof {
        reveal(group_len);
    }
    let link_blob: Option<usize> = link_blob_size(links);
    let attr_blob: Option<usize> = attr_blob_size(attrs);
    match (link_blob, attr_blob) {
        (Some(l), Some(a)) => {
            let link_dense: Option<DenseLinkBlob> = build_link_blob(links, 0);
            let attr_dense: Option<DenseAttrBlob> = build_attr_blob(attrs, 0);
            let header: usize = build_group_oh(
                links,
                &link_dense,
                Ghost(0),
                attrs,
                &attr_dense,
                Ghost(0),
            ).len();
            assert(header == group_header_len(views, attrs@));
            bound_len(header as u128 + l as u128 + a as u128)
        },
        _ => None,
    }
}

/// Bytes of a dataset's object header and dense attributes.
fn head_size(d: &DatasetBuilder, layout: &[u8]) -> (r: Option<usize>)
    requires
        complete(*d),
        layout@ == layout_of(*d, 0),
    ensures
        r == bounded(head_len(*d)),
{
    proof {
        reveal(head_len);
    }
    match attr_blob_size(&d.attrs) {
        Some(a) => {
            let dense: Option<DenseAttrBlob> = build_attr_blob(&d.attrs, 0);
            let header: usize = build_header(d, layout, &dense, Ghost(0)).len();
            assert(header == oh_len(*d));
            bound_len(header as u128 + a as u128)
        },
        None => None,
    }
}

/// Bytes written for a dataset's data behind `cursor`, padding included.
fn data_size(
    d: &DatasetBuilder,
    pre: &Option<PrecompressedChunks>,
    cursor: usize,
    threshold: usize,
    bytes: usize,
) -> (r: Option<usize>)
    requires
        complete(*d),
        storable(*d),
        is_cut(*d, *pre),
    ensures
        r == bounded(data_bytes(*d, cursor as nat, threshold, bytes).len()),
{
    proof {
        reveal(data_bytes);
    }
    match &d.virtual_sources {
        Some(sources) => {
            let object: Vec<u8> = write_vds_object(sources.as_slice());
            proof {
                lemma_collection_len(object@);
            }
            let padded: u128 = (object.len() as u128 + 7) / 8 * 8;
            assert(34 + padded == collection_len(object@.len()));
            return bound_len(34 + padded);
        },
        None => {},
    }
    match pre {
        Some(p) => {
            proof {
                lemma_cut_len(*d, cursor as nat, threshold, bytes);
            }
            return p.stored_len(d.maxshape.is_some());
        },
        None => {},
    }
    match &d.data {
        None => {
            assert(false);
            None
        },
        Some(raw) => {
            if d.compact && raw.len() <= COMPACT_LIMIT {
                return Some(0);
            }
            let align: usize = if d.alignment > 0 {
                d.alignment
            } else if bytes > 0 && raw.len() >= threshold {
                bytes
            } else {
                8
            };
            let pad: usize = (align - (cursor % align)) % align;
            assert(pad == padding(cursor as nat, align as nat));
            bound_len(pad as u128 + raw.len() as u128)
        },
    }
}

// ---------------------------------------------------------------------------
// Files
// ---------------------------------------------------------------------------

/// Where what starts at `cursor` and has `len` bytes ends.
fn end_of(cursor: usize, len: Option<usize>, Ghost(x): Ghost<nat>) -> (r: Option<usize>)
    requires
        cursor <= isize::MAX,
        len == bounded(x),
    ensures
        r == bounded(cursor as nat + x),
{
    add_lens(Some(cursor), len, Ghost(cursor as nat), Ghost(x))
}

impl FileWriter {
    /// Whether chunked data, each dataset by itself, is within bounds.
    fn chunks_fit(
        &self,
        ds: &Vec<&DatasetBuilder>,
        pres: &Vec<Option<PrecompressedChunks>>,
    ) -> (r: bool)
        requires
            is_prepared(*self, ds@, pres@),
        ensures
            r ==> self.all_chunks_fit(),
            !r ==> self.eof() > isize::MAX,
    {
        let mut i: usize = 0;
        while i < ds.len()
            invariant
                i <= ds@.len() == self.all().len(),
                is_prepared(*self, ds@, pres@),
                forall|j: int|
                    0 <= j < i ==> chunk_storage_fits(#[trigger] self.all()[j]),
            decreases ds@.len() - i,
        {
            let ghost d = self.all()[i as int];
            let ghost at = self.data_cursor(i as int);
            proof {
                lemma_parts_inside(*self);
                assert(*ds@[i as int] == d);
                assert(is_cut(d, pres@[i as int]));
                assert(complete(d) && storable(d));
                assert(at + data_bytes(
                    d,
                    at,
                    self.alignment_threshold,
                    self.alignment_bytes,
                ).len() <= self.eof());
                if storage_of(d) is Chunked {
                    lemma_cut_len(d, at, self.alignment_threshold, self.alignment_bytes);
                }
            }
            match &pres[i] {
                Some(p) => {
                    if p.stored_len(ds[i].maxshape.is_some()).is_none() {
                        return false;
                    }
                },
                None => {},
            }
            assert(chunk_storage_fits(d));
            i = i + 1;
        }
        true
    }

    /// Whether chunked data, each dataset by itself, is within bounds.
    pub open spec fn all_chunks_fit(&self) -> bool {
        forall|i: int| 0 <= i < self.all().len() ==> chunk_storage_fits(#[trigger] self.all()[i])
    }

    /// Where the groups end.
    fn groups_end(&self, total: usize) -> (r: Option<usize>)
        requires
            total == self.all().len(),
        ensures
            match r {
                Some(end) => end == self.group_addr(self.groups@.len() as int) && end
                    <= isize::MAX,
                None => self.eof() > isize::MAX,
            },
    {
        proof {
            lemma_parts_inside(*self);
        }
        let none: Vec<u64> = zero_addrs(total);
        let no_groups: Vec<u64> = zero_addrs(self.groups.len());
        let root_links: Vec<LinkMessage> = self.make_root_links(&none, &no_groups);
        let root: Option<usize> = group_size(&root_links, &self.root_attrs);
        let mut cursor: usize = match end_of(SUPERBLOCK_SIZE, root, Ghost(self.root_len())) {
            Some(end) => end,
            None => {
                return None;
            },
        };
        let mut g: usize = 0;
        while g < self.groups.len()
            invariant
                g <= self.groups@.len(),
                total == self.all().len(),
                none@ == no_addrs(total as nat),
                cursor == self.group_addr(g as int),
                cursor <= isize::MAX,
            decreases self.groups@.len() - g,
        {
            proof {
                lemma_parts_inside(*self);
                assert(self.group_addr(g as int) + self.group_lens()[g as int] <= self.eof());
                assert(sum_to(self.group_lens(), g + 1) == sum_to(self.group_lens(), g as int)
                    + self.group_lens()[g as int]);
            }
            let links: Vec<LinkMessage> = self.make_group_links(g, &none);
            let len: Option<usize> = group_size(&links, &self.groups[g].attrs);
            match end_of(cursor, len, Ghost(self.group_lens()[g as int])) {
                Some(end) => {
                    cursor = end;
                },
                None => {
                    return None;
                },
            }
            g = g + 1;
        }
        Some(cursor)
    }

    /// Where the datasets' headers end.
    fn heads_end(
        &self,
        ds: &Vec<&DatasetBuilder>,
        pres: &Vec<Option<PrecompressedChunks>>,
        start: usize,
    ) -> (r: Option<usize>)
        requires
            is_prepared(*self, ds@, pres@),
            self.all_chunks_fit(),
            start == self.head_addr(0),
            start <= isize::MAX,
        ensures
            match r {
                Some(end) => end == self.data_cursor(0) && end <= isize::MAX,
                None => self.eof() > isize::MAX,
            },
    {
        let mut cursor: usize = start;
        let mut i: usize = 0;
        while i < ds.len()
            invariant
                i <= ds@.len() == self.all().len(),
                is_prepared(*self, ds@, pres@),
                self.all_chunks_fit(),
                cursor == self.head_addr(i as int),
                cursor <= isize::MAX,
            decreases ds@.len() - i,
        {
            let ghost d = self.all()[i as int];
            proof {
                lemma_parts_inside(*self);
                assert(*ds@[i as int] == d);
                assert(is_cut(d, pres@[i as int]));
                assert(complete(d) && storable(d));
                assert(chunk_storage_fits(d));
                assert(self.head_addr(i as int) + self.head_lens()[i as int] <= self.eof());
                assert(sum_to(self.head_lens(), i + 1) == sum_to(self.head_lens(), i as int)
                    + self.head_lens()[i as int]);
            }
            let layout: Vec<u8> = dummy_layout(ds[i], &pres[i]);
            let len: Option<usize> = head_size(ds[i], layout.as_slice());
            match end_of(cursor, len, Ghost(head_len(d))) {
                Some(end) => {
                    cursor = end;
                },
                None => {
                    return None;
                },
            }
            i = i + 1;
        }
        Some(cursor)
    }

    /// Whether the data ends within bounds.
    fn data_fits(
        &self,
        ds: &Vec<&DatasetBuilder>,
        pres: &Vec<Option<PrecompressedChunks>>,
        start: usize,
    ) -> (r: bool)
        requires
            is_prepared(*self, ds@, pres@),
            start == self.data_cursor(0),
            start <= isize::MAX,
        ensures
            r == (self.eof() <= isize::MAX),
    {
        let mut cursor: usize = start;
        let mut i: usize = 0;
        while i < ds.len()
            invariant
                i <= ds@.len() == self.all().len(),
                is_prepared(*self, ds@, pres@),
                cursor == self.data_cursor(i as int),
                cursor <= isize::MAX,
            decreases ds@.len() - i,
        {
            let ghost d = self.all()[i as int];
            let ghost len = data_bytes(
                d,
                cursor as nat,
                self.alignment_threshold,
                self.alignment_bytes,
            ).len();
            proof {
                lemma_parts_inside(*self);
                assert(*ds@[i as int] == d);
                assert(is_cut(d, pres@[i as int]));
                assert(complete(d) && storable(d));
                assert(self.data_cursor(i as int) + len <= self.eof());
            }
            let size: Option<usize> = data_size(
                ds[i],
                &pres[i],
                cursor,
                self.alignment_threshold,
                self.alignment_bytes,
            );
            match end_of(cursor, size, Ghost(len)) {
                Some(end) => {
                    cursor = end;
                },
                None => {
                    return false;
                },
            }
            i = i + 1;
        }
        true
    }

    /// Whether the file can be held in memory. A file with something wrong in its
    /// description is not laid out at all, and so is never too long.
    pub fn fits(&self) -> (r: bool)
        ensures
            r == (self.error() is None ==> self.eof() <= isize::MAX),
    {
        let ds: Vec<&DatasetBuilder> = self.dataset_refs();
        if check_datasets(&ds, Ghost(self.all())).is_some() {
            return true;
        }
        proof {
            lemma_no_error(self.all(), 0);
        }
        let pres: Vec<Option<PrecompressedChunks>> = match cut_all(&ds, Ghost(self.all())) {
            Some(p) => p,
            None => {
                return true;
            },
        };
        if !self.chunks_fit(&ds, &pres) {
            return false;
        }
        match self.groups_end(ds.len()) {
            None => false,
            Some(groups) => match self.heads_end(&ds, &pres, groups) {
                None => false,
                Some(heads) => self.data_fits(&ds, &pres, heads),
            },
        }
    }
}

/// Whether a dataset's chunks, if it is stored in any, are within bounds.
pub open spec fn chunk_storage_fits(d: DatasetBuilder) -> bool {
    storage_of(d) is Chunked ==> chunked_len(
        d.shape->0@,
        cdims_of(d),
        d.datatype->0.spec_size(),
        d.maxshape is Some,
    ) <= isize::MAX
}

} // verus!
