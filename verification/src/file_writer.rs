//! Writing files: superblock, object headers, dense storage and data, laid out
//! one after another.
//!
//! A file is laid out as: superblock; root group; groups; dataset headers; data.
//! A group is its object header, then its dense links and its dense attributes,
//! where it has any; a dataset's header is followed by its dense attributes.

use crate::builders::{DatasetBuilder, ExternalLink, FinishedGroup, FormatError, GroupBuilder};
use crate::bytes::{extend, push2, push_zeros, zeros};
use crate::chunked::{
    build_chunked_data_from_precompressed, can_chunk, chunked_bytes, chunked_layout, chunked_len,
    lemma_chunked_layout_len, lemma_chunked_len, precompress_chunks, resolved_dims, ChunkedData,
    PrecompressedChunks,
};
use crate::dense::{
    attr_messages, build_dense_attrs, build_dense_links, dense_attr_bytes, dense_attr_info,
    dense_attr_len, dense_link_bytes, dense_link_info, dense_link_len, info_bytes, is_dense_attrs,
    is_dense_links, lemma_heap_len_same, link_messages, same_lengths, write_info, DenseAttrBlob,
    DenseLinkBlob,
};
use crate::messages::{
    attr_bytes, compact_bytes, contiguous_bytes, dataspace_bytes, link_bytes, link_views,
    make_external_link, make_link, opt_view, virtual_bytes, write_attr, write_compact,
    write_contiguous, write_dataspace, write_virtual, AttrValue, Datatype, LinkMessage, LinkView,
    MessageType,
};
use crate::object_header::{
    header_bytes, lemma_header_len, lemma_message_len, message_bytes, superblock_bytes,
    write_superblock, ObjectHeaderWriter, SUPERBLOCK_SIZE,
};
use crate::vds::{
    build_global_heap_collection, collection_bytes, lemma_collection_len, vds_object, vds_views,
    write_vds_object,
};
use vstd::prelude::*;

verus! {

/// Attributes beyond which an object stores them densely.
pub const DENSE_ATTR_THRESHOLD: usize = 8;

/// The most bytes of data that stand in a header. Of more than 65531 bytes the
/// message is too long for the two bytes of its size, and the header is not read
/// back.
pub const COMPACT_LIMIT: usize = 65535;

/// Links beyond which a group stores them densely.
pub const DENSE_LINK_THRESHOLD: usize = 8;

// ---------------------------------------------------------------------------
// Object headers
// ---------------------------------------------------------------------------

/// The first `n` attributes as messages.
pub open spec fn inline_attrs(attrs: Seq<(String, AttrValue)>, n: int) -> Seq<u8>
    decreases n,
{
    if n <= 0 {
        Seq::empty()
    } else {
        inline_attrs(attrs, n - 1) + message_bytes(
            MessageType::Attribute,
            0,
            attr_bytes(attrs[n - 1].0@, attrs[n - 1].1, false),
        )
    }
}

/// Whether attributes are stored densely.
pub open spec fn dense_attrs(attrs: Seq<(String, AttrValue)>) -> bool {
    attrs.len() > DENSE_ATTR_THRESHOLD
}

/// The messages about attributes, with dense storage at `blob_addr`.
pub open spec fn attr_part(attrs: Seq<(String, AttrValue)>, blob_addr: u64) -> Seq<u8> {
    if dense_attrs(attrs) {
        message_bytes(MessageType::AttributeInfo, 0, dense_attr_info(attrs, blob_addr))
    } else {
        inline_attrs(attrs, attrs.len() as int)
    }
}

/// Dense storage of attributes at `blob_addr`, where they have any.
pub open spec fn attr_blob(attrs: Seq<(String, AttrValue)>, blob_addr: u64) -> Seq<u8> {
    if dense_attrs(attrs) {
        dense_attr_bytes(attrs, blob_addr)
    } else {
        Seq::empty()
    }
}

/// Bytes of dense attribute storage.
pub open spec fn attr_blob_len(attrs: Seq<(String, AttrValue)>) -> nat {
    if dense_attrs(attrs) {
        dense_attr_len(attrs)
    } else {
        0
    }
}

/// The messages of a dataset before its layout.
pub open spec fn dataset_head(d: DatasetBuilder) -> Seq<u8> {
    message_bytes(MessageType::Datatype, 1, d.datatype->0.bytes()) + message_bytes(
        MessageType::Dataspace,
        0,
        dataspace_bytes(d.shape->0@, opt_view(d.maxshape)),
    ) + message_bytes(MessageType::FillValue, 1, seq![3u8, d.fill_time.spec_byte()])
}

/// The object header of a dataset with a layout message.
#[verifier::opaque]
pub open spec fn dataset_header(d: DatasetBuilder, layout: Seq<u8>, blob_addr: u64) -> Seq<u8> {
    header_bytes(
        dataset_head(d) + message_bytes(MessageType::DataLayout, 0, layout) + attr_part(
            d.attrs@,
            blob_addr,
        ),
    )
}

/// Adds the messages about attributes. Dense storage, where the attributes need
/// it, is `dense`.
fn add_attrs(
    w: &mut ObjectHeaderWriter,
    attrs: &Vec<(String, AttrValue)>,
    dense: &Option<DenseAttrBlob>,
    Ghost(blob_addr): Ghost<u64>,
)
    requires
        is_attr_blob(*dense, attrs@, blob_addr),
    ensures
        final(w)@ == old(w)@ + attr_part(attrs@, blob_addr),
{
    match dense {
        Some(b) => {
            w.add_message(MessageType::AttributeInfo, b.attr_info_message.as_slice());
        },
        None => {
            let ghost start = w@;
            let mut i: usize = 0;
            assert(start + inline_attrs(attrs@, 0) =~= start);
            while i < attrs.len()
                invariant
                    i <= attrs@.len(),
                    w@ == start + inline_attrs(attrs@, i as int),
                decreases attrs@.len() - i,
            {
                let data: Vec<u8> = write_attr(attrs[i].0.as_str(), &attrs[i].1, false);
                w.add_message(MessageType::Attribute, data.as_slice());
                assert(w@ =~= start + inline_attrs(attrs@, i + 1));
                i = i + 1;
            }
        },
    }
}

/// Whether `dense` is the dense storage of `attrs` at `blob_addr`, where they
/// need any.
pub open spec fn is_attr_blob(
    dense: Option<DenseAttrBlob>,
    attrs: Seq<(String, AttrValue)>,
    blob_addr: u64,
) -> bool {
    match dense {
        Some(b) => dense_attrs(attrs) && is_dense_attrs(b, attrs, blob_addr),
        None => !dense_attrs(attrs),
    }
}

pub(crate) fn build_attr_blob(attrs: &Vec<(String, AttrValue)>, blob_addr: u64) -> (r: Option<DenseAttrBlob>)
    requires
        blob_addr + attr_blob_len(attrs@) <= isize::MAX,
    ensures
        is_attr_blob(r, attrs@, blob_addr),
{
    if attrs.len() > DENSE_ATTR_THRESHOLD {
        Some(build_dense_attrs(attrs.as_slice(), blob_addr))
    } else {
        None
    }
}

/// Whether a dataset has what it needs to be written.
pub open spec fn complete(d: DatasetBuilder) -> bool {
    &&& d.datatype is Some
    &&& d.shape is Some
    &&& d.data is Some || d.virtual_sources is Some
}

/// Builds the object header of a dataset with a layout message.
pub(crate) fn build_header(
    d: &DatasetBuilder,
    layout: &[u8],
    dense: &Option<DenseAttrBlob>,
    Ghost(blob_addr): Ghost<u64>,
) -> (r: Vec<u8>)
    requires
        complete(*d),
        is_attr_blob(*dense, d.attrs@, blob_addr),
    ensures
        r@ == dataset_header(*d, layout@, blob_addr),
{
    proof {
        reveal(dataset_header);
    }
    let mut w: ObjectHeaderWriter = ObjectHeaderWriter::new();
    match &d.datatype {
        Some(dt) => {
            let data: Vec<u8> = dt.serialize();
            w.add_message_with_flags(MessageType::Datatype, data.as_slice(), 1);
        },
        None => {},
    }
    match &d.shape {
        Some(shape) => {
            let data: Vec<u8> = write_dataspace(shape.as_slice(), &d.maxshape);
            w.add_message(MessageType::Dataspace, data.as_slice());
        },
        None => {},
    }
    let mut fill: Vec<u8> = Vec::new();
    push2(&mut fill, 3, d.fill_time.to_byte());
    assert(fill@ =~= seq![3u8, d.fill_time.spec_byte()]);
    w.add_message_with_flags(MessageType::FillValue, fill.as_slice(), 1);
    assert(w@ =~= dataset_head(*d));
    w.add_message(MessageType::DataLayout, layout);
    add_attrs(&mut w, &d.attrs, dense, Ghost(blob_addr));
    w.serialize()
}

/// The first `n` links as messages.
pub open spec fn inline_links(links: Seq<LinkView>, n: int) -> Seq<u8>
    decreases n,
{
    if n <= 0 {
        Seq::empty()
    } else {
        inline_links(links, n - 1) + message_bytes(MessageType::Link, 0, link_bytes(links[n - 1]))
    }
}

/// Whether links are stored densely.
pub open spec fn dense_links(links: Seq<LinkView>) -> bool {
    links.len() > DENSE_LINK_THRESHOLD
}

/// The messages about links, with dense storage at `blob_addr`.
pub open spec fn link_part(links: Seq<LinkView>, blob_addr: u64) -> Seq<u8> {
    if dense_links(links) {
        message_bytes(MessageType::LinkInfo, 0, dense_link_info(links, blob_addr))
    } else {
        message_bytes(MessageType::LinkInfo, 0, info_bytes(u64::MAX, u64::MAX)) + inline_links(
            links,
            links.len() as int,
        )
    }
}

/// Dense storage of links at `blob_addr`, where there are enough of them.
pub open spec fn link_blob(links: Seq<LinkView>, blob_addr: u64) -> Seq<u8> {
    if dense_links(links) {
        dense_link_bytes(links, blob_addr)
    } else {
        Seq::empty()
    }
}

/// Bytes of dense link storage.
pub open spec fn link_blob_len(links: Seq<LinkView>) -> nat {
    if dense_links(links) {
        dense_link_len(links)
    } else {
        0
    }
}

/// The object header of a group.
pub open spec fn group_header(
    links: Seq<LinkView>,
    link_blob_addr: u64,
    attrs: Seq<(String, AttrValue)>,
    attr_blob_addr: u64,
) -> Seq<u8> {
    header_bytes(link_part(links, link_blob_addr) + attr_part(attrs, attr_blob_addr))
}

/// Whether `dense` is the dense storage of `links` at `blob_addr`, where they
/// need any.
pub open spec fn is_link_blob(
    dense: Option<DenseLinkBlob>,
    links: Seq<LinkView>,
    blob_addr: u64,
) -> bool {
    match dense {
        Some(b) => dense_links(links) && is_dense_links(b, links, blob_addr),
        None => !dense_links(links),
    }
}

/// Builds the object header of a group.
pub(crate) fn build_group_oh(
    links: &Vec<LinkMessage>,
    dense_link: &Option<DenseLinkBlob>,
    Ghost(link_blob_addr): Ghost<u64>,
    attrs: &Vec<(String, AttrValue)>,
    dense: &Option<DenseAttrBlob>,
    Ghost(attr_blob_addr): Ghost<u64>,
) -> (r: Vec<u8>)
    requires
        is_link_blob(*dense_link, link_views(links@), link_blob_addr),
        is_attr_blob(*dense, attrs@, attr_blob_addr),
    ensures
        r@ == group_header(link_views(links@), link_blob_addr, attrs@, attr_blob_addr),
{
    let ghost views = link_views(links@);
    let mut w: ObjectHeaderWriter = ObjectHeaderWriter::new();
    match dense_link {
        Some(b) => {
            w.add_message(MessageType::LinkInfo, b.link_info_message.as_slice());
            assert(w@ =~= link_part(views, link_blob_addr));
        },
        None => {
            let none: Vec<u8> = write_info(0xffff_ffff_ffff_ffff, 0xffff_ffff_ffff_ffff);
            w.add_message(MessageType::LinkInfo, none.as_slice());
            let ghost start = w@;
            let mut i: usize = 0;
            assert(start + inline_links(views, 0) =~= start);
            while i < links.len()
                invariant
                    i <= links@.len(),
                    views == link_views(links@),
                    w@ == start + inline_links(views, i as int),
                decreases links@.len() - i,
            {
                let data: Vec<u8> = links[i].serialize();
                w.add_message(MessageType::Link, data.as_slice());
                assert(views[i as int] == links@[i as int]@);
                assert(w@ =~= start + inline_links(views, i + 1));
                i = i + 1;
            }
            assert(w@ =~= link_part(views, link_blob_addr));
        },
    }
    add_attrs(&mut w, attrs, dense, Ghost(attr_blob_addr));
    w.serialize()
}

// ---------------------------------------------------------------------------
// Groups
// ---------------------------------------------------------------------------

/// Bytes of a group's object header.
pub open spec fn group_header_len(links: Seq<LinkView>, attrs: Seq<(String, AttrValue)>) -> nat {
    group_header(links, 0, attrs, 0).len()
}

/// Bytes of a group: its object header, its links and its attributes.
#[verifier::opaque]
pub open spec fn group_len(links: Seq<LinkView>, attrs: Seq<(String, AttrValue)>) -> nat {
    group_header_len(links, attrs) + link_blob_len(links) + attr_blob_len(attrs)
}

/// A group at `addr`.
#[verifier::opaque]
pub open spec fn group_bytes(
    links: Seq<LinkView>,
    attrs: Seq<(String, AttrValue)>,
    addr: nat,
) -> Seq<u8> {
    let links_at = (addr + group_header_len(links, attrs)) as u64;
    let attrs_at = (addr + group_header_len(links, attrs) + link_blob_len(links)) as u64;
    group_header(links, links_at, attrs, attrs_at) + link_blob(links, links_at) + attr_blob(
        attrs,
        attrs_at,
    )
}

/// Whether two lists of links differ in addresses only.
pub open spec fn same_but_addresses(a: Seq<LinkView>, b: Seq<LinkView>) -> bool {
    a.len() == b.len() && forall|i: int|
        0 <= i < a.len() ==> (#[trigger] a[i]).readdressed(0) == b[i].readdressed(0)
}

proof fn lemma_link_len(a: LinkView, b: LinkView)
    requires
        a.readdressed(0) == b.readdressed(0),
    ensures
        link_bytes(a).len() == link_bytes(b).len(),
{
    match (a, b) {
        (LinkView::Hard { address: x, .. }, LinkView::Hard { address: y, .. }) => {
            crate::bytes::lemma_le_len(x as nat, 8);
            crate::bytes::lemma_le_len(y as nat, 8);
        },
        _ => {},
    }
}

proof fn lemma_link_lens(a: Seq<LinkView>, b: Seq<LinkView>)
    requires
        same_but_addresses(a, b),
    ensures
        same_lengths(link_messages(a), link_messages(b)),
        link_blob_len(a) == link_blob_len(b),
{
    let x = link_messages(a);
    let y = link_messages(b);
    assert forall|i: int| 0 <= i < x.len() implies (#[trigger] x[i]).len() == y[i].len() by {
        assert(a[i].readdressed(0) == b[i].readdressed(0));
        lemma_link_len(a[i], b[i]);
    }
    lemma_heap_len_same(x, y, 32);
}

proof fn lemma_inline_links_len(a: Seq<LinkView>, b: Seq<LinkView>, n: int)
    requires
        same_but_addresses(a, b),
        0 <= n <= a.len(),
    ensures
        inline_links(a, n).len() == inline_links(b, n).len(),
    decreases n,
{
    if n > 0 {
        lemma_inline_links_len(a, b, n - 1);
        assert(a[n - 1].readdressed(0) == b[n - 1].readdressed(0));
        lemma_link_len(a[n - 1], b[n - 1]);
        lemma_message_len(MessageType::Link, 0, link_bytes(a[n - 1]));
        lemma_message_len(MessageType::Link, 0, link_bytes(b[n - 1]));
    }
}

proof fn lemma_info_len(heap: u64, btree: u64)
    ensures
        info_bytes(heap, btree).len() == 18,
{
    crate::bytes::lemma_le_len(heap as nat, 8);
    crate::bytes::lemma_le_len(btree as nat, 8);
}

proof fn lemma_attr_part_len(attrs: Seq<(String, AttrValue)>, a: u64, b: u64)
    ensures
        attr_part(attrs, a).len() == attr_part(attrs, b).len(),
{
    let h = crate::fractal_heap::heap_len(attr_messages(attrs, true), 40);
    lemma_info_len(a, (a + h) as u64);
    lemma_info_len(b, (b + h) as u64);
    lemma_message_len(MessageType::AttributeInfo, 0, dense_attr_info(attrs, a));
    lemma_message_len(MessageType::AttributeInfo, 0, dense_attr_info(attrs, b));
}

/// The size of a group's header does not depend on addresses.
pub(crate) proof fn lemma_group_header_len(
    a: Seq<LinkView>,
    b: Seq<LinkView>,
    attrs: Seq<(String, AttrValue)>,
    la: u64,
    lb: u64,
    aa: u64,
    ab: u64,
)
    requires
        same_but_addresses(a, b),
    ensures
        group_header(a, la, attrs, aa).len() == group_header(b, lb, attrs, ab).len(),
{
    let ha = crate::fractal_heap::heap_len(link_messages(a), 32);
    let hb = crate::fractal_heap::heap_len(link_messages(b), 32);
    lemma_info_len(la, (la + ha) as u64);
    lemma_info_len(lb, (lb + hb) as u64);
    lemma_message_len(MessageType::LinkInfo, 0, dense_link_info(a, la));
    lemma_message_len(MessageType::LinkInfo, 0, dense_link_info(b, lb));
    lemma_inline_links_len(a, b, a.len() as int);
    lemma_attr_part_len(attrs, aa, ab);
    lemma_header_len(link_part(a, la) + attr_part(attrs, aa));
    lemma_header_len(link_part(b, lb) + attr_part(attrs, ab));
}

/// The size of a group does not depend on where it, or what it leads to, stands.
proof fn lemma_group_len(
    a: Seq<LinkView>,
    b: Seq<LinkView>,
    attrs: Seq<(String, AttrValue)>,
)
    requires
        same_but_addresses(a, b),
    ensures
        group_len(a, attrs) == group_len(b, attrs),
        group_header_len(a, attrs) == group_header_len(b, attrs),
        link_blob_len(a) == link_blob_len(b),
{
    reveal(group_len);
    lemma_group_header_len(a, b, attrs, 0, 0, 0, 0);
    lemma_link_lens(a, b);
}

/// Builds a group at `addr`.
fn build_group(links: &Vec<LinkMessage>, attrs: &Vec<(String, AttrValue)>, addr: u64) -> (r: Vec<
    u8,
>)
    requires
        addr + group_len(link_views(links@), attrs@) <= isize::MAX,
    ensures
        r@ == group_bytes(link_views(links@), attrs@, addr as nat),
        r@.len() == group_len(link_views(links@), attrs@),
{
    let ghost views = link_views(links@);
    proof {
        reveal(group_len);
        reveal(group_bytes);
    }
    // The header's size does not depend on the addresses in it.
    let link_dummy: Option<DenseLinkBlob> = build_link_blob(links, 0);
    let attr_dummy: Option<DenseAttrBlob> = build_attr_blob(attrs, 0);
    let header_len: usize = build_group_oh(
        links,
        &link_dummy,
        Ghost(0),
        attrs,
        &attr_dummy,
        Ghost(0),
    ).len();
    let links_at: u64 = addr + header_len as u64;
    let link_dense: Option<DenseLinkBlob> = build_link_blob(links, links_at);
    let blob_len: usize = match &link_dense {
        Some(b) => b.blob.len(),
        None => 0,
    };
    let attrs_at: u64 = links_at + blob_len as u64;
    let attr_dense: Option<DenseAttrBlob> = build_attr_blob(attrs, attrs_at);
    proof {
        assert(same_but_addresses(views, views));
        lemma_group_header_len(views, views, attrs@, links_at, 0, attrs_at, 0);
    }
    let mut out: Vec<u8> = build_group_oh(
        links,
        &link_dense,
        Ghost(links_at),
        attrs,
        &attr_dense,
        Ghost(attrs_at),
    );
    let ghost head = out@;
    match &link_dense {
        Some(b) => {
            extend(&mut out, b.blob.as_slice());
        },
        None => {},
    }
    assert(out@ =~= head + link_blob(views, links_at));
    let ghost mid = out@;
    match &attr_dense {
        Some(b) => {
            extend(&mut out, b.blob.as_slice());
        },
        None => {},
    }
    assert(out@ =~= mid + attr_blob(attrs@, attrs_at));
    out
}

pub(crate) fn build_link_blob(links: &Vec<LinkMessage>, blob_addr: u64) -> (r: Option<DenseLinkBlob>)
    requires
        blob_addr + link_blob_len(link_views(links@)) <= isize::MAX,
    ensures
        is_link_blob(r, link_views(links@), blob_addr),
{
    if links.len() > DENSE_LINK_THRESHOLD {
        Some(build_dense_links(links.as_slice(), blob_addr))
    } else {
        None
    }
}

// ---------------------------------------------------------------------------
// Datasets
// ---------------------------------------------------------------------------

/// How a dataset's data is stored.
pub enum Storage {
    /// In other datasets.
    Virtual,
    /// In chunks.
    Chunked,
    /// In the header.
    Compact,
    /// In one piece.
    Contiguous,
}

/// The data of a dataset; a virtual one may have none.
pub open spec fn raw_of(d: DatasetBuilder) -> Seq<u8> {
    match d.data {
        Some(v) => v@,
        None => Seq::empty(),
    }
}

/// How a dataset's data is stored.
pub open spec fn storage_of(d: DatasetBuilder) -> Storage {
    if d.virtual_sources is Some {
        Storage::Virtual
    } else if d.chunk_options.chunk_dims is Some || d.maxshape is Some {
        Storage::Chunked
    } else if d.compact && raw_of(d).len() <= COMPACT_LIMIT {
        Storage::Compact
    } else {
        Storage::Contiguous
    }
}

/// The chunk extents of a chunked dataset.
pub open spec fn cdims_of(d: DatasetBuilder) -> Seq<u64> {
    resolved_dims(opt_view(d.chunk_options.chunk_dims), d.shape->0@)
}

/// What is wrong with a dataset, `None` if nothing is.
pub open spec fn dataset_error(d: DatasetBuilder) -> Option<FormatError> {
    if d.datatype is None {
        Some(FormatError::DatasetMissingData)
    } else if d.shape is None {
        Some(FormatError::DatasetMissingShape)
    } else if d.virtual_sources is None && d.data is None {
        Some(FormatError::DatasetMissingData)
    } else {
        None
    }
}

/// Whether a complete dataset can be stored as it asks to.
pub open spec fn storable(d: DatasetBuilder) -> bool {
    storage_of(d) is Chunked ==> can_chunk(d.shape->0@, cdims_of(d), d.datatype->0.spec_size())
}

/// The layout message of a dataset whose data is at `addr`.
pub open spec fn layout_of(d: DatasetBuilder, addr: u64) -> Seq<u8> {
    match storage_of(d) {
        Storage::Virtual => virtual_bytes(addr),
        Storage::Chunked => chunked_layout(
            d.shape->0@,
            cdims_of(d),
            d.datatype->0.spec_size(),
            addr,
            d.maxshape is Some,
        ),
        Storage::Compact => compact_bytes(raw_of(d)),
        Storage::Contiguous => contiguous_bytes(addr, raw_of(d).len() as u64),
    }
}

/// Bytes of a dataset's object header.
pub open spec fn oh_len(d: DatasetBuilder) -> nat {
    dataset_header(d, layout_of(d, 0), 0).len()
}

/// Bytes of a dataset's object header and dense attributes.
#[verifier::opaque]
pub open spec fn head_len(d: DatasetBuilder) -> nat {
    oh_len(d) + attr_blob_len(d.attrs@)
}

/// A dataset's object header at `addr` and its dense attributes, with its data
/// at `data_addr`.
#[verifier::opaque]
pub open spec fn head_bytes(d: DatasetBuilder, addr: nat, data_addr: nat) -> Seq<u8> {
    let blob_addr = (addr + oh_len(d)) as u64;
    dataset_header(d, layout_of(d, data_addr as u64), blob_addr) + attr_blob(d.attrs@, blob_addr)
}

/// The alignment of a dataset's data.
pub open spec fn alignment_of(d: DatasetBuilder, threshold: usize, bytes: usize) -> nat {
    if d.alignment > 0 {
        d.alignment as nat
    } else if bytes > 0 && raw_of(d).len() >= threshold {
        bytes as nat
    } else {
        8
    }
}

/// Bytes from `cursor` to the next multiple of `align`.
pub open spec fn padding(cursor: nat, align: nat) -> nat {
    ((align - cursor % align) % (align as int)) as nat
}

/// Where a dataset's data is, if what comes before it ends at `cursor`.
pub open spec fn data_place(
    d: DatasetBuilder,
    cursor: nat,
    threshold: usize,
    bytes: usize,
) -> nat {
    match storage_of(d) {
        Storage::Contiguous => cursor + padding(cursor, alignment_of(d, threshold, bytes)),
        _ => cursor,
    }
}

/// What is written for a dataset's data from `cursor` on, padding included.
#[verifier::opaque]
pub open spec fn data_bytes(
    d: DatasetBuilder,
    cursor: nat,
    threshold: usize,
    bytes: usize,
) -> Seq<u8> {
    match storage_of(d) {
        Storage::Virtual => collection_bytes(vds_object(vds_views(d.virtual_sources->0@))),
        Storage::Chunked => chunked_bytes(
            raw_of(d),
            d.shape->0@,
            cdims_of(d),
            d.datatype->0.spec_size(),
            cursor as u64,
            d.maxshape is Some,
        ),
        Storage::Compact => Seq::empty(),
        Storage::Contiguous => zeros(padding(cursor, alignment_of(d, threshold, bytes))) + raw_of(
            d,
        ),
    }
}

/// The header's size does not depend on addresses.
pub(crate) proof fn lemma_oh_len(d: DatasetBuilder, data_addr: u64, blob_addr: u64)
    ensures
        dataset_header(d, layout_of(d, data_addr), blob_addr).len() == oh_len(d),
{
    reveal(dataset_header);
    crate::bytes::lemma_le_len(data_addr as nat, 8);
    crate::bytes::lemma_le_len(0, 8);
    let a = layout_of(d, data_addr);
    let b = layout_of(d, 0);
    if storage_of(d) is Chunked {
        lemma_chunked_layout_len(
            d.shape->0@,
            cdims_of(d),
            d.datatype->0.spec_size(),
            data_addr,
            0,
            d.maxshape is Some,
        );
    }
    assert(a.len() == b.len());
    lemma_message_len(MessageType::DataLayout, 0, a);
    lemma_message_len(MessageType::DataLayout, 0, b);
    lemma_attr_part_len(d.attrs@, blob_addr, 0);
    lemma_header_len(
        dataset_head(d) + message_bytes(MessageType::DataLayout, 0, a) + attr_part(
            d.attrs@,
            blob_addr,
        ),
    );
    lemma_header_len(
        dataset_head(d) + message_bytes(MessageType::DataLayout, 0, b) + attr_part(d.attrs@, 0),
    );
}

/// Where data went, what is written there, and the layout message for it.
struct PlacedData {
    data: Vec<u8>,
    layout: Vec<u8>,
}

/// Whether `pre` has the chunks of `d`, where `d` is stored in chunks.
pub open spec fn is_cut(d: DatasetBuilder, pre: Option<PrecompressedChunks>) -> bool {
    if storage_of(d) is Chunked {
        &&& pre is Some
        &&& pre->0.wf()
        &&& pre->0.spec_dims() == d.shape->0@
        &&& pre->0.spec_cdims() == cdims_of(d)
        &&& pre->0.spec_elem_size() == d.datatype->0.spec_size()
        &&& pre->0.spec_raw() == raw_of(d)
    } else {
        pre is None
    }
}

/// Cuts a dataset into chunks, where it asks for them; `Err` if that cannot be
/// done.
fn cut(d: &DatasetBuilder) -> (r: Result<Option<PrecompressedChunks>, ()>)
    requires
        complete(*d),
    ensures
        match r {
            Ok(pre) => storable(*d) && is_cut(*d, pre),
            Err(_) => !storable(*d),
        },
{
    if d.virtual_sources.is_some() || !(d.chunk_options.is_chunked() || d.maxshape.is_some()) {
        return Ok(None);
    }
    match (&d.datatype, &d.shape, &d.data) {
        (Some(dt), Some(shape), Some(raw)) => {
            let cdims: Vec<u64> = d.chunk_options.resolve_chunk_dims(shape.as_slice());
            match precompress_chunks(
                raw.as_slice(),
                shape.as_slice(),
                cdims.as_slice(),
                dt.type_size(),
            ) {
                Some(p) => Ok(Some(p)),
                None => Err(()),
            }
        },
        _ => Ok(None),
    }
}

pub(crate) proof fn lemma_cut_len(d: DatasetBuilder, cursor: nat, threshold: usize, bytes: usize)
    requires
        storage_of(d) is Chunked,
        storable(d),
    ensures
        data_bytes(d, cursor, threshold, bytes).len() == chunked_len(
            d.shape->0@,
            cdims_of(d),
            d.datatype->0.spec_size(),
            d.maxshape is Some,
        ),
{
    reveal(data_bytes);
    lemma_chunked_len(
        raw_of(d),
        d.shape->0@,
        cdims_of(d),
        d.datatype->0.spec_size(),
        cursor as u64,
        d.maxshape is Some,
    );
}

/// Places a dataset's data behind `cursor`.
fn place_data(
    d: &DatasetBuilder,
    pre: &Option<PrecompressedChunks>,
    cursor: usize,
    threshold: usize,
    bytes: usize,
) -> (r: PlacedData)
    requires
        complete(*d),
        storable(*d),
        is_cut(*d, *pre),
        cursor + data_bytes(*d, cursor as nat, threshold, bytes).len() <= isize::MAX,
    ensures
        r.data@ == data_bytes(*d, cursor as nat, threshold, bytes),
        r.layout@ == layout_of(*d, data_place(*d, cursor as nat, threshold, bytes) as u64),
{
    proof {
        reveal(data_bytes);
    }
    match &d.virtual_sources {
        Some(sources) => {
            let object: Vec<u8> = write_vds_object(sources.as_slice());
            proof {
                lemma_collection_len(object@);
            }
            let data: Vec<u8> = build_global_heap_collection(object.as_slice());
            return PlacedData { data, layout: write_virtual(cursor as u64) };
        },
        None => {},
    }
    match pre {
        Some(p) => {
            proof {
                lemma_cut_len(*d, cursor as nat, threshold, bytes);
            }
            let placed: ChunkedData = build_chunked_data_from_precompressed(
                p,
                cursor as u64,
                d.maxshape.is_some(),
            );
            return PlacedData { data: placed.data_bytes, layout: placed.layout_message };
        },
        None => {},
    }
    let mut data: Vec<u8> = Vec::new();
    match &d.data {
        None => {
            assert(false);
            PlacedData { data, layout: Vec::new() }
        },
        Some(raw) => {
            if d.compact && raw.len() <= COMPACT_LIMIT {
                return PlacedData { data, layout: write_compact(raw.as_slice()) };
            }
            let align: usize = if d.alignment > 0 {
                d.alignment
            } else if bytes > 0 && raw.len() >= threshold {
                bytes
            } else {
                8
            };
            let pad: usize = (align - (cursor % align)) % align;
            assert(pad == padding(cursor as nat, alignment_of(*d, threshold, bytes)));
            push_zeros(&mut data, pad);
            extend(&mut data, raw.as_slice());
            assert(data@ =~= data_bytes(*d, cursor as nat, threshold, bytes));
            let layout: Vec<u8> = write_contiguous((cursor + pad) as u64, raw.len() as u64);
            PlacedData { data, layout }
        },
    }
}

/// The layout message of a dataset with its data at address 0, for its size.
pub(crate) fn dummy_layout(d: &DatasetBuilder, pre: &Option<PrecompressedChunks>) -> (r: Vec<u8>)
    requires
        complete(*d),
        storable(*d),
        is_cut(*d, *pre),
        storage_of(*d) is Chunked ==> chunked_len(
            d.shape->0@,
            cdims_of(*d),
            d.datatype->0.spec_size(),
            d.maxshape is Some,
        ) <= isize::MAX,
    ensures
        r@ == layout_of(*d, 0),
{
    if d.virtual_sources.is_some() {
        return write_virtual(0);
    }
    match pre {
        Some(p) => build_chunked_data_from_precompressed(p, 0, d.maxshape.is_some()).layout_message,
        None => match &d.data {
            None => {
                assert(false);
                Vec::new()
            },
            Some(raw) => if d.compact && raw.len() <= COMPACT_LIMIT {
                write_compact(raw.as_slice())
            } else {
                write_contiguous(0, raw.len() as u64)
            },
        },
    }
}

/// Builds a dataset's object header at `addr` and its dense attributes, with a
/// layout message that leads to `data_addr`.
fn build_head(d: &DatasetBuilder, layout: &[u8], addr: u64, Ghost(data_addr): Ghost<nat>) -> (r: Vec<
    u8,
>)
    requires
        complete(*d),
        layout@ == layout_of(*d, data_addr as u64),
        addr + head_len(*d) <= isize::MAX,
    ensures
        r@ == head_bytes(*d, addr as nat, data_addr),
        r@.len() == head_len(*d),
{
    proof {
        reveal(head_len);
        reveal(head_bytes);
    }
    let dummy: Option<DenseAttrBlob> = build_attr_blob(&d.attrs, 0);
    let len: usize = build_header(d, layout, &dummy, Ghost(0)).len();
    proof {
        lemma_oh_len(*d, data_addr as u64, 0);
    }
    let blob_addr: u64 = addr + len as u64;
    let dense: Option<DenseAttrBlob> = build_attr_blob(&d.attrs, blob_addr);
    proof {
        lemma_oh_len(*d, data_addr as u64, blob_addr);
    }
    let mut out: Vec<u8> = build_header(d, layout, &dense, Ghost(blob_addr));
    let ghost head = out@;
    match &dense {
        Some(b) => {
            extend(&mut out, b.blob.as_slice());
        },
        None => {},
    }
    assert(out@ =~= head + attr_blob(d.attrs@, blob_addr));
    out
}

// ---------------------------------------------------------------------------
// Files
// ---------------------------------------------------------------------------

/// A file to be written.
pub struct FileWriter {
    /// The datasets of the root group.
    pub root_datasets: Vec<DatasetBuilder>,
    /// The attributes of the root group.
    pub root_attrs: Vec<(String, AttrValue)>,
    /// The groups.
    pub groups: Vec<FinishedGroup>,
    /// Bytes from which on data is aligned to `alignment_bytes`.
    pub alignment_threshold: usize,
    /// The alignment; 0 for none.
    pub alignment_bytes: usize,
}

/// The datasets of the first `n` groups.
pub open spec fn group_datasets(groups: Seq<FinishedGroup>, n: int) -> Seq<DatasetBuilder>
    decreases n,
{
    if n <= 0 {
        Seq::empty()
    } else {
        group_datasets(groups, n - 1) + groups[n - 1].datasets@
    }
}

/// The sum of the first `n` numbers.
pub open spec fn sum_to(s: Seq<nat>, n: int) -> nat
    decreases n,
{
    if n <= 0 {
        0
    } else {
        sum_to(s, n - 1) + s[n - 1]
    }
}

pub(crate) proof fn lemma_sum_le(s: Seq<nat>, a: int, b: int)
    requires
        a <= b,
    ensures
        sum_to(s, a) <= sum_to(s, b),
    decreases b - a,
{
    if a < b {
        lemma_sum_le(s, a, b - 1);
    }
}

/// The first thing wrong with the datasets from `i` on.
pub open spec fn first_error(ds: Seq<DatasetBuilder>, i: int) -> Option<FormatError>
    decreases ds.len() - i,
{
    if i < 0 || i >= ds.len() {
        None
    } else {
        match dataset_error(ds[i]) {
            Some(e) => Some(e),
            None => first_error(ds, i + 1),
        }
    }
}

/// `n` zeros.
pub open spec fn no_addrs(n: nat) -> Seq<u64> {
    Seq::new(n, |i: int| 0u64)
}

impl FileWriter {
    /// All datasets: those of the root group, then those of the groups.
    pub open spec fn all(&self) -> Seq<DatasetBuilder> {
        self.root_datasets@ + group_datasets(self.groups@, self.groups@.len() as int)
    }

    /// The number of the first dataset of group `g`.
    pub open spec fn first_of(&self, g: int) -> int {
        (self.root_datasets@.len() + group_datasets(self.groups@, g).len()) as int
    }

    /// The links of group `g`, if the datasets are at `ds_addrs`.
    pub open spec fn group_links(&self, g: int, ds_addrs: Seq<u64>) -> Seq<LinkView> {
        Seq::new(
            self.groups@[g].datasets@.len(),
            |j: int|
                LinkView::Hard {
                    name: self.groups@[g].datasets@[j].name@,
                    address: ds_addrs[self.first_of(g) + j],
                },
        ) + Seq::new(
            self.groups@[g].external_links@.len(),
            |j: int|
                LinkView::External {
                    name: self.groups@[g].external_links@[j].name@,
                    filename: self.groups@[g].external_links@[j].filename@,
                    object_path: self.groups@[g].external_links@[j].object_path@,
                },
        )
    }

    /// The links of the root group.
    pub open spec fn root_links(&self, ds_addrs: Seq<u64>, grp_addrs: Seq<u64>) -> Seq<LinkView> {
        Seq::new(
            self.root_datasets@.len(),
            |i: int| LinkView::Hard { name: self.root_datasets@[i].name@, address: ds_addrs[i] },
        ) + Seq::new(
            self.groups@.len(),
            |g: int| LinkView::Hard { name: self.groups@[g].name@, address: grp_addrs[g] },
        )
    }

    /// Bytes of the root group.
    pub open spec fn root_len(&self) -> nat {
        group_len(
            self.root_links(no_addrs(self.all().len()), no_addrs(self.groups@.len())),
            self.root_attrs@,
        )
    }

    /// Bytes of each group.
    pub open spec fn group_lens(&self) -> Seq<nat> {
        Seq::new(
            self.groups@.len(),
            |g: int|
                group_len(
                    self.group_links(g, no_addrs(self.all().len())),
                    self.groups@[g].attrs@,
                ),
        )
    }

    /// Bytes of each dataset's header and dense attributes.
    pub open spec fn head_lens(&self) -> Seq<nat> {
        Seq::new(self.all().len(), |i: int| head_len(self.all()[i]))
    }

    /// Where group `g` is; for the number of groups, where the groups end.
    pub open spec fn group_addr(&self, g: int) -> nat {
        SUPERBLOCK_SIZE as nat + self.root_len() + sum_to(self.group_lens(), g)
    }

    /// Where the header of dataset `i` is; for the number of datasets, where the
    /// headers end.
    pub open spec fn head_addr(&self, i: int) -> nat {
        self.group_addr(self.groups@.len() as int) + sum_to(self.head_lens(), i)
    }

    /// Where what comes before the data of dataset `i` ends.
    pub open spec fn data_cursor(&self, i: int) -> nat
        decreases i,
    {
        if i <= 0 {
            self.head_addr(self.all().len() as int)
        } else {
            self.data_cursor(i - 1) + data_bytes(
                self.all()[i - 1],
                self.data_cursor(i - 1),
                self.alignment_threshold,
                self.alignment_bytes,
            ).len()
        }
    }

    /// Where the data of dataset `i` is.
    pub open spec fn data_addr(&self, i: int) -> nat {
        data_place(
            self.all()[i],
            self.data_cursor(i),
            self.alignment_threshold,
            self.alignment_bytes,
        )
    }

    /// Where the file ends.
    pub open spec fn eof(&self) -> nat {
        self.data_cursor(self.all().len() as int)
    }

    /// Where the headers of the datasets are.
    pub open spec fn ds_addrs(&self) -> Seq<u64> {
        Seq::new(self.all().len(), |i: int| self.head_addr(i) as u64)
    }

    /// Where the groups are.
    pub open spec fn grp_addrs(&self) -> Seq<u64> {
        Seq::new(self.groups@.len(), |g: int| self.group_addr(g) as u64)
    }

    /// The root group.
    pub open spec fn root_bytes(&self) -> Seq<u8> {
        group_bytes(
            self.root_links(self.ds_addrs(), self.grp_addrs()),
            self.root_attrs@,
            SUPERBLOCK_SIZE as nat,
        )
    }

    /// The first `n` groups.
    pub open spec fn groups_bytes(&self, n: int) -> Seq<u8>
        decreases n,
    {
        if n <= 0 {
            Seq::empty()
        } else {
            self.groups_bytes(n - 1) + group_bytes(
                self.group_links(n - 1, self.ds_addrs()),
                self.groups@[n - 1].attrs@,
                self.group_addr(n - 1),
            )
        }
    }

    /// The headers of the first `n` datasets, with their dense attributes.
    pub open spec fn heads_bytes(&self, n: int) -> Seq<u8>
        decreases n,
    {
        if n <= 0 {
            Seq::empty()
        } else {
            self.heads_bytes(n - 1) + head_bytes(
                self.all()[n - 1],
                self.head_addr(n - 1),
                self.data_addr(n - 1),
            )
        }
    }

    /// The data of the first `n` datasets.
    pub open spec fn all_data(&self, n: int) -> Seq<u8>
        decreases n,
    {
        if n <= 0 {
            Seq::empty()
        } else {
            self.all_data(n - 1) + data_bytes(
                self.all()[n - 1],
                self.data_cursor(n - 1),
                self.alignment_threshold,
                self.alignment_bytes,
            )
        }
    }

    /// The file.
    pub open spec fn image(&self) -> Seq<u8> {
        let n = self.all().len() as int;
        superblock_bytes(self.eof() as u64, SUPERBLOCK_SIZE as u64) + self.root_bytes()
            + self.groups_bytes(self.groups@.len() as int) + self.heads_bytes(n) + self.all_data(n)
    }

    /// What is wrong with the description, `None` if nothing is: the first
    /// incomplete dataset, or else one that cannot be cut into chunks.
    pub open spec fn error(&self) -> Option<FormatError> {
        match first_error(self.all(), 0) {
            Some(e) => Some(e),
            None => if forall|i: int| 0 <= i < self.all().len() ==> storable(
                #[trigger] self.all()[i],
            ) {
                None
            } else {
                Some(FormatError::InvalidChunking)
            },
        }
    }

    /// An empty file.
    pub fn new() -> (w: Self)
        ensures
            w.root_datasets@.len() == 0,
            w.root_attrs@.len() == 0,
            w.groups@.len() == 0,
            w.alignment_threshold == 0,
            w.alignment_bytes == 0,
    {
        FileWriter {
            root_datasets: Vec::new(),
            root_attrs: Vec::new(),
            groups: Vec::new(),
            alignment_threshold: 0,
            alignment_bytes: 0,
        }
    }

    /// Aligns data of at least `threshold` bytes to `bytes`.
    pub fn alignment(&mut self, threshold: usize, bytes: usize) -> (r: &mut Self)
        ensures
            *r == (FileWriter {
                alignment_threshold: threshold,
                alignment_bytes: bytes,
                ..*old(self)
            }),
            *final(self) == *final(r),
    {
        self.alignment_threshold = threshold;
        self.alignment_bytes = bytes;
        self
    }

    /// A group to be filled and added.
    pub fn create_group(&mut self, name: &str) -> (g: GroupBuilder)
        ensures
            *final(self) == *old(self),
            g.spec_group().name@ == name@,
            g.spec_group().attrs@.len() == 0,
            g.spec_group().datasets@.len() == 0,
            g.spec_group().external_links@.len() == 0,
    {
        GroupBuilder::new(name)
    }

    /// Adds a group.
    pub fn add_group(&mut self, group: FinishedGroup)
        ensures
            final(self).groups@ == old(self).groups@.push(group),
            *final(self) == (FileWriter { groups: final(self).groups, ..*old(self) }),
    {
        self.groups.push(group);
    }

    /// Adds a dataset to the root group and gives access to it.
    pub fn create_dataset(&mut self, name: &str) -> (r: &mut DatasetBuilder)
        ensures
            r.name@ == name@,
            r.is_blank(),
            final(self).root_datasets@ == old(self).root_datasets@.push(*final(r)),
            *final(self) == (FileWriter {
                root_datasets: final(self).root_datasets,
                ..*old(self)
            }),
    {
        let n: usize = self.root_datasets.len();
        self.root_datasets.push(DatasetBuilder::new(name));
        &mut self.root_datasets[n]
    }

    /// Adds an attribute to the root group.
    pub fn set_root_attr(&mut self, name: &str, value: AttrValue)
        ensures
            final(self).root_attrs@.len() == old(self).root_attrs@.len() + 1,
            final(self).root_attrs@.drop_last() == old(self).root_attrs@,
            final(self).root_attrs@.last().0@ == name@,
            final(self).root_attrs@.last().1 == value,
            *final(self) == (FileWriter { root_attrs: final(self).root_attrs, ..*old(self) }),
    {
        self.root_attrs.push((name.to_owned(), value));
        assert(self.root_attrs@.drop_last() =~= old(self).root_attrs@);
    }
}

impl Default for FileWriter {
    fn default() -> (w: Self)
        ensures
            w.root_datasets@.len() == 0,
            w.root_attrs@.len() == 0,
            w.groups@.len() == 0,
            w.alignment_threshold == 0,
            w.alignment_bytes == 0,
    {
        FileWriter::new()
    }
}

// ---------------------------------------------------------------------------
// Finishing
// ---------------------------------------------------------------------------

pub(crate) proof fn lemma_cursor_grows(fw: FileWriter, a: int, b: int)
    requires
        0 <= a <= b,
    ensures
        fw.data_cursor(a) <= fw.data_cursor(b),
    decreases b - a,
{
    if a < b {
        lemma_cursor_grows(fw, a, b - 1);
    }
}

/// Every part of the file ends before the file does.
pub(crate) proof fn lemma_parts_inside(fw: FileWriter)
    ensures
        SUPERBLOCK_SIZE + fw.root_len() <= fw.eof(),
        forall|g: int|
            0 <= g < fw.groups@.len() ==> (#[trigger] fw.group_addr(g)) + fw.group_lens()[g]
                <= fw.eof(),
        forall|i: int|
            0 <= i < fw.all().len() ==> (#[trigger] fw.head_addr(i)) + fw.head_lens()[i]
                <= fw.eof(),
        forall|i: int|
            0 <= i < fw.all().len() ==> (#[trigger] fw.data_cursor(i)) + data_bytes(
                fw.all()[i],
                fw.data_cursor(i),
                fw.alignment_threshold,
                fw.alignment_bytes,
            ).len() <= fw.eof(),
{
    let n = fw.all().len() as int;
    let m = fw.groups@.len() as int;
    lemma_cursor_grows(fw, 0, n);
    lemma_sum_le(fw.head_lens(), 0, n);
    lemma_sum_le(fw.group_lens(), 0, m);
    assert forall|g: int| 0 <= g < m implies (#[trigger] fw.group_addr(g)) + fw.group_lens()[g]
        <= fw.eof() by {
        lemma_sum_le(fw.group_lens(), g + 1, m);
        assert(sum_to(fw.group_lens(), g + 1) == sum_to(fw.group_lens(), g) + fw.group_lens()[g]);
    }
    assert forall|i: int| 0 <= i < n implies (#[trigger] fw.head_addr(i)) + fw.head_lens()[i]
        <= fw.eof() by {
        lemma_sum_le(fw.head_lens(), i + 1, n);
        assert(sum_to(fw.head_lens(), i + 1) == sum_to(fw.head_lens(), i) + fw.head_lens()[i]);
    }
    assert forall|i: int| 0 <= i < n implies (#[trigger] fw.data_cursor(i)) + data_bytes(
        fw.all()[i],
        fw.data_cursor(i),
        fw.alignment_threshold,
        fw.alignment_bytes,
    ).len() <= fw.eof() by {
        lemma_cursor_grows(fw, i + 1, n);
        assert(fw.data_cursor(i + 1) == fw.data_cursor(i) + data_bytes(
            fw.all()[i],
            fw.data_cursor(i),
            fw.alignment_threshold,
            fw.alignment_bytes,
        ).len());
    }
}

pub(crate) proof fn lemma_first_of(fw: FileWriter, g: int)
    requires
        0 <= g <= fw.groups@.len(),
    ensures
        fw.first_of(g) <= fw.all().len(),
        g < fw.groups@.len() ==> fw.first_of(g) + fw.groups@[g].datasets@.len() <= fw.all().len(),
    decreases fw.groups@.len() - g,
{
    if g < fw.groups@.len() {
        lemma_first_of(fw, g + 1);
        assert(group_datasets(fw.groups@, g + 1) == group_datasets(fw.groups@, g)
            + fw.groups@[g].datasets@);
    }
}

pub(crate) proof fn lemma_no_error(ds: Seq<DatasetBuilder>, i: int)
    requires
        first_error(ds, i) is None,
        0 <= i,
    ensures
        forall|j: int| i <= j < ds.len() ==> complete(#[trigger] ds[j]),
    decreases ds.len() - i,
{
    if i < ds.len() {
        lemma_no_error(ds, i + 1);
        assert forall|j: int| i <= j < ds.len() implies complete(#[trigger] ds[j]) by {
            if j == i {
                assert(dataset_error(ds[i]) is None);
            }
        }
    }
}

impl FileWriter {
    /// All datasets, by reference.
    pub(crate) fn dataset_refs(&self) -> (r: Vec<&DatasetBuilder>)
        ensures
            r@.len() == self.all().len(),
            forall|i: int| 0 <= i < r@.len() ==> *(#[trigger] r@[i]) == self.all()[i],
    {
        let mut r: Vec<&DatasetBuilder> = Vec::new();
        let mut i: usize = 0;
        while i < self.root_datasets.len()
            invariant
                i <= self.root_datasets@.len(),
                r@.len() == i,
                forall|j: int| 0 <= j < i ==> *(#[trigger] r@[j]) == self.root_datasets@[j],
            decreases self.root_datasets@.len() - i,
        {
            r.push(&self.root_datasets[i]);
            i = i + 1;
        }
        let mut g: usize = 0;
        let ghost mut done = self.root_datasets@ + group_datasets(self.groups@, 0);
        assert(done =~= self.root_datasets@);
        while g < self.groups.len()
            invariant
                g <= self.groups@.len(),
                done == self.root_datasets@ + group_datasets(self.groups@, g as int),
                r@.len() == done.len(),
                forall|j: int| 0 <= j < r@.len() ==> *(#[trigger] r@[j]) == done[j],
            decreases self.groups@.len() - g,
        {
            let ghost list = self.groups@[g as int].datasets@;
            let mut k: usize = 0;
            while k < self.groups[g].datasets.len()
                invariant
                    g < self.groups@.len(),
                    list == self.groups@[g as int].datasets@,
                    k <= list.len(),
                    r@.len() == done.len() + k,
                    forall|j: int| 0 <= j < done.len() ==> *(#[trigger] r@[j]) == done[j],
                    forall|j: int|
                        done.len() <= j < r@.len() ==> *(#[trigger] r@[j]) == list[j - done.len()],
                decreases list.len() - k,
            {
                r.push(&self.groups[g].datasets[k]);
                k = k + 1;
            }
            proof {
                done = done + list;
                assert(done =~= self.root_datasets@ + group_datasets(self.groups@, g + 1));
            }
            g = g + 1;
        }
        r
    }

    /// The links of group `g`.
    pub(crate) fn make_group_links(&self, g: usize, ds_addrs: &Vec<u64>) -> (r: Vec<LinkMessage>)
        requires
            g < self.groups@.len(),
            ds_addrs@.len() == self.all().len(),
        ensures
            link_views(r@) == self.group_links(g as int, ds_addrs@),
    {
        let mut first: usize = self.root_datasets.len();
        let mut h: usize = 0;
        proof {
            lemma_first_of(*self, g as int);
        }
        let total: usize = ds_addrs.len();
        while h < g
            invariant
                h <= g < self.groups@.len(),
                total == self.all().len(),
                first == self.first_of(h as int),
            decreases g - h,
        {
            proof {
                lemma_first_of(*self, h as int);
                assert(group_datasets(self.groups@, h + 1) == group_datasets(self.groups@, h as int)
                    + self.groups@[h as int].datasets@);
            }
            first = first + self.groups[h].datasets.len();
            h = h + 1;
        }
        let ghost goal = self.group_links(g as int, ds_addrs@);
        let group: &FinishedGroup = &self.groups[g];
        let mut r: Vec<LinkMessage> = Vec::new();
        let mut j: usize = 0;
        while j < group.datasets.len()
            invariant
                j <= group.datasets@.len(),
                *group == self.groups@[g as int],
                g < self.groups@.len(),
                first == self.first_of(g as int),
                first + group.datasets@.len() <= total,
                total == ds_addrs@.len(),
                goal == self.group_links(g as int, ds_addrs@),
                r@.len() == j,
                forall|k: int| 0 <= k < j ==> (#[trigger] r@[k])@ == goal[k],
            decreases group.datasets@.len() - j,
        {
            r.push(make_link(group.datasets[j].name.as_str(), ds_addrs[first + j]));
            j = j + 1;
        }
        let count: usize = j;
        let mut e: usize = 0;
        while e < group.external_links.len()
            invariant
                e <= group.external_links@.len(),
                *group == self.groups@[g as int],
                count == group.datasets@.len(),
                goal == self.group_links(g as int, ds_addrs@),
                r@.len() == count + e,
                forall|k: int| 0 <= k < count + e ==> (#[trigger] r@[k])@ == goal[k],
            decreases group.external_links@.len() - e,
        {
            let x: &ExternalLink = &group.external_links[e];
            r.push(
                make_external_link(x.name.as_str(), x.filename.as_str(), x.object_path.as_str()),
            );
            e = e + 1;
        }
        assert(link_views(r@) =~= goal);
        r
    }

    /// The links of the root group.
    pub(crate) fn make_root_links(&self, ds_addrs: &Vec<u64>, grp_addrs: &Vec<u64>) -> (r: Vec<LinkMessage>)
        requires
            ds_addrs@.len() == self.all().len(),
            grp_addrs@.len() == self.groups@.len(),
        ensures
            link_views(r@) == self.root_links(ds_addrs@, grp_addrs@),
    {
        let ghost goal = self.root_links(ds_addrs@, grp_addrs@);
        let mut r: Vec<LinkMessage> = Vec::new();
        let mut i: usize = 0;
        while i < self.root_datasets.len()
            invariant
                i <= self.root_datasets@.len() <= ds_addrs@.len(),
                goal == self.root_links(ds_addrs@, grp_addrs@),
                r@.len() == i,
                forall|k: int| 0 <= k < i ==> (#[trigger] r@[k])@ == goal[k],
            decreases self.root_datasets@.len() - i,
        {
            r.push(make_link(self.root_datasets[i].name.as_str(), ds_addrs[i]));
            i = i + 1;
        }
        let count: usize = i;
        let mut g: usize = 0;
        while g < self.groups.len()
            invariant
                g <= self.groups@.len() == grp_addrs@.len(),
                count == self.root_datasets@.len(),
                goal == self.root_links(ds_addrs@, grp_addrs@),
                r@.len() == count + g,
                forall|k: int| 0 <= k < count + g ==> (#[trigger] r@[k])@ == goal[k],
            decreases self.groups@.len() - g,
        {
            r.push(make_link(self.groups[g].name.as_str(), grp_addrs[g]));
            g = g + 1;
        }
        assert(link_views(r@) =~= goal);
        r
    }
}

pub(crate) fn zero_addrs(n: usize) -> (r: Vec<u64>)
    ensures
        r@ == no_addrs(n as nat),
{
    let mut r: Vec<u64> = Vec::new();
    let mut i: usize = 0;
    while i < n
        invariant
            i <= n,
            r@.len() == i,
            forall|j: int| 0 <= j < i ==> #[trigger] r@[j] == 0,
        decreases n - i,
    {
        r.push(0);
        i = i + 1;
    }
    assert(r@ =~= no_addrs(n as nat));
    r
}

/// What is wrong with a dataset, `None` if nothing is.
fn check_dataset(d: &DatasetBuilder) -> (r: Option<FormatError>)
    ensures
        r == dataset_error(*d),
{
    if d.datatype.is_none() {
        Some(FormatError::DatasetMissingData)
    } else if d.shape.is_none() {
        Some(FormatError::DatasetMissingShape)
    } else if d.virtual_sources.is_none() && d.data.is_none() {
        Some(FormatError::DatasetMissingData)
    } else {
        None
    }
}

pub(crate) fn check_datasets(ds: &Vec<&DatasetBuilder>, Ghost(all): Ghost<Seq<DatasetBuilder>>) -> (r: Option<
    FormatError,
>)
    requires
        ds@.len() == all.len(),
        forall|i: int| 0 <= i < ds@.len() ==> *(#[trigger] ds@[i]) == all[i],
    ensures
        r == first_error(all, 0),
{
    let mut i: usize = 0;
    while i < ds.len()
        invariant
            i <= ds@.len() == all.len(),
            forall|j: int| 0 <= j < ds@.len() ==> *(#[trigger] ds@[j]) == all[j],
            first_error(all, i as int) == first_error(all, 0),
        decreases ds@.len() - i,
    {
        assert(*ds@[i as int] == all[i as int]);
        match check_dataset(ds[i]) {
            Some(e) => {
                return Some(e);
            },
            None => {},
        }
        i = i + 1;
    }
    None
}

/// Cuts the chunked datasets; `None` if one cannot be cut.
pub(crate) fn cut_all(ds: &Vec<&DatasetBuilder>, Ghost(all): Ghost<Seq<DatasetBuilder>>) -> (r: Option<
    Vec<Option<PrecompressedChunks>>,
>)
    requires
        ds@.len() == all.len(),
        forall|i: int| 0 <= i < ds@.len() ==> *(#[trigger] ds@[i]) == all[i],
        forall|i: int| 0 <= i < all.len() ==> complete(#[trigger] all[i]),
    ensures
        match r {
            Some(pres) => {
                &&& pres@.len() == all.len()
                &&& forall|i: int| 0 <= i < all.len() ==> storable(#[trigger] all[i])
                &&& forall|i: int| 0 <= i < all.len() ==> is_cut(all[i], #[trigger] pres@[i])
            },
            None => exists|i: int| 0 <= i < all.len() && !storable(#[trigger] all[i]),
        },
{
    let mut pres: Vec<Option<PrecompressedChunks>> = Vec::new();
    let mut i: usize = 0;
    while i < ds.len()
        invariant
            i <= ds@.len() == all.len(),
            forall|j: int| 0 <= j < ds@.len() ==> *(#[trigger] ds@[j]) == all[j],
            forall|j: int| 0 <= j < all.len() ==> complete(#[trigger] all[j]),
            pres@.len() == i,
            forall|j: int| 0 <= j < i ==> storable(#[trigger] all[j]),
            forall|j: int| 0 <= j < i ==> is_cut(all[j], #[trigger] pres@[j]),
        decreases ds@.len() - i,
    {
        assert(*ds@[i as int] == all[i as int]);
        assert(complete(all[i as int]));
        match cut(ds[i]) {
            Ok(pre) => {
                pres.push(pre);
            },
            Err(_) => {
                assert(!storable(all[i as int]));
                return None;
            },
        }
        i = i + 1;
    }
    Some(pres)
}

/// A file that can be written: nothing is wrong with it, and it fits in memory.
spec fn writable(fw: FileWriter) -> bool {
    &&& fw.error() is None
    &&& fw.eof() <= isize::MAX
}

/// Whether `ds` and `pres` are the datasets of `fw` and their chunks.
pub open spec fn is_prepared(
    fw: FileWriter,
    ds: Seq<&DatasetBuilder>,
    pres: Seq<Option<PrecompressedChunks>>,
) -> bool {
    &&& ds.len() == fw.all().len()
    &&& pres.len() == fw.all().len()
    &&& forall|i: int| 0 <= i < ds.len() ==> *(#[trigger] ds[i]) == fw.all()[i]
    &&& forall|i: int| 0 <= i < ds.len() ==> is_cut(fw.all()[i], #[trigger] pres[i])
    &&& forall|i: int| 0 <= i < ds.len() ==> complete(#[trigger] fw.all()[i])
    &&& forall|i: int| 0 <= i < ds.len() ==> storable(#[trigger] fw.all()[i])
}

impl FileWriter {
    /// Where the groups are, and where they end.
    fn place_groups(&self, total: usize) -> (r: (Vec<u64>, usize))
        requires
            writable(*self),
            total == self.all().len(),
        ensures
            r.0@ == self.grp_addrs(),
            r.1 == self.group_addr(self.groups@.len() as int),
    {
        proof {
            lemma_parts_inside(*self);
            lemma_sum_le(self.group_lens(), 0, self.groups@.len() as int);
        }
        let none: Vec<u64> = zero_addrs(total);
        let no_groups: Vec<u64> = zero_addrs(self.groups.len());
        // Sizes are taken with addresses still zero; they do not change them.
        let root_links: Vec<LinkMessage> = self.make_root_links(&none, &no_groups);
        let root_len: usize = build_group(&root_links, &self.root_attrs, 0).len();
        let mut cursor: usize = SUPERBLOCK_SIZE + root_len;
        let mut addrs: Vec<u64> = Vec::new();
        let mut g: usize = 0;
        while g < self.groups.len()
            invariant
                g <= self.groups@.len(),
                writable(*self),
                total == self.all().len(),
                none@ == no_addrs(total as nat),
                cursor == self.group_addr(g as int),
                addrs@.len() == g,
                forall|k: int| 0 <= k < g ==> #[trigger] addrs@[k] == self.grp_addrs()[k],
            decreases self.groups@.len() - g,
        {
            proof {
                lemma_parts_inside(*self);
                assert(self.group_addr(g as int) + self.group_lens()[g as int] <= self.eof());
                assert(sum_to(self.group_lens(), g + 1) == sum_to(self.group_lens(), g as int)
                    + self.group_lens()[g as int]);
            }
            addrs.push(cursor as u64);
            let links: Vec<LinkMessage> = self.make_group_links(g, &none);
            let len: usize = build_group(&links, &self.groups[g].attrs, 0).len();
            cursor = cursor + len;
            g = g + 1;
        }
        assert(addrs@ =~= self.grp_addrs());
        (addrs, cursor)
    }

    /// Where the headers of the datasets are, and where they end.
    fn place_heads(
        &self,
        ds: &Vec<&DatasetBuilder>,
        pres: &Vec<Option<PrecompressedChunks>>,
        start: usize,
    ) -> (r: (Vec<u64>, usize))
        requires
            writable(*self),
            is_prepared(*self, ds@, pres@),
            start == self.head_addr(0),
        ensures
            r.0@ == self.ds_addrs(),
            r.1 == self.data_cursor(0),
    {
        let mut cursor: usize = start;
        let mut addrs: Vec<u64> = Vec::new();
        let mut i: usize = 0;
        while i < ds.len()
            invariant
                i <= ds@.len() == self.all().len(),
                writable(*self),
                is_prepared(*self, ds@, pres@),
                cursor == self.head_addr(i as int),
                addrs@.len() == i,
                forall|k: int| 0 <= k < i ==> #[trigger] addrs@[k] == self.ds_addrs()[k],
            decreases ds@.len() - i,
        {
            let ghost d = self.all()[i as int];
            proof {
                lemma_parts_inside(*self);
                assert(*ds@[i as int] == d);
                assert(is_cut(d, pres@[i as int]));
                assert(complete(d) && storable(d));
                assert(self.head_addr(i as int) + self.head_lens()[i as int] <= self.eof());
                assert(sum_to(self.head_lens(), i + 1) == sum_to(self.head_lens(), i as int)
                    + self.head_lens()[i as int]);
                assert(self.data_cursor(i as int) + data_bytes(
                    d,
                    self.data_cursor(i as int),
                    self.alignment_threshold,
                    self.alignment_bytes,
                ).len() <= self.eof());
                if storage_of(d) is Chunked {
                    lemma_cut_len(
                        d,
                        self.data_cursor(i as int),
                        self.alignment_threshold,
                        self.alignment_bytes,
                    );
                }
            }
            addrs.push(cursor as u64);
            let layout: Vec<u8> = dummy_layout(ds[i], &pres[i]);
            let len: usize = build_head(ds[i], layout.as_slice(), 0, Ghost(0)).len();
            cursor = cursor + len;
            i = i + 1;
        }
        assert(addrs@ =~= self.ds_addrs());
        (addrs, cursor)
    }

    /// The headers of the datasets and their data, and where the file ends.
    fn write_datasets(
        &self,
        ds: &Vec<&DatasetBuilder>,
        pres: &Vec<Option<PrecompressedChunks>>,
        ds_addrs: &Vec<u64>,
        start: usize,
    ) -> (r: (Vec<u8>, Vec<u8>, usize))
        requires
            writable(*self),
            is_prepared(*self, ds@, pres@),
            ds_addrs@ == self.ds_addrs(),
            start == self.data_cursor(0),
        ensures
            r.0@ == self.heads_bytes(self.all().len() as int),
            r.1@ == self.all_data(self.all().len() as int),
            r.2 == self.eof(),
    {
        let mut heads: Vec<u8> = Vec::new();
        let mut data: Vec<u8> = Vec::new();
        let mut cursor: usize = start;
        let mut i: usize = 0;
        while i < ds.len()
            invariant
                i <= ds@.len() == self.all().len(),
                writable(*self),
                is_prepared(*self, ds@, pres@),
                ds_addrs@ == self.ds_addrs(),
                cursor == self.data_cursor(i as int),
                heads@ == self.heads_bytes(i as int),
                data@ == self.all_data(i as int),
            decreases ds@.len() - i,
        {
            let ghost d = self.all()[i as int];
            proof {
                lemma_parts_inside(*self);
                assert(*ds@[i as int] == d);
                assert(is_cut(d, pres@[i as int]));
                assert(complete(d) && storable(d));
                assert(self.head_addr(i as int) + self.head_lens()[i as int] <= self.eof());
                assert(self.data_cursor(i as int) + data_bytes(
                    d,
                    self.data_cursor(i as int),
                    self.alignment_threshold,
                    self.alignment_bytes,
                ).len() <= self.eof());
                assert(ds_addrs@[i as int] == self.head_addr(i as int));
            }
            let placed: PlacedData = place_data(
                ds[i],
                &pres[i],
                cursor,
                self.alignment_threshold,
                self.alignment_bytes,
            );
            let head: Vec<u8> = build_head(
                ds[i],
                placed.layout.as_slice(),
                ds_addrs[i],
                Ghost(self.data_addr(i as int)),
            );
            extend(&mut heads, head.as_slice());
            extend(&mut data, placed.data.as_slice());
            cursor = cursor + placed.data.len();
            i = i + 1;
        }
        let ghost n = self.all().len() as int;
        assert(i == n);
        assert(heads@ == self.heads_bytes(n) && data@ == self.all_data(n));
        (heads, data, cursor)
    }

    /// Writes the file.
    pub fn finish(self) -> (r: Result<Vec<u8>, FormatError>)
        requires
            self.error() is None ==> self.eof() <= isize::MAX,
        ensures
            match self.error() {
                Some(e) => r == Err::<Vec<u8>, FormatError>(e),
                None => r is Ok && r->Ok_0@ == self.image(),
            },
    {
        let ds: Vec<&DatasetBuilder> = self.dataset_refs();
        match check_datasets(&ds, Ghost(self.all())) {
            Some(e) => {
                return Err(e);
            },
            None => {},
        }
        proof {
            lemma_no_error(self.all(), 0);
        }
        let pres: Vec<Option<PrecompressedChunks>> = match cut_all(&ds, Ghost(self.all())) {
            Some(p) => p,
            None => {
                return Err(FormatError::InvalidChunking);
            },
        };
        let (grp_addrs, groups_end) = self.place_groups(ds.len());
        let (ds_addrs, heads_end) = self.place_heads(&ds, &pres, groups_end);
        let (heads, data, eof) = self.write_datasets(&ds, &pres, &ds_addrs, heads_end);
        let mut buf: Vec<u8> = write_superblock(eof as u64, SUPERBLOCK_SIZE as u64);
        let root: Vec<u8> = self.write_root(&ds_addrs, &grp_addrs);
        extend(&mut buf, root.as_slice());
        let groups: Vec<u8> = self.write_groups(&ds_addrs, &grp_addrs);
        extend(&mut buf, groups.as_slice());
        extend(&mut buf, heads.as_slice());
        extend(&mut buf, data.as_slice());
        Ok(buf)
    }

    /// The root group.
    fn write_root(&self, ds_addrs: &Vec<u64>, grp_addrs: &Vec<u64>) -> (r: Vec<u8>)
        requires
            writable(*self),
            ds_addrs@ == self.ds_addrs(),
            grp_addrs@ == self.grp_addrs(),
        ensures
            r@ == self.root_bytes(),
    {
        let links: Vec<LinkMessage> = self.make_root_links(ds_addrs, grp_addrs);
        proof {
            lemma_parts_inside(*self);
            lemma_root_same(*self);
        }
        build_group(&links, &self.root_attrs, SUPERBLOCK_SIZE as u64)
    }

    /// The groups.
    fn write_groups(&self, ds_addrs: &Vec<u64>, grp_addrs: &Vec<u64>) -> (out: Vec<u8>)
        requires
            writable(*self),
            ds_addrs@ == self.ds_addrs(),
            grp_addrs@ == self.grp_addrs(),
        ensures
            out@ == self.groups_bytes(self.groups@.len() as int),
    {
        let mut out: Vec<u8> = Vec::new();
        let mut g: usize = 0;
        while g < self.groups.len()
            invariant
                g <= self.groups@.len(),
                writable(*self),
                ds_addrs@ == self.ds_addrs(),
                grp_addrs@ == self.grp_addrs(),
                out@ == self.groups_bytes(g as int),
            decreases self.groups@.len() - g,
        {
            let links: Vec<LinkMessage> = self.make_group_links(g, ds_addrs);
            proof {
                lemma_parts_inside(*self);
                lemma_group_same(*self, g as int);
                assert(self.group_addr(g as int) + self.group_lens()[g as int] <= self.eof());
                assert(grp_addrs@[g as int] == self.group_addr(g as int));
            }
            let group: Vec<u8> = build_group(&links, &self.groups[g].attrs, grp_addrs[g]);
            extend(&mut out, group.as_slice());
            g = g + 1;
        }
        assert(g == self.groups@.len());
        out
    }
}

pub(crate) proof fn lemma_root_same(fw: FileWriter)
    ensures
        group_len(
            fw.root_links(fw.ds_addrs(), fw.grp_addrs()),
            fw.root_attrs@,
        ) == fw.root_len(),
{
    let a = fw.root_links(fw.ds_addrs(), fw.grp_addrs());
    let b = fw.root_links(no_addrs(fw.all().len()), no_addrs(fw.groups@.len()));
    assert(same_but_addresses(a, b));
    lemma_group_len(a, b, fw.root_attrs@);
}

pub(crate) proof fn lemma_group_same(fw: FileWriter, g: int)
    requires
        0 <= g < fw.groups@.len(),
    ensures
        group_len(fw.group_links(g, fw.ds_addrs()), fw.groups@[g].attrs@) == fw.group_lens()[g],
{
    let a = fw.group_links(g, fw.ds_addrs());
    let b = fw.group_links(g, no_addrs(fw.all().len()));
    assert(same_but_addresses(a, b));
    lemma_group_len(a, b, fw.groups@[g].attrs@);
}

} // verus!
