//! Every written object is found by its name.

use crate::builders::DatasetBuilder;
use crate::checksum::lookup3;
use crate::chunk_laws::{holds_chunks, law_chunked_data_reads_back};
use crate::chunked::{can_chunk, lemma_chunked_len};
use crate::bytes::{le_bytes, lemma_byte_span, lemma_le_len, lemma_le_roundtrip};
use crate::dense::{
    attr_messages, comes_before, dense_link_bytes, dense_link_info, dense_link_len, info_bytes,
    law_records_are_sorted, lemma_dense_attr_len, lemma_dense_link_len, link_hashes, link_messages,
    sorted_order,
};
use crate::dense_laws::{indexed_links, is_recoverable, law_dense_links_read_back, lemma_part};
use crate::dense_reader::dense_objects;
use crate::file_laws::{
    attr_views, dataset_views, is_writable, law_contiguous_dataset_reads_back,
    law_data_stands_at_its_address, law_dataset_links_lead_to_headers, law_dataspace_roundtrip,
    law_datatype_roundtrip, law_group_links_lead_to_groups, law_superblock_is_right,
    lemma_attr_views, lemma_data_part, lemma_first_messages, lemma_group_bytes, lemma_group_dataset,
    lemma_header_found, lemma_messages_concat, lemma_one_message, small_messages,
};
use crate::file_writer::{
    attr_blob, attr_blob_len, attr_part, cdims_of, complete, data_bytes, dense_attrs, dense_links,
    group_bytes, group_header, group_header_len, group_len, inline_links, layout_of,
    lemma_group_header_len, lemma_no_error, link_blob, link_blob_len, link_part, oh_len, raw_of,
    same_but_addresses, storage_of, FileWriter,
};
use crate::fractal_heap::heap_len;
use crate::layout::first_message;
use crate::messages::{
    attr_bytes, compact_bytes, link_bytes, opt_view, parsed_dataspace,
    parsed_layout, virtual_bytes, width_of, AttrValue, DataLayout, LinkView, MessageType,
};
use crate::object_header::{
    header_bytes, law_header_roundtrip, lemma_header_len, messages_bytes, parsed_header, parsed_superblock,
    storable, MessageView, Superblock, SUPERBLOCK_SIZE,
};
use crate::reader::{
    as_messages, child, dataset_data, hard_link, lemma_name_end, name_end, object_data, parsed_link, read_answer,
    resolved, stored_messages, ReadFault,
};
use crate::tree::lemma_next_pow2;
use crate::vds::{
    as_read, collection_object, law_collection_roundtrip, law_vds_roundtrip,
    lemma_collection_len, parsed_vds, readable, vds_bytes, vds_object, vds_version, vds_views,
    VdsView,
};
use crate::verification_grid::suffix_product;
use vstd::prelude::*;
use vstd::utf8::{encode_utf8, encode_utf8_decode_utf8};

verus! {

/// Reading a link message gives back name and address, of a hard link; of
/// another it gives nothing.
pub proof fn law_link_roundtrip(link: LinkView)
    requires
        encode_utf8(link.name()).len() < 0x1_0000_0000,
    ensures
        parsed_link(link_bytes(link)) == match link {
            LinkView::Hard { name, address } => Some((encode_utf8(name), address)),
            LinkView::External { .. } => None::<(Seq<u8>, u64)>,
        },
{
    let n = encode_utf8(link.name());
    let w = width_of(n.len()) as int;
    let data = link_bytes(link);
    lemma_byte_span();
    lemma_le_len(n.len(), width_of(n.len()));
    lemma_le_roundtrip(n.len(), width_of(n.len()));
    match link {
        LinkView::Hard { name, address } => {
            lemma_le_len(address as nat, 8);
            lemma_le_roundtrip(address as nat, 8);
            assert(data.subrange(2, 2 + w) =~= le_bytes(n.len(), width_of(n.len())));
            assert(data.subrange(2 + w, 2 + w + n.len()) =~= n);
            assert(data.subrange(2 + w + n.len(), 2 + w + n.len() + 8) =~= le_bytes(
                address as nat,
                8,
            ));
        },
        LinkView::External { .. } => {
            assert(data[2] == 64);
        },
    }
}

// ---------------------------------------------------------------------------
// Group headers
// ---------------------------------------------------------------------------

/// The messages about links in the header of a group, with dense storage at
/// `links_at`.
pub open spec fn link_views_of(links: Seq<LinkView>, links_at: u64) -> Seq<MessageView> {
    if dense_links(links) {
        seq![
            MessageView {
                kind: MessageType::LinkInfo,
                flags: 0,
                data: dense_link_info(links, links_at),
            },
        ]
    } else {
        seq![
            MessageView {
                kind: MessageType::LinkInfo,
                flags: 0,
                data: info_bytes(u64::MAX, u64::MAX),
            },
        ] + inline_views(links)
    }
}

/// The messages of the header of a group.
pub open spec fn group_views(
    links: Seq<LinkView>,
    links_at: u64,
    attrs: Seq<(String, AttrValue)>,
    attrs_at: u64,
) -> Seq<MessageView> {
    link_views_of(links, links_at) + attr_views(attrs, attrs_at)
}

/// Links as messages.
pub open spec fn inline_views(links: Seq<LinkView>) -> Seq<MessageView> {
    as_messages(link_messages(links), MessageType::Link)
}

/// Whether the messages of a group's header are of sizes the header can say.
pub open spec fn small_group(links: Seq<LinkView>, attrs: Seq<(String, AttrValue)>) -> bool {
    &&& forall|i: int| 0 <= i < links.len() ==> link_bytes(#[trigger] links[i]).len() < 0x1_0000
    &&& forall|i: int|
        0 <= i < attrs.len() ==> attr_bytes((#[trigger] attrs[i]).0@, attrs[i].1, false).len()
            < 0x1_0000
}

proof fn lemma_inline_links(links: Seq<LinkView>, n: int)
    requires
        0 <= n <= links.len(),
    ensures
        inline_links(links, n) == messages_bytes(inline_views(links).take(n)),
    decreases n,
{
    let views = inline_views(links);
    if n > 0 {
        lemma_inline_links(links, n - 1);
        assert(views.take(n) =~= views.take(n - 1) + seq![views[n - 1]]);
        lemma_messages_concat(views.take(n - 1), seq![views[n - 1]]);
        lemma_one_message(views[n - 1]);
    } else {
        assert(messages_bytes(views.take(0)) =~= Seq::empty());
    }
}

proof fn lemma_link_part(links: Seq<LinkView>, links_at: u64)
    ensures
        link_part(links, links_at) == messages_bytes(link_views_of(links, links_at)),
{
    let ms = link_views_of(links, links_at);
    let info = seq![ms[0]];
    lemma_one_message(ms[0]);
    if dense_links(links) {
        assert(ms =~= info);
    } else {
        let ls = inline_views(links);
        assert(ms =~= info + ls);
        lemma_messages_concat(info, ls);
        lemma_inline_links(links, links.len() as int);
        assert(ls.take(links.len() as int) =~= ls);
    }
}

proof fn lemma_group_body(
    links: Seq<LinkView>,
    attrs: Seq<(String, AttrValue)>,
    links_at: u64,
    attrs_at: u64,
)
    ensures
        link_part(links, links_at) + attr_part(attrs, attrs_at) == messages_bytes(
            group_views(links, links_at, attrs, attrs_at),
        ),
{
    lemma_link_part(links, links_at);
    lemma_attr_views(attrs, attrs_at);
    lemma_messages_concat(link_views_of(links, links_at), attr_views(attrs, attrs_at));
}

proof fn lemma_info_len(heap_addr: u64, index_addr: u64)
    ensures
        info_bytes(heap_addr, index_addr).len() == 18,
{
    lemma_le_len(heap_addr as nat, 8);
    lemma_le_len(index_addr as nat, 8);
}

proof fn lemma_group_storable(
    links: Seq<LinkView>,
    links_at: u64,
    attrs: Seq<(String, AttrValue)>,
    attrs_at: u64,
)
    requires
        small_group(links, attrs),
    ensures
        forall|k: int|
            0 <= k < group_views(links, links_at, attrs, attrs_at).len() ==> storable(
                #[trigger] group_views(links, links_at, attrs, attrs_at)[k],
            ),
{
    let ms = group_views(links, links_at, attrs, attrs_at);
    let ls = link_views_of(links, links_at);
    let after_links = (links_at + heap_len(link_messages(links), 32)) as u64;
    let after_attrs = (attrs_at + heap_len(attr_messages(attrs, true), 40)) as u64;
    lemma_info_len(u64::MAX, u64::MAX);
    lemma_info_len(links_at, after_links);
    lemma_info_len(attrs_at, after_attrs);
    assert forall|k: int| 0 <= k < ms.len() implies storable(#[trigger] ms[k]) by {
        if k < ls.len() {
            assert(ms[k] == ls[k]);
            if k > 0 {
                assert(ls[k].data == link_bytes(links[k - 1]));
            }
        } else {
            let j = k - ls.len();
            assert(ms[k] == attr_views(attrs, attrs_at)[j]);
            if !dense_attrs(attrs) {
                assert(attr_bytes(attrs[j].0@, attrs[j].1, false).len() < 0x1_0000);
            }
        }
    }
}

/// A group is its header, then its dense links and attributes.
proof fn lemma_group_parts(links: Seq<LinkView>, attrs: Seq<(String, AttrValue)>, at: nat)
    requires
        group_len(links, attrs) <= isize::MAX,
    ensures
        ({
            let links_at = (at + group_header_len(links, attrs)) as u64;
            let attrs_at = (at + group_header_len(links, attrs) + link_blob_len(links)) as u64;
            let header = group_header(links, links_at, attrs, attrs_at);
            let whole = group_bytes(links, attrs, at);
            let a = header.len() as int;
            let b = a + link_blob_len(links);
            let c = b + attr_blob_len(attrs);
            &&& a == group_header_len(links, attrs)
            &&& c == group_len(links, attrs)
            &&& c == whole.len()
            &&& whole.subrange(0, a) == header
            &&& whole.subrange(a, b) == link_blob(links, links_at)
            &&& whole.subrange(b, c) == attr_blob(attrs, attrs_at)
        }),
{
    let links_at = (at + group_header_len(links, attrs)) as u64;
    let attrs_at = (at + group_header_len(links, attrs) + link_blob_len(links)) as u64;
    let header = group_header(links, links_at, attrs, attrs_at);
    let whole = group_bytes(links, attrs, at);
    let ls = link_blob(links, links_at);
    let xs = attr_blob(attrs, attrs_at);
    reveal(group_len);
    assert(same_but_addresses(links, links));
    lemma_group_header_len(links, links, attrs, links_at, 0, attrs_at, 0);
    if dense_links(links) {
        lemma_dense_link_len(links, links_at);
    }
    if dense_attrs(attrs) {
        lemma_dense_attr_len(attrs, attrs_at);
    }
    assert(whole == header + ls + xs) by {
        reveal(group_bytes);
    }
    lemma_three_parts(header, ls, xs);
}

proof fn lemma_three_parts(a: Seq<u8>, b: Seq<u8>, c: Seq<u8>)
    ensures
        ({
            let whole = a + b + c;
            let x = a.len() as int;
            let y = x + b.len();
            &&& whole.subrange(0, x) == a
            &&& whole.subrange(x, y) == b
            &&& whole.subrange(y, whole.len() as int) == c
        }),
{
    let whole = a + b + c;
    let x = a.len() as int;
    let y = x + b.len();
    assert(whole.subrange(0, x) =~= a);
    assert(whole.subrange(x, y) =~= b);
    assert(whole.subrange(y, whole.len() as int) =~= c);
}

/// A group's header is that of its messages.
proof fn lemma_group_header_bytes(
    links: Seq<LinkView>,
    attrs: Seq<(String, AttrValue)>,
    links_at: u64,
    attrs_at: u64,
)
    ensures
        group_header(links, links_at, attrs, attrs_at) == header_bytes(
            messages_bytes(group_views(links, links_at, attrs, attrs_at)),
        ),
        messages_bytes(group_views(links, links_at, attrs, attrs_at)).len() <= group_header(
            links,
            links_at,
            attrs,
            attrs_at,
        ).len(),
{
    lemma_group_body(links, attrs, links_at, attrs_at);
    lemma_header_len(messages_bytes(group_views(links, links_at, attrs, attrs_at)));
}

/// A group that stands in a file: its header is found, and its dense links and
/// attributes stand behind it.
#[verifier::spinoff_prover]
#[verifier::rlimit(50)]
pub(crate) proof fn lemma_group_found(
    file: Seq<u8>,
    links: Seq<LinkView>,
    attrs: Seq<(String, AttrValue)>,
    at: nat,
)
    requires
        small_group(links, attrs),
        group_len(links, attrs) <= isize::MAX,
        at + group_len(links, attrs) <= file.len(),
        at + group_len(links, attrs) <= u64::MAX,
        file.subrange(at as int, (at + group_len(links, attrs)) as int) == group_bytes(
            links,
            attrs,
            at,
        ),
    ensures
        ({
            let links_at = (at + group_header_len(links, attrs)) as u64;
            let attrs_at = (at + group_header_len(links, attrs) + link_blob_len(links)) as u64;
            let end = attrs_at + attr_blob_len(attrs);
            &&& links_at + link_blob_len(links) == attrs_at
            &&& end <= file.len()
            &&& end <= u64::MAX
            &&& parsed_header(file, at as int) == Some(
                group_views(links, links_at, attrs, attrs_at),
            )
            &&& file.subrange(links_at as int, attrs_at as int) == link_blob(links, links_at)
            &&& file.subrange(attrs_at as int, end) == attr_blob(attrs, attrs_at)
            &&& link_blob_len(links) <= isize::MAX
            &&& attr_blob_len(attrs) <= isize::MAX
        }),
{
    let links_at = (at + group_header_len(links, attrs)) as u64;
    let attrs_at = (at + group_header_len(links, attrs) + link_blob_len(links)) as u64;
    let whole = group_bytes(links, attrs, at);
    let a = group_header_len(links, attrs) as int;
    let b = a + link_blob_len(links);
    let c = b + attr_blob_len(attrs);
    lemma_group_parts(links, attrs, at);
    lemma_part(file, at as int, whole, 0, a);
    lemma_part(file, at as int, whole, a, b);
    lemma_part(file, at as int, whole, b, c);
    lemma_group_header_read(file, links, attrs, at as int, links_at, attrs_at);
}

/// A group's header that stands in a file is found there.
proof fn lemma_group_header_read(
    file: Seq<u8>,
    links: Seq<LinkView>,
    attrs: Seq<(String, AttrValue)>,
    at: int,
    links_at: u64,
    attrs_at: u64,
)
    requires
        small_group(links, attrs),
        ({
            let header = group_header(links, links_at, attrs, attrs_at);
            &&& 0 <= at
            &&& header.len() <= isize::MAX
            &&& at + header.len() <= file.len()
            &&& file.subrange(at, at + header.len()) == header
        }),
    ensures
        parsed_header(file, at) == Some(group_views(links, links_at, attrs, attrs_at)),
{
    lemma_group_header_bytes(links, attrs, links_at, attrs_at);
    lemma_group_storable(links, links_at, attrs, attrs_at);
    law_header_roundtrip(group_views(links, links_at, attrs, attrs_at), file, at);
}

/// Whether link `k` is a hard link to `address`, and none before it has its
/// name.
pub open spec fn first_link(links: Seq<LinkView>, k: int, name: Seq<char>, address: u64) -> bool {
    &&& 0 <= k < links.len()
    &&& links[k] == (LinkView::Hard { name, address })
    &&& forall|j: int| 0 <= j < k ==> (#[trigger] links[j]).name() != name
}

proof fn lemma_skip_links(
    ms: Seq<MessageView>,
    links: Seq<LinkView>,
    k: int,
    name: Seq<char>,
    address: u64,
)
    requires
        first_link(links, k, name, address),
        forall|i: int| 0 <= i < links.len() ==> link_bytes(#[trigger] links[i]).len() < 0x1_0000,
        ms.len() >= links.len(),
        forall|i: int|
            0 <= i < links.len() ==> (#[trigger] ms[i]).kind == MessageType::Link && ms[i].data
                == link_bytes(links[i]),
    ensures
        hard_link(ms, encode_utf8(name)) == Some(address),
    decreases links.len(),
{
    assert(ms[0].data == link_bytes(links[0]));
    lemma_name_shorter(links[0]);
    law_link_roundtrip(links[0]);
    if k > 0 {
        let rest = links.skip(1);
        let others = ms.skip(1);
        assert(links[0].name() != name);
        encode_utf8_decode_utf8(links[0].name());
        encode_utf8_decode_utf8(name);
        assert(rest[k - 1] == links[k]);
        assert forall|j: int| 0 <= j < k - 1 implies (#[trigger] rest[j]).name() != name by {
            assert(rest[j] == links[j + 1]);
        }
        assert forall|i: int| 0 <= i < rest.len() implies (#[trigger] others[i]).kind
            == MessageType::Link && others[i].data == link_bytes(rest[i]) by {
            assert(others[i] == ms[i + 1]);
        }
        assert forall|i: int| 0 <= i < rest.len() implies link_bytes(#[trigger] rest[i]).len()
            < 0x1_0000 by {
            assert(rest[i] == links[i + 1]);
        }
        lemma_skip_links(others, rest, k - 1, name, address);
    }
}

pub(crate) proof fn lemma_name_shorter(link: LinkView)
    ensures
        encode_utf8(link.name()).len() <= link_bytes(link).len(),
{
}

/// Whether the group with these links can be searched: its messages are of sizes
/// the header can say, and its links, where they are stored densely, can be
/// found again there.
pub open spec fn is_searchable(links: Seq<LinkView>, attrs: Seq<(String, AttrValue)>) -> bool {
    &&& small_group(links, attrs)
    &&& dense_links(links) ==> is_recoverable(link_messages(links), 32)
}

/// In a group that stands in a file, a link is found by its name.
pub proof fn law_group_member_is_found(
    file: Seq<u8>,
    links: Seq<LinkView>,
    attrs: Seq<(String, AttrValue)>,
    at: u64,
    k: int,
    name: Seq<char>,
    address: u64,
)
    requires
        is_searchable(links, attrs),
        group_len(links, attrs) <= isize::MAX,
        at + group_len(links, attrs) <= file.len(),
        at + group_len(links, attrs) <= u64::MAX,
        file.subrange(at as int, (at + group_len(links, attrs)) as int) == group_bytes(
            links,
            attrs,
            at as nat,
        ),
        first_link(links, k, name, address),
    ensures
        child(file, at, encode_utf8(name)) == Some(address),
{
    let links_at = (at + group_header_len(links, attrs)) as u64;
    let attrs_at = (at + group_header_len(links, attrs) + link_blob_len(links)) as u64;
    let ms = group_views(links, links_at, attrs, attrs_at);
    let rest = ms.skip(1);
    lemma_group_found(file, links, attrs, at as nat);
    assert(ms[0] == link_views_of(links, links_at)[0]);
    assert(ms[0].kind == MessageType::LinkInfo);
    assert(hard_link(ms, encode_utf8(name)) == hard_link(rest, encode_utf8(name)));
    if dense_links(links) {
        assert(rest =~= attr_views(attrs, attrs_at));
        lemma_no_links(rest, encode_utf8(name));
        assert(first_message(ms, MessageType::LinkInfo) == Some(ms[0].data));
        lemma_dense_member(file, links, links_at, k, name, address);
        reveal(stored_messages);
    } else {
        assert forall|i: int| 0 <= i < links.len() implies (#[trigger] rest[i]).kind
            == MessageType::Link && rest[i].data == link_bytes(links[i]) by {
            assert(rest[i] == ms[i + 1]);
            assert(ms[i + 1] == link_views_of(links, links_at)[i + 1]);
        }
        lemma_skip_links(rest, links, k, name, address);
    }
}

/// Where no message is a link, none is found.
proof fn lemma_no_links(ms: Seq<MessageView>, name: Seq<u8>)
    requires
        forall|i: int| 0 <= i < ms.len() ==> (#[trigger] ms[i]).kind != MessageType::Link,
    ensures
        hard_link(ms, name) is None,
    decreases ms.len(),
{
    if ms.len() > 0 {
        let rest = ms.skip(1);
        assert(ms[0].kind != MessageType::Link);
        assert forall|i: int| 0 <= i < rest.len() implies (#[trigger] rest[i]).kind
            != MessageType::Link by {
            assert(rest[i] == ms[i + 1]);
        }
        lemma_no_links(rest, name);
    }
}

/// In the order of their index, too, the first link of a name comes first.
proof fn lemma_first_in_index(links: Seq<LinkView>, k: int, name: Seq<char>, address: u64) -> (r:
    int)
    requires
        first_link(links, k, name, address),
        links.len() <= usize::MAX,
    ensures
        first_link(indexed_links(links), r, name, address),
{
    let hashes = link_hashes(links);
    let order = sorted_order(hashes, links.len());
    let sorted = indexed_links(links);
    law_records_are_sorted(hashes, links.len());
    assert(order.contains(k as usize));
    let r = choose|r: int| 0 <= r < order.len() && order[r] == k as usize;
    assert(sorted[r] == links[k]);
    assert forall|j: int| 0 <= j < r implies (#[trigger] sorted[j]).name() != name by {
        let i = order[j] as int;
        assert(order.contains(order[j]));
        assert(comes_before(hashes, order[j], order[r]));
        assert(sorted[j] == links[i]);
        if links[i].name() == name {
            assert(hashes[i] == hashes[k]);
            assert(i < k);
        }
    }
    r
}

proof fn lemma_dense_member(
    file: Seq<u8>,
    links: Seq<LinkView>,
    links_at: u64,
    k: int,
    name: Seq<char>,
    address: u64,
)
    requires
        dense_links(links),
        is_recoverable(link_messages(links), 32),
        dense_link_len(links) <= isize::MAX,
        links_at + dense_link_len(links) <= file.len(),
        links_at + dense_link_len(links) <= u64::MAX,
        file.subrange(links_at as int, (links_at + dense_link_len(links)) as int)
            == dense_link_bytes(links, links_at),
        first_link(links, k, name, address),
        forall|i: int| 0 <= i < links.len() ==> link_bytes(#[trigger] links[i]).len() < 0x1_0000,
    ensures
        ({
            let objs = dense_objects(file, dense_link_info(links, links_at), 5, 4);
            &&& objs is Some
            &&& hard_link(as_messages(objs->0, MessageType::Link), encode_utf8(name)) == Some(
                address,
            )
        }),
{
    lemma_few_links(links);
    law_dense_links_read_back(file, links_at, links);
    let sorted = indexed_links(links);
    let r = lemma_first_in_index(links, k, name, address);
    let hashes = link_hashes(links);
    law_records_are_sorted(hashes, links.len());
    let order = sorted_order(hashes, links.len());
    assert forall|i: int| 0 <= i < sorted.len() implies link_bytes(#[trigger] sorted[i]).len()
        < 0x1_0000 by {
        assert(order.contains(order[i]));
        assert(sorted[i] == links[order[i] as int]);
    }
    lemma_skip_links(
        as_messages(link_messages(sorted), MessageType::Link),
        sorted,
        r,
        name,
        address,
    );
}

/// There are fewer links than bytes to store them.
pub(crate) proof fn lemma_few_links(links: Seq<LinkView>)
    requires
        dense_link_len(links) <= isize::MAX,
    ensures
        links.len() <= usize::MAX,
{
    lemma_next_pow2(10 + links.len() * 11);
}

// ---------------------------------------------------------------------------
// Whole files
// ---------------------------------------------------------------------------

/// Whether a name can be one step of a path: it is not empty and has no slash.
pub open spec fn is_step(name: Seq<char>) -> bool {
    &&& encode_utf8(name).len() > 0
    &&& forall|i: int| 0 <= i < encode_utf8(name).len() ==> #[trigger] encode_utf8(name)[i] != 0x2f
}

proof fn lemma_step_end(step: Seq<u8>, path: Seq<u8>)
    requires
        step.len() <= path.len(),
        path.take(step.len() as int) == step,
        forall|i: int| 0 <= i < step.len() ==> #[trigger] step[i] != 0x2f,
        step.len() == path.len() || path[step.len() as int] == 0x2f,
    ensures
        name_end(path) == step.len(),
{
    lemma_name_end(path);
    assert forall|i: int| 0 <= i < step.len() implies path[i] != 0x2f by {
        assert(path[i] == path.take(step.len() as int)[i]);
        assert(step[i] != 0x2f);
    }
}

/// A path of one name leads where the group's link of that name leads.
proof fn lemma_one_step(file: Seq<u8>, at: u64, name: Seq<char>, next: u64)
    requires
        is_step(name),
        child(file, at, encode_utf8(name)) == Some(next),
    ensures
        resolved(file, at, encode_utf8(name)) == Some(next),
{
    let path = encode_utf8(name);
    assert(path.take(path.len() as int) =~= path);
    lemma_step_end(path, path);
    assert(path[0] != 0x2f);
    assert(path.skip(name_end(path)) =~= Seq::<u8>::empty());
    assert(resolved(file, next, Seq::<u8>::empty()) == Some(next));
}

proof fn lemma_encode_concat(a: Seq<char>, b: Seq<char>)
    ensures
        encode_utf8(a + b) == encode_utf8(a) + encode_utf8(b),
    decreases a.len(),
{
    if a.len() == 0 {
        assert(a + b =~= b);
        assert(encode_utf8(a) + encode_utf8(b) =~= encode_utf8(b));
    } else {
        assert((a + b).drop_first() =~= a.drop_first() + b);
        lemma_encode_concat(a.drop_first(), b);
        assert(encode_utf8(a + b) =~= encode_utf8(a) + encode_utf8(b));
    }
}

proof fn lemma_encode_slash()
    ensures
        encode_utf8(seq!['/']) == seq![0x2fu8],
{
    vstd::utf8::is_ascii_chars_encode_utf8(seq!['/']);
    assert(encode_utf8(seq!['/']) =~= seq![0x2fu8]);
}

/// Two names with a slash between them lead to the second in the first.
proof fn lemma_two_steps(
    file: Seq<u8>,
    at: u64,
    first: Seq<char>,
    second: Seq<char>,
    middle: u64,
    next: u64,
)
    requires
        is_step(first),
        is_step(second),
        child(file, at, encode_utf8(first)) == Some(middle),
        child(file, middle, encode_utf8(second)) == Some(next),
    ensures
        resolved(file, at, encode_utf8(first + seq!['/'] + second)) == Some(next),
{
    let a = encode_utf8(first);
    let b = encode_utf8(second);
    let path = encode_utf8(first + seq!['/'] + second);
    lemma_encode_concat(first + seq!['/'], second);
    lemma_encode_concat(first, seq!['/']);
    lemma_encode_slash();
    assert(path.take(a.len() as int) =~= a);
    lemma_step_end(a, path);
    assert(path[0] == a[0]);
    let rest = path.skip(a.len() as int);
    assert(rest[0] == 0x2f);
    assert(rest.skip(1) =~= b);
    lemma_one_step(file, middle, second, next);
    assert(resolved(file, middle, rest) == resolved(file, middle, b));
}

/// Whether a dataset can be read back: its data is not that of other datasets, in
/// chunks it is as long as its extent says, and its messages are of sizes the header
/// can say.
pub open spec fn is_readable(d: DatasetBuilder) -> bool {
    &&& small_messages(d)
    &&& storage_of(d) !is Virtual
    &&& storage_of(d) is Compact ==> raw_of(d).len() <= 65531
    &&& storage_of(d) is Chunked ==> d.shape->0@.len() <= 254 && raw_of(d).len()
        == suffix_product(d.shape->0@, 0) * d.datatype->0.spec_size() as nat
}

/// Chunks stand in the file where their layout message says.
proof fn lemma_chunks_stand(fw: &FileWriter, i: int)
    requires
        is_writable(fw),
        0 <= i < fw.all().len(),
        storage_of(fw.all()[i]) is Chunked,
    ensures
        fw.data_cursor(i) <= u64::MAX,
        ({
            let d = fw.all()[i];
            let dims = d.shape->0@;
            let size = d.datatype->0.spec_size();
            &&& can_chunk(dims, cdims_of(d), size)
            &&& holds_chunks(
                fw.image(),
                raw_of(d),
                dims,
                cdims_of(d),
                size,
                fw.data_cursor(i) as u64,
                d.maxshape is Some,
            )
        }),
{
    reveal(data_bytes);
    let d = fw.all()[i];
    assert(crate::file_writer::storable(d));
    lemma_data_part(fw, i);
    lemma_chunked_len(
        raw_of(d),
        d.shape->0@,
        cdims_of(d),
        d.datatype->0.spec_size(),
        fw.data_cursor(i) as u64,
        d.maxshape is Some,
    );
}

/// The messages of a dataset in chunks lead to its data.
proof fn lemma_chunked_data(file: Seq<u8>, d: DatasetBuilder, base: u64, blob_addr: u64, sb: Superblock)
    requires
        is_readable(d),
        storage_of(d) is Chunked,
        sb.offset_size == 8,
        sb.length_size == 8,
        can_chunk(d.shape->0@, cdims_of(d), d.datatype->0.spec_size()),
        holds_chunks(
            file,
            raw_of(d),
            d.shape->0@,
            cdims_of(d),
            d.datatype->0.spec_size(),
            base,
            d.maxshape is Some,
        ),
    ensures
        layout_of(d, base).len() < 0x1_0000,
        dataset_data(file, dataset_views(d, layout_of(d, base), blob_addr), sb) == Ok::<
            Seq<u8>,
            ReadFault,
        >(raw_of(d)),
{
    reveal(dataset_data);
    let dims = d.shape->0@;
    law_chunked_data_reads_back(
        file,
        raw_of(d),
        dims,
        cdims_of(d),
        d.datatype->0.spec_size(),
        base,
        d.maxshape is Some,
    );
    lemma_first_messages(d, layout_of(d, base), blob_addr);
    law_dataspace_roundtrip(dims, opt_view(d.maxshape));
    law_datatype_roundtrip(d.datatype->0);
}

/// The bytes of a dataset, found at its header.
proof fn lemma_data_found(fw: &FileWriter, i: int, sb: Superblock)
    requires
        is_writable(fw),
        0 <= i < fw.all().len(),
        is_readable(fw.all()[i]),
        sb.offset_size == 8,
        sb.length_size == 8,
        fw.head_addr(i) <= u64::MAX,
    ensures
        object_data(fw.image(), fw.head_addr(i) as u64, sb) == Ok::<Seq<u8>, ReadFault>(
            raw_of(fw.all()[i]),
        ),
{
    reveal(object_data);
    if storage_of(fw.all()[i]) is Contiguous {
        reveal(dataset_data);
        law_contiguous_dataset_reads_back(fw, i);
        law_superblock_is_right(fw);
        law_data_stands_at_its_address(fw, i);
    } else if storage_of(fw.all()[i]) is Chunked {
        let d = fw.all()[i];
        let base = fw.data_cursor(i) as u64;
        let blob_addr = (fw.head_addr(i) + oh_len(d)) as u64;
        lemma_chunks_stand(fw, i);
        lemma_chunked_data(fw.image(), d, base, blob_addr, sb);
        lemma_header_found(fw, i);
    } else {
        reveal(dataset_data);
        lemma_compact_roundtrip(raw_of(fw.all()[i]));
        lemma_header_found(fw, i);
        let d = fw.all()[i];
        let blob_addr = (fw.head_addr(i) + oh_len(d)) as u64;
        let layout = compact_bytes(raw_of(d));
        lemma_first_messages(d, layout, blob_addr);
        lemma_no_error(fw.all(), 0);
        assert(complete(d));
        law_dataspace_roundtrip(d.shape->0@, None);
        law_datatype_roundtrip(d.datatype->0);
    }
}

proof fn lemma_compact_roundtrip(data: Seq<u8>)
    requires
        data.len() <= 65535,
    ensures
        parsed_layout(compact_bytes(data), 8, 8) == Some(
            DataLayout::Compact { size: data.len() as u16 },
        ),
        compact_bytes(data).len() == 4 + data.len(),
        compact_bytes(data).subrange(4, 4 + data.len() as int) == data,
{
    lemma_byte_span();
    lemma_le_len(data.len(), 2);
    lemma_le_roundtrip(data.len(), 2);
    let all = compact_bytes(data);
    assert(all.subrange(2, 4) =~= le_bytes(data.len(), 2));
    assert(all.subrange(4, 4 + data.len() as int) =~= data);
}

proof fn lemma_virtual_roundtrip(heap_address: u64)
    ensures
        parsed_layout(virtual_bytes(heap_address), 8, 8) == Some(
            DataLayout::Virtual { heap_address, heap_index: 1 },
        ),
        virtual_bytes(heap_address).len() == 14,
{
    let all = virtual_bytes(heap_address);
    lemma_byte_span();
    lemma_le_len(heap_address as nat, 8);
    lemma_le_roundtrip(heap_address as nat, 8);
    lemma_le_len(1, 4);
    lemma_le_roundtrip(1, 4);
    assert(all.subrange(2, 10) =~= le_bytes(heap_address as nat, 8));
    assert(all.subrange(10, 14) =~= le_bytes(1, 4));
}

/// The mappings of a virtual dataset, as they are read back.
pub open spec fn mappings_read(d: DatasetBuilder) -> Seq<VdsView> {
    let ms = vds_views(d.virtual_sources->0@);
    Seq::new(ms.len(), |j: int| as_read(ms[j], vds_version(ms)))
}

/// Whether every mapping can be read back.
#[verifier::opaque]
pub open spec fn are_readable(ms: Seq<VdsView>) -> bool {
    forall|j: int| 0 <= j < ms.len() ==> readable(#[trigger] ms[j])
}

/// Whether these header messages are those of the virtual dataset `d`: they give its
/// extent and a collection at `at`.
#[verifier::opaque]
pub open spec fn describes_virtual(ms: Seq<MessageView>, at: u64, d: DatasetBuilder) -> bool {
    let space = first_message(ms, MessageType::Dataspace);
    let layout = first_message(ms, MessageType::DataLayout);
    &&& space is Some
    &&& parsed_dataspace(space->0, 8) == Some(d.shape->0@)
    &&& layout is Some
    &&& parsed_layout(layout->0, 8, 8) == Some(
        DataLayout::Virtual { heap_address: at, heap_index: 1 },
    )
}

/// Whether the object of the collection at `at` holds the mappings of the virtual
/// dataset `d`.
#[verifier::opaque]
pub open spec fn stores_mappings(file: Seq<u8>, at: u64, d: DatasetBuilder) -> bool {
    let object = vds_object(vds_views(d.virtual_sources->0@));
    &&& collection_object(file, at as int) == Some(object)
    &&& parsed_vds(object, 8) == Some(mappings_read(d))
}

proof fn lemma_stores_mappings(
    d: DatasetBuilder,
    at: u64,
    threshold: usize,
    bytes: usize,
    file: Seq<u8>,
)
    requires
        storage_of(d) is Virtual,
        are_readable(vds_views(d.virtual_sources->0@)),
        at + data_bytes(d, at as nat, threshold, bytes).len() <= file.len() <= u64::MAX,
        file.subrange(at as int, (at + data_bytes(d, at as nat, threshold, bytes).len()) as int)
            == data_bytes(d, at as nat, threshold, bytes),
    ensures
        stores_mappings(file, at, d),
{
    let ms = vds_views(d.virtual_sources->0@);
    let object = vds_object(ms);
    assert(collection_object(file, at as int) == Some(object)) by {
        reveal(data_bytes);
        lemma_collection_len(object);
        law_collection_roundtrip(object, file, at as int);
    }
    assert(parsed_vds(object, 8) == Some(mappings_read(d))) by {
        reveal(are_readable);
        lemma_byte_span();
        assert(d.virtual_sources->0.len() == ms.len());
        law_vds_roundtrip(ms, 8, le_bytes(lookup3(vds_bytes(ms, 8)) as nat, 4));
    }
    reveal(stores_mappings);
}

proof fn lemma_describes_virtual(d: DatasetBuilder, at: u64, blob_addr: u64)
    requires
        small_messages(d),
    ensures
        describes_virtual(dataset_views(d, virtual_bytes(at), blob_addr), at, d),
{
    reveal(describes_virtual);
    lemma_virtual_roundtrip(at);
    lemma_first_messages(d, virtual_bytes(at), blob_addr);
    law_dataspace_roundtrip(d.shape->0@, opt_view(d.maxshape));
}

/// In a written file the header of a virtual dataset leads to its mappings.
pub proof fn law_virtual_dataset_reads_back(fw: &FileWriter, i: int)
    requires
        is_writable(fw),
        0 <= i < fw.all().len(),
        small_messages(fw.all()[i]),
        storage_of(fw.all()[i]) is Virtual,
        are_readable(vds_views(fw.all()[i].virtual_sources->0@)),
    ensures
        fw.data_addr(i) <= u64::MAX,
        parsed_header(fw.image(), fw.head_addr(i) as int) is Some,
        describes_virtual(
            parsed_header(fw.image(), fw.head_addr(i) as int)->0,
            fw.data_addr(i) as u64,
            fw.all()[i],
        ),
        stores_mappings(fw.image(), fw.data_addr(i) as u64, fw.all()[i]),
{
    let d = fw.all()[i];
    let at = fw.data_addr(i) as u64;
    lemma_data_part(fw, i);
    lemma_virtual_roundtrip(at);
    lemma_header_found(fw, i);
    lemma_describes_virtual(d, at, (fw.head_addr(i) + oh_len(d)) as u64);
    lemma_stores_mappings(d, at, fw.alignment_threshold, fw.alignment_bytes, fw.image());
}

/// A dataset of the root group reads back by its name.
pub proof fn law_root_dataset_reads_back(fw: &FileWriter, i: int)
    requires
        is_writable(fw),
        0 <= i < fw.root_datasets@.len(),
        is_readable(fw.root_datasets@[i]),
        is_searchable(fw.root_links(fw.ds_addrs(), fw.grp_addrs()), fw.root_attrs@),
        is_step(fw.root_datasets@[i].name@),
        forall|j: int|
            0 <= j < i ==> (#[trigger] fw.root_datasets@[j]).name@ != fw.root_datasets@[i].name@,
    ensures
        read_answer(fw.image(), encode_utf8(fw.root_datasets@[i].name@)) == Ok::<
            Seq<u8>,
            ReadFault,
        >(raw_of(fw.root_datasets@[i])),
{
    let d = fw.root_datasets@[i];
    assert(fw.all()[i] == d);
    law_superblock_is_right(fw);
    law_dataset_links_lead_to_headers(fw, i);
    let links = fw.root_links(fw.ds_addrs(), fw.grp_addrs());
    lemma_root_group(fw);
    assert forall|j: int| 0 <= j < i implies (#[trigger] links[j]).name() != d.name@ by {
        assert(fw.root_datasets@[j].name@ != d.name@);
    }
    law_group_member_is_found(
        fw.image(),
        links,
        fw.root_attrs@,
        SUPERBLOCK_SIZE as u64,
        i,
        d.name@,
        fw.ds_addrs()[i],
    );
    lemma_one_step(fw.image(), SUPERBLOCK_SIZE as u64, d.name@, fw.ds_addrs()[i]);
    let sb = parsed_superblock(fw.image())->0;
    lemma_data_found(fw, i, sb);
}

/// The root group stands right behind the superblock.
pub(crate) proof fn lemma_root_group(fw: &FileWriter)
    requires
        is_writable(fw),
    ensures
        ({
            let links = fw.root_links(fw.ds_addrs(), fw.grp_addrs());
            let len = group_len(links, fw.root_attrs@);
            &&& len <= isize::MAX
            &&& SUPERBLOCK_SIZE + len <= fw.image().len()
            &&& fw.image().subrange(SUPERBLOCK_SIZE as int, (SUPERBLOCK_SIZE + len) as int)
                == group_bytes(links, fw.root_attrs@, SUPERBLOCK_SIZE as nat)
        }),
{
    law_superblock_is_right(fw);
    crate::file_writer::lemma_root_same(*fw);
    crate::file_writer::lemma_parts_inside(*fw);
}

/// Whether dataset `j` of group `g` can be told from the objects before it, and
/// its path be followed.
pub open spec fn is_reachable(fw: &FileWriter, g: int, j: int) -> bool {
    &&& is_group_reachable(fw, g)
    &&& is_searchable(fw.group_links(g, fw.ds_addrs()), fw.groups@[g].attrs@)
    &&& is_step(fw.groups@[g].datasets@[j].name@)
    &&& forall|k: int|
        0 <= k < j ==> (#[trigger] fw.groups@[g].datasets@[k]).name@
            != fw.groups@[g].datasets@[j].name@
}

/// Whether group `g` can be told from the objects before it, and its name be
/// followed.
pub open spec fn is_group_reachable(fw: &FileWriter, g: int) -> bool {
    &&& is_searchable(fw.root_links(fw.ds_addrs(), fw.grp_addrs()), fw.root_attrs@)
    &&& is_step(fw.groups@[g].name@)
    &&& forall|k: int|
        0 <= k < fw.root_datasets@.len() ==> (#[trigger] fw.root_datasets@[k]).name@
            != fw.groups@[g].name@
    &&& forall|k: int| 0 <= k < g ==> (#[trigger] fw.groups@[k]).name@ != fw.groups@[g].name@
}

/// A group is found by its name.
pub proof fn law_group_is_found(fw: &FileWriter, g: int)
    requires
        is_writable(fw),
        0 <= g < fw.groups@.len(),
        is_group_reachable(fw, g),
    ensures
        fw.group_addr(g) <= u64::MAX,
        child(fw.image(), SUPERBLOCK_SIZE as u64, encode_utf8(fw.groups@[g].name@)) == Some(
            fw.group_addr(g) as u64,
        ),
        resolved(fw.image(), SUPERBLOCK_SIZE as u64, encode_utf8(fw.groups@[g].name@)) == Some(
            fw.group_addr(g) as u64,
        ),
{
    let group = fw.groups@[g];
    law_group_links_lead_to_groups(fw, g);
    let at = fw.group_addr(g) as u64;
    let root = fw.root_links(fw.ds_addrs(), fw.grp_addrs());
    let n = fw.root_datasets@.len() as int;
    lemma_root_group(fw);
    assert forall|k: int| 0 <= k < n + g implies (#[trigger] root[k]).name() != group.name@ by {
        if k < n {
            assert(fw.root_datasets@[k].name@ != group.name@);
        } else {
            assert(fw.groups@[k - n].name@ != group.name@);
        }
    }
    law_group_member_is_found(
        fw.image(),
        root,
        fw.root_attrs@,
        SUPERBLOCK_SIZE as u64,
        n + g,
        group.name@,
        at,
    );
    lemma_one_step(fw.image(), SUPERBLOCK_SIZE as u64, group.name@, at);
}

/// A dataset of a group is found by the group's name, a slash, and its own.
pub proof fn law_group_dataset_is_found(fw: &FileWriter, g: int, j: int)
    requires
        is_writable(fw),
        0 <= g < fw.groups@.len(),
        0 <= j < fw.groups@[g].datasets@.len(),
        is_reachable(fw, g, j),
    ensures
        fw.first_of(g) + j < fw.all().len(),
        fw.all()[fw.first_of(g) + j] == fw.groups@[g].datasets@[j],
        fw.head_addr(fw.first_of(g) + j) <= u64::MAX,
        resolved(
            fw.image(),
            SUPERBLOCK_SIZE as u64,
            encode_utf8(fw.groups@[g].name@ + seq!['/'] + fw.groups@[g].datasets@[j].name@),
        ) == Some(fw.head_addr(fw.first_of(g) + j) as u64),
{
    let group = fw.groups@[g];
    let d = group.datasets@[j];
    let i = fw.first_of(g) + j;
    lemma_group_dataset(fw, g, j);
    assert(fw.all()[i] == d);
    law_dataset_links_lead_to_headers(fw, i);
    law_group_links_lead_to_groups(fw, g);
    law_group_is_found(fw, g);
    let at = fw.group_addr(g) as u64;
    let links = fw.group_links(g, fw.ds_addrs());
    assert forall|k: int| 0 <= k < j implies (#[trigger] links[k]).name() != d.name@ by {
        assert(fw.groups@[g].datasets@[k].name@ != d.name@);
    }
    assert(links[i - fw.first_of(g)] == (LinkView::Hard {
        name: d.name@,
        address: fw.ds_addrs()[i],
    }));
    crate::file_writer::lemma_group_same(*fw, g);
    crate::file_writer::lemma_parts_inside(*fw);
    lemma_group_bytes(links, group.attrs@, fw.group_addr(g));
    law_group_member_is_found(
        fw.image(),
        links,
        group.attrs@,
        at,
        j,
        d.name@,
        fw.ds_addrs()[i],
    );
    lemma_two_steps(
        fw.image(),
        SUPERBLOCK_SIZE as u64,
        group.name@,
        d.name@,
        at,
        fw.ds_addrs()[i],
    );
}

/// A dataset of a group reads back by the group's name, a slash, and its own.
pub proof fn law_group_dataset_reads_back(fw: &FileWriter, g: int, j: int)
    requires
        is_writable(fw),
        0 <= g < fw.groups@.len(),
        0 <= j < fw.groups@[g].datasets@.len(),
        is_readable(fw.groups@[g].datasets@[j]),
        is_reachable(fw, g, j),
    ensures
        read_answer(
            fw.image(),
            encode_utf8(fw.groups@[g].name@ + seq!['/'] + fw.groups@[g].datasets@[j].name@),
        ) == Ok::<Seq<u8>, ReadFault>(raw_of(fw.groups@[g].datasets@[j])),
{
    law_superblock_is_right(fw);
    law_group_dataset_is_found(fw, g, j);
    let sb = parsed_superblock(fw.image())->0;
    lemma_data_found(fw, fw.first_of(g) + j, sb);
}

} // verus!
