//! Every written link is read back.

use crate::bytes::{le_bytes, lemma_byte_span, lemma_le_len, lemma_le_roundtrip};
use crate::dense::{
    info_bytes, law_records_are_sorted, link_hashes, link_messages, sorted_order,
};
use crate::dense_laws::{indexed_links, law_dense_links_read_back, law_info_roundtrip};
use crate::dense_reader::dense_objects;
use crate::file_laws::{attr_views, is_writable, law_group_links_lead_to_groups, lemma_group_bytes};
use crate::file_writer::{
    dense_links, group_bytes, group_header_len, group_len, link_blob_len, FileWriter,
};
use crate::layout::first_message;
use crate::link_reader::{
    external_target, links_among, links_at, parsed_any_link, parsed_external,
};
use crate::messages::{link_bytes, width_code, width_of, AttrValue, LinkView, MessageType};
use crate::object_header::MessageView;
use crate::path_laws::{
    group_views, inline_views, is_searchable, law_link_roundtrip, lemma_few_links,
    lemma_group_found, lemma_name_shorter, link_views_of,
};
use crate::reader::{as_messages, dense_links_of, stored_messages};
use crate::vds::lemma_finds_zero;
use vstd::prelude::*;
use vstd::utf8::{encode_utf8, encode_utf8_decode_utf8, encode_utf8_valid_utf8};

verus! {

/// Whether a link can be read back: file and path of an external link have no zero
/// in them, which ends them in the message.
pub open spec fn is_legible(link: LinkView) -> bool {
    match link {
        LinkView::Hard { .. } => true,
        LinkView::External { filename, object_path, .. } => {
            &&& !encode_utf8(filename).contains(0)
            &&& !encode_utf8(object_path).contains(0)
        },
    }
}

proof fn lemma_target(f: Seq<u8>, p: Seq<u8>)
    requires
        !f.contains(0),
        !p.contains(0),
    ensures
        external_target(seq![0u8] + f + seq![0u8] + p + seq![0u8]) == Some((f, p)),
{
    let info = seq![0u8] + f + seq![0u8] + p + seq![0u8];
    let y = 1 + f.len() as int;
    let z = y + 1 + p.len() as int;
    assert(info.subrange(1, y) =~= f);
    assert(info.subrange(y + 1, z) =~= p);
    lemma_finds_zero(info, 1, f);
    lemma_finds_zero(info, y + 1, p);
}

proof fn lemma_four_parts(a: Seq<u8>, b: Seq<u8>, c: Seq<u8>, d: Seq<u8>)
    ensures
        ({
            let all = a + b + c + d;
            let x = a.len() as int;
            let y = x + b.len();
            let z = y + c.len();
            &&& all.subrange(0, x) == a
            &&& all.subrange(x, y) == b
            &&& all.subrange(y, z) == c
            &&& all.subrange(z, all.len() as int) == d
            &&& all.len() == z + d.len()
        }),
{
    let all = a + b + c + d;
    let x = a.len() as int;
    let y = x + b.len();
    let z = y + c.len();
    assert(all.subrange(0, x) =~= a);
    assert(all.subrange(x, y) =~= b);
    assert(all.subrange(y, z) =~= c);
    assert(all.subrange(z, all.len() as int) =~= d);
}

/// What a message of these parts gives: a head with the length of the name, the
/// name, the length of the value, and the value.
proof fn lemma_external_parts(n: Seq<u8>, f: Seq<u8>, p: Seq<u8>, code: u8, data: Seq<u8>)
    requires
        n.len() < 0x1_0000_0000,
        f.len() + p.len() + 3 < 0x1_0000,
        !f.contains(0),
        !p.contains(0),
        code == width_code(n.len()),
        data == (seq![1u8, (0x08 + code) as u8, 64u8] + le_bytes(n.len(), width_of(n.len()))) + n
            + le_bytes((f.len() + p.len() + 3) as nat, 2) + (seq![0u8] + f + seq![0u8] + p + seq![
            0u8,
        ]),
    ensures
        parsed_external(data) == Some((n, f, p)),
{
    let w = width_of(n.len()) as int;
    let size = (f.len() + p.len() + 3) as nat;
    let info = seq![0u8] + f + seq![0u8] + p + seq![0u8];
    let head = seq![1u8, (0x08 + code) as u8, 64u8] + le_bytes(n.len(), width_of(n.len()));
    lemma_byte_span();
    lemma_le_len(n.len(), width_of(n.len()));
    lemma_le_roundtrip(n.len(), width_of(n.len()));
    lemma_le_len(size, 2);
    lemma_le_roundtrip(size, 2);
    lemma_four_parts(head, n, le_bytes(size, 2), info);
    assert(data.subrange(3, 3 + w) =~= head.subrange(3, 3 + w));
    assert(head.subrange(3, 3 + w) =~= le_bytes(n.len(), width_of(n.len())));
    assert(data[0] == head[0] && data[1] == head[1] && data[2] == head[2]);
    lemma_target(f, p);
}

/// Reading the message of an external link gives back name, file and path.
pub proof fn law_external_link_roundtrip(
    name: Seq<char>,
    filename: Seq<char>,
    object_path: Seq<char>,
)
    requires
        encode_utf8(name).len() < 0x1_0000_0000,
        encode_utf8(filename).len() + encode_utf8(object_path).len() + 3 < 0x1_0000,
        !encode_utf8(filename).contains(0),
        !encode_utf8(object_path).contains(0),
    ensures
        parsed_external(link_bytes(LinkView::External { name, filename, object_path })) == Some(
            (encode_utf8(name), encode_utf8(filename), encode_utf8(object_path)),
        ),
{
    let n = encode_utf8(name);
    let f = encode_utf8(filename);
    let p = encode_utf8(object_path);
    let data = link_bytes(LinkView::External { name, filename, object_path });
    let code = width_code(n.len());
    assert(data =~= (seq![1u8, (0x08 + code) as u8, 64u8] + le_bytes(n.len(), width_of(n.len())))
        + n + le_bytes((f.len() + p.len() + 3) as nat, 2) + (seq![0u8] + f + seq![0u8] + p + seq![
        0u8,
    ]));
    lemma_external_parts(n, f, p, code, data);
}

/// Reading a link message gives back the link.
pub proof fn law_any_link_roundtrip(link: LinkView)
    requires
        is_legible(link),
        link_bytes(link).len() < 0x1_0000,
    ensures
        parsed_any_link(link_bytes(link)) == Some(link),
{
    lemma_name_shorter(link);
    law_link_roundtrip(link);
    encode_utf8_decode_utf8(link.name());
    encode_utf8_valid_utf8(link.name());
    match link {
        LinkView::Hard { .. } => {},
        LinkView::External { name, filename, object_path } => {
            lemma_le_len(encode_utf8(name).len(), width_of(encode_utf8(name).len()));
            law_external_link_roundtrip(name, filename, object_path);
            encode_utf8_decode_utf8(filename);
            encode_utf8_valid_utf8(filename);
            encode_utf8_decode_utf8(object_path);
            encode_utf8_valid_utf8(object_path);
        },
    }
}

proof fn lemma_links_concat(a: Seq<MessageView>, b: Seq<MessageView>)
    ensures
        links_among(a + b) == links_among(a) + links_among(b),
    decreases b.len(),
{
    if b.len() == 0 {
        assert(a + b =~= a);
        assert(links_among(a) + links_among(b) =~= links_among(a));
    } else {
        lemma_links_concat(a, b.drop_last());
        assert((a + b).drop_last() =~= a + b.drop_last());
        assert(links_among(a + b) =~= links_among(a) + links_among(b));
    }
}

proof fn lemma_no_links(ms: Seq<MessageView>)
    requires
        forall|i: int| 0 <= i < ms.len() ==> (#[trigger] ms[i]).kind != MessageType::Link,
    ensures
        links_among(ms) == Seq::<LinkView>::empty(),
    decreases ms.len(),
{
    if ms.len() > 0 {
        let before = ms.drop_last();
        assert forall|i: int| 0 <= i < before.len() implies (#[trigger] before[i]).kind
            != MessageType::Link by {
            assert(before[i] == ms[i]);
        }
        assert(ms.last() == ms[ms.len() - 1]);
        lemma_no_links(before);
    }
}

proof fn lemma_all_links(links: Seq<LinkView>)
    requires
        forall|i: int|
            0 <= i < links.len() ==> is_legible(#[trigger] links[i]) && link_bytes(links[i]).len()
                < 0x1_0000,
    ensures
        links_among(as_messages(link_messages(links), MessageType::Link)) == links,
    decreases links.len(),
{
    let ms = as_messages(link_messages(links), MessageType::Link);
    if links.len() > 0 {
        let before = links.drop_last();
        assert forall|i: int| 0 <= i < before.len() implies is_legible(#[trigger] before[i])
            && link_bytes(before[i]).len() < 0x1_0000 by {
            assert(before[i] == links[i]);
        }
        lemma_all_links(before);
        assert(ms.drop_last() =~= as_messages(link_messages(before), MessageType::Link));
        let last = links[links.len() - 1];
        assert(ms.last().data == link_bytes(last));
        law_any_link_roundtrip(last);
        assert(before.push(last) =~= links);
    }
}

/// The links in the order in which they are stored: that of their index, where they
/// are stored densely.
pub open spec fn as_stored(links: Seq<LinkView>) -> Seq<LinkView> {
    if dense_links(links) {
        indexed_links(links)
    } else {
        links
    }
}

/// What is stored are the links themselves.
proof fn lemma_as_stored(links: Seq<LinkView>)
    requires
        links.len() <= usize::MAX,
    ensures
        as_stored(links).len() == links.len(),
        forall|r: int|
            0 <= r < as_stored(links).len() ==> links.contains(#[trigger] as_stored(links)[r]),
        forall|k: int| 0 <= k < links.len() ==> as_stored(links).contains(#[trigger] links[k]),
{
    let stored = as_stored(links);
    if dense_links(links) {
        let hashes = link_hashes(links);
        let order = sorted_order(hashes, links.len());
        law_records_are_sorted(hashes, links.len());
        assert forall|r: int| 0 <= r < stored.len() implies links.contains(#[trigger] stored[r]) by {
            assert(order.contains(order[r]));
            assert(stored[r] == links[order[r] as int]);
        }
        assert forall|k: int| 0 <= k < links.len() implies stored.contains(#[trigger] links[k]) by {
            assert(order.contains(k as usize));
            let r = choose|r: int| 0 <= r < order.len() && order[r] == k as usize;
            assert(stored[r] == links[k]);
        }
    }
}

/// A message that leads nowhere leads to no dense links.
proof fn lemma_no_storage(file: Seq<u8>)
    requires
        file.len() < u64::MAX,
    ensures
        dense_objects(file, info_bytes(u64::MAX, u64::MAX), 5, 4) is None,
{
    law_info_roundtrip(u64::MAX, u64::MAX);
}

/// The links of a group that stands in a file are all read back, and nothing else.
pub proof fn law_group_links_read_back(
    file: Seq<u8>,
    links: Seq<LinkView>,
    attrs: Seq<(String, AttrValue)>,
    at: u64,
)
    requires
        is_searchable(links, attrs),
        forall|i: int| 0 <= i < links.len() ==> is_legible(#[trigger] links[i]),
        group_len(links, attrs) <= isize::MAX,
        at + group_len(links, attrs) <= file.len() < u64::MAX,
        file.subrange(at as int, (at + group_len(links, attrs)) as int) == group_bytes(
            links,
            attrs,
            at as nat,
        ),
    ensures
        links_at(file, at) == Some(as_stored(links)),
{
    let links_from = (at + group_header_len(links, attrs)) as u64;
    let attrs_from = (at + group_header_len(links, attrs) + link_blob_len(links)) as u64;
    let ms = group_views(links, links_from, attrs, attrs_from);
    let ls = link_views_of(links, links_from);
    let xs = attr_views(attrs, attrs_from);
    lemma_group_found(file, links, attrs, at as nat);
    lemma_links_concat(ls, xs);
    lemma_no_links(xs);
    assert(ms[0] == ls[0]);
    assert(first_message(ms, MessageType::LinkInfo) == Some(ms[0].data));
    let info = seq![ls[0]];
    lemma_no_links(info);
    reveal(stored_messages);
    if dense_links(links) {
        assert(ls =~= info);
        lemma_few_links(links);
        lemma_as_stored(links);
        let stored = indexed_links(links);
        law_dense_links_read_back(file, links_from, links);
        assert forall|r: int| 0 <= r < stored.len() implies is_legible(#[trigger] stored[r])
            && link_bytes(stored[r]).len() < 0x1_0000 by {
            assert(links.contains(as_stored(links)[r]));
        }
        lemma_all_links(stored);
        assert(links_among(ms) + links_among(dense_links_of(file, ms)) =~= stored);
    } else {
        assert(ls =~= info + inline_views(links));
        lemma_links_concat(info, inline_views(links));
        lemma_all_links(links);
        lemma_no_storage(file);
        assert(links_among(ms) + links_among(dense_links_of(file, ms)) =~= links);
    }
}

/// The links of a group in a written file are all read back.
pub proof fn law_file_group_links_read_back(fw: &FileWriter, g: int)
    requires
        is_writable(fw),
        0 <= g < fw.groups@.len(),
        is_searchable(fw.group_links(g, fw.ds_addrs()), fw.groups@[g].attrs@),
        forall|i: int|
            0 <= i < fw.group_links(g, fw.ds_addrs()).len() ==> is_legible(
                #[trigger] fw.group_links(g, fw.ds_addrs())[i],
            ),
    ensures
        links_at(fw.image(), fw.group_addr(g) as u64) == Some(
            as_stored(fw.group_links(g, fw.ds_addrs())),
        ),
{
    let group = fw.groups@[g];
    let links = fw.group_links(g, fw.ds_addrs());
    law_group_links_lead_to_groups(fw, g);
    crate::file_writer::lemma_group_same(*fw, g);
    crate::file_writer::lemma_parts_inside(*fw);
    crate::file_laws::law_superblock_is_right(fw);
    lemma_group_bytes(links, group.attrs@, fw.group_addr(g));
    law_group_links_read_back(fw.image(), links, group.attrs@, fw.group_addr(g) as u64);
}

/// An external link of a group in a written file is among the links that are read
/// back, with its name, file and path.
pub proof fn law_file_external_link_reads_back(fw: &FileWriter, g: int, e: int)
    requires
        is_writable(fw),
        0 <= g < fw.groups@.len(),
        0 <= e < fw.groups@[g].external_links@.len(),
        is_searchable(fw.group_links(g, fw.ds_addrs()), fw.groups@[g].attrs@),
        forall|i: int|
            0 <= i < fw.group_links(g, fw.ds_addrs()).len() ==> is_legible(
                #[trigger] fw.group_links(g, fw.ds_addrs())[i],
            ),
    ensures
        links_at(fw.image(), fw.group_addr(g) as u64) is Some,
        links_at(fw.image(), fw.group_addr(g) as u64)->0.contains(
            LinkView::External {
                name: fw.groups@[g].external_links@[e].name@,
                filename: fw.groups@[g].external_links@[e].filename@,
                object_path: fw.groups@[g].external_links@[e].object_path@,
            },
        ),
{
    let links = fw.group_links(g, fw.ds_addrs());
    law_file_group_links_read_back(fw, g);
    if dense_links(links) {
        crate::file_writer::lemma_group_same(*fw, g);
        crate::file_writer::lemma_parts_inside(*fw);
        law_group_links_lead_to_groups(fw, g);
        lemma_group_bytes(links, fw.groups@[g].attrs@, fw.group_addr(g));
        lemma_group_found(fw.image(), links, fw.groups@[g].attrs@, fw.group_addr(g));
        lemma_few_links(links);
        lemma_as_stored(links);
    }
    let k = fw.groups@[g].datasets@.len() + e;
    assert(as_stored(links).contains(links[k]));
}

} // verus!
