//! Every written attribute is found by its name.

use crate::bytes::{
    from_le, le_bytes, lemma_byte_span, lemma_le64_all_len, lemma_le_len, lemma_le_roundtrip, zeros,
};
use crate::dense::{
    attr_hashes, attr_messages, comes_before, dense_attr_bytes, dense_attr_info, dense_attr_len,
    law_records_are_sorted, sorted_order,
};
use crate::dense_laws::{indexed_attrs, is_recoverable, law_dense_attrs_read_back};
use crate::dense_reader::dense_objects;
use crate::file_laws::{
    attr_views, dataset_views, is_writable, law_datatype_roundtrip, law_group_links_lead_to_groups,
    law_superblock_is_right, lemma_dense_attrs_stand, lemma_group_bytes, lemma_header_found,
    small_messages,
};
use crate::file_writer::{
    attr_blob, attr_blob_len, dense_attrs, group_bytes, group_header_len, group_len, layout_of,
    link_blob_len, oh_len, FileWriter,
};
use crate::layout::first_message;
use crate::messages::{
    attr_bytes, dataspace_bytes, AttrValue, Datatype, DatatypeInfo, LinkView, MessageType,
};
use crate::object_header::{parsed_header, MessageView, SUPERBLOCK_SIZE};
use crate::path_laws::{
    is_group_reachable, is_searchable, law_group_is_found, lemma_group_found, lemma_root_group,
    link_views_of, small_group,
};
use crate::reader::{
    as_messages, attr_named, attr_of, int_attr, int_value, object_messages, parsed_attr, resolved,
    stored_messages, AttrView,
};
use crate::tree::lemma_next_pow2;
use vstd::prelude::*;
use vstd::utf8::{encode_utf8, encode_utf8_decode_utf8};

verus! {

/// Class and size of a datatype, as a reader sees them.
pub open spec fn info_of(dt: Datatype) -> DatatypeInfo {
    DatatypeInfo {
        class: match dt {
            Datatype::FixedPoint { .. } => 0u8,
            Datatype::Float16 => 1u8,
            Datatype::Float32 => 1u8,
            Datatype::Float64 => 1u8,
            Datatype::FixedString { .. } => 3u8,
        },
        size: dt.spec_size(),
    }
}

pub(crate) proof fn lemma_type_len(dt: Datatype)
    ensures
        8 <= dt.bytes().len() <= 20,
{
    let size = dt.spec_size() as nat;
    lemma_le_len(size, 4);
    lemma_le_len(0, 2);
    lemma_le_len(8 * size, 2);
    lemma_le_len(16, 2);
    lemma_le_len(32, 2);
    lemma_le_len(64, 2);
    lemma_le_len(15, 4);
    lemma_le_len(127, 4);
    lemma_le_len(1023, 4);
}

pub(crate) proof fn lemma_space_len(value: AttrValue)
    ensures
        4 <= dataspace_bytes(value.spec_dims(), None).len() <= 12,
{
    lemma_le64_all_len(value.spec_dims());
}

/// Reading an attribute message gives back its name, its datatype and its value.
pub proof fn law_attr_roundtrip(name: Seq<char>, value: AttrValue, v3: bool)
    requires
        encode_utf8(name).len() < 0xffff,
    ensures
        parsed_attr(attr_bytes(name, value, v3)) == Some(
            AttrView {
                name: encode_utf8(name),
                info: info_of(value.spec_datatype()),
                raw: value.spec_raw(),
            },
        ),
{
    let n = encode_utf8(name) + seq![0u8];
    let dt = value.spec_datatype().bytes();
    let ds = dataspace_bytes(value.spec_dims(), None);
    let data = attr_bytes(name, value, v3);
    let at: int = if v3 {
        9
    } else {
        8
    };
    lemma_type_len(value.spec_datatype());
    lemma_space_len(value);
    lemma_byte_span();
    lemma_le_len(n.len(), 2);
    lemma_le_len(dt.len(), 2);
    lemma_le_len(ds.len(), 2);
    lemma_le_roundtrip(n.len(), 2);
    lemma_le_roundtrip(dt.len(), 2);
    lemma_le_roundtrip(ds.len(), 2);
    assert(data.subrange(2, 4) =~= le_bytes(n.len(), 2));
    assert(data.subrange(4, 6) =~= le_bytes(dt.len(), 2));
    assert(data.subrange(6, 8) =~= le_bytes(ds.len(), 2));
    assert(data.subrange(at, at + n.len() - 1) =~= encode_utf8(name));
    assert(data.subrange(at + n.len(), at + n.len() + dt.len()) =~= dt);
    assert(data.skip(at + n.len() + dt.len() + ds.len()) =~= value.spec_raw());
    law_datatype_roundtrip(value.spec_datatype());
}

proof fn lemma_no_attrs_before(ms: Seq<MessageView>, p: int, name: Seq<u8>)
    requires
        0 <= p <= ms.len(),
        forall|i: int| 0 <= i < p ==> (#[trigger] ms[i]).kind != MessageType::Attribute,
    ensures
        attr_named(ms, name) == attr_named(ms.skip(p), name),
    decreases p,
{
    if p > 0 {
        let rest = ms.skip(1);
        assert(ms[0].kind != MessageType::Attribute);
        assert forall|i: int| 0 <= i < p - 1 implies (#[trigger] rest[i]).kind
            != MessageType::Attribute by {
            assert(rest[i] == ms[i + 1]);
        }
        lemma_no_attrs_before(rest, p - 1, name);
        assert(rest.skip(p - 1) =~= ms.skip(p));
    } else {
        assert(ms.skip(0) =~= ms);
    }
}

/// Whether attribute `k` has this name, and none before it has.
pub open spec fn first_attr(attrs: Seq<(String, AttrValue)>, k: int, name: Seq<char>) -> bool {
    &&& 0 <= k < attrs.len()
    &&& attrs[k].0@ == name
    &&& forall|j: int| 0 <= j < k ==> (#[trigger] attrs[j]).0@ != name
    &&& forall|j: int| 0 <= j < attrs.len() ==> encode_utf8((#[trigger] attrs[j]).0@).len() < 0xffff
}

/// What a reader sees of an attribute.
pub open spec fn view_of(name: Seq<char>, value: AttrValue) -> AttrView {
    AttrView {
        name: encode_utf8(name),
        info: info_of(value.spec_datatype()),
        raw: value.spec_raw(),
    }
}

proof fn lemma_attr_among(
    ms: Seq<MessageView>,
    attrs: Seq<(String, AttrValue)>,
    v3: bool,
    k: int,
    name: Seq<char>,
)
    requires
        first_attr(attrs, k, name),
        ms.len() == attrs.len(),
        forall|i: int|
            0 <= i < attrs.len() ==> (#[trigger] ms[i]).kind == MessageType::Attribute && ms[i].data
                == attr_bytes(attrs[i].0@, attrs[i].1, v3),
    ensures
        attr_named(ms, encode_utf8(name)) == Some(view_of(name, attrs[k].1)),
    decreases attrs.len(),
{
    let first = attrs[0];
    assert(ms[0].data == attr_bytes(first.0@, first.1, v3));
    assert(encode_utf8(first.0@).len() < 0xffff);
    law_attr_roundtrip(first.0@, first.1, v3);
    if k > 0 {
        let rest = attrs.skip(1);
        let others = ms.skip(1);
        encode_utf8_decode_utf8(first.0@);
        encode_utf8_decode_utf8(name);
        assert(rest[k - 1] == attrs[k]);
        assert forall|j: int| 0 <= j < k - 1 implies (#[trigger] rest[j]).0@ != name by {
            assert(rest[j] == attrs[j + 1]);
        }
        assert forall|j: int| 0 <= j < rest.len() implies encode_utf8((#[trigger] rest[j]).0@).len()
            < 0xffff by {
            assert(rest[j] == attrs[j + 1]);
        }
        assert forall|i: int| 0 <= i < rest.len() implies (#[trigger] others[i]).kind
            == MessageType::Attribute && others[i].data == attr_bytes(
            rest[i].0@,
            rest[i].1,
            v3,
        ) by {
            assert(others[i] == ms[i + 1]);
        }
        lemma_attr_among(others, rest, v3, k - 1, name);
    }
}

/// Whether attributes can be found again, where they are stored densely.
pub open spec fn attrs_recoverable(attrs: Seq<(String, AttrValue)>) -> bool {
    dense_attrs(attrs) ==> is_recoverable(attr_messages(attrs, true), 40)
}

/// In the order of their index, too, the first attribute of a name comes first.
proof fn lemma_first_in_index(attrs: Seq<(String, AttrValue)>, k: int, name: Seq<char>) -> (r: int)
    requires
        first_attr(attrs, k, name),
        attrs.len() <= usize::MAX,
    ensures
        first_attr(indexed_attrs(attrs), r, name),
        indexed_attrs(attrs)[r] == attrs[k],
{
    let hashes = attr_hashes(attrs);
    let order = sorted_order(hashes, attrs.len());
    let sorted = indexed_attrs(attrs);
    law_records_are_sorted(hashes, attrs.len());
    assert(order.contains(k as usize));
    let r = choose|r: int| 0 <= r < order.len() && order[r] == k as usize;
    assert(sorted[r] == attrs[k]);
    assert forall|j: int| 0 <= j < r implies (#[trigger] sorted[j]).0@ != name by {
        let i = order[j] as int;
        assert(order.contains(order[j]));
        assert(comes_before(hashes, order[j], order[r]));
        assert(sorted[j] == attrs[i]);
        if attrs[i].0@ == name {
            assert(hashes[i] == hashes[k]);
            assert(i < k);
        }
    }
    assert forall|j: int| 0 <= j < sorted.len() implies encode_utf8((#[trigger] sorted[j]).0@).len()
        < 0xffff by {
        assert(order.contains(order[j]));
        assert(sorted[j] == attrs[order[j] as int]);
    }
    r
}

/// There are fewer attributes than bytes to store them.
proof fn lemma_few_attrs(attrs: Seq<(String, AttrValue)>)
    requires
        dense_attr_len(attrs) <= isize::MAX,
    ensures
        attrs.len() <= usize::MAX,
{
    lemma_next_pow2(10 + attrs.len() * 17);
}

/// Among dense attributes that stand in a file, one is found by its name.
proof fn lemma_dense_attr(
    file: Seq<u8>,
    attrs: Seq<(String, AttrValue)>,
    attrs_at: u64,
    k: int,
    name: Seq<char>,
)
    requires
        is_recoverable(attr_messages(attrs, true), 40),
        dense_attr_len(attrs) <= isize::MAX,
        attrs_at + dense_attr_len(attrs) <= file.len(),
        attrs_at + dense_attr_len(attrs) <= u64::MAX,
        file.subrange(attrs_at as int, (attrs_at + dense_attr_len(attrs)) as int)
            == dense_attr_bytes(attrs, attrs_at),
        first_attr(attrs, k, name),
    ensures
        ({
            let objs = dense_objects(file, dense_attr_info(attrs, attrs_at), 8, 0);
            &&& objs is Some
            &&& attr_named(as_messages(objs->0, MessageType::Attribute), encode_utf8(name)) == Some(
                view_of(name, attrs[k].1),
            )
        }),
{
    lemma_few_attrs(attrs);
    law_dense_attrs_read_back(file, attrs_at, attrs);
    let sorted = indexed_attrs(attrs);
    let r = lemma_first_in_index(attrs, k, name);
    lemma_attr_among(
        as_messages(attr_messages(sorted, true), MessageType::Attribute),
        sorted,
        true,
        r,
        name,
    );
}

proof fn lemma_first_behind(before: Seq<MessageView>, m: MessageView)
    requires
        forall|i: int| 0 <= i < before.len() ==> (#[trigger] before[i]).kind != m.kind,
    ensures
        first_message(before + seq![m], m.kind) == Some(m.data),
    decreases before.len(),
{
    let all = before + seq![m];
    if before.len() > 0 {
        let rest = before.skip(1);
        assert(before[0].kind != m.kind);
        assert forall|i: int| 0 <= i < rest.len() implies (#[trigger] rest[i]).kind != m.kind by {
            assert(rest[i] == before[i + 1]);
        }
        lemma_first_behind(rest, m);
        assert(all.skip(1) =~= rest + seq![m]);
    }
}

/// An attribute of an object whose header ends in the messages about attributes
/// is found by its name.
proof fn lemma_attr_found(
    file: Seq<u8>,
    before: Seq<MessageView>,
    attrs: Seq<(String, AttrValue)>,
    attrs_at: u64,
    k: int,
    name: Seq<char>,
)
    requires
        forall|i: int|
            0 <= i < before.len() ==> (#[trigger] before[i]).kind != MessageType::Attribute
                && before[i].kind != MessageType::AttributeInfo,
        attrs_recoverable(attrs),
        attr_blob_len(attrs) <= isize::MAX,
        attrs_at + attr_blob_len(attrs) <= file.len(),
        attrs_at + attr_blob_len(attrs) <= u64::MAX,
        file.subrange(attrs_at as int, (attrs_at + attr_blob_len(attrs)) as int) == attr_blob(
            attrs,
            attrs_at,
        ),
        first_attr(attrs, k, name),
    ensures
        attr_of(file, before + attr_views(attrs, attrs_at), encode_utf8(name)) == Some(
            view_of(name, attrs[k].1),
        ),
{
    let views = attr_views(attrs, attrs_at);
    let ms = before + views;
    let p = before.len() as int;
    assert forall|i: int| 0 <= i < p implies (#[trigger] ms[i]).kind != MessageType::Attribute by {
        assert(ms[i] == before[i]);
    }
    if dense_attrs(attrs) {
        assert(views =~= seq![views[0]]);
        assert forall|i: int| 0 <= i < ms.len() implies (#[trigger] ms[i]).kind
            != MessageType::Attribute by {
            if i < p {
                assert(ms[i] == before[i]);
            } else {
                assert(ms[i] == views[0]);
            }
        }
        lemma_no_attrs_before(ms, p + 1, encode_utf8(name));
        assert(ms.skip(p + 1) =~= Seq::empty());
        lemma_first_behind(before, views[0]);
        lemma_dense_attr(file, attrs, attrs_at, k, name);
        reveal(stored_messages);
    } else {
        lemma_no_attrs_before(ms, p, encode_utf8(name));
        assert(ms.skip(p) =~= views);
        lemma_attr_among(views, attrs, false, k, name);
    }
}

/// An attribute of a group that stands in a file is found by its name.
pub proof fn law_group_attr_is_found(
    file: Seq<u8>,
    links: Seq<LinkView>,
    attrs: Seq<(String, AttrValue)>,
    at: nat,
    k: int,
    name: Seq<char>,
)
    requires
        small_group(links, attrs),
        attrs_recoverable(attrs),
        group_len(links, attrs) <= isize::MAX,
        at + group_len(links, attrs) <= file.len(),
        at + group_len(links, attrs) <= u64::MAX,
        file.subrange(at as int, (at + group_len(links, attrs)) as int) == group_bytes(
            links,
            attrs,
            at,
        ),
        first_attr(attrs, k, name),
    ensures
        ({
            let ms = parsed_header(file, at as int);
            &&& ms is Some
            &&& attr_of(file, ms->0, encode_utf8(name)) == Some(view_of(name, attrs[k].1))
        }),
{
    let links_at = (at + group_header_len(links, attrs)) as u64;
    let attrs_at = (at + group_header_len(links, attrs) + link_blob_len(links)) as u64;
    let before = link_views_of(links, links_at);
    lemma_group_found(file, links, attrs, at);
    assert forall|i: int| 0 <= i < before.len() implies (#[trigger] before[i]).kind
        != MessageType::Attribute && before[i].kind != MessageType::AttributeInfo by {
        if i > 0 {
            assert(before[i].kind == MessageType::Link);
        }
    }
    lemma_attr_found(file, before, attrs, attrs_at, k, name);
}

/// An attribute of a dataset reads back by its name.
#[verifier::spinoff_prover]
#[verifier::rlimit(50)]
pub proof fn law_dataset_attr_is_found(fw: &FileWriter, i: int, k: int, name: Seq<char>)
    requires
        is_writable(fw),
        0 <= i < fw.all().len(),
        small_messages(fw.all()[i]),
        layout_of(fw.all()[i], fw.data_addr(i) as u64).len() < 0x1_0000,
        attrs_recoverable(fw.all()[i].attrs@),
        first_attr(fw.all()[i].attrs@, k, name),
    ensures
        ({
            let ms = parsed_header(fw.image(), fw.head_addr(i) as int);
            &&& ms is Some
            &&& attr_of(fw.image(), ms->0, encode_utf8(name)) == Some(
                view_of(name, fw.all()[i].attrs@[k].1),
            )
        }),
{
    let d = fw.all()[i];
    let layout = layout_of(d, fw.data_addr(i) as u64);
    let attrs_at = (fw.head_addr(i) + oh_len(d)) as u64;
    let ms = dataset_views(d, layout, attrs_at);
    let before = ms.take(4);
    lemma_header_found(fw, i);
    lemma_dense_attrs_stand(fw, i);
    assert(ms =~= before + attr_views(d.attrs@, attrs_at));
    lemma_attr_found(fw.image(), before, d.attrs@, attrs_at, k, name);
}

proof fn lemma_int_value(name: Seq<char>, v: i64)
    ensures
        int_value(Some(view_of(name, AttrValue::I64(v)))) == Some(v),
{
    let raw = AttrValue::I64(v).spec_raw();
    let u = crate::messages::twos_complement(v);
    lemma_byte_span();
    lemma_le_len(u, 8);
    lemma_le_roundtrip(u, 8);
    assert(raw.subrange(0, 8) =~= raw);
}

/// An integer attribute of the root group reads back.
pub proof fn law_root_int_attr_reads_back(fw: &FileWriter, k: int, name: Seq<char>, v: i64)
    requires
        is_writable(fw),
        is_searchable(fw.root_links(fw.ds_addrs(), fw.grp_addrs()), fw.root_attrs@),
        attrs_recoverable(fw.root_attrs@),
        first_attr(fw.root_attrs@, k, name),
        fw.root_attrs@[k].1 == AttrValue::I64(v),
    ensures
        int_attr(fw.image(), Seq::empty(), encode_utf8(name)) == Some(v),
{
    let links = fw.root_links(fw.ds_addrs(), fw.grp_addrs());
    law_superblock_is_right(fw);
    lemma_root_group(fw);
    law_group_attr_is_found(
        fw.image(),
        links,
        fw.root_attrs@,
        SUPERBLOCK_SIZE as nat,
        k,
        name,
    );
    assert(resolved(fw.image(), SUPERBLOCK_SIZE as u64, Seq::<u8>::empty()) == Some(
        SUPERBLOCK_SIZE as u64,
    ));
    lemma_int_value(name, v);
    reveal(int_attr);
}

/// An integer attribute of a group reads back.
pub proof fn law_group_int_attr_reads_back(
    fw: &FileWriter,
    g: int,
    k: int,
    name: Seq<char>,
    v: i64,
)
    requires
        is_writable(fw),
        0 <= g < fw.groups@.len(),
        is_group_reachable(fw, g),
        is_searchable(fw.group_links(g, fw.ds_addrs()), fw.groups@[g].attrs@),
        attrs_recoverable(fw.groups@[g].attrs@),
        first_attr(fw.groups@[g].attrs@, k, name),
        fw.groups@[g].attrs@[k].1 == AttrValue::I64(v),
    ensures
        object_messages(fw.image(), encode_utf8(fw.groups@[g].name@)) is Some,
        int_attr(fw.image(), encode_utf8(fw.groups@[g].name@), encode_utf8(name)) == Some(v),
{
    let links = fw.group_links(g, fw.ds_addrs());
    let attrs = fw.groups@[g].attrs@;
    let at = fw.group_addr(g);
    law_superblock_is_right(fw);
    law_group_is_found(fw, g);
    law_group_links_lead_to_groups(fw, g);
    crate::file_writer::lemma_group_same(*fw, g);
    crate::file_writer::lemma_parts_inside(*fw);
    lemma_group_bytes(links, attrs, at);
    law_group_attr_is_found(fw.image(), links, attrs, at, k, name);
    lemma_int_value(name, v);
    reveal(int_attr);
}

/// An attribute's value is stored as it is: numbers little-endian in eight bytes,
/// negative ones as their two's complement; text as its UTF-8 bytes, or one zero
/// where it is empty; bytes as themselves, with their number as the extent.
pub proof fn law_attr_values_are_stored(value: AttrValue)
    ensures
        match value {
            AttrValue::F64(bits) => {
                &&& value.spec_datatype() == Datatype::Float64
                &&& value.spec_dims().len() == 0
                &&& value.spec_raw().len() == 8
                &&& from_le(value.spec_raw()) == bits
            },
            AttrValue::I64(v) => {
                &&& value.spec_datatype() == (Datatype::FixedPoint { size: 8, signed: true })
                &&& value.spec_dims().len() == 0
                &&& value.spec_raw().len() == 8
                &&& v >= 0 ==> from_le(value.spec_raw()) == v
                &&& v < 0 ==> from_le(value.spec_raw()) == v + 0x1_0000_0000_0000_0000
            },
            AttrValue::String(s) => {
                &&& value.spec_dims().len() == 0
                &&& s@.len() == 0 ==> value.spec_raw() == seq![0u8] && value.spec_datatype() == (
                Datatype::FixedString { size: 1 })
                &&& encode_utf8(s@).len() > 0 ==> value.spec_raw() == encode_utf8(s@)
                &&& 0 < encode_utf8(s@).len() <= u32::MAX ==> value.spec_datatype() == (
                Datatype::FixedString { size: encode_utf8(s@).len() as u32 })
            },
            AttrValue::Bytes(b) => {
                &&& value.spec_datatype() == (Datatype::FixedPoint { size: 1, signed: false })
                &&& value.spec_dims() == seq![b@.len() as u64]
                &&& value.spec_raw() == b@
            },
        },
{
    lemma_byte_span();
    match value {
        AttrValue::F64(bits) => {
            lemma_le_len(bits as nat, 8);
            lemma_le_roundtrip(bits as nat, 8);
        },
        AttrValue::I64(v) => {
            let w: nat = if v >= 0 {
                v as nat
            } else {
                (v + 0x1_0000_0000_0000_0000) as nat
            };
            lemma_le_len(w, 8);
            lemma_le_roundtrip(w, 8);
        },
        AttrValue::String(s) => {
            if s@.len() == 0 {
                assert(encode_utf8(s@).len() == 0);
                assert(zeros(1) =~= seq![0u8]);
            }
        },
        AttrValue::Bytes(_) => {},
    }
}

/// An attribute message has a version, three lengths, the name with a closing zero,
/// the datatype, the dataspace, and the value.
pub proof fn law_attr_message_fields_stand(name: Seq<char>, value: AttrValue)
    requires
        encode_utf8(name).len() < 0xffff,
    ensures
        ({
            let data = attr_bytes(name, value, false);
            let n = encode_utf8(name).len() as int + 1;
            let t = value.spec_datatype().bytes().len() as int;
            let s = dataspace_bytes(value.spec_dims(), None).len() as int;
            &&& data.len() == 8 + n + t + s + value.spec_raw().len()
            &&& data[0] == 2
            &&& from_le(data.subrange(2, 4)) == n
            &&& from_le(data.subrange(4, 6)) == t
            &&& from_le(data.subrange(6, 8)) == s
            &&& data.subrange(8, 7 + n) == encode_utf8(name)
            &&& data[7 + n] == 0
            &&& data.subrange(8 + n, 8 + n + t) == value.spec_datatype().bytes()
            &&& data.subrange(8 + n + t, 8 + n + t + s) == dataspace_bytes(value.spec_dims(), None)
            &&& data.skip(8 + n + t + s) == value.spec_raw()
        }),
{
    let data = attr_bytes(name, value, false);
    let text = encode_utf8(name) + seq![0u8];
    let dt = value.spec_datatype().bytes();
    let ds = dataspace_bytes(value.spec_dims(), None);
    let n = text.len() as int;
    let t = dt.len() as int;
    let s = ds.len() as int;
    lemma_byte_span();
    lemma_type_len(value.spec_datatype());
    lemma_le64_all_len(value.spec_dims());
    lemma_le_len(text.len(), 2);
    lemma_le_len(dt.len(), 2);
    lemma_le_len(ds.len(), 2);
    lemma_le_roundtrip(text.len(), 2);
    lemma_le_roundtrip(dt.len(), 2);
    lemma_le_roundtrip(ds.len(), 2);
    assert(data.subrange(2, 4) =~= le_bytes(text.len(), 2));
    assert(data.subrange(4, 6) =~= le_bytes(dt.len(), 2));
    assert(data.subrange(6, 8) =~= le_bytes(ds.len(), 2));
    assert(data.subrange(8, 7 + n) =~= encode_utf8(name));
    assert(data.subrange(8 + n, 8 + n + t) =~= dt);
    assert(data.subrange(8 + n + t, 8 + n + t + s) =~= ds);
    assert(data.skip(8 + n + t + s) =~= value.spec_raw());
}

} // verus!
