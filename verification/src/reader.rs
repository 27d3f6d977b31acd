//! Finding a dataset in a file by its path, and its bytes.
//!
//! Links and attributes are looked up in headers and in dense storage; data is
//! read where it is stored in one piece, in the header, or in chunks without
//! filters.

use crate::bytes::{copy_range, from_le, lemma_byte_span, lemma_from_le_bound, read_le, same_bytes};
use crate::chunk_reader::{chunked_answer, read_chunked};
use crate::columns::{signed64, to_signed64};
use crate::dense_reader::{dense_objects, read_dense};
use crate::fractal_heap::object_views;
use crate::layout::{find_message, first_message};
use crate::messages::{
    parse_datatype, parse_dataspace, parse_layout, parsed_dataspace, parsed_datatype,
    parsed_layout, DataLayout, DatatypeInfo, MessageType,
};
use crate::object_header::{
    code_width, message_views, parsed_header, parsed_superblock, HeaderMessage, MessageView,
    ObjectHeader, Superblock,
};
use vstd::prelude::*;

verus! {

/// Why a dataset could not be read.
#[derive(Clone, Copy, PartialEq, Eq, Debug, Structural)]
pub enum ReadFault {
    /// There is no superblock.
    NoSuperblock,
    /// The path leads to nothing.
    NotFound,
    /// There is no object header where a link leads.
    NoHeader,
    NoDatatype,
    NoDataspace,
    NoDataLayout,
    /// The data is stored in a way that is not read here.
    UnsupportedLayout,
    /// The data went through filters, which are not undone here.
    UnsupportedFilter,
    /// The index over the chunks is missing or damaged.
    NoChunkIndex,
    /// The data runs past the end of the file.
    Truncated,
}

// ---------------------------------------------------------------------------
// Links
// ---------------------------------------------------------------------------

/// Whether bit `bit` (a power of two) of `flags` is set.
pub open spec fn has_bit(flags: u8, bit: u8) -> bool {
    (flags / bit) % 2 == 1
}

/// One byte where a field is present.
pub open spec fn width_if(present: bool, width: int) -> int {
    if present {
        width
    } else {
        0
    }
}

/// Name and address of a hard link, `None` if `data` is no message of one.
pub open spec fn parsed_link(data: Seq<u8>) -> Option<(Seq<u8>, u64)> {
    if data.len() < 2 || data[0] != 1 {
        None
    } else {
        let flags = data[1];
        let at = 2 + width_if(has_bit(flags, 8), 1) + width_if(has_bit(flags, 4), 8) + width_if(
            has_bit(flags, 16),
            1,
        );
        let width = code_width(flags % 4);
        if data.len() < at + width || (has_bit(flags, 8) && data[2] != 0) {
            None
        } else {
            let len = from_le(data.subrange(at, at + width));
            let start = at + width;
            if data.len() < start + len + 8 {
                None
            } else {
                Some(
                    (
                        data.subrange(start, start + len as int),
                        from_le(data.subrange(start + len as int, start + len as int + 8)) as u64,
                    ),
                )
            }
        }
    }
}

/// Reads a link message.
pub fn parse_link(data: &[u8]) -> (r: Option<(Vec<u8>, u64)>)
    ensures
        match r {
            Some(link) => parsed_link(data@) == Some((link.0@, link.1)),
            None => parsed_link(data@) is None,
        },
{
    let total: usize = data.len();
    if total < 2 || data[0] != 1 {
        return None;
    }
    let flags: u8 = data[1];
    let typed: bool = (flags / 8) % 2 == 1;
    let mut at: usize = 2;
    if typed {
        at = at + 1;
    }
    if (flags / 4) % 2 == 1 {
        at = at + 8;
    }
    if (flags / 16) % 2 == 1 {
        at = at + 1;
    }
    let code: u8 = flags % 4;
    let width: usize = if code == 0 {
        1
    } else if code == 1 {
        2
    } else if code == 2 {
        4
    } else {
        8
    };
    if total < at + width || (typed && data[2] != 0) {
        return None;
    }
    let start: usize = at + width;
    let len: u64 = read_le(data, at, width);
    if len > (total - start) as u64 || (total - start) as u64 - len < 8 {
        return None;
    }
    let end: usize = start + len as usize;
    Some((copy_range(data, start, end), read_le(data, end, 8)))
}

/// Where the first hard link of the given name leads.
pub open spec fn hard_link(ms: Seq<MessageView>, name: Seq<u8>) -> Option<u64>
    decreases ms.len(),
{
    if ms.len() == 0 {
        None
    } else {
        match parsed_link(ms[0].data) {
            Some(link) => if ms[0].kind == MessageType::Link && link.0 == name {
                Some(link.1)
            } else {
                hard_link(ms.skip(1), name)
            },
            None => hard_link(ms.skip(1), name),
        }
    }
}

fn link_among(messages: &Vec<HeaderMessage>, name: &[u8]) -> (r: Option<u64>)
    ensures
        r == hard_link(message_views(messages@), name@),
{
    let ghost views = message_views(messages@);
    let mut i: usize = 0;
    assert(views.skip(0) =~= views);
    while i < messages.len()
        invariant
            i <= messages@.len(),
            views == message_views(messages@),
            hard_link(views.skip(i as int), name@) == hard_link(views, name@),
        decreases messages@.len() - i,
    {
        assert(views.skip(i as int)[0] == messages@[i as int].spec_view());
        assert(views.skip(i as int).skip(1) =~= views.skip(i + 1));
        if messages[i].msg_type == MessageType::Link {
            match parse_link(messages[i].data.as_slice()) {
                Some(link) => {
                    if same_bytes(link.0.as_slice(), name) {
                        return Some(link.1);
                    }
                },
                None => {},
            }
        }
        i = i + 1;
    }
    None
}

/// Where the group with header `header` has an object of the given name, among
/// the links in the header.
pub fn find_link(header: &ObjectHeader, name: &[u8]) -> (r: Option<u64>)
    ensures
        r == hard_link(message_views(header.messages@), name@),
{
    link_among(&header.messages, name)
}

// ---------------------------------------------------------------------------
// Dense storage
// ---------------------------------------------------------------------------

/// Objects as messages of one type.
pub open spec fn as_messages(objs: Seq<Seq<u8>>, what: MessageType) -> Seq<MessageView> {
    Seq::new(objs.len(), |i: int| MessageView { kind: what, flags: 0, data: objs[i] })
}

/// The messages of type `what` that a header keeps in dense storage: none, if
/// no message of type `info` leads to any.
#[verifier::opaque]
pub open spec fn stored_messages(
    file: Seq<u8>,
    ms: Seq<MessageView>,
    info: MessageType,
    kind: u8,
    id_at: nat,
    what: MessageType,
) -> Seq<MessageView> {
    match first_message(ms, info) {
        None => Seq::empty(),
        Some(data) => match dense_objects(file, data, kind, id_at) {
            None => Seq::empty(),
            Some(objs) => as_messages(objs, what),
        },
    }
}

pub(crate) fn read_stored(
    file: &[u8],
    header: &ObjectHeader,
    info: MessageType,
    kind: u8,
    id_at: usize,
    what: MessageType,
) -> (r: Vec<HeaderMessage>)
    ensures
        message_views(r@) == stored_messages(
            file@,
            message_views(header.messages@),
            info,
            kind,
            id_at as nat,
            what,
        ),
{
    reveal(stored_messages);
    let mut r: Vec<HeaderMessage> = Vec::new();
    assert(message_views(r@) =~= Seq::empty());
    match find_message(&header.messages, info) {
        None => {},
        Some(m) => match read_dense(file, m.data.as_slice(), kind, id_at) {
            None => {},
            Some(objs) => {
                let mut i: usize = 0;
                while i < objs.len()
                    invariant
                        i <= objs@.len(),
                        r@.len() == i,
                        forall|j: int|
                            0 <= j < i ==> (#[trigger] r@[j]).spec_view() == (MessageView {
                                kind: what,
                                flags: 0,
                                data: objs@[j]@,
                            }),
                    decreases objs@.len() - i,
                {
                    let size: usize = objs[i].len();
                    let data: Vec<u8> = copy_range(objs[i].as_slice(), 0, size);
                    assert(data@ =~= objs@[i as int]@);
                    r.push(
                        HeaderMessage {
                            msg_type: what,
                            size,
                            flags: 0,
                            creation_order: None,
                            data,
                        },
                    );
                    i = i + 1;
                }
                assert(message_views(r@) =~= as_messages(object_views(objs@), what));
            },
        },
    }
    r
}

/// The links that a group keeps in dense storage.
pub open spec fn dense_links_of(file: Seq<u8>, ms: Seq<MessageView>) -> Seq<MessageView> {
    stored_messages(file, ms, MessageType::LinkInfo, 5, 4, MessageType::Link)
}

/// The attributes that an object keeps in dense storage.
pub open spec fn dense_attrs_of(file: Seq<u8>, ms: Seq<MessageView>) -> Seq<MessageView> {
    stored_messages(file, ms, MessageType::AttributeInfo, 8, 0, MessageType::Attribute)
}

/// Where the group with these header messages has an object of the given name.
pub open spec fn member(file: Seq<u8>, ms: Seq<MessageView>, name: Seq<u8>) -> Option<u64> {
    match hard_link(ms, name) {
        Some(a) => Some(a),
        None => hard_link(dense_links_of(file, ms), name),
    }
}

/// Where the group with header `header` has an object of the given name, among
/// the links in the header and those in dense storage.
pub fn find_member(file: &[u8], header: &ObjectHeader, name: &[u8]) -> (r: Option<u64>)
    ensures
        r == member(file@, message_views(header.messages@), name@),
{
    match find_link(header, name) {
        Some(a) => Some(a),
        None => {
            let links: Vec<HeaderMessage> = read_stored(
                file,
                header,
                MessageType::LinkInfo,
                5,
                4,
                MessageType::Link,
            );
            link_among(&links, name)
        },
    }
}

// ---------------------------------------------------------------------------
// Paths
// ---------------------------------------------------------------------------

/// Where the object of a name in the group at `at` is.
pub open spec fn child(file: Seq<u8>, at: u64, name: Seq<u8>) -> Option<u64> {
    match parsed_header(file, at as int) {
        Some(ms) => member(file, ms, name),
        None => None,
    }
}

/// Where the first slash of a path is; its length, if there is none.
pub open spec fn name_end(path: Seq<u8>) -> int
    decreases path.len(),
{
    if path.len() == 0 || path[0] == 0x2f {
        0
    } else {
        1 + name_end(path.skip(1))
    }
}

pub proof fn lemma_name_end(path: Seq<u8>)
    ensures
        0 <= name_end(path) <= path.len(),
        name_end(path) < path.len() ==> path[name_end(path)] == 0x2f,
        forall|i: int| 0 <= i < name_end(path) ==> path[i] != 0x2f,
        path.len() > 0 && path[0] != 0x2f ==> name_end(path) > 0,
    decreases path.len(),
{
    if path.len() > 0 && path[0] != 0x2f {
        lemma_name_end(path.skip(1));
        assert forall|i: int| 0 <= i < name_end(path) implies path[i] != 0x2f by {
            if i > 0 {
                assert(path[i] == path.skip(1)[i - 1]);
            }
        }
    }
}

/// Where a path leads, from the object at `at`. Names are separated by slashes.
pub open spec fn resolved(file: Seq<u8>, at: u64, path: Seq<u8>) -> Option<u64>
    decreases path.len(),
    via resolved_decreases
{
    if path.len() == 0 {
        Some(at)
    } else if path[0] == 0x2f {
        resolved(file, at, path.skip(1))
    } else {
        match child(file, at, path.take(name_end(path))) {
            Some(next) => resolved(file, next, path.skip(name_end(path))),
            None => None,
        }
    }
}

#[via_fn]
proof fn resolved_decreases(file: Seq<u8>, at: u64, path: Seq<u8>) {
    lemma_name_end(path);
}

fn name_end_from(path: &[u8], from: usize) -> (r: usize)
    requires
        from <= path@.len(),
    ensures
        r == from + name_end(path@.skip(from as int)),
        from <= r <= path@.len(),
{
    let mut i: usize = from;
    while i < path.len() && path[i] != 0x2f
        invariant
            from <= i <= path@.len(),
            from + name_end(path@.skip(from as int)) == i + name_end(path@.skip(i as int)),
        decreases path@.len() - i,
    {
        assert(path@.skip(i as int).skip(1) =~= path@.skip(i + 1));
        i = i + 1;
    }
    i
}

/// Follows a path from the group at `root`.
pub fn resolve_path(file: &[u8], root: u64, path: &[u8]) -> (r: Option<u64>)
    ensures
        r == resolved(file@, root, path@),
{
    let mut at: u64 = root;
    let mut i: usize = 0;
    assert(path@.skip(0) =~= path@);
    while i < path.len()
        invariant
            i <= path@.len(),
            resolved(file@, root, path@) == resolved(file@, at, path@.skip(i as int)),
        decreases path@.len() - i,
    {
        let ghost rest = path@.skip(i as int);
        if path[i] == 0x2f {
            assert(rest.skip(1) =~= path@.skip(i + 1));
            i = i + 1;
        } else {
            proof {
                lemma_name_end(rest);
            }
            let end: usize = name_end_from(path, i);
            let name: Vec<u8> = copy_range(path, i, end);
            assert(name@ =~= rest.take(name_end(rest)));
            assert(rest.skip(name_end(rest)) =~= path@.skip(end as int));
            let header: Option<ObjectHeader> = header_at(file, at);
            match header {
                Some(h) => match find_member(file, &h, name.as_slice()) {
                    Some(next) => {
                        at = next;
                    },
                    None => {
                        return None;
                    },
                },
                None => {
                    return None;
                },
            }
            i = end;
        }
    }
    assert(path@.skip(i as int) =~= Seq::empty());
    Some(at)
}

pub(crate) fn header_at(file: &[u8], at: u64) -> (r: Option<ObjectHeader>)
    ensures
        match r {
            Some(h) => parsed_header(file@, at as int) == Some(message_views(h.messages@)),
            None => parsed_header(file@, at as int) is None,
        },
{
    if at > file.len() as u64 {
        return None;
    }
    ObjectHeader::parse(file, at as usize)
}

/// The number of filters that a filter pipeline message lists. One that is no
/// message of version 1 or 2 counts for nothing.
pub open spec fn filter_count(data: Seq<u8>) -> u8 {
    if data.len() < 2 || (data[0] != 1 && data[0] != 2) {
        0
    } else {
        data[1]
    }
}

/// Whether chunks went through filters.
pub open spec fn has_filters(ms: Seq<MessageView>) -> bool {
    match first_message(ms, MessageType::FilterPipeline) {
        Some(data) => filter_count(data) > 0,
        None => false,
    }
}

// ---------------------------------------------------------------------------
// Data
// ---------------------------------------------------------------------------

/// The bytes of the dataset with these header messages.
#[verifier::opaque]
pub open spec fn dataset_data(file: Seq<u8>, ms: Seq<MessageView>, sb: Superblock) -> Result<
    Seq<u8>,
    ReadFault,
> {
    if first_message(ms, MessageType::Datatype) is None || parsed_datatype(
        first_message(ms, MessageType::Datatype)->0,
    ) is None {
        Err(ReadFault::NoDatatype)
    } else if first_message(ms, MessageType::Dataspace) is None || parsed_dataspace(
        first_message(ms, MessageType::Dataspace)->0,
        sb.length_size,
    ) is None {
        Err(ReadFault::NoDataspace)
    } else {
        match first_message(ms, MessageType::DataLayout) {
            None => Err(ReadFault::NoDataLayout),
            Some(data) => match parsed_layout(data, sb.offset_size, sb.length_size) {
                None => Err(ReadFault::NoDataLayout),
                Some(DataLayout::Compact { size }) => Ok(data.subrange(4, 4 + size as int)),
                Some(DataLayout::Contiguous { address, size }) => match address {
                    None => Err(ReadFault::UnsupportedLayout),
                    Some(a) => if a + size <= file.len() {
                        Ok(file.subrange(a as int, a + size))
                    } else {
                        Err(ReadFault::Truncated)
                    },
                },
                Some(DataLayout::Chunked) => if sb.offset_size != 8 {
                    Err(ReadFault::UnsupportedLayout)
                } else if has_filters(ms) {
                    Err(ReadFault::UnsupportedFilter)
                } else {
                    chunked_answer(
                        file,
                        data,
                        parsed_dataspace(
                            first_message(ms, MessageType::Dataspace)->0,
                            sb.length_size,
                        )->0,
                    )
                },
                Some(_) => Err(ReadFault::UnsupportedLayout),
            },
        }
    }
}

/// The bytes of the dataset whose header is at `at`.
#[verifier::opaque]
pub open spec fn object_data(file: Seq<u8>, at: u64, sb: Superblock) -> Result<Seq<u8>, ReadFault> {
    match parsed_header(file, at as int) {
        None => Err(ReadFault::NoHeader),
        Some(ms) => dataset_data(file, ms, sb),
    }
}

/// The bytes of the dataset that a path leads to.
pub open spec fn read_answer(file: Seq<u8>, path: Seq<u8>) -> Result<Seq<u8>, ReadFault> {
    match parsed_superblock(file) {
        None => Err(ReadFault::NoSuperblock),
        Some(sb) => match resolved(file, sb.root_group_address, path) {
            None => Err(ReadFault::NotFound),
            Some(at) => object_data(file, at, sb),
        },
    }
}

/// Reads a dataset's bytes.
pub fn read_dataset(file: &[u8], path: &str) -> (r: Result<Vec<u8>, ReadFault>)
    ensures
        match read_answer(file@, vstd::utf8::encode_utf8(path@)) {
            Ok(data) => r is Ok && r->Ok_0@ == data,
            Err(fault) => r == Err::<Vec<u8>, ReadFault>(fault),
        },
{
    let sb: Superblock = match Superblock::parse(file) {
        Some(sb) => sb,
        None => {
            return Err(ReadFault::NoSuperblock);
        },
    };
    let at: u64 = match resolve_path(file, sb.root_group_address, path.as_bytes()) {
        Some(at) => at,
        None => {
            return Err(ReadFault::NotFound);
        },
    };
    read_object(file, at, &sb)
}

fn read_object(file: &[u8], at: u64, sb: &Superblock) -> (r: Result<Vec<u8>, ReadFault>)
    ensures
        match object_data(file@, at, *sb) {
            Ok(data) => r is Ok && r->Ok_0@ == data,
            Err(fault) => r == Err::<Vec<u8>, ReadFault>(fault),
        },
{
    reveal(object_data);
    match header_at(file, at) {
        Some(header) => read_data(file, &header, sb),
        None => Err(ReadFault::NoHeader),
    }
}

fn count_filters(data: &[u8]) -> (n: u8)
    ensures
        n == filter_count(data@),
{
    if data.len() < 2 || (data[0] != 1 && data[0] != 2) {
        0
    } else {
        data[1]
    }
}

fn read_data(file: &[u8], header: &ObjectHeader, sb: &Superblock) -> (r: Result<
    Vec<u8>,
    ReadFault,
>)
    ensures
        match dataset_data(file@, message_views(header.messages@), *sb) {
            Ok(data) => r is Ok && r->Ok_0@ == data,
            Err(fault) => r == Err::<Vec<u8>, ReadFault>(fault),
        },
{
    reveal(dataset_data);
    let messages: &Vec<HeaderMessage> = &header.messages;
    match find_message(messages, MessageType::Datatype) {
        Some(m) => {
            if parse_datatype(m.data.as_slice()).is_none() {
                return Err(ReadFault::NoDatatype);
            }
        },
        None => {
            return Err(ReadFault::NoDatatype);
        },
    }
    let dims: Vec<u64> = match find_message(messages, MessageType::Dataspace) {
        Some(m) => match parse_dataspace(m.data.as_slice(), sb.length_size) {
            Some(dims) => dims,
            None => {
                return Err(ReadFault::NoDataspace);
            },
        },
        None => {
            return Err(ReadFault::NoDataspace);
        },
    };
    let message: &HeaderMessage = match find_message(messages, MessageType::DataLayout) {
        Some(m) => m,
        None => {
            return Err(ReadFault::NoDataLayout);
        },
    };
    let data: &[u8] = message.data.as_slice();
    match parse_layout(data, sb.offset_size, sb.length_size) {
        None => Err(ReadFault::NoDataLayout),
        Some(DataLayout::Compact { size }) => {
            proof {
                lemma_from_le_bound(data@.subrange(2, 4));
                lemma_byte_span();
            }
            Ok(copy_range(data, 4, 4 + size as usize))
        },
        Some(DataLayout::Contiguous { address, size }) => match address {
            None => Err(ReadFault::UnsupportedLayout),
            Some(a) => {
                let total: u64 = file.len() as u64;
                if a > total || size > total - a {
                    return Err(ReadFault::Truncated);
                }
                Ok(copy_range(file, a as usize, (a + size) as usize))
            },
        },
        Some(DataLayout::Chunked) => {
            if sb.offset_size != 8 {
                return Err(ReadFault::UnsupportedLayout);
            }
            match find_message(messages, MessageType::FilterPipeline) {
                Some(m) => {
                    if count_filters(m.data.as_slice()) > 0 {
                        return Err(ReadFault::UnsupportedFilter);
                    }
                },
                None => {},
            }
            read_chunked(file, data, &dims)
        },
        Some(_) => Err(ReadFault::UnsupportedLayout),
    }
}

// ---------------------------------------------------------------------------
// Types
// ---------------------------------------------------------------------------

/// The header messages of the object that a path leads to.
pub open spec fn object_messages(file: Seq<u8>, path: Seq<u8>) -> Option<Seq<MessageView>> {
    match parsed_superblock(file) {
        None => None,
        Some(sb) => match resolved(file, sb.root_group_address, path) {
            None => None,
            Some(at) => parsed_header(file, at as int),
        },
    }
}

fn object_header(file: &[u8], path: &str) -> (r: Option<ObjectHeader>)
    ensures
        match r {
            Some(h) => object_messages(file@, vstd::utf8::encode_utf8(path@)) == Some(
                message_views(h.messages@),
            ),
            None => object_messages(file@, vstd::utf8::encode_utf8(path@)) is None,
        },
{
    let sb: Superblock = match Superblock::parse(file) {
        Some(sb) => sb,
        None => {
            return None;
        },
    };
    match resolve_path(file, sb.root_group_address, path.as_bytes()) {
        Some(at) => header_at(file, at),
        None => None,
    }
}

/// Whether a path leads to an object.
pub fn has_object(file: &[u8], path: &str) -> (r: bool)
    ensures
        r == object_messages(file@, vstd::utf8::encode_utf8(path@)) is Some,
{
    object_header(file, path).is_some()
}

/// The datatype of the dataset that a path leads to.
#[verifier::opaque]
pub open spec fn type_answer(file: Seq<u8>, path: Seq<u8>) -> Option<DatatypeInfo> {
    match object_messages(file, path) {
        None => None,
        Some(ms) => match first_message(ms, MessageType::Datatype) {
            None => None,
            Some(data) => parsed_datatype(data),
        },
    }
}

/// Reads a dataset's datatype.
pub fn read_type(file: &[u8], path: &str) -> (r: Option<DatatypeInfo>)
    ensures
        r == type_answer(file@, vstd::utf8::encode_utf8(path@)),
{
    reveal(type_answer);
    match object_header(file, path) {
        Some(h) => match find_message(&h.messages, MessageType::Datatype) {
            Some(m) => parse_datatype(m.data.as_slice()),
            None => None,
        },
        None => None,
    }
}

// ---------------------------------------------------------------------------
// Attributes
// ---------------------------------------------------------------------------

/// What an attribute message says.
pub struct AttrView {
    pub name: Seq<u8>,
    pub info: DatatypeInfo,
    pub raw: Seq<u8>,
}

/// An attribute: its name, its datatype and its value as it is stored.
#[derive(Debug, PartialEq, Eq)]
pub struct AttrData {
    pub name: Vec<u8>,
    pub info: DatatypeInfo,
    pub raw: Vec<u8>,
}

impl View for AttrData {
    type V = AttrView;

    open spec fn view(&self) -> AttrView {
        AttrView { name: self.name@, info: self.info, raw: self.raw@ }
    }
}

/// What `data` says as an attribute message of version 2 or 3, `None` if it is
/// not one.
pub open spec fn parsed_attr(data: Seq<u8>) -> Option<AttrView> {
    if data.len() < 9 || (data[0] != 2 && data[0] != 3) {
        None
    } else {
        let at: int = if data[0] == 3 {
            9
        } else {
            8
        };
        let name_len = from_le(data.subrange(2, 4)) as int;
        let type_len = from_le(data.subrange(4, 6)) as int;
        let space_len = from_le(data.subrange(6, 8)) as int;
        let type_at = at + name_len;
        let raw_at = type_at + type_len + space_len;
        if name_len == 0 || raw_at > data.len() {
            None
        } else {
            match parsed_datatype(data.subrange(type_at, type_at + type_len)) {
                None => None,
                Some(info) => Some(
                    AttrView {
                        name: data.subrange(at, at + name_len - 1),
                        info,
                        raw: data.skip(raw_at),
                    },
                ),
            }
        }
    }
}

/// Reads an attribute message.
pub fn parse_attr(data: &[u8]) -> (r: Option<AttrData>)
    ensures
        match r {
            Some(a) => parsed_attr(data@) == Some(a@),
            None => parsed_attr(data@) is None,
        },
{
    let total: usize = data.len();
    if total < 9 || (data[0] != 2 && data[0] != 3) {
        return None;
    }
    let at: usize = if data[0] == 3 {
        9
    } else {
        8
    };
    proof {
        lemma_from_le_bound(data@.subrange(2, 4));
        lemma_from_le_bound(data@.subrange(4, 6));
        lemma_from_le_bound(data@.subrange(6, 8));
        lemma_byte_span();
    }
    let name_len: usize = read_le(data, 2, 2) as usize;
    let type_len: usize = read_le(data, 4, 2) as usize;
    let space_len: usize = read_le(data, 6, 2) as usize;
    let type_at: usize = at + name_len;
    let raw_at: usize = type_at + type_len + space_len;
    if name_len == 0 || raw_at > total {
        return None;
    }
    let datatype: Vec<u8> = copy_range(data, type_at, type_at + type_len);
    match parse_datatype(datatype.as_slice()) {
        Some(info) => {
            let name: Vec<u8> = copy_range(data, at, at + name_len - 1);
            let raw: Vec<u8> = copy_range(data, raw_at, total);
            assert(raw@ =~= data@.skip(raw_at as int));
            Some(AttrData { name, info, raw })
        },
        None => None,
    }
}

/// The first attribute of a name.
pub open spec fn attr_named(ms: Seq<MessageView>, name: Seq<u8>) -> Option<AttrView>
    decreases ms.len(),
{
    if ms.len() == 0 {
        None
    } else {
        match parsed_attr(ms[0].data) {
            Some(a) => if ms[0].kind == MessageType::Attribute && a.name == name {
                Some(a)
            } else {
                attr_named(ms.skip(1), name)
            },
            None => attr_named(ms.skip(1), name),
        }
    }
}

fn attr_among(messages: &Vec<HeaderMessage>, name: &[u8]) -> (r: Option<AttrData>)
    ensures
        match r {
            Some(a) => attr_named(message_views(messages@), name@) == Some(a@),
            None => attr_named(message_views(messages@), name@) is None,
        },
{
    let ghost views = message_views(messages@);
    let mut i: usize = 0;
    assert(views.skip(0) =~= views);
    while i < messages.len()
        invariant
            i <= messages@.len(),
            views == message_views(messages@),
            attr_named(views.skip(i as int), name@) == attr_named(views, name@),
        decreases messages@.len() - i,
    {
        assert(views.skip(i as int)[0] == messages@[i as int].spec_view());
        assert(views.skip(i as int).skip(1) =~= views.skip(i + 1));
        if messages[i].msg_type == MessageType::Attribute {
            match parse_attr(messages[i].data.as_slice()) {
                Some(a) => {
                    if same_bytes(a.name.as_slice(), name) {
                        return Some(a);
                    }
                },
                None => {},
            }
        }
        i = i + 1;
    }
    None
}

/// Finds an attribute by its name, among those in the header.
pub fn find_attr(header: &ObjectHeader, name: &[u8]) -> (r: Option<AttrData>)
    ensures
        match r {
            Some(a) => attr_named(message_views(header.messages@), name@) == Some(a@),
            None => attr_named(message_views(header.messages@), name@) is None,
        },
{
    attr_among(&header.messages, name)
}

/// The attribute of a name of the object with these header messages.
pub open spec fn attr_of(file: Seq<u8>, ms: Seq<MessageView>, name: Seq<u8>) -> Option<AttrView> {
    match attr_named(ms, name) {
        Some(a) => Some(a),
        None => attr_named(dense_attrs_of(file, ms), name),
    }
}

/// Finds an attribute by its name, among those in the header and those in dense
/// storage.
pub fn read_attr(file: &[u8], header: &ObjectHeader, name: &[u8]) -> (r: Option<AttrData>)
    ensures
        match r {
            Some(a) => attr_of(file@, message_views(header.messages@), name@) == Some(a@),
            None => attr_of(file@, message_views(header.messages@), name@) is None,
        },
{
    match find_attr(header, name) {
        Some(a) => Some(a),
        None => {
            let attrs: Vec<HeaderMessage> = read_stored(
                file,
                header,
                MessageType::AttributeInfo,
                8,
                0,
                MessageType::Attribute,
            );
            attr_among(&attrs, name)
        },
    }
}

/// The value of an integer attribute: `None` if there is no attribute of the
/// name, or it is not an integer of eight bytes.
pub open spec fn int_value(a: Option<AttrView>) -> Option<i64> {
    match a {
        Some(v) => if v.info.class == 0 && v.info.size == 8 && v.raw.len() >= 8 {
            Some(signed64(from_le(v.raw.subrange(0, 8)) as u64))
        } else {
            None
        },
        None => None,
    }
}

/// The value of an integer attribute of the object that a path leads to.
#[verifier::opaque]
pub open spec fn int_attr(file: Seq<u8>, path: Seq<u8>, name: Seq<u8>) -> Option<i64> {
    match object_messages(file, path) {
        Some(ms) => int_value(attr_of(file, ms, name)),
        None => None,
    }
}

/// Reads an integer attribute.
pub fn read_int_attr(file: &[u8], path: &str, name: &str) -> (r: Option<i64>)
    ensures
        r == int_attr(
            file@,
            vstd::utf8::encode_utf8(path@),
            vstd::utf8::encode_utf8(name@),
        ),
{
    reveal(int_attr);
    match object_header(file, path) {
        Some(h) => match read_attr(file, &h, name.as_bytes()) {
            Some(a) => {
                if a.info.class == 0 && a.info.size == 8 && a.raw.len() >= 8 {
                    Some(to_signed64(read_le(a.raw.as_slice(), 0, 8)))
                } else {
                    None
                }
            },
            None => None,
        },
        None => None,
    }
}

} // verus!
