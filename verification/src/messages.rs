//! Object header messages: their contents as bytes, and reading those back.

use crate::bytes::{
    extend, from_le, le64_all, le_bytes, push1, push2, push4, push_le, push_le64_all, push_zeros,
    read_le, zeros,
};
use vstd::prelude::*;
use vstd::utf8::encode_utf8;

verus! {

// ---------------------------------------------------------------------------
// Message types
// ---------------------------------------------------------------------------

/// The type of a header message.
#[derive(Clone, Copy, PartialEq, Eq, Debug, Structural)]
pub enum MessageType {
    Dataspace,
    LinkInfo,
    Datatype,
    FillValue,
    Link,
    DataLayout,
    FilterPipeline,
    Attribute,
    AttributeInfo,
    /// Any other type.
    Unknown(u16),
}

/// Type of the External Data Files message.
pub const EXTERNAL_DATA_FILES_MSG_TYPE: u16 = 0x0007;

impl MessageType {
    pub open spec fn spec_id(self) -> u16 {
        match self {
            MessageType::Dataspace => 0x01,
            MessageType::LinkInfo => 0x02,
            MessageType::Datatype => 0x03,
            MessageType::FillValue => 0x05,
            MessageType::Link => 0x06,
            MessageType::DataLayout => 0x08,
            MessageType::FilterPipeline => 0x0b,
            MessageType::Attribute => 0x0c,
            MessageType::AttributeInfo => 0x15,
            MessageType::Unknown(id) => id,
        }
    }

    pub open spec fn spec_from_id(id: u16) -> MessageType {
        if id == 0x01 {
            MessageType::Dataspace
        } else if id == 0x02 {
            MessageType::LinkInfo
        } else if id == 0x03 {
            MessageType::Datatype
        } else if id == 0x05 {
            MessageType::FillValue
        } else if id == 0x06 {
            MessageType::Link
        } else if id == 0x08 {
            MessageType::DataLayout
        } else if id == 0x0b {
            MessageType::FilterPipeline
        } else if id == 0x0c {
            MessageType::Attribute
        } else if id == 0x15 {
            MessageType::AttributeInfo
        } else {
            MessageType::Unknown(id)
        }
    }

    /// The number the file stores.
    pub fn id(self) -> (r: u16)
        ensures
            r == self.spec_id(),
    {
        match self {
            MessageType::Dataspace => 0x01,
            MessageType::LinkInfo => 0x02,
            MessageType::Datatype => 0x03,
            MessageType::FillValue => 0x05,
            MessageType::Link => 0x06,
            MessageType::DataLayout => 0x08,
            MessageType::FilterPipeline => 0x0b,
            MessageType::Attribute => 0x0c,
            MessageType::AttributeInfo => 0x15,
            MessageType::Unknown(id) => id,
        }
    }

    /// The type with number `id`.
    pub fn from_id(id: u16) -> (r: MessageType)
        ensures
            r == MessageType::spec_from_id(id),
            r.spec_id() == id,
    {
        match id {
            0x01 => MessageType::Dataspace,
            0x02 => MessageType::LinkInfo,
            0x03 => MessageType::Datatype,
            0x05 => MessageType::FillValue,
            0x06 => MessageType::Link,
            0x08 => MessageType::DataLayout,
            0x0b => MessageType::FilterPipeline,
            0x0c => MessageType::Attribute,
            0x15 => MessageType::AttributeInfo,
            _ => MessageType::Unknown(id),
        }
    }
}

// ---------------------------------------------------------------------------
// Datatypes
// ---------------------------------------------------------------------------

/// The datatypes that are written. All numbers are little-endian.
#[derive(Clone, Copy, PartialEq, Eq, Debug, Structural)]
pub enum Datatype {
    /// An integer of `size` bytes.
    FixedPoint { size: u32, signed: bool },
    /// An IEEE 754 number of 16 bits.
    Float16,
    /// An IEEE 754 number of 32 bits.
    Float32,
    /// An IEEE 754 number of 64 bits.
    Float64,
    /// Text of `size` bytes, padded with zeros.
    FixedString { size: u32 },
}

/// The 64-bit IEEE 754 datatype.
pub fn make_f64_type() -> (r: Datatype)
    ensures
        r == Datatype::Float64,
{
    Datatype::Float64
}

impl Datatype {
    pub open spec fn spec_size(self) -> u32 {
        match self {
            Datatype::FixedPoint { size, .. } => size,
            Datatype::Float16 => 2,
            Datatype::Float32 => 4,
            Datatype::Float64 => 8,
            Datatype::FixedString { size } => size,
        }
    }

    /// Bytes of an element.
    pub fn type_size(&self) -> (r: u32)
        ensures
            r == self.spec_size(),
    {
        match self {
            Datatype::FixedPoint { size, .. } => *size,
            Datatype::Float16 => 2,
            Datatype::Float32 => 4,
            Datatype::Float64 => 8,
            Datatype::FixedString { size } => *size,
        }
    }

    /// The message contents: version and class, class bits, size, properties.
    pub open spec fn bytes(self) -> Seq<u8> {
        match self {
            Datatype::FixedPoint { size, signed } => seq![
                0x10u8,
                if signed {
                    0x08u8
                } else {
                    0x00u8
                },
                0u8,
                0u8,
            ] + le_bytes(size as nat, 4) + le_bytes(0, 2) + le_bytes(8 * size as nat, 2),
            Datatype::Float16 => seq![0x11u8, 0x20, 15, 0] + le_bytes(2, 4) + le_bytes(0, 2)
                + le_bytes(16, 2) + seq![10u8, 5, 0, 10] + le_bytes(15, 4),
            Datatype::Float32 => seq![0x11u8, 0x20, 31, 0] + le_bytes(4, 4) + le_bytes(0, 2)
                + le_bytes(32, 2) + seq![23u8, 8, 0, 23] + le_bytes(127, 4),
            Datatype::Float64 => seq![0x11u8, 0x20, 63, 0] + le_bytes(8, 4) + le_bytes(0, 2)
                + le_bytes(64, 2) + seq![52u8, 11, 0, 52] + le_bytes(1023, 4),
            Datatype::FixedString { size } => seq![0x13u8, 0x01, 0, 0] + le_bytes(size as nat, 4),
        }
    }

    /// Writes the message contents.
    pub fn serialize(&self) -> (r: Vec<u8>)
        ensures
            r@ == self.bytes(),
    {
        let mut buf: Vec<u8> = Vec::new();
        match self {
            Datatype::FixedPoint { size, signed } => {
                push4(
                    &mut buf,
                    0x10,
                    if *signed {
                        0x08
                    } else {
                        0x00
                    },
                    0,
                    0,
                );
                push_le(&mut buf, *size as u64, 4);
                push_le(&mut buf, 0, 2);
                push_le(&mut buf, 8 * (*size as u64), 2);
            },
            Datatype::Float16 => {
                push4(&mut buf, 0x11, 0x20, 15, 0);
                push_le(&mut buf, 2, 4);
                push_le(&mut buf, 0, 2);
                push_le(&mut buf, 16, 2);
                push4(&mut buf, 10, 5, 0, 10);
                push_le(&mut buf, 15, 4);
            },
            Datatype::Float32 => {
                push4(&mut buf, 0x11, 0x20, 31, 0);
                push_le(&mut buf, 4, 4);
                push_le(&mut buf, 0, 2);
                push_le(&mut buf, 32, 2);
                push4(&mut buf, 23, 8, 0, 23);
                push_le(&mut buf, 127, 4);
            },
            Datatype::Float64 => {
                push4(&mut buf, 0x11, 0x20, 63, 0);
                push_le(&mut buf, 8, 4);
                push_le(&mut buf, 0, 2);
                push_le(&mut buf, 64, 2);
                push4(&mut buf, 52, 11, 0, 52);
                push_le(&mut buf, 1023, 4);
            },
            Datatype::FixedString { size } => {
                push4(&mut buf, 0x13, 0x01, 0, 0);
                push_le(&mut buf, *size as u64, 4);
            },
        }
        assert(buf@ =~= self.bytes());
        buf
    }
}

/// Class of a variable-length datatype.
pub const CLASS_VARIABLE_LENGTH: u8 = 9;

/// Class of a reference datatype.
pub const CLASS_REFERENCE: u8 = 7;

/// What a datatype message says of any datatype.
#[derive(Clone, Copy, PartialEq, Eq, Debug, Structural)]
pub struct DatatypeInfo {
    /// The datatype class.
    pub class: u8,
    /// Bytes of an element.
    pub size: u32,
}

/// Bytes that a datatype message of a class has at least.
pub open spec fn datatype_min_len(class: u8) -> int {
    if class == 0 || class == 4 {
        12
    } else if class == 1 {
        20
    } else if class == 2 {
        10
    } else if class == 8 || class == CLASS_VARIABLE_LENGTH {
        16
    } else if class == 10 {
        17
    } else {
        8
    }
}

/// What `data` says as a datatype message, `None` if it is not one.
pub open spec fn parsed_datatype(data: Seq<u8>) -> Option<DatatypeInfo> {
    if data.len() < 8 {
        None
    } else {
        let class = data[0] % 16;
        let version = data[0] / 16;
        if !(1 <= version <= 4) || class > 10 || data.len() < datatype_min_len(class) {
            None
        } else {
            Some(DatatypeInfo { class, size: from_le(data.subrange(4, 8)) as u32 })
        }
    }
}

/// Reads class and size out of a datatype message.
pub fn parse_datatype(data: &[u8]) -> (r: Option<DatatypeInfo>)
    ensures
        r == parsed_datatype(data@),
{
    if data.len() < 8 {
        return None;
    }
    let class: u8 = data[0] % 16;
    let version: u8 = data[0] / 16;
    let min_len: usize = match class {
        0 | 4 => 12,
        1 => 20,
        2 => 10,
        8 | 9 => 16,
        10 => 17,
        _ => 8,
    };
    if version < 1 || version > 4 || class > 10 || data.len() < min_len {
        return None;
    }
    proof {
        crate::bytes::lemma_from_le_bound(data@.subrange(4, 8));
        crate::bytes::lemma_byte_span();
    }
    Some(DatatypeInfo { class, size: read_le(data, 4, 4) as u32 })
}

// ---------------------------------------------------------------------------
// Dataspaces
// ---------------------------------------------------------------------------

/// The dataspace message of a simple or scalar extent.
pub open spec fn dataspace_bytes(dims: Seq<u64>, max_dims: Option<Seq<u64>>) -> Seq<u8> {
    let head = seq![
        2u8,
        (dims.len() % 256) as u8,
        if max_dims is Some {
            1u8
        } else {
            0u8
        },
        if dims.len() == 0 {
            0u8
        } else {
            1u8
        },
    ];
    match max_dims {
        Some(m) => head + le64_all(dims) + le64_all(m),
        None => head + le64_all(dims),
    }
}

/// The contents of an optional list.
pub open spec fn opt_view(v: Option<Vec<u64>>) -> Option<Seq<u64>> {
    match v {
        Some(x) => Some(x@),
        None => None,
    }
}

/// Writes a dataspace message.
pub fn write_dataspace(dims: &[u64], max_dims: &Option<Vec<u64>>) -> (r: Vec<u8>)
    ensures
        r@ == dataspace_bytes(dims@, opt_view(*max_dims)),
{
    let mut buf: Vec<u8> = Vec::new();
    let rank: u8 = (dims.len() % 256) as u8;
    let kind: u8 = if dims.len() == 0 {
        0
    } else {
        1
    };
    match max_dims {
        Some(m) => {
            push4(&mut buf, 2, rank, 1, kind);
            push_le64_all(&mut buf, dims);
            push_le64_all(&mut buf, m.as_slice());
        },
        None => {
            push4(&mut buf, 2, rank, 0, kind);
            push_le64_all(&mut buf, dims);
        },
    }
    assert(buf@ =~= dataspace_bytes(dims@, opt_view(*max_dims)));
    buf
}

/// `count` numbers of `width` bytes each, from `at` on.
pub open spec fn numbers_at(data: Seq<u8>, at: int, width: int, count: int) -> Seq<u64>
    decreases count,
{
    if count <= 0 {
        Seq::empty()
    } else {
        numbers_at(data, at, width, count - 1).push(
            from_le(data.subrange(at + width * (count - 1), at + width * count)) as u64,
        )
    }
}

/// Whether a number size is one the format has.
pub open spec fn known_width(width: u8) -> bool {
    width == 2 || width == 4 || width == 8
}

/// The extent that `data` gives as a dataspace message, `None` if it is not one.
pub open spec fn parsed_dataspace(data: Seq<u8>, length_size: u8) -> Option<Seq<u64>> {
    if data.len() < 4 || !known_width(length_size) {
        None
    } else {
        let at: int = if data[0] == 1 {
            8
        } else {
            4
        };
        let rank = data[1] as int;
        let lists: int = if data[2] % 2 == 1 {
            2
        } else {
            1
        };
        if (data[0] != 1 && data[0] != 2) || data.len() < at + lists * rank * length_size {
            None
        } else {
            Some(numbers_at(data, at, length_size as int, rank))
        }
    }
}

/// Reads the extent out of a dataspace message.
pub fn parse_dataspace(data: &[u8], length_size: u8) -> (r: Option<Vec<u64>>)
    ensures
        opt_view(r) == parsed_dataspace(data@, length_size),
{
    if data.len() < 4 || !(length_size == 2 || length_size == 4 || length_size == 8) {
        return None;
    }
    let at: usize = if data[0] == 1 {
        8
    } else {
        4
    };
    let rank: usize = data[1] as usize;
    let lists: usize = if data[2] % 2 == 1 {
        2
    } else {
        1
    };
    let width: usize = length_size as usize;
    assert(0 <= lists * rank <= 510) by (nonlinear_arith)
        requires
            1 <= lists <= 2,
            0 <= rank <= 255,
    ;
    assert(0 <= lists * rank * width <= 510 * 8) by (nonlinear_arith)
        requires
            0 <= lists * rank <= 510,
            0 <= width <= 8,
    ;
    if (data[0] != 1 && data[0] != 2) || data.len() < at + lists * rank * width {
        return None;
    }
    assert(rank * width <= lists * rank * width) by (nonlinear_arith)
        requires
            1 <= lists,
            0 <= rank,
            0 <= width,
    ;
    let mut dims: Vec<u64> = Vec::with_capacity(rank);
    let mut i: usize = 0;
    while i < rank
        invariant
            i <= rank <= 255,
            2 <= width <= 8,
            at <= 8,
            at + rank * width <= data@.len(),
            dims@ == numbers_at(data@, at as int, width as int, i as int),
        decreases rank - i,
    {
        assert(0 <= width * i && width * (i + 1) == width * i + width && width * (i + 1) <= rank
            * width && width * i <= 8 * 255) by (nonlinear_arith)
            requires
                0 <= i < rank <= 255,
                2 <= width <= 8,
        ;
        proof {
            crate::bytes::lemma_from_le_bound(
                data@.subrange(at + width * i, at + width * (i + 1)),
            );
            crate::bytes::lemma_byte_span();
        }
        dims.push(read_le(data, at + width * i, width));
        i = i + 1;
    }
    Some(dims)
}

// ---------------------------------------------------------------------------
// Attributes
// ---------------------------------------------------------------------------

/// An attribute's value.
#[derive(Debug, Clone, PartialEq, Eq)]
pub enum AttrValue {
    /// A 64-bit IEEE 754 number, given by its bits.
    F64(u64),
    /// A signed integer.
    I64(i64),
    /// Text.
    String(String),
    /// Bytes.
    Bytes(Vec<u8>),
}

impl AttrValue {
    pub open spec fn spec_datatype(self) -> Datatype {
        match self {
            AttrValue::F64(_) => Datatype::Float64,
            AttrValue::I64(_) => Datatype::FixedPoint { size: 8, signed: true },
            AttrValue::String(s) => Datatype::FixedString {
                size: if encode_utf8(s@).len() == 0 {
                    1
                } else {
                    (encode_utf8(s@).len() % 0x1_0000_0000) as u32
                },
            },
            AttrValue::Bytes(_) => Datatype::FixedPoint { size: 1, signed: false },
        }
    }

    /// The extent: bytes are an array, the rest scalars.
    pub open spec fn spec_dims(self) -> Seq<u64> {
        match self {
            AttrValue::Bytes(b) => seq![b@.len() as u64],
            _ => Seq::empty(),
        }
    }

    /// The stored value.
    pub open spec fn spec_raw(self) -> Seq<u8> {
        match self {
            AttrValue::F64(bits) => le_bytes(bits as nat, 8),
            AttrValue::I64(v) => le_bytes(twos_complement(v), 8),
            AttrValue::String(s) => if encode_utf8(s@).len() == 0 {
                zeros(1)
            } else {
                encode_utf8(s@)
            },
            AttrValue::Bytes(b) => b@,
        }
    }
}

/// The unsigned number with the same 64 bits.
pub open spec fn twos_complement(v: i64) -> nat {
    if v >= 0 {
        v as nat
    } else {
        (v + 0x1_0000_0000_0000_0000) as nat
    }
}

pub(crate) fn to_unsigned(v: i64) -> (r: u64)
    ensures
        r == twos_complement(v),
{
    if v >= 0 {
        v as u64
    } else {
        let below: u64 = (-(v + 1)) as u64;
        0xffff_ffff_ffff_ffff - below
    }
}

/// The attribute message of version 2, or 3 where a character set is stated.
pub open spec fn attr_bytes(name: Seq<char>, value: AttrValue, v3: bool) -> Seq<u8> {
    let n = encode_utf8(name) + seq![0u8];
    let dt = value.spec_datatype().bytes();
    let ds = dataspace_bytes(value.spec_dims(), None);
    let head = seq![
        if v3 {
            3u8
        } else {
            2u8
        },
        0u8,
    ] + le_bytes(n.len(), 2) + le_bytes(dt.len(), 2) + le_bytes(ds.len(), 2);
    let fields = if v3 {
        head + seq![0u8]
    } else {
        head
    };
    fields + n + dt + ds + value.spec_raw()
}

/// Writes an attribute message.
pub fn write_attr(name: &str, value: &AttrValue, v3: bool) -> (r: Vec<u8>)
    ensures
        r@ == attr_bytes(name@, *value, v3),
{
    let mut n: Vec<u8> = Vec::new();
    extend(&mut n, name.as_bytes());
    push1(&mut n, 0);
    assert(n@ =~= encode_utf8(name@) + seq![0u8]);
    let mut raw: Vec<u8> = Vec::new();
    let mut dims: Vec<u64> = Vec::new();
    let datatype: Datatype = match value {
        AttrValue::F64(bits) => {
            push_le(&mut raw, *bits, 8);
            Datatype::Float64
        },
        AttrValue::I64(v) => {
            push_le(&mut raw, to_unsigned(*v), 8);
            Datatype::FixedPoint { size: 8, signed: true }
        },
        AttrValue::String(s) => {
            let text: &[u8] = s.as_str().as_bytes();
            if text.len() == 0 {
                push_zeros(&mut raw, 1);
                Datatype::FixedString { size: 1 }
            } else {
                extend(&mut raw, text);
                Datatype::FixedString { size: ((text.len() as u64) % 0x1_0000_0000) as u32 }
            }
        },
        AttrValue::Bytes(b) => {
            extend(&mut raw, b.as_slice());
            dims.push(b.len() as u64);
            Datatype::FixedPoint { size: 1, signed: false }
        },
    };
    assert(raw@ =~= value.spec_raw());
    assert(dims@ =~= value.spec_dims());
    let dt: Vec<u8> = datatype.serialize();
    let ds: Vec<u8> = write_dataspace(dims.as_slice(), &None);
    let mut buf: Vec<u8> = Vec::new();
    push2(
        &mut buf,
        if v3 {
            3
        } else {
            2
        },
        0,
    );
    push_le(&mut buf, n.len() as u64, 2);
    push_le(&mut buf, dt.len() as u64, 2);
    push_le(&mut buf, ds.len() as u64, 2);
    if v3 {
        push1(&mut buf, 0);
    }
    extend(&mut buf, n.as_slice());
    extend(&mut buf, dt.as_slice());
    extend(&mut buf, ds.as_slice());
    extend(&mut buf, raw.as_slice());
    assert(buf@ =~= attr_bytes(name@, *value, v3));
    buf
}

// ---------------------------------------------------------------------------
// Links
// ---------------------------------------------------------------------------

/// Where a link leads.
#[derive(Debug, PartialEq, Eq)]
pub enum LinkTarget {
    /// An object header in this file.
    Hard { object_header_address: u64 },
    /// An object of another file.
    External { filename: String, object_path: String },
}

/// A link of a group.
#[derive(Debug, PartialEq, Eq)]
pub struct LinkMessage {
    pub name: String,
    pub link_target: LinkTarget,
}

/// What a link says.
pub enum LinkView {
    Hard { name: Seq<char>, address: u64 },
    External { name: Seq<char>, filename: Seq<char>, object_path: Seq<char> },
}

impl LinkView {
    pub open spec fn name(self) -> Seq<char> {
        match self {
            LinkView::Hard { name, .. } => name,
            LinkView::External { name, .. } => name,
        }
    }

    /// The same link with another address.
    pub open spec fn readdressed(self, to: u64) -> LinkView {
        match self {
            LinkView::Hard { name, .. } => LinkView::Hard { name, address: to },
            LinkView::External { .. } => self,
        }
    }
}

impl View for LinkMessage {
    type V = LinkView;

    open spec fn view(&self) -> LinkView {
        match self.link_target {
            LinkTarget::Hard { object_header_address } => LinkView::Hard {
                name: self.name@,
                address: object_header_address,
            },
            LinkTarget::External { filename, object_path } => LinkView::External {
                name: self.name@,
                filename: filename@,
                object_path: object_path@,
            },
        }
    }
}

/// The contents of a list of links.
pub open spec fn link_views(links: Seq<LinkMessage>) -> Seq<LinkView> {
    Seq::new(links.len(), |i: int| links[i]@)
}

/// Which of the widths 1, 2 and 4 a name length takes: 0, 1 or 2.
pub open spec fn width_code(len: nat) -> u8 {
    if len < 0x100 {
        0
    } else if len < 0x1_0000 {
        1
    } else {
        2
    }
}

/// The width in bytes.
pub open spec fn width_of(len: nat) -> nat {
    if len < 0x100 {
        1
    } else if len < 0x1_0000 {
        2
    } else {
        4
    }
}

/// The link message of version 1, without creation order and character set.
pub open spec fn link_bytes(link: LinkView) -> Seq<u8> {
    let n = encode_utf8(link.name());
    match link {
        LinkView::Hard { address, .. } => seq![1u8, width_code(n.len())] + le_bytes(
            n.len(),
            width_of(n.len()),
        ) + n + le_bytes(address as nat, 8),
        LinkView::External { filename, object_path, .. } => {
            let f = encode_utf8(filename);
            let p = encode_utf8(object_path);
            seq![1u8, (0x08 + width_code(n.len())) as u8, 64u8] + le_bytes(
                n.len(),
                width_of(n.len()),
            ) + n + le_bytes((f.len() + p.len() + 3) as nat, 2) + seq![0u8] + f + seq![0u8] + p
                + seq![0u8]
        },
    }
}

impl LinkMessage {
    /// Writes the message contents.
    pub fn serialize(&self) -> (r: Vec<u8>)
        ensures
            r@ == link_bytes(self@),
    {
        let n: &[u8] = self.name.as_str().as_bytes();
        let len: u64 = n.len() as u64;
        let code: u8 = if len < 0x100 {
            0
        } else if len < 0x1_0000 {
            1
        } else {
            2
        };
        let width: usize = if len < 0x100 {
            1
        } else if len < 0x1_0000 {
            2
        } else {
            4
        };
        let mut buf: Vec<u8> = Vec::new();
        match &self.link_target {
            LinkTarget::Hard { object_header_address } => {
                push2(&mut buf, 1, code);
                push_le(&mut buf, len, width);
                extend(&mut buf, n);
                push_le(&mut buf, *object_header_address, 8);
            },
            LinkTarget::External { filename, object_path } => {
                let f: &[u8] = filename.as_str().as_bytes();
                let p: &[u8] = object_path.as_str().as_bytes();
                push2(&mut buf, 1, 0x08 + code);
                push1(&mut buf, 64);
                push_le(&mut buf, len, width);
                extend(&mut buf, n);
                let mut info: Vec<u8> = Vec::new();
                push1(&mut info, 0);
                extend(&mut info, f);
                push1(&mut info, 0);
                extend(&mut info, p);
                push1(&mut info, 0);
                push_le(&mut buf, info.len() as u64, 2);
                extend(&mut buf, info.as_slice());
            },
        }
        assert(buf@ =~= link_bytes(self@));
        buf
    }
}

/// A link to an object of this file.
pub fn make_link(name: &str, addr: u64) -> (r: LinkMessage)
    ensures
        r@ == (LinkView::Hard { name: name@, address: addr }),
{
    LinkMessage {
        name: name.to_owned(),
        link_target: LinkTarget::Hard { object_header_address: addr },
    }
}

/// A link to an object of another file.
pub fn make_external_link(name: &str, filename: &str, object_path: &str) -> (r: LinkMessage)
    ensures
        r@ == (LinkView::External {
            name: name@,
            filename: filename@,
            object_path: object_path@,
        }),
{
    LinkMessage {
        name: name.to_owned(),
        link_target: LinkTarget::External {
            filename: filename.to_owned(),
            object_path: object_path.to_owned(),
        },
    }
}

// ---------------------------------------------------------------------------
// Data layouts
// ---------------------------------------------------------------------------

/// Where a dataset's data is, as far as it is told apart.
#[allow(inconsistent_fields)]
#[derive(Clone, Copy, PartialEq, Eq, Debug, Structural)]
pub enum DataLayout {
    /// In the header.
    Compact { size: u16 },
    /// In one piece; no address before anything is written.
    Contiguous { address: Option<u64>, size: u64 },
    /// In chunks.
    Chunked,
    /// In other datasets, by mappings in the global heap.
    Virtual { heap_address: u64, heap_index: u32 },
}

/// The layout message of data in one piece.
pub open spec fn contiguous_bytes(address: u64, size: u64) -> Seq<u8> {
    seq![4u8, 1u8] + le_bytes(address as nat, 8) + le_bytes(size as nat, 8)
}

/// The layout message with the data in it.
pub open spec fn compact_bytes(data: Seq<u8>) -> Seq<u8> {
    seq![4u8, 0u8] + le_bytes(data.len(), 2) + data
}

/// The layout message of a virtual dataset.
pub open spec fn virtual_bytes(heap_address: u64) -> Seq<u8> {
    seq![4u8, 3u8] + le_bytes(heap_address as nat, 8) + le_bytes(1, 4)
}

pub fn write_contiguous(address: u64, size: u64) -> (r: Vec<u8>)
    ensures
        r@ == contiguous_bytes(address, size),
{
    let mut buf: Vec<u8> = Vec::new();
    push2(&mut buf, 4, 1);
    push_le(&mut buf, address, 8);
    push_le(&mut buf, size, 8);
    assert(buf@ =~= contiguous_bytes(address, size));
    buf
}

pub fn write_compact(data: &[u8]) -> (r: Vec<u8>)
    ensures
        r@ == compact_bytes(data@),
{
    let mut buf: Vec<u8> = Vec::new();
    push2(&mut buf, 4, 0);
    push_le(&mut buf, data.len() as u64, 2);
    extend(&mut buf, data);
    assert(buf@ =~= compact_bytes(data@));
    buf
}

pub fn write_virtual(heap_address: u64) -> (r: Vec<u8>)
    ensures
        r@ == virtual_bytes(heap_address),
{
    let mut buf: Vec<u8> = Vec::new();
    push2(&mut buf, 4, 3);
    push_le(&mut buf, heap_address, 8);
    push_le(&mut buf, 1, 4);
    assert(buf@ =~= virtual_bytes(heap_address));
    buf
}

/// Whether the `width` bytes at `at` are the undefined address.
pub open spec fn undefined_at(data: Seq<u8>, at: int, width: int) -> bool {
    forall|i: int| at <= i < at + width ==> #[trigger] data[i] == 0xff
}

/// What `data` says as a layout message of version 3 or 4, `None` if it is not
/// one.
pub open spec fn parsed_layout(data: Seq<u8>, offset_size: u8, length_size: u8) -> Option<
    DataLayout,
> {
    let os = offset_size as int;
    let ls = length_size as int;
    if data.len() < 2 || (data[0] != 3 && data[0] != 4) || !known_width(offset_size)
        || !known_width(length_size) {
        None
    } else if data[1] == 0 {
        if data.len() < 4 {
            None
        } else {
            let size = from_le(data.subrange(2, 4));
            if data.len() < 4 + size {
                None
            } else {
                Some(DataLayout::Compact { size: size as u16 })
            }
        }
    } else if data[1] == 1 {
        if data.len() < 2 + os + ls {
            None
        } else {
            Some(
                DataLayout::Contiguous {
                    address: if undefined_at(data, 2, os) {
                        None
                    } else {
                        Some(from_le(data.subrange(2, 2 + os)) as u64)
                    },
                    size: from_le(data.subrange(2 + os, 2 + os + ls)) as u64,
                },
            )
        }
    } else if data[1] == 2 {
        Some(DataLayout::Chunked)
    } else if data[1] == 3 {
        if data.len() < 2 + os + 4 {
            None
        } else {
            Some(
                DataLayout::Virtual {
                    heap_address: from_le(data.subrange(2, 2 + os)) as u64,
                    heap_index: from_le(data.subrange(2 + os, 2 + os + 4)) as u32,
                },
            )
        }
    } else {
        None
    }
}

fn is_undefined(data: &[u8], at: usize, width: usize) -> (r: bool)
    requires
        at + width <= data@.len(),
    ensures
        r == undefined_at(data@, at as int, width as int),
{
    let len: usize = data.len();
    let mut i: usize = 0;
    while i < width
        invariant
            i <= width,
            at + width <= len == data@.len(),
            forall|j: int| at <= j < at + i ==> #[trigger] data@[j] == 0xff,
        decreases width - i,
    {
        if data[at + i] != 0xff {
            return false;
        }
        i = i + 1;
    }
    true
}

/// Reads a layout message of version 3 or 4.
pub fn parse_layout(data: &[u8], offset_size: u8, length_size: u8) -> (r: Option<DataLayout>)
    ensures
        r == parsed_layout(data@, offset_size, length_size),
{
    if data.len() < 2 || (data[0] != 3 && data[0] != 4) {
        return None;
    }
    if !(offset_size == 2 || offset_size == 4 || offset_size == 8) || !(length_size == 2
        || length_size == 4 || length_size == 8) {
        return None;
    }
    let os: usize = offset_size as usize;
    let ls: usize = length_size as usize;
    proof {
        crate::bytes::lemma_byte_span();
    }
    if data[1] == 0 {
        if data.len() < 4 {
            return None;
        }
        let size: u64 = read_le(data, 2, 2);
        proof {
            crate::bytes::lemma_from_le_bound(data@.subrange(2, 4));
        }
        if (data.len() as u64) - 4 < size {
            return None;
        }
        Some(DataLayout::Compact { size: size as u16 })
    } else if data[1] == 1 {
        if data.len() < 2 + os + ls {
            return None;
        }
        let address: Option<u64> = if is_undefined(data, 2, os) {
            None
        } else {
            Some(read_le(data, 2, os))
        };
        Some(DataLayout::Contiguous { address, size: read_le(data, 2 + os, ls) })
    } else if data[1] == 2 {
        Some(DataLayout::Chunked)
    } else if data[1] == 3 {
        if data.len() < 2 + os + 4 {
            return None;
        }
        proof {
            crate::bytes::lemma_from_le_bound(data@.subrange(2 + os, 2 + os + 4));
        }
        Some(
            DataLayout::Virtual {
                heap_address: read_le(data, 2, os),
                heap_index: read_le(data, 2 + os, 4) as u32,
            },
        )
    } else {
        None
    }
}

} // verus!
