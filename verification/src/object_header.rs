//! Object headers of version 2 and superblocks of version 3.

use crate::bytes::{
    copy_range, extend, from_le, le_bytes, lemma_byte_span, lemma_from_le_bound, lemma_le_len,
    lemma_le_roundtrip, lemma_window, push1, push2, push4, push_le, read_le,
};
use crate::checksum::{jenkins_lookup3, lookup3};
use crate::messages::MessageType;
use vstd::prelude::*;

verus! {

/// Bytes of a superblock.
pub const SUPERBLOCK_SIZE: usize = 48;

/// A message as it stands in a header.
pub open spec fn message_bytes(kind: MessageType, flags: u8, data: Seq<u8>) -> Seq<u8> {
    seq![(kind.spec_id() % 256) as u8] + le_bytes(data.len(), 2) + seq![flags] + data
}

/// Which of the widths 1, 2, 4 and 8 the size of a header takes: 0 to 3.
pub open spec fn size_code(len: nat) -> u8 {
    if len < 0x100 {
        0
    } else if len < 0x1_0000 {
        1
    } else if len < 0x1_0000_0000 {
        2
    } else {
        3
    }
}

/// The width in bytes.
pub open spec fn size_width(len: nat) -> nat {
    if len < 0x100 {
        1
    } else if len < 0x1_0000 {
        2
    } else if len < 0x1_0000_0000 {
        4
    } else {
        8
    }
}

/// Signature, version, flags and size of a header with messages `body`.
pub open spec fn header_prefix(body: Seq<u8>) -> Seq<u8> {
    seq![0x4fu8, 0x48, 0x44, 0x52] + seq![2u8, size_code(body.len())] + le_bytes(
        body.len(),
        size_width(body.len()),
    )
}

/// The object header with messages `body`.
pub open spec fn header_bytes(body: Seq<u8>) -> Seq<u8> {
    let covered = header_prefix(body) + body;
    covered + le_bytes(lookup3(covered) as nat, 4)
}

/// The size of a header depends on the size of its messages alone.
pub proof fn lemma_header_len(body: Seq<u8>)
    ensures
        header_bytes(body).len() == 10 + size_width(body.len()) + body.len(),
{
    lemma_le_len(body.len(), size_width(body.len()));
    lemma_le_len(lookup3(header_prefix(body) + body) as nat, 4);
}

pub proof fn lemma_message_len(kind: MessageType, flags: u8, data: Seq<u8>)
    ensures
        message_bytes(kind, flags, data).len() == 4 + data.len(),
{
    lemma_le_len(data.len(), 2);
}

/// A header under construction.
pub struct ObjectHeaderWriter {
    body: Vec<u8>,
}

impl View for ObjectHeaderWriter {
    type V = Seq<u8>;

    closed spec fn view(&self) -> Seq<u8> {
        self.body@
    }
}

impl ObjectHeaderWriter {
    /// A header without messages.
    pub fn new() -> (w: Self)
        ensures
            w@ == Seq::<u8>::empty(),
    {
        ObjectHeaderWriter { body: Vec::new() }
    }

    /// Appends a message without flags.
    pub fn add_message(&mut self, kind: MessageType, data: &[u8])
        ensures
            final(self)@ == old(self)@ + message_bytes(kind, 0, data@),
    {
        self.add_message_with_flags(kind, data, 0);
    }

    /// Appends a message.
    pub fn add_message_with_flags(&mut self, kind: MessageType, data: &[u8], flags: u8)
        ensures
            final(self)@ == old(self)@ + message_bytes(kind, flags, data@),
    {
        let id: u8 = (kind.id() % 256) as u8;
        push1(&mut self.body, id);
        push_le(&mut self.body, data.len() as u64, 2);
        push1(&mut self.body, flags);
        extend(&mut self.body, data);
        assert(self.body@ =~= old(self).body@ + message_bytes(kind, flags, data@));
    }

    /// The finished header.
    pub fn serialize(&self) -> (r: Vec<u8>)
        ensures
            r@ == header_bytes(self@),
    {
        let len: u64 = self.body.len() as u64;
        let code: u8 = if len < 0x100 {
            0
        } else if len < 0x1_0000 {
            1
        } else if len < 0x1_0000_0000 {
            2
        } else {
            3
        };
        let width: usize = if len < 0x100 {
            1
        } else if len < 0x1_0000 {
            2
        } else if len < 0x1_0000_0000 {
            4
        } else {
            8
        };
        let mut buf: Vec<u8> = Vec::new();
        push4(&mut buf, 0x4f, 0x48, 0x44, 0x52);
        push2(&mut buf, 2, code);
        push_le(&mut buf, len, width);
        extend(&mut buf, self.body.as_slice());
        assert(buf@ =~= header_prefix(self@) + self@);
        let checksum: u32 = jenkins_lookup3(buf.as_slice());
        push_le(&mut buf, checksum as u64, 4);
        buf
    }
}

// ---------------------------------------------------------------------------
// Reading
// ---------------------------------------------------------------------------

/// A message of a parsed header.
#[derive(Debug, PartialEq, Eq)]
pub struct HeaderMessage {
    /// The type.
    pub msg_type: MessageType,
    /// Bytes of contents.
    pub size: usize,
    /// The flags.
    pub flags: u8,
    /// The creation order, where the header tracks it.
    pub creation_order: Option<u16>,
    /// The contents.
    pub data: Vec<u8>,
}

/// A parsed header.
#[derive(Debug, PartialEq, Eq)]
pub struct ObjectHeader {
    pub version: u8,
    pub messages: Vec<HeaderMessage>,
    pub reference_count: Option<u32>,
    pub flags: u8,
    pub access_time: Option<u32>,
    pub modification_time: Option<u32>,
    pub change_time: Option<u32>,
    pub birth_time: Option<u32>,
}

/// Type, flags and contents of a message.
pub struct MessageView {
    pub kind: MessageType,
    pub flags: u8,
    pub data: Seq<u8>,
}

impl HeaderMessage {
    pub open spec fn spec_view(&self) -> MessageView {
        MessageView { kind: self.msg_type, flags: self.flags, data: self.data@ }
    }
}

/// Whether each message gives the size of its contents, and no creation order.
pub open spec fn are_plain(ms: Seq<HeaderMessage>) -> bool {
    forall|i: int|
        0 <= i < ms.len() ==> (#[trigger] ms[i]).size == ms[i].data@.len()
            && ms[i].creation_order is None
}

/// The contents of a list of messages.
pub open spec fn message_views(ms: Seq<HeaderMessage>) -> Seq<MessageView> {
    Seq::new(ms.len(), |i: int| ms[i].spec_view())
}

/// The messages that `body` consists of, `None` if it ends within one.
pub open spec fn split_messages(body: Seq<u8>) -> Option<Seq<MessageView>>
    decreases body.len(),
{
    if body.len() == 0 {
        Some(Seq::empty())
    } else if body.len() < 4 {
        None
    } else {
        let len = from_le(body.subrange(1, 3));
        if body.len() < 4 + len {
            None
        } else {
            match split_messages(body.skip(4 + len as int)) {
                None => None,
                Some(rest) => Some(
                    seq![
                        MessageView {
                            kind: MessageType::spec_from_id(body[0] as u16),
                            flags: body[3],
                            data: body.subrange(4, 4 + len as int),
                        },
                    ] + rest,
                ),
            }
        }
    }
}

/// The messages of the header at `at`, `None` if there is no header of version 2
/// without optional fields, or its checksum is wrong.
pub open spec fn parsed_header(file: Seq<u8>, at: int) -> Option<Seq<MessageView>> {
    if at < 0 || file.len() < at + 6 || file.subrange(at, at + 4) != seq![0x4fu8, 0x48, 0x44, 0x52]
        || file[at + 4] != 2 || file[at + 5] > 3 {
        None
    } else {
        let width = code_width(file[at + 5]);
        if file.len() < at + 6 + width {
            None
        } else {
            let len = from_le(file.subrange(at + 6, at + 6 + width));
            let end = at + 6 + width + len;
            if file.len() < end + 4 || file.subrange(end, end + 4) != le_bytes(
                lookup3(file.subrange(at, end)) as nat,
                4,
            ) {
                None
            } else {
                split_messages(file.subrange(at + 6 + width, end))
            }
        }
    }
}

/// The width that a size code stands for.
pub open spec fn code_width(code: u8) -> int {
    if code == 0 {
        1
    } else if code == 1 {
        2
    } else if code == 2 {
        4
    } else {
        8
    }
}

impl ObjectHeader {
    /// Reads the header at `at`.
    pub fn parse(file: &[u8], at: usize) -> (r: Option<ObjectHeader>)
        ensures
            match r {
                Some(h) => {
                    &&& parsed_header(file@, at as int) == Some(message_views(h.messages@))
                    &&& are_plain(h.messages@)
                    &&& h.version == 2
                    &&& h.flags == file@[at + 5]
                    &&& h.reference_count is None
                    &&& h.access_time is None
                    &&& h.modification_time is None
                    &&& h.change_time is None
                    &&& h.birth_time is None
                },
                None => parsed_header(file@, at as int) is None,
            },
    {
        let total: usize = file.len();
        if at > total || total - at < 6 {
            return None;
        }
        let signature: Vec<u8> = copy_range(file, at, at + 4);
        let mut expected: Vec<u8> = Vec::new();
        push4(&mut expected, 0x4f, 0x48, 0x44, 0x52);
        assert(expected@ =~= seq![0x4fu8, 0x48, 0x44, 0x52]);
        if !crate::bytes::same_bytes(signature.as_slice(), expected.as_slice()) {
            return None;
        }
        if file[at + 4] != 2 || file[at + 5] > 3 {
            return None;
        }
        let flags: u8 = file[at + 5];
        let width: usize = if flags == 0 {
            1
        } else if flags == 1 {
            2
        } else if flags == 2 {
            4
        } else {
            8
        };
        if total - at < 6 + width {
            return None;
        }
        let len: u64 = read_le(file, at + 6, width);
        let from: usize = at + 6 + width;
        if ((total - from) as u64) < len || ((total - from) as u64) - len < 4 {
            return None;
        }
        let end: usize = from + len as usize;
        let covered: Vec<u8> = copy_range(file, at, end);
        let mut sum: Vec<u8> = Vec::new();
        push_le(&mut sum, jenkins_lookup3(covered.as_slice()) as u64, 4);
        let stored: Vec<u8> = copy_range(file, end, end + 4);
        assert(sum@ =~= le_bytes(lookup3(file@.subrange(at as int, end as int)) as nat, 4));
        if !crate::bytes::same_bytes(stored.as_slice(), sum.as_slice()) {
            return None;
        }
        let body: Vec<u8> = copy_range(file, from, end);
        match read_messages(body.as_slice()) {
            None => None,
            Some(messages) => Some(
                ObjectHeader {
                    version: 2,
                    messages,
                    reference_count: None,
                    flags,
                    access_time: None,
                    modification_time: None,
                    change_time: None,
                    birth_time: None,
                },
            ),
        }
    }
}

/// Reads the messages of a header.
pub fn read_messages(body: &[u8]) -> (r: Option<Vec<HeaderMessage>>)
    ensures
        match r {
            Some(ms) => split_messages(body@) == Some(message_views(ms@)) && are_plain(ms@),
            None => split_messages(body@) is None,
        },
{
    let total: usize = body.len();
    let mut ms: Vec<HeaderMessage> = Vec::new();
    let mut at: usize = 0;
    assert(body@.skip(0) =~= body@);
    while at < total
        invariant
            at <= total == body@.len(),
            are_plain(ms@),
            match split_messages(body@.skip(at as int)) {
                None => split_messages(body@) is None,
                Some(rest) => split_messages(body@) == Some(message_views(ms@) + rest),
            },
        decreases total - at,
    {
        let ghost tail = body@.skip(at as int);
        if total - at < 4 {
            return None;
        }
        assert(tail.subrange(1, 3) =~= body@.subrange(at + 1, at + 3));
        let len: u64 = read_le(body, at + 1, 2);
        proof {
            lemma_from_le_bound(tail.subrange(1, 3));
            lemma_byte_span();
        }
        if ((total - at - 4) as u64) < len {
            return None;
        }
        let size: usize = len as usize;
        let data: Vec<u8> = copy_range(body, at + 4, at + 4 + size);
        let ghost before = ms@;
        let m: HeaderMessage = HeaderMessage {
            msg_type: MessageType::from_id(body[at] as u16),
            size,
            flags: body[at + 3],
            creation_order: None,
            data,
        };
        assert(m.data@ =~= tail.subrange(4, 4 + size as int));
        assert(tail.skip(4 + size as int) =~= body@.skip(at + 4 + size));
        ms.push(m);
        at = at + 4 + size;
        proof {
            assert(message_views(ms@) =~= message_views(before).push(m.spec_view()));
            match split_messages(body@.skip(at as int)) {
                None => {},
                Some(rest) => {
                    assert(message_views(before) + (seq![m.spec_view()] + rest) =~= message_views(
                        ms@,
                    ) + rest);
                },
            }
        }
    }
    assert(body@.skip(at as int) =~= Seq::empty());
    assert(message_views(ms@) + Seq::<MessageView>::empty() =~= message_views(ms@));
    Some(ms)
}

// ---------------------------------------------------------------------------
// Writing is undone by reading
// ---------------------------------------------------------------------------

/// Whether a message can be told from its bytes: its type is one byte, its size
/// two.
pub open spec fn storable(m: MessageView) -> bool {
    &&& m.kind == MessageType::spec_from_id(m.kind.spec_id())
    &&& m.kind.spec_id() < 256
    &&& m.data.len() < 0x1_0000
}

/// Messages one after another.
pub open spec fn messages_bytes(ms: Seq<MessageView>) -> Seq<u8>
    decreases ms.len(),
{
    if ms.len() == 0 {
        Seq::empty()
    } else {
        message_bytes(ms[0].kind, ms[0].flags, ms[0].data) + messages_bytes(ms.skip(1))
    }
}

proof fn lemma_split(ms: Seq<MessageView>)
    requires
        forall|i: int| 0 <= i < ms.len() ==> storable(#[trigger] ms[i]),
    ensures
        split_messages(messages_bytes(ms)) == Some(ms),
    decreases ms.len(),
{
    if ms.len() > 0 {
        let m = ms[0];
        let body = messages_bytes(ms);
        let first = message_bytes(m.kind, m.flags, m.data);
        let rest = ms.skip(1);
        lemma_message_len(m.kind, m.flags, m.data);
        lemma_le_len(m.data.len(), 2);
        lemma_byte_span();
        lemma_le_roundtrip(m.data.len(), 2);
        assert(storable(m));
        assert(body[0] == first[0] && body[3] == first[3]);
        assert(body.subrange(1, 3) =~= le_bytes(m.data.len(), 2));
        assert(body.subrange(4, 4 + m.data.len() as int) =~= m.data);
        assert(body.skip(4 + m.data.len() as int) =~= messages_bytes(rest));
        assert forall|i: int| 0 <= i < rest.len() implies storable(#[trigger] rest[i]) by {
            assert(rest[i] == ms[i + 1]);
        }
        lemma_split(rest);
        assert(seq![m] + rest =~= ms);
    } else {
        assert(ms =~= Seq::empty());
    }
}

/// Reading a header gives back the messages that were written, wherever in the
/// file it stands.
pub proof fn law_header_roundtrip(ms: Seq<MessageView>, file: Seq<u8>, at: int)
    requires
        forall|i: int| 0 <= i < ms.len() ==> storable(#[trigger] ms[i]),
        messages_bytes(ms).len() <= u64::MAX,
        0 <= at,
        at + header_bytes(messages_bytes(ms)).len() <= file.len(),
        file.subrange(at, at + header_bytes(messages_bytes(ms)).len()) == header_bytes(
            messages_bytes(ms),
        ),
    ensures
        parsed_header(file, at) == Some(ms),
{
    lemma_header_at(messages_bytes(ms), file, at);
    lemma_split(ms);
}

/// A header that stands at `at` is found there, with its messages.
pub proof fn lemma_header_at(body: Seq<u8>, file: Seq<u8>, at: int)
    requires
        body.len() <= u64::MAX,
        0 <= at,
        at + header_bytes(body).len() <= file.len(),
        file.subrange(at, at + header_bytes(body).len()) == header_bytes(body),
    ensures
        parsed_header(file, at) == split_messages(body),
{
    lemma_header_len(body);
    lemma_header_parts(body);
    lemma_found_at(header_bytes(body), body, file, at);
}

proof fn lemma_found_at(all: Seq<u8>, body: Seq<u8>, file: Seq<u8>, at: int)
    requires
        0 <= at,
        at + all.len() <= file.len(),
        file.subrange(at, at + all.len()) == all,
        ({
            let w = size_width(body.len()) as int;
            let k = 6 + w + body.len();
            &&& all.len() == k + 4
            &&& all.subrange(0, 4) == seq![0x4fu8, 0x48, 0x44, 0x52]
            &&& all[4] == 2
            &&& all[5] == size_code(body.len())
            &&& from_le(all.subrange(6, 6 + w)) == body.len()
            &&& all.subrange(6 + w, k) == body
            &&& all.subrange(k, k + 4) == le_bytes(lookup3(all.subrange(0, k)) as nat, 4)
        }),
    ensures
        parsed_header(file, at) == split_messages(body),
{
    let w = size_width(body.len()) as int;
    let k = 6 + w + body.len();
    lemma_window(file, at, all, 0, 4);
    lemma_window(file, at, all, 6, 6 + w);
    lemma_window(file, at, all, 6 + w, k);
    lemma_window(file, at, all, 0, k);
    lemma_window(file, at, all, k, k + 4);
    assert(file[at + 4] == file.subrange(at, at + all.len())[4]);
    assert(file[at + 5] == file.subrange(at, at + all.len())[5]);
    assert(code_width(file[at + 5]) == w);
}

#[verifier::spinoff_prover]
#[verifier::rlimit(40)]
proof fn lemma_header_parts(body: Seq<u8>)
    requires
        body.len() <= u64::MAX,
    ensures
        ({
            let all = header_bytes(body);
            let w = size_width(body.len()) as int;
            let k = 6 + w + body.len();
            &&& all.subrange(0, 4) == seq![0x4fu8, 0x48, 0x44, 0x52]
            &&& all[4] == 2
            &&& all[5] == size_code(body.len())
            &&& from_le(all.subrange(6, 6 + w)) == body.len()
            &&& all.subrange(6 + w, k) == body
            &&& all.subrange(k, k + 4) == le_bytes(lookup3(all.subrange(0, k)) as nat, 4)
        }),
{
    let all = header_bytes(body);
    let w = size_width(body.len()) as int;
    let k = 6 + w + body.len();
    lemma_header_len(body);
    lemma_le_len(body.len(), w as nat);
    lemma_byte_span();
    lemma_le_roundtrip(body.len(), w as nat);
    let covered = header_prefix(body) + body;
    lemma_le_len(lookup3(covered) as nat, 4);
    assert(all.subrange(0, 4) =~= seq![0x4fu8, 0x48, 0x44, 0x52]);
    assert(all.subrange(6, 6 + w) =~= le_bytes(body.len(), w as nat));
    assert(all.subrange(6 + w, k) =~= body);
    assert(all.subrange(0, k) =~= covered);
    assert(all.subrange(k, k + 4) =~= le_bytes(lookup3(covered) as nat, 4));
}

// ---------------------------------------------------------------------------
// Superblock
// ---------------------------------------------------------------------------

/// The superblock without its checksum.
pub open spec fn superblock_fields(eof: u64, root: u64) -> Seq<u8> {
    seq![0x89u8, 0x48, 0x44, 0x46] + seq![0x0du8, 0x0a, 0x1a, 0x0a] + seq![3u8, 8, 8, 0] + le_bytes(
        0,
        8,
    ) + le_bytes(u64::MAX as nat, 8) + le_bytes(eof as nat, 8) + le_bytes(root as nat, 8)
}

/// The superblock of a file that ends at `eof` and whose root group is at
/// `root`.
pub open spec fn superblock_bytes(eof: u64, root: u64) -> Seq<u8> {
    superblock_fields(eof, root) + le_bytes(lookup3(superblock_fields(eof, root)) as nat, 4)
}

pub proof fn lemma_superblock_len(eof: u64, root: u64)
    ensures
        superblock_bytes(eof, root).len() == SUPERBLOCK_SIZE,
        superblock_fields(eof, root).len() == 44,
{
    lemma_le_len(0, 8);
    lemma_le_len(u64::MAX as nat, 8);
    lemma_le_len(eof as nat, 8);
    lemma_le_len(root as nat, 8);
    lemma_le_len(lookup3(superblock_fields(eof, root)) as nat, 4);
}

/// Writes a superblock.
pub fn write_superblock(eof: u64, root: u64) -> (r: Vec<u8>)
    ensures
        r@ == superblock_bytes(eof, root),
{
    let mut buf: Vec<u8> = Vec::new();
    push4(&mut buf, 0x89, 0x48, 0x44, 0x46);
    push4(&mut buf, 0x0d, 0x0a, 0x1a, 0x0a);
    push4(&mut buf, 3, 8, 8, 0);
    push_le(&mut buf, 0, 8);
    push_le(&mut buf, 0xffff_ffff_ffff_ffff, 8);
    push_le(&mut buf, eof, 8);
    push_le(&mut buf, root, 8);
    assert(buf@ =~= superblock_fields(eof, root));
    let checksum: u32 = jenkins_lookup3(buf.as_slice());
    push_le(&mut buf, checksum as u64, 4);
    buf
}

/// The superblock of a file.
#[derive(Clone, Copy, PartialEq, Eq, Debug, Structural)]
pub struct Superblock {
    pub version: u8,
    pub offset_size: u8,
    pub length_size: u8,
    pub eof_address: u64,
    pub root_group_address: u64,
}

/// What the file's first bytes say as a superblock, `None` if they are not one
/// of version 3.
pub open spec fn parsed_superblock(file: Seq<u8>) -> Option<Superblock> {
    if file.len() < 48 || file.subrange(0, 8) != seq![
        0x89u8,
        0x48,
        0x44,
        0x46,
        0x0d,
        0x0a,
        0x1a,
        0x0a,
    ] || file[8] != 3 || file.subrange(44, 48) != le_bytes(
        lookup3(file.subrange(0, 44)) as nat,
        4,
    ) {
        None
    } else {
        Some(
            Superblock {
                version: 3,
                offset_size: file[9],
                length_size: file[10],
                eof_address: from_le(file.subrange(28, 36)) as u64,
                root_group_address: from_le(file.subrange(36, 44)) as u64,
            },
        )
    }
}

impl Superblock {
    /// Reads the superblock at the start of a file.
    pub fn parse(file: &[u8]) -> (r: Option<Superblock>)
        ensures
            r == parsed_superblock(file@),
    {
        if file.len() < 48 {
            return None;
        }
        let signature: Vec<u8> = copy_range(file, 0, 8);
        let mut expected: Vec<u8> = Vec::new();
        push4(&mut expected, 0x89, 0x48, 0x44, 0x46);
        push4(&mut expected, 0x0d, 0x0a, 0x1a, 0x0a);
        assert(expected@ =~= seq![0x89u8, 0x48, 0x44, 0x46, 0x0d, 0x0a, 0x1a, 0x0a]);
        if !crate::bytes::same_bytes(signature.as_slice(), expected.as_slice()) {
            return None;
        }
        if file[8] != 3 {
            return None;
        }
        let covered: Vec<u8> = copy_range(file, 0, 44);
        let mut sum: Vec<u8> = Vec::new();
        push_le(&mut sum, jenkins_lookup3(covered.as_slice()) as u64, 4);
        assert(sum@ =~= le_bytes(lookup3(file@.subrange(0, 44)) as nat, 4));
        let stored: Vec<u8> = copy_range(file, 44, 48);
        if !crate::bytes::same_bytes(stored.as_slice(), sum.as_slice()) {
            return None;
        }
        Some(
            Superblock {
                version: 3,
                offset_size: file[9],
                length_size: file[10],
                eof_address: read_le(file, 28, 8),
                root_group_address: read_le(file, 36, 8),
            },
        )
    }
}

/// Reading a superblock gives back what was written.
pub proof fn law_superblock_roundtrip(eof: u64, root: u64, file: Seq<u8>)
    requires
        file.len() >= SUPERBLOCK_SIZE,
        file.take(SUPERBLOCK_SIZE as int) == superblock_bytes(eof, root),
    ensures
        parsed_superblock(file) == Some(
            Superblock {
                version: 3,
                offset_size: 8,
                length_size: 8,
                eof_address: eof,
                root_group_address: root,
            },
        ),
{
    let all = superblock_bytes(eof, root);
    let fields = superblock_fields(eof, root);
    lemma_superblock_len(eof, root);
    lemma_le_len(0, 8);
    lemma_le_len(u64::MAX as nat, 8);
    lemma_le_len(eof as nat, 8);
    lemma_le_len(root as nat, 8);
    lemma_le_len(lookup3(fields) as nat, 4);
    lemma_byte_span();
    lemma_le_roundtrip(eof as nat, 8);
    lemma_le_roundtrip(root as nat, 8);
    assert(file.subrange(0, 48) =~= all);
    assert(all.subrange(0, 8) =~= seq![0x89u8, 0x48, 0x44, 0x46, 0x0d, 0x0a, 0x1a, 0x0a]);
    assert(all.subrange(0, 44) =~= fields);
    assert(all.subrange(44, 48) =~= le_bytes(lookup3(fields) as nat, 4));
    assert(all.subrange(28, 36) =~= le_bytes(eof as nat, 8));
    assert(all.subrange(36, 44) =~= le_bytes(root as nat, 8));
    lemma_window(file, 0, all, 0, 8);
    lemma_window(file, 0, all, 0, 44);
    lemma_window(file, 0, all, 44, 48);
    lemma_window(file, 0, all, 28, 36);
    lemma_window(file, 0, all, 36, 44);
    assert(file[8] == file.subrange(0, 48)[8] && file[9] == file.subrange(0, 48)[9] && file[10]
        == file.subrange(0, 48)[10]);
}

} // verus!
