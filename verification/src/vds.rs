//! Virtual datasets: source mappings as bytes, and the global heap that holds
//! them.

use crate::bytes::{
    copy_range, extend, from_le, le_bytes, lemma_byte_span, lemma_from_le_bound, lemma_le_len,
    lemma_le_roundtrip, push1, push4, push_le, push_zeros, read_le, zeros,
};
use crate::checksum::{jenkins_lookup3, lookup3};
use crate::text::{same_text, text_from_utf8};
use vstd::prelude::*;
use vstd::utf8::{decode_utf8, encode_utf8, valid_utf8};

verus! {

/// Which part of which source dataset stands in which part of a virtual one.
#[derive(Debug, Clone, PartialEq, Eq)]
pub struct VdsMapping {
    /// The source file; empty or `.` for the file itself.
    pub source_file: String,
    /// The source dataset.
    pub source_dataset: String,
    /// The part of the source, as a serialized selection.
    pub source_selection: Vec<u8>,
    /// The part of the virtual dataset, as a serialized selection.
    pub virtual_selection: Vec<u8>,
}

/// What a mapping says.
pub struct VdsView {
    pub source_file: Seq<char>,
    pub source_dataset: Seq<char>,
    pub source_selection: Seq<u8>,
    pub virtual_selection: Seq<u8>,
}

impl View for VdsMapping {
    type V = VdsView;

    open spec fn view(&self) -> VdsView {
        VdsView {
            source_file: self.source_file@,
            source_dataset: self.source_dataset@,
            source_selection: self.source_selection@,
            virtual_selection: self.virtual_selection@,
        }
    }
}

/// The contents of a list of mappings.
pub open spec fn vds_views(ms: Seq<VdsMapping>) -> Seq<VdsView> {
    Seq::new(ms.len(), |i: int| ms[i]@)
}

/// Whether the source is the file itself.
pub open spec fn same_file(m: VdsView) -> bool {
    m.source_file.len() == 0 || m.source_file == "."@
}

/// Block version: 1 where all sources are in the file itself, else 0.
pub open spec fn vds_version(ms: Seq<VdsView>) -> u8 {
    if forall|i: int| 0 <= i < ms.len() ==> same_file(#[trigger] ms[i]) {
        1
    } else {
        0
    }
}

/// Bytes of a count; sizes other than 2 and 4 stand for 8.
pub open spec fn length_width(length_size: u8) -> nat {
    if length_size == 2 {
        2
    } else if length_size == 4 {
        4
    } else {
        8
    }
}

/// Text with a terminating zero.
pub open spec fn c_string(t: Seq<char>) -> Seq<u8> {
    encode_utf8(t) + seq![0u8]
}

/// A mapping as bytes.
pub open spec fn mapping_bytes(m: VdsView, version: u8) -> Seq<u8> {
    (if version == 0 {
        c_string(m.source_file)
    } else {
        seq![4u8]
    }) + c_string(m.source_dataset) + m.source_selection + m.virtual_selection
}

/// The first `n` mappings as bytes.
pub open spec fn mappings_bytes(ms: Seq<VdsView>, version: u8, n: int) -> Seq<u8>
    decreases n,
{
    if n <= 0 {
        Seq::empty()
    } else {
        mappings_bytes(ms, version, n - 1) + mapping_bytes(ms[n - 1], version)
    }
}

/// A list of mappings as bytes.
pub open spec fn vds_bytes(ms: Seq<VdsView>, length_size: u8) -> Seq<u8> {
    seq![vds_version(ms)] + le_bytes(ms.len(), length_width(length_size)) + mappings_bytes(
        ms,
        vds_version(ms),
        ms.len() as int,
    )
}

/// Appends `val` in 2, 4 or else 8 little-endian bytes.
pub fn write_length(buf: &mut Vec<u8>, val: u64, size: u8)
    ensures
        final(buf)@ == old(buf)@ + le_bytes(val as nat, length_width(size)),
{
    match size {
        2 => push_le(buf, val, 2),
        4 => push_le(buf, val, 4),
        _ => push_le(buf, val, 8),
    }
}

fn is_same_file(m: &VdsMapping) -> (r: bool)
    ensures
        r == same_file(m@),
{
    let file: &[u8] = m.source_file.as_str().as_bytes();
    let empty: bool = file.len() == 0;
    proof {
        vstd::utf8::encode_utf8_decode_utf8(m.source_file@);
        let none = Seq::<char>::empty();
        vstd::utf8::encode_utf8_decode_utf8(none);
        assert(encode_utf8(none) =~= Seq::empty());
        if file@.len() == 0 {
            assert(file@ =~= encode_utf8(none));
        }
        if m.source_file@.len() == 0 {
            assert(m.source_file@ =~= none);
        }
    }
    empty || same_text(m.source_file.as_str(), ".")
}

/// Writes a list of mappings.
pub fn serialize_vds_mappings(mappings: &[VdsMapping], length_size: u8) -> (buf: Vec<u8>)
    ensures
        buf@ == vds_bytes(vds_views(mappings@), length_size),
{
    let ghost views = vds_views(mappings@);
    let mut all_same_file: bool = true;
    let mut i: usize = 0;
    while i < mappings.len()
        invariant
            i <= mappings@.len(),
            views == vds_views(mappings@),
            all_same_file == forall|j: int| 0 <= j < i ==> same_file(#[trigger] views[j]),
        decreases mappings@.len() - i,
    {
        assert(views[i as int] == mappings@[i as int]@);
        if !is_same_file(&mappings[i]) {
            all_same_file = false;
        }
        i = i + 1;
    }
    let version: u8 = if all_same_file {
        1
    } else {
        0
    };
    let mut buf: Vec<u8> = Vec::new();
    push1(&mut buf, version);
    assert(buf@ =~= seq![version]);
    write_length(&mut buf, mappings.len() as u64, length_size);
    let ghost start = buf@;
    let mut k: usize = 0;
    assert(start + mappings_bytes(views, version, 0) =~= start);
    while k < mappings.len()
        invariant
            k <= mappings@.len(),
            views == vds_views(mappings@),
            buf@ == start + mappings_bytes(views, version, k as int),
        decreases mappings@.len() - k,
    {
        let m: &VdsMapping = &mappings[k];
        assert(views[k as int] == m@);
        let ghost before = buf@;
        if version == 0 {
            extend(&mut buf, m.source_file.as_str().as_bytes());
            push1(&mut buf, 0);
        } else {
            push1(&mut buf, 4);
        }
        extend(&mut buf, m.source_dataset.as_str().as_bytes());
        push1(&mut buf, 0);
        extend(&mut buf, m.source_selection.as_slice());
        extend(&mut buf, m.virtual_selection.as_slice());
        assert(buf@ =~= before + mapping_bytes(m@, version));
        assert(buf@ =~= start + mappings_bytes(views, version, k + 1));
        k = k + 1;
    }
    buf
}

// ---------------------------------------------------------------------------
// Reading
// ---------------------------------------------------------------------------

/// The position of the first zero from `at` on.
pub open spec fn zero_at(b: Seq<u8>, at: int) -> Option<int>
    decreases b.len() - at,
{
    if at < 0 || at >= b.len() {
        None
    } else if b[at] == 0 {
        Some(at)
    } else {
        zero_at(b, at + 1)
    }
}

/// Bytes of the serialized selection that `b` starts with, `None` if it starts
/// with none that is known: everything, nothing, or a regular hyperslab of
/// version 3.
pub open spec fn selection_len(b: Seq<u8>) -> Option<nat> {
    if b.len() < 8 {
        None
    } else {
        let kind = from_le(b.subrange(0, 4));
        let version = from_le(b.subrange(4, 8));
        if kind == 0 || kind == 3 {
            Some(16)
        } else if kind == 2 && version == 3 && b.len() >= 14 && b[8] % 2 == 1 {
            Some((14 + 4 * from_le(b.subrange(10, 14)) * b[9]) as nat)
        } else {
            None
        }
    }
}

/// The mapping at `at` and where it ends, `None` if there is none.
pub open spec fn mapping_at(b: Seq<u8>, at: int, version: u8) -> Option<(VdsView, int)> {
    match file_at(b, at, version) {
        None => None,
        Some((file, p)) => match zero_at(b, p) {
            None => None,
            Some(z) => if !valid_utf8(b.subrange(p, z)) {
                None
            } else {
                match selection_len(b.skip(z + 1)) {
                    None => None,
                    Some(n) => if z + 1 + n > b.len() {
                        None
                    } else {
                        match selection_len(b.skip(z + 1 + n)) {
                            None => None,
                            Some(m) => if z + 1 + n + m > b.len() {
                                None
                            } else {
                                Some(
                                    (
                                        VdsView {
                                            source_file: file,
                                            source_dataset: decode_utf8(b.subrange(p, z)),
                                            source_selection: b.subrange(z + 1, z + 1 + n),
                                            virtual_selection: b.subrange(
                                                z + 1 + n,
                                                z + 1 + n + m,
                                            ),
                                        },
                                        z + 1 + n + m,
                                    ),
                                )
                            },
                        }
                    },
                }
            },
        },
    }
}

/// The source file of the mapping at `at` and where its name ends.
pub open spec fn file_at(b: Seq<u8>, at: int, version: u8) -> Option<(Seq<char>, int)> {
    if version == 0 {
        match zero_at(b, at) {
            None => None,
            Some(z) => if valid_utf8(b.subrange(at, z)) {
                Some((decode_utf8(b.subrange(at, z)), z + 1))
            } else {
                None
            },
        }
    } else if 0 <= at < b.len() && b[at] == 4 {
        Some(("."@, at + 1))
    } else {
        None
    }
}

/// The `n` mappings from `at` on, `None` if there are fewer.
pub open spec fn mappings_at(b: Seq<u8>, at: int, version: u8, n: nat) -> Option<Seq<VdsView>>
    decreases n,
{
    if n == 0 {
        Some(Seq::empty())
    } else {
        match mapping_at(b, at, version) {
            None => None,
            Some((m, next)) => match mappings_at(b, next, version, (n - 1) as nat) {
                None => None,
                Some(rest) => Some(seq![m] + rest),
            },
        }
    }
}

/// The mappings that `b` starts with, `None` if it does not start with a list.
pub open spec fn parsed_vds(b: Seq<u8>, length_size: u8) -> Option<Seq<VdsView>> {
    let w = length_width(length_size) as int;
    if b.len() < 1 + w || b[0] > 1 {
        None
    } else {
        mappings_at(b, 1 + w, b[0], from_le(b.subrange(1, 1 + w)))
    }
}

pub(crate) fn find_zero(b: &[u8], at: usize) -> (r: Option<usize>)
    requires
        at <= b@.len(),
    ensures
        match r {
            Some(z) => zero_at(b@, at as int) == Some(z as int) && at <= z < b@.len(),
            None => zero_at(b@, at as int) is None,
        },
{
    let mut i: usize = at;
    while i < b.len()
        invariant
            at <= i <= b@.len(),
            zero_at(b@, i as int) == zero_at(b@, at as int),
        decreases b@.len() - i,
    {
        if b[i] == 0 {
            return Some(i);
        }
        i = i + 1;
    }
    None
}

/// Bytes of the selection at `at`, `None` if there is none within the bytes.
fn measure_selection(b: &[u8], at: usize) -> (r: Option<usize>)
    requires
        at <= b@.len(),
    ensures
        match r {
            Some(n) => selection_len(b@.skip(at as int)) == Some(n as nat) && at + n <= b@.len(),
            None => match selection_len(b@.skip(at as int)) {
                None => true,
                Some(n) => at + n > b@.len(),
            },
        },
{
    let ghost s = b@.skip(at as int);
    let left: usize = b.len() - at;
    if left < 8 {
        return None;
    }
    assert(s.subrange(0, 4) =~= b@.subrange(at as int, at + 4));
    assert(s.subrange(4, 8) =~= b@.subrange(at + 4, at + 8));
    let kind: u64 = read_le(b, at, 4);
    let version: u64 = read_le(b, at + 4, 4);
    if kind == 0 || kind == 3 {
        if left < 16 {
            return None;
        }
        return Some(16);
    }
    if kind != 2 || version != 3 || left < 14 || b[at + 8] % 2 != 1 {
        return None;
    }
    assert(s.subrange(10, 14) =~= b@.subrange(at + 10, at + 14));
    let rank: u64 = read_le(b, at + 10, 4);
    let enc: u64 = b[at + 9] as u64;
    proof {
        lemma_from_le_bound(b@.subrange(at + 10, at + 14));
        lemma_byte_span();
    }
    assert(0 <= 4 * rank * enc <= 4 * 0x1_0000_0000 * 255) by (nonlinear_arith)
        requires
            0 <= rank <= 0x1_0000_0000,
            0 <= enc <= 255,
    ;
    assert(4 * rank <= u64::MAX);
    let size: u64 = 14 + 4 * rank * enc;
    if size > left as u64 {
        return None;
    }
    Some(size as usize)
}

/// Reads the list of mappings that `b` starts with.
pub fn parse_vds_mappings(b: &[u8], length_size: u8) -> (r: Option<Vec<VdsMapping>>)
    ensures
        match r {
            Some(ms) => parsed_vds(b@, length_size) == Some(vds_views(ms@)),
            None => parsed_vds(b@, length_size) is None,
        },
{
    let w: usize = match length_size {
        2 => 2,
        4 => 4,
        _ => 8,
    };
    if b.len() < 1 + w || b[0] > 1 {
        return None;
    }
    let total: usize = b.len();
    let version: u8 = b[0];
    let count: u64 = read_le(b, 1, w);
    let mut left: u64 = count;
    let mut at: usize = 1 + w;
    let mut ms: Vec<VdsMapping> = Vec::new();
    assert(vds_views(ms@) =~= Seq::empty());
    proof {
        match mappings_at(b@, at as int, version, left as nat) {
            None => {},
            Some(rest) => {
                assert(vds_views(ms@) + rest =~= rest);
            },
        }
    }
    while left > 0
        invariant
            at <= total == b@.len(),
            version <= 1,
            match mappings_at(b@, at as int, version, left as nat) {
                None => parsed_vds(b@, length_size) is None,
                Some(rest) => parsed_vds(b@, length_size) == Some(vds_views(ms@) + rest),
            },
        decreases left,
    {
        let ghost start = at as int;
        let file: String;
        if version == 0 {
            let z: usize = match find_zero(b, at) {
                Some(z) => z,
                None => {
                    return None;
                },
            };
            file = match text_from_utf8(copy_range(b, at, z)) {
                Some(t) => t,
                None => {
                    return None;
                },
            };
            at = z + 1;
        } else {
            if at >= b.len() || b[at] != 4 {
                return None;
            }
            file = ".".to_owned();
            at = at + 1;
        }
        let z: usize = match find_zero(b, at) {
            Some(z) => z,
            None => {
                return None;
            },
        };
        let dataset: String = match text_from_utf8(copy_range(b, at, z)) {
            Some(t) => t,
            None => {
                return None;
            },
        };
        let n: usize = match measure_selection(b, z + 1) {
            Some(n) => n,
            None => {
                return None;
            },
        };
        let source: Vec<u8> = copy_range(b, z + 1, z + 1 + n);
        let m: usize = match measure_selection(b, z + 1 + n) {
            Some(m) => m,
            None => {
                return None;
            },
        };
        let virt: Vec<u8> = copy_range(b, z + 1 + n, z + 1 + n + m);
        let mapping: VdsMapping = VdsMapping {
            source_file: file,
            source_dataset: dataset,
            source_selection: source,
            virtual_selection: virt,
        };
        let ghost before = vds_views(ms@);
        let ghost view = mapping@;
        at = z + 1 + n + m;
        assert(mapping_at(b@, start, version) == Some((view, at as int)));
        ms.push(mapping);
        left = left - 1;
        proof {
            assert(vds_views(ms@) =~= before.push(view));
            match mappings_at(b@, at as int, version, left as nat) {
                None => {},
                Some(rest) => {
                    assert(before + (seq![view] + rest) =~= vds_views(ms@) + rest);
                },
            }
        }
    }
    assert(vds_views(ms@) + Seq::<VdsView>::empty() =~= vds_views(ms@));
    Some(ms)
}

// ---------------------------------------------------------------------------
// Writing is undone by reading
// ---------------------------------------------------------------------------

/// Whether a mapping can be told from its bytes: no zeros in names, and
/// selections that are complete.
pub open spec fn readable(m: VdsView) -> bool {
    &&& !encode_utf8(m.source_file).contains(0)
    &&& !encode_utf8(m.source_dataset).contains(0)
    &&& selection_len(m.source_selection) == Some(m.source_selection.len())
    &&& selection_len(m.virtual_selection) == Some(m.virtual_selection.len())
}

/// The mapping as it is read back: where all sources are in the file itself, the
/// file is always called `.`.
pub open spec fn as_read(m: VdsView, version: u8) -> VdsView {
    VdsView {
        source_file: if version == 0 {
            m.source_file
        } else {
            "."@
        },
        ..m
    }
}

pub(crate) proof fn lemma_finds_zero(b: Seq<u8>, at: int, text: Seq<u8>)
    requires
        0 <= at,
        at + text.len() < b.len(),
        b.subrange(at, at + text.len()) == text,
        b[at + text.len()] == 0,
        !text.contains(0),
    ensures
        zero_at(b, at) == Some(at + text.len()),
    decreases text.len(),
{
    if text.len() > 0 {
        assert(b[at] == b.subrange(at, at + text.len())[0]);
        assert(text.contains(text[0]));
        let rest = text.skip(1);
        assert(b.subrange(at + 1, at + 1 + rest.len()) =~= rest) by {
            crate::bytes::lemma_window(b, at, text, 1, text.len() as int);
        }
        assert forall|x: u8| rest.contains(x) implies text.contains(x) by {
            let i = choose|i: int| 0 <= i < rest.len() && rest[i] == x;
            assert(text[i + 1] == x);
        }
        lemma_finds_zero(b, at + 1, rest);
    }
}

proof fn lemma_selection_in(b: Seq<u8>, at: int, s: Seq<u8>)
    requires
        0 <= at,
        at + s.len() <= b.len(),
        b.subrange(at, at + s.len()) == s,
        selection_len(s) == Some(s.len()),
    ensures
        selection_len(b.skip(at)) == Some(s.len()),
{
    let t = b.skip(at);
    assert(t.subrange(0, 4) =~= s.subrange(0, 4)) by {
        crate::bytes::lemma_window(b, at, s, 0, 4);
    }
    assert(t.subrange(4, 8) =~= s.subrange(4, 8)) by {
        crate::bytes::lemma_window(b, at, s, 4, 8);
    }
    if s.len() >= 14 {
        assert(t.subrange(10, 14) =~= s.subrange(10, 14)) by {
            crate::bytes::lemma_window(b, at, s, 10, 14);
        }
        assert(t[8] == b.subrange(at, at + s.len())[8]);
        assert(t[9] == b.subrange(at, at + s.len())[9]);
    }
}

proof fn lemma_mapping_in(b: Seq<u8>, at: int, m: VdsView, version: u8)
    requires
        version <= 1,
        readable(m),
        0 <= at,
        at + mapping_bytes(m, version).len() <= b.len(),
        b.subrange(at, at + mapping_bytes(m, version).len()) == mapping_bytes(m, version),
    ensures
        mapping_at(b, at, version) == Some(
            (as_read(m, version), at + mapping_bytes(m, version).len()),
        ),
{
    let all = mapping_bytes(m, version);
    let f = encode_utf8(m.source_file);
    let d = encode_utf8(m.source_dataset);
    let s = m.source_selection;
    let v = m.virtual_selection;
    let p: int = if version == 0 {
        f.len() + 1int
    } else {
        1
    };
    vstd::utf8::encode_utf8_valid_utf8(m.source_file);
    vstd::utf8::encode_utf8_decode_utf8(m.source_file);
    vstd::utf8::encode_utf8_valid_utf8(m.source_dataset);
    vstd::utf8::encode_utf8_decode_utf8(m.source_dataset);
    let dz = p + d.len();
    let se = dz + 1 + s.len();
    let ve = se + v.len();
    assert(all.len() == ve);
    if version == 0 {
        assert(all.subrange(0, f.len() as int) =~= f);
        crate::bytes::lemma_window(b, at, all, 0, f.len() as int);
        assert(all[f.len() as int] == 0);
        assert(b[at + f.len()] == b.subrange(at, at + all.len())[f.len() as int]);
        lemma_finds_zero(b, at, f);
    } else {
        assert(all[0] == 4);
        assert(b[at] == b.subrange(at, at + all.len())[0]);
    }
    assert(all.subrange(p, dz) =~= d);
    crate::bytes::lemma_window(b, at, all, p, dz);
    assert(all[dz] == 0);
    assert(b[at + dz] == b.subrange(at, at + all.len())[dz]);
    lemma_finds_zero(b, at + p, d);
    assert(all.subrange(dz + 1, se) =~= s);
    crate::bytes::lemma_window(b, at, all, dz + 1, se);
    lemma_selection_in(b, at + dz + 1, s);
    assert(all.subrange(se, ve) =~= v);
    crate::bytes::lemma_window(b, at, all, se, ve);
    lemma_selection_in(b, at + se, v);
}

proof fn lemma_mappings_len(ms: Seq<VdsView>, version: u8, i: int, n: int)
    requires
        0 <= i <= n,
    ensures
        mappings_bytes(ms, version, i).len() <= mappings_bytes(ms, version, n).len(),
        mappings_bytes(ms, version, n).take(mappings_bytes(ms, version, i).len() as int)
            == mappings_bytes(ms, version, i),
    decreases n - i,
{
    let a = mappings_bytes(ms, version, i);
    let b = mappings_bytes(ms, version, n);
    if i < n {
        lemma_mappings_len(ms, version, i, n - 1);
        let c = mappings_bytes(ms, version, n - 1);
        assert(b.take(a.len() as int) =~= c.take(a.len() as int));
    } else {
        assert(b.take(a.len() as int) =~= a);
    }
}

proof fn lemma_mappings_in(b: Seq<u8>, at: int, ms: Seq<VdsView>, version: u8, i: int)
    requires
        version <= 1,
        forall|j: int| 0 <= j < ms.len() ==> readable(#[trigger] ms[j]),
        0 <= i <= ms.len(),
        0 <= at,
        at + mappings_bytes(ms, version, ms.len() as int).len() <= b.len(),
        b.subrange(at, at + mappings_bytes(ms, version, ms.len() as int).len())
            == mappings_bytes(ms, version, ms.len() as int),
    ensures
        mappings_at(
            b,
            at + mappings_bytes(ms, version, i).len(),
            version,
            (ms.len() - i) as nat,
        ) == Some(Seq::new((ms.len() - i) as nat, |j: int| as_read(ms[i + j], version))),
    decreases ms.len() - i,
{
    let n = ms.len() as int;
    let all = mappings_bytes(ms, version, n);
    let goal = Seq::new((n - i) as nat, |j: int| as_read(ms[i + j], version));
    if i < n {
        let here = mappings_bytes(ms, version, i);
        let next = mappings_bytes(ms, version, i + 1);
        let m = mapping_bytes(ms[i], version);
        lemma_mappings_in(b, at, ms, version, i + 1);
        lemma_mappings_len(ms, version, i + 1, n);
        assert(next == here + m);
        assert(all.subrange(here.len() as int, next.len() as int) =~= m) by {
            assert(all.take(next.len() as int).subrange(here.len() as int, next.len() as int)
                =~= m);
            assert(all.take(next.len() as int).subrange(here.len() as int, next.len() as int)
                =~= all.subrange(here.len() as int, next.len() as int));
        }
        crate::bytes::lemma_window(b, at, all, here.len() as int, next.len() as int);
        lemma_mapping_in(b, at + here.len(), ms[i], version);
        let rest = Seq::new((n - i - 1) as nat, |j: int| as_read(ms[i + 1 + j], version));
        assert(seq![as_read(ms[i], version)] + rest =~= goal);
    } else {
        assert(goal =~= Seq::empty());
    }
}

/// Reading a list of mappings gives back what was written, whatever follows it.
pub proof fn law_vds_roundtrip(ms: Seq<VdsView>, length_size: u8, tail: Seq<u8>)
    requires
        forall|j: int| 0 <= j < ms.len() ==> readable(#[trigger] ms[j]),
        ms.len() < crate::bytes::byte_span(length_width(length_size)),
    ensures
        parsed_vds(vds_bytes(ms, length_size) + tail, length_size) == Some(
            Seq::new(ms.len(), |j: int| as_read(ms[j], vds_version(ms))),
        ),
{
    let w = length_width(length_size);
    let version = vds_version(ms);
    let n = ms.len() as int;
    let all = vds_bytes(ms, length_size);
    let b = all + tail;
    lemma_le_len(ms.len(), w);
    lemma_le_roundtrip(ms.len(), w);
    assert(b[0] == version);
    assert(b.subrange(1, 1 + w as int) =~= le_bytes(ms.len(), w));
    let body = mappings_bytes(ms, version, n);
    let at = 1 + w as int;
    assert(b.subrange(at, at + body.len()) =~= body);
    assert(mappings_bytes(ms, version, 0).len() == 0);
    lemma_mappings_in(b, at, ms, version, 0);
    let goal = Seq::new(ms.len(), |j: int| as_read(ms[j], version));
    assert(Seq::new((ms.len() - 0) as nat, |j: int| as_read(ms[0 + j], version)) =~= goal);
}

// ---------------------------------------------------------------------------
// Global heap
// ---------------------------------------------------------------------------

/// The mappings with a checksum behind them, as they are stored.
pub open spec fn vds_object(ms: Seq<VdsView>) -> Seq<u8> {
    vds_bytes(ms, 8) + le_bytes(lookup3(vds_bytes(ms, 8)) as nat, 4)
}

/// Writes the mappings with a checksum behind them.
pub fn write_vds_object(mappings: &[VdsMapping]) -> (buf: Vec<u8>)
    ensures
        buf@ == vds_object(vds_views(mappings@)),
{
    let mut buf: Vec<u8> = serialize_vds_mappings(mappings, 8);
    let checksum: u32 = jenkins_lookup3(buf.as_slice());
    push_le(&mut buf, checksum as u64, 4);
    buf
}

/// `x` rounded up to a multiple of eight.
pub open spec fn padded8(x: nat) -> nat {
    (x + 7) / 8 * 8
}

fn pad8(x: usize) -> (r: usize)
    requires
        x <= usize::MAX - 7,
    ensures
        r == padded8(x as nat),
        x <= r,
{
    (x + 7) / 8 * 8
}

/// Bytes of a collection with one object of `len` bytes.
pub open spec fn collection_len(len: nat) -> nat {
    34 + padded8(len)
}

/// A global heap collection with one object, number 1.
pub open spec fn collection_bytes(object: Seq<u8>) -> Seq<u8> {
    seq![0x47u8, 0x43, 0x4f, 0x4c] + seq![1u8, 0, 0, 0] + le_bytes(collection_len(object.len()), 8)
        + le_bytes(1, 2) + le_bytes(1, 2) + zeros(4) + le_bytes(object.len(), 8) + object + zeros(
        (padded8(object.len()) - object.len()) as nat,
    ) + zeros(2)
}

pub proof fn lemma_collection_len(object: Seq<u8>)
    ensures
        collection_bytes(object).len() == collection_len(object.len()),
{
    lemma_le_len(collection_len(object.len()), 8);
    lemma_le_len(1, 2);
    lemma_le_len(object.len(), 8);
}

/// Builds a global heap collection with one object.
pub fn build_global_heap_collection(object_data: &[u8]) -> (buf: Vec<u8>)
    requires
        object_data@.len() <= isize::MAX,
    ensures
        buf@ == collection_bytes(object_data@),
{
    let len: usize = object_data.len();
    let padded: usize = pad8(len);
    let size: u64 = 34 + padded as u64;
    let mut buf: Vec<u8> = Vec::new();
    push4(&mut buf, 0x47, 0x43, 0x4f, 0x4c);
    assert(buf@ =~= seq![0x47u8, 0x43, 0x4f, 0x4c]);
    push4(&mut buf, 1, 0, 0, 0);
    push_le(&mut buf, size, 8);
    push_le(&mut buf, 1, 2);
    push_le(&mut buf, 1, 2);
    push_zeros(&mut buf, 4);
    push_le(&mut buf, len as u64, 8);
    extend(&mut buf, object_data);
    push_zeros(&mut buf, padded - len);
    push_zeros(&mut buf, 2);
    buf
}

/// The object of a collection at `at` in a file, `None` if there is none.
pub open spec fn collection_object(file: Seq<u8>, at: int) -> Option<Seq<u8>> {
    if at < 0 || file.len() < at + 32 || file.subrange(at, at + 4) != seq![
        0x47u8,
        0x43,
        0x4f,
        0x4c,
    ] {
        None
    } else {
        let len = from_le(file.subrange(at + 24, at + 32));
        if file.len() < at + 32 + len {
            None
        } else {
            Some(file.subrange(at + 32, at + 32 + len))
        }
    }
}

/// Reads the object of the collection at `at`.
pub fn read_collection(file: &[u8], at: u64) -> (r: Option<Vec<u8>>)
    ensures
        match r {
            Some(v) => collection_object(file@, at as int) == Some(v@),
            None => collection_object(file@, at as int) is None,
        },
{
    let total: u64 = file.len() as u64;
    if at > total || total - at < 32 {
        return None;
    }
    let from: usize = at as usize;
    let tag: Vec<u8> = copy_range(file, from, from + 4);
    let mut expected: Vec<u8> = Vec::new();
    push4(&mut expected, 0x47, 0x43, 0x4f, 0x4c);
    assert(expected@ =~= seq![0x47u8, 0x43, 0x4f, 0x4c]);
    if !crate::bytes::same_bytes(tag.as_slice(), expected.as_slice()) {
        return None;
    }
    let len: u64 = read_le(file, from + 24, 8);
    if total - at - 32 < len {
        return None;
    }
    Some(copy_range(file, from + 32, from + 32 + len as usize))
}

/// Reading a collection gives back the object it was built of.
pub proof fn law_collection_roundtrip(object: Seq<u8>, file: Seq<u8>, at: int)
    requires
        object.len() <= u64::MAX,
        0 <= at,
        at + collection_bytes(object).len() <= file.len(),
        file.subrange(at, at + collection_bytes(object).len()) == collection_bytes(object),
    ensures
        collection_object(file, at) == Some(object),
{
    let all = collection_bytes(object);
    lemma_collection_len(object);
    lemma_le_len(collection_len(object.len()), 8);
    lemma_le_len(1, 2);
    lemma_le_len(object.len(), 8);
    lemma_byte_span();
    lemma_le_roundtrip(object.len(), 8);
    assert(all.subrange(0, 4) =~= seq![0x47u8, 0x43, 0x4f, 0x4c]);
    assert(all.subrange(24, 32) =~= le_bytes(object.len(), 8));
    assert(all.subrange(32, 32 + object.len() as int) =~= object);
    crate::bytes::lemma_window(file, at, all, 0, 4);
    crate::bytes::lemma_window(file, at, all, 24, 32);
    crate::bytes::lemma_window(file, at, all, 32, 32 + object.len() as int);
}

/// How long a selection is: everything and nothing take 16 bytes, a hyperslab of the
/// third version 14 and four numbers for each of its axes.
pub proof fn law_selection_lengths(b: Seq<u8>)
    requires
        b.len() >= 8,
    ensures
        from_le(b.subrange(0, 4)) == 0 ==> selection_len(b) == Some(16nat),
        from_le(b.subrange(0, 4)) == 3 ==> selection_len(b) == Some(16nat),
        from_le(b.subrange(0, 4)) == 2 && from_le(b.subrange(4, 8)) == 3 && b.len() >= 14 && b[8]
            % 2 == 1 ==> selection_len(b) == Some(
            (14 + 4 * from_le(b.subrange(10, 14)) * b[9]) as nat,
        ),
        from_le(b.subrange(0, 4)) != 0 && from_le(b.subrange(0, 4)) != 2 && from_le(
            b.subrange(0, 4),
        ) != 3 ==> selection_len(b) is None,
{
}

/// Mappings start with a version and their number; only where every source is in the
/// file itself are file names left out.
pub proof fn law_vds_has_header(ms: Seq<VdsView>, length_size: u8)
    requires
        length_size == 2 || length_size == 4 || length_size == 8,
        ms.len() < crate::bytes::byte_span(length_size as nat),
    ensures
        vds_bytes(ms, length_size).len() >= 1 + length_size,
        from_le(vds_bytes(ms, length_size).subrange(1, 1 + length_size as int)) == ms.len(),
        vds_bytes(ms, length_size)[0] == if forall|i: int|
            0 <= i < ms.len() ==> (#[trigger] ms[i]).source_file.len() == 0 || ms[i].source_file
                == "."@ {
            1u8
        } else {
            0u8
        },
{
    let data = vds_bytes(ms, length_size);
    let w = length_size as nat;
    lemma_le_len(ms.len(), w);
    lemma_le_roundtrip(ms.len(), w);
    assert(data.subrange(1, 1 + length_size as int) =~= le_bytes(ms.len(), w));
    if forall|i: int| 0 <= i < ms.len() ==> same_file(#[trigger] ms[i]) {
        assert forall|i: int| 0 <= i < ms.len() implies (#[trigger] ms[i]).source_file.len() == 0
            || ms[i].source_file == "."@ by {
            assert(same_file(ms[i]));
        }
    } else {
        let i = choose|i: int| 0 <= i < ms.len() && !same_file(#[trigger] ms[i]);
        assert(!(ms[i].source_file.len() == 0 || ms[i].source_file == "."@));
    }
}

} // verus!
