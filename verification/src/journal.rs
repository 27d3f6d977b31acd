//! An append-only log of the versions a dataset went through.
//!
//! Layout: `MJRN`, format version (1), three zero bytes, record count (4, big
//! endian), then the records: version (8), signed root (32), timestamp (8),
//! signature length (4) and bytes, snapshot reference length (4) and UTF-8.

use crate::bytes::{
    be_bytes, copy_range, extend, from_be, lemma_be_len, lemma_be_roundtrip, lemma_byte_span,
    lemma_from_be_bound, push_be, read_be, same_bytes,
};
use crate::digest::{digest_at, lemma_digest_ext};
use crate::error::{MerkleError, MERKLE_JOURNAL_VERSION};
use crate::text::{same_text, text_from_utf8};
use vstd::prelude::*;
use vstd::utf8::encode_utf8;

verus! {

/// The first bytes of a packed journal: `MJRN`.
pub const MERKLE_JOURNAL_MAGIC: [u8; 4] = [0x4d, 0x4a, 0x52, 0x4e];

/// Bytes before the first record.
pub const MERKLE_JOURNAL_HEADER_SIZE: usize = 12;

/// The name under which a journal is stored.
pub const MERKLE_JOURNAL_ATTR_NAME: &'static str = "merkle_journal";

/// Bytes of a record with neither signature nor snapshot reference.
pub const MIN_RECORD_SIZE: usize = 56;

/// A version, certified by a signed root and tied to a snapshot.
#[derive(Debug, Clone, PartialEq, Eq)]
pub struct ProvenanceRecord {
    /// The version this record certifies.
    pub version: u64,
    /// The root that was signed.
    pub signed_root: [u8; 32],
    /// The signature, not interpreted here.
    pub hybrid_sig: Vec<u8>,
    /// Seconds since the Unix epoch, not interpreted here.
    pub timestamp: u64,
    /// Names the snapshot that holds this version.
    pub snapshot_ref: String,
}

/// What a record holds.
pub struct RecordView {
    pub version: u64,
    pub signed_root: [u8; 32],
    pub hybrid_sig: Seq<u8>,
    pub timestamp: u64,
    pub snapshot_ref: Seq<char>,
}

impl View for ProvenanceRecord {
    type V = RecordView;

    open spec fn view(&self) -> RecordView {
        RecordView {
            version: self.version,
            signed_root: self.signed_root,
            hybrid_sig: self.hybrid_sig@,
            timestamp: self.timestamp,
            snapshot_ref: self.snapshot_ref@,
        }
    }
}

/// Bytes behind a four-byte length.
pub open spec fn prefixed(s: Seq<u8>) -> Seq<u8> {
    be_bytes(s.len(), 4) + s
}

/// A record as bytes.
pub open spec fn record_bytes(r: RecordView) -> Seq<u8> {
    be_bytes(r.version as nat, 8) + r.signed_root@ + be_bytes(r.timestamp as nat, 8) + prefixed(
        r.hybrid_sig,
    ) + prefixed(encode_utf8(r.snapshot_ref))
}

/// Records one after the other.
pub open spec fn body_bytes(records: Seq<RecordView>) -> Seq<u8>
    decreases records.len(),
{
    if records.len() == 0 {
        Seq::empty()
    } else {
        body_bytes(records.drop_last()) + record_bytes(records.last())
    }
}

/// The bytes before the first record.
pub open spec fn header_bytes(count: nat) -> Seq<u8> {
    seq![0x4d, 0x4a, 0x52, 0x4e, MERKLE_JOURNAL_VERSION, 0, 0, 0] + be_bytes(count, 4)
}

/// A journal as bytes.
pub open spec fn journal_bytes(records: Seq<RecordView>) -> Seq<u8> {
    header_bytes(records.len()) + body_bytes(records)
}

/// Whether a record's variable parts have lengths that four bytes hold.
pub open spec fn record_fits(r: RecordView) -> bool {
    r.hybrid_sig.len() <= u32::MAX && encode_utf8(r.snapshot_ref).len() <= u32::MAX
}

/// Whether records form a journal: versions strictly increase, and every
/// record can be written.
pub open spec fn is_journal(records: Seq<RecordView>) -> bool {
    &&& forall|i: int, j: int|
        0 <= i < j < records.len() ==> (#[trigger] records[i]).version < (
        #[trigger] records[j]).version
    &&& forall|i: int| 0 <= i < records.len() ==> record_fits(#[trigger] records[i])
}

/// Whether `data` is a journal of `records`.
pub open spec fn is_encoding(data: Seq<u8>, records: Seq<RecordView>) -> bool {
    &&& is_journal(records)
    &&& records.len() <= u32::MAX
    &&& data == journal_bytes(records)
}

/// Why bytes that are no journal are rejected.
pub open spec fn rejection(data: Seq<u8>) -> MerkleError {
    if data.len() >= MERKLE_JOURNAL_HEADER_SIZE && data.subrange(0, 4) == seq![
        0x4du8,
        0x4a,
        0x52,
        0x4e,
    ] && data[4] != MERKLE_JOURNAL_VERSION {
        MerkleError::JournalUnsupportedVersion { found: data[4] }
    } else {
        MerkleError::JournalCorrupt
    }
}

/// A log of records, versions strictly increasing.
#[derive(Debug, Clone)]
pub struct ProvenanceJournal {
    records: Vec<ProvenanceRecord>,
}

/// The views of `records`.
pub open spec fn record_views(records: Seq<ProvenanceRecord>) -> Seq<RecordView> {
    Seq::new(records.len(), |i: int| records[i]@)
}

impl View for ProvenanceJournal {
    type V = Seq<RecordView>;

    open spec fn view(&self) -> Seq<RecordView> {
        record_views(self.spec_records())
    }
}

impl Default for ProvenanceJournal {
    fn default() -> (j: Self)
        ensures
            j.wf(),
            j@.len() == 0,
    {
        ProvenanceJournal::new()
    }
}

impl ProvenanceJournal {
    /// The records, oldest first.
    pub closed spec fn spec_records(&self) -> Seq<ProvenanceRecord> {
        self.records@
    }

    /// Versions strictly increase, and every record can be written.
    pub open spec fn wf(&self) -> bool {
        is_journal(self@)
    }

    /// A journal without records.
    pub fn new() -> (j: Self)
        ensures
            j.wf(),
            j@.len() == 0,
    {
        ProvenanceJournal { records: Vec::new() }
    }

    /// Appends a record. Its version has to exceed the last one, and signature
    /// and snapshot reference have to be writable.
    pub fn append(&mut self, record: ProvenanceRecord) -> (r: Result<(), MerkleError>)
        requires
            old(self).wf(),
        ensures
            final(self).wf(),
            if old(self)@.len() > 0 && record.version <= old(self)@.last().version {
                &&& r == Err::<(), MerkleError>(
                    MerkleError::JournalNonMonotonic {
                        appended: record.version,
                        last: old(self)@.last().version,
                    },
                )
                &&& final(self)@ == old(self)@
            } else if !record_fits(record@) {
                &&& r == Err::<(), MerkleError>(MerkleError::JournalCorrupt)
                &&& final(self)@ == old(self)@
            } else {
                &&& r == Ok::<(), MerkleError>(())
                &&& final(self).spec_records() == old(self).spec_records().push(record)
                &&& final(self)@ == old(self)@.push(record@)
            },
    {
        let n: usize = self.records.len();
        if n > 0 {
            let last: u64 = self.records[n - 1].version;
            if record.version <= last {
                return Err(
                    MerkleError::JournalNonMonotonic { appended: record.version, last },
                );
            }
        }
        if record.hybrid_sig.len() as u64 > u32::MAX as u64
            || record.snapshot_ref.as_str().as_bytes().len() as u64 > u32::MAX as u64 {
            return Err(MerkleError::JournalCorrupt);
        }
        let ghost before = self@;
        self.records.push(record);
        proof {
            assert(self@ =~= before.push(record@));
            assert forall|i: int, j: int| 0 <= i < j < self@.len() implies (
            #[trigger] self@[i]).version < (#[trigger] self@[j]).version by {
                if j == before.len() && i < before.len() - 1 {
                    assert(before[i].version < before[before.len() - 1].version);
                }
            }
        }
        Ok(())
    }

    /// All records, oldest first.
    pub fn records(&self) -> (r: &[ProvenanceRecord])
        ensures
            r@ == self.spec_records(),
    {
        self.records.as_slice()
    }

    /// The newest record.
    pub fn latest(&self) -> (r: Option<&ProvenanceRecord>)
        ensures
            match r {
                Some(rec) => self.spec_records().len() > 0 && *rec == self.spec_records().last(),
                None => self.spec_records().len() == 0,
            },
    {
        let n: usize = self.records.len();
        if n == 0 {
            None
        } else {
            Some(&self.records[n - 1])
        }
    }

    fn position_of(&self, version: u64) -> (r: Option<usize>)
        requires
            self.wf(),
        ensures
            match r {
                Some(i) => i < self@.len() && self@[i as int].version == version,
                None => forall|i: int| 0 <= i < self@.len() ==> self@[i].version != version,
            },
    {
        let mut lo: usize = 0;
        let mut hi: usize = self.records.len();
        while lo < hi
            invariant
                lo <= hi <= self.records@.len(),
                self.wf(),
                forall|i: int| 0 <= i < lo ==> self@[i].version < version,
                forall|i: int| hi <= i < self@.len() ==> self@[i].version > version,
            decreases hi - lo,
        {
            let mid: usize = lo + (hi - lo) / 2;
            let v: u64 = self.records[mid].version;
            assert(v == self@[mid as int].version);
            if v == version {
                return Some(mid);
            }
            if v < version {
                assert forall|i: int| 0 <= i <= mid implies self@[i].version < version by {
                    if i < mid {
                        assert(self@[i].version < self@[mid as int].version);
                    }
                }
                lo = mid + 1;
            } else {
                assert forall|i: int| mid <= i < self@.len() implies self@[i].version
                    > version by {
                    if i > mid {
                        assert(self@[mid as int].version < self@[i].version);
                    }
                }
                hi = mid;
            }
        }
        None
    }

    /// The record that certifies exactly `version`.
    pub fn record_for_version(&self, version: u64) -> (r: Option<&ProvenanceRecord>)
        requires
            self.wf(),
        ensures
            match r {
                Some(rec) => rec.version == version && self.spec_records().contains(*rec),
                None => forall|i: int|
                    0 <= i < self.spec_records().len() ==> self.spec_records()[i].version
                        != version,
            },
    {
        match self.position_of(version) {
            Some(i) => {
                assert(self@[i as int].version == self.records@[i as int].version);
                Some(&self.records[i])
            },
            None => {
                assert forall|i: int| 0 <= i < self.records@.len() implies self.records@[i].version
                    != version by {
                    assert(self@[i].version != version);
                }
                None
            },
        }
    }

    fn snapshot_position(&self, snapshot_ref: &str) -> (r: Option<usize>)
        ensures
            match r {
                Some(i) => {
                    &&& i < self.spec_records().len()
                    &&& self.spec_records()[i as int].snapshot_ref@ == snapshot_ref@
                    &&& forall|j: int|
                        0 <= j < i ==> self.spec_records()[j].snapshot_ref@ != snapshot_ref@
                },
                None => forall|j: int|
                    0 <= j < self.spec_records().len() ==> self.spec_records()[j].snapshot_ref@
                        != snapshot_ref@,
            },
    {
        let mut i: usize = 0;
        while i < self.records.len()
            invariant
                i <= self.records@.len(),
                forall|j: int| 0 <= j < i ==> self.records@[j].snapshot_ref@ != snapshot_ref@,
            decreases self.records@.len() - i,
        {
            if same_text(self.records[i].snapshot_ref.as_str(), snapshot_ref) {
                return Some(i);
            }
            i = i + 1;
        }
        None
    }

    /// Whether position `i` holds the first record that names the snapshot.
    pub open spec fn first_with_snapshot(&self, i: int, snapshot_ref: Seq<char>) -> bool {
        &&& 0 <= i < self.spec_records().len()
        &&& self.spec_records()[i].snapshot_ref@ == snapshot_ref
        &&& forall|j: int| 0 <= j < i ==> self.spec_records()[j].snapshot_ref@ != snapshot_ref
    }

    /// Whether a record names the snapshot.
    pub open spec fn names_snapshot(&self, snapshot_ref: Seq<char>) -> bool {
        exists|i: int|
            0 <= i < self.spec_records().len() && self.spec_records()[i].snapshot_ref@
                == snapshot_ref
    }

    /// The first record that names the snapshot.
    pub fn record_for_snapshot(&self, snapshot_ref: &str) -> (r: Option<&ProvenanceRecord>)
        ensures
            match r {
                Some(rec) => exists|i: int|
                    #[trigger] self.first_with_snapshot(i, snapshot_ref@) && *rec
                        == self.spec_records()[i],
                None => !self.names_snapshot(snapshot_ref@),
            },
            match r {
                Some(rec) => rec.snapshot_ref@ == snapshot_ref@ && exists|i: int|
                    0 <= i < self.spec_records().len() && *rec == #[trigger] self.spec_records()[i]
                        && forall|j: int|
                        0 <= j < i ==> (#[trigger] self.spec_records()[j]).snapshot_ref@
                            != snapshot_ref@,
                None => forall|i: int|
                    0 <= i < self.spec_records().len() ==> (
                    #[trigger] self.spec_records()[i]).snapshot_ref@ != snapshot_ref@,
            },
    {
        match self.snapshot_position(snapshot_ref) {
            Some(i) => {
                assert(self.first_with_snapshot(i as int, snapshot_ref@));
                Some(&self.records[i])
            },
            None => None,
        }
    }

    /// Whether the snapshot may be rolled back to: only one that a record names.
    pub fn is_valid_rollback_target(&self, snapshot_ref: &str) -> (r: bool)
        ensures
            r == self.names_snapshot(snapshot_ref@),
            r <==> exists|i: int|
                0 <= i < self.spec_records().len() && (
                #[trigger] self.spec_records()[i]).snapshot_ref@ == snapshot_ref@,
    {
        match self.snapshot_position(snapshot_ref) {
            Some(_) => true,
            None => false,
        }
    }

    /// The number of records.
    pub fn len(&self) -> (n: usize)
        ensures
            n == self@.len(),
    {
        self.records.len()
    }

    /// Whether there are no records.
    pub fn is_empty(&self) -> (r: bool)
        ensures
            r == (self@.len() == 0),
    {
        self.records.len() == 0
    }

    /// The journal as bytes.
    pub fn pack(&self) -> (buf: Vec<u8>)
        ensures
            buf@ == journal_bytes(self@),
    {
        let mut buf: Vec<u8> = Vec::new();
        let head: [u8; 8] = [0x4d, 0x4a, 0x52, 0x4e, MERKLE_JOURNAL_VERSION, 0, 0, 0];
        extend(&mut buf, head.as_slice());
        push_be(&mut buf, self.records.len() as u64, 4);
        assert(buf@ =~= header_bytes(self@.len()));
        let mut i: usize = 0;
        assert(self@.take(0) =~= Seq::empty());
        assert(buf@ =~= header_bytes(self@.len()) + body_bytes(self@.take(0)));
        while i < self.records.len()
            invariant
                i <= self.records@.len(),
                buf@ == header_bytes(self@.len()) + body_bytes(self@.take(i as int)),
            decreases self.records@.len() - i,
        {
            let r: &ProvenanceRecord = &self.records[i];
            let ghost before = buf@;
            push_be(&mut buf, r.version, 8);
            extend(&mut buf, r.signed_root.as_slice());
            push_be(&mut buf, r.timestamp, 8);
            push_prefixed(&mut buf, r.hybrid_sig.as_slice());
            push_prefixed(&mut buf, r.snapshot_ref.as_str().as_bytes());
            proof {
                assert(buf@ =~= before + record_bytes(r@));
                let next = self@.take(i + 1);
                assert(next.drop_last() =~= self@.take(i as int));
                assert(next.last() == r@);
                assert(buf@ =~= header_bytes(self@.len()) + body_bytes(next));
            }
            i = i + 1;
        }
        assert(self@.take(i as int) =~= self@);
        buf
    }

    /// Reads a journal. Exactly the packed forms of journals are accepted.
    #[verifier::spinoff_prover]
    #[verifier::rlimit(60)]
    pub fn unpack(data: &[u8]) -> (r: Result<Self, MerkleError>)
        ensures
            match r {
                Ok(j) => is_encoding(data@, j@),
                Err(e) => {
                    &&& e == rejection(data@)
                    &&& forall|records: Seq<RecordView>| !is_encoding(data@, records)
                },
            },
    {
        let len: usize = data.len();
        proof {
            assert forall|records: Seq<RecordView>| #[trigger]
                is_encoding(data@, records) implies header_ok(data@, records.len()) by {
                lemma_header(data@, records);
            }
        }
        if len < MERKLE_JOURNAL_HEADER_SIZE {
            return Err(MerkleError::JournalCorrupt);
        }
        let magic: [u8; 4] = MERKLE_JOURNAL_MAGIC;
        assert(magic@ =~= seq![0x4du8, 0x4a, 0x52, 0x4e]);
        if !same_bytes(&data[0..4], magic.as_slice()) {
            return Err(MerkleError::JournalCorrupt);
        }
        if data[4] != MERKLE_JOURNAL_VERSION {
            return Err(MerkleError::JournalUnsupportedVersion { found: data[4] });
        }
        if data[5] != 0 || data[6] != 0 || data[7] != 0 {
            return Err(MerkleError::JournalCorrupt);
        }
        proof {
            lemma_from_be_bound(data@.subrange(8, 12));
            lemma_byte_span();
        }
        let count: usize = read_be(data, 8, 4) as usize;
        let body_len: usize = len - MERKLE_JOURNAL_HEADER_SIZE;
        let ghost packed = exists|records: Seq<RecordView>| is_encoding(data@, records);
        let ghost rs = choose|records: Seq<RecordView>| is_encoding(data@, records);
        proof {
            if packed {
                lemma_header(data@, rs);
                lemma_body_min(rs);
                lemma_be_len(rs.len(), 4);
            }
        }
        if count > body_len / MIN_RECORD_SIZE {
            return Err(MerkleError::JournalCorrupt);
        }
        let mut records: Vec<ProvenanceRecord> = Vec::with_capacity(count);
        let mut off: usize = MERKLE_JOURNAL_HEADER_SIZE;
        let mut i: usize = 0;
        proof {
            lemma_be_of_from_be(data@.subrange(8, 12));
            assert(data@.subrange(0, 12) =~= header_bytes(count as nat));
            assert(record_views(records@) =~= Seq::empty());
            assert(data@.subrange(0, off as int) =~= header_bytes(count as nat) + body_bytes(
                record_views(records@),
            ));
            if packed {
                assert(rs.take(0) =~= Seq::empty());
            }
        }
        while i < count
            invariant
                len == data@.len(),
                i <= count <= u32::MAX,
                12 <= off <= len,
                records@.len() == i,
                is_journal(record_views(records@)),
                data@.subrange(0, off as int) == header_bytes(count as nat) + body_bytes(
                    record_views(records@),
                ),
                packed == (exists|rs: Seq<RecordView>| is_encoding(data@, rs)),
                rejection(data@) == MerkleError::JournalCorrupt,
                packed ==> {
                    &&& is_encoding(data@, rs)
                    &&& rs.len() == count
                    &&& record_views(records@) == rs.take(i as int)
                    &&& off == 12 + body_bytes(rs.take(i as int)).len()
                },
            decreases count - i,
        {
            proof {
                if packed {
                    lemma_record_at(data@, rs, i as int, off as int);
                }
            }
            if len - off < MIN_RECORD_SIZE {
                return Err(MerkleError::JournalCorrupt);
            }
            let version: u64 = read_be(data, off, 8);
            let signed_root: [u8; 32] = digest_at(data, off + 8);
            let timestamp: u64 = read_be(data, off + 40, 8);
            let ghost start = off as int;
            let (sig_from, sig_to): (usize, usize) = match prefixed_range(data, off + 48) {
                Some(range) => range,
                None => {
                    return Err(MerkleError::JournalCorrupt);
                },
            };
            let (ref_from, ref_to): (usize, usize) = match prefixed_range(data, sig_to) {
                Some(range) => range,
                None => {
                    return Err(MerkleError::JournalCorrupt);
                },
            };
            let hybrid_sig: Vec<u8> = copy_range(data, sig_from, sig_to);
            let snapshot_ref: String = match text_from_utf8(copy_range(data, ref_from, ref_to)) {
                Some(s) => s,
                None => {
                    proof {
                        if packed {
                            vstd::utf8::encode_utf8_valid_utf8(rs[i as int].snapshot_ref);
                        }
                    }
                    return Err(MerkleError::JournalCorrupt);
                },
            };
            proof {
                if packed {
                    vstd::utf8::encode_utf8_decode_utf8(rs[i as int].snapshot_ref);
                }
            }
            if i > 0 && version <= records[i - 1].version {
                proof {
                    if packed {
                        assert(record_views(records@)[i - 1] == rs[i - 1]);
                        assert(rs[i - 1].version < rs[i as int].version);
                    }
                }
                return Err(MerkleError::JournalCorrupt);
            }
            let record = ProvenanceRecord {
                version,
                signed_root,
                hybrid_sig,
                timestamp,
                snapshot_ref,
            };
            let ghost before = record_views(records@);
            records.push(record);
            off = ref_to;
            proof {
                let views = record_views(records@);
                assert(views =~= before.push(record@));
                assert(views.drop_last() =~= before);
                vstd::utf8::decode_utf8_encode_utf8(data@.subrange(ref_from as int, ref_to as int));
                lemma_read_back(data@, start, record@, sig_to as int, ref_to as int);
                assert(data@.subrange(0, off as int) =~= data@.subrange(0, start) + data@.subrange(
                    start,
                    off as int,
                ));
                assert(data@.subrange(0, off as int) =~= header_bytes(count as nat) + body_bytes(
                    views,
                ));
                assert forall|a: int, b: int| 0 <= a < b < views.len() implies (
                #[trigger] views[a]).version < (#[trigger] views[b]).version by {
                    if b == before.len() && a < before.len() - 1 {
                        assert(before[a].version < before[before.len() - 1].version);
                    }
                }
                if packed {
                    assert(rs[i as int] == record@) by {
                        lemma_digest_ext(rs[i as int].signed_root, record.signed_root);
                    }
                    assert(rs.take(i + 1) =~= rs.take(i as int).push(rs[i as int]));
                    assert(views =~= rs.take(i + 1));
                    assert(rs.take(i + 1).drop_last() =~= rs.take(i as int));
                }
            }
            i = i + 1;
        }
        if off != len {
            proof {
                if packed {
                    assert(rs.take(i as int) =~= rs);
                    lemma_be_len(rs.len(), 4);
                }
            }
            return Err(MerkleError::JournalCorrupt);
        }
        assert(data@.subrange(0, off as int) =~= data@);
        Ok(ProvenanceJournal { records })
    }
}

fn push_prefixed(buf: &mut Vec<u8>, s: &[u8])
    ensures
        final(buf)@ == old(buf)@ + prefixed(s@),
{
    push_be(buf, s.len() as u64, 4);
    extend(buf, s);
    assert(buf@ =~= old(buf)@ + prefixed(s@));
}

/// Where the bytes behind the four-byte length at `at` lie.
fn prefixed_range(data: &[u8], at: usize) -> (r: Option<(usize, usize)>)
    requires
        at <= data@.len(),
    ensures
        match r {
            Some((from, to)) => {
                &&& from == at + 4
                &&& to == from + from_be(data@.subrange(at as int, at + 4))
                &&& to <= data@.len()
                &&& to - from <= u32::MAX
            },
            None => at + 4 > data@.len() || at + 4 + from_be(data@.subrange(at as int, at + 4))
                > data@.len(),
        },
{
    let len: usize = data.len();
    if len - at < 4 {
        return None;
    }
    proof {
        lemma_from_be_bound(data@.subrange(at as int, at + 4));
        lemma_byte_span();
    }
    let n: u64 = read_be(data, at, 4);
    let left: u64 = (len - at - 4) as u64;
    if n > left {
        return None;
    }
    Some((at + 4, at + 4 + n as usize))
}

spec fn header_ok(data: Seq<u8>, count: nat) -> bool {
    &&& data.len() >= 12
    &&& data.subrange(0, 4) == seq![0x4du8, 0x4a, 0x52, 0x4e]
    &&& data[4] == MERKLE_JOURNAL_VERSION
    &&& data[5] == 0 && data[6] == 0 && data[7] == 0
    &&& from_be(data.subrange(8, 12)) == count
}

proof fn lemma_header(data: Seq<u8>, records: Seq<RecordView>)
    requires
        is_encoding(data, records),
    ensures
        header_ok(data, records.len()),
{
    lemma_be_len(records.len(), 4);
    lemma_byte_span();
    lemma_be_roundtrip(records.len(), 4);
    assert(data.subrange(0, 4) =~= seq![0x4du8, 0x4a, 0x52, 0x4e]);
    assert(data.subrange(8, 12) =~= be_bytes(records.len(), 4));
}

proof fn lemma_record_len(r: RecordView)
    ensures
        record_bytes(r).len() == 56 + r.hybrid_sig.len() + encode_utf8(r.snapshot_ref).len(),
{
    lemma_be_len(r.version as nat, 8);
    lemma_be_len(r.timestamp as nat, 8);
    lemma_be_len(r.hybrid_sig.len(), 4);
    lemma_be_len(encode_utf8(r.snapshot_ref).len(), 4);
}

proof fn lemma_body_min(records: Seq<RecordView>)
    ensures
        body_bytes(records).len() >= 56 * records.len(),
    decreases records.len(),
{
    if records.len() > 0 {
        lemma_body_min(records.drop_last());
        lemma_record_len(records.last());
    }
}

proof fn lemma_body_prefix(records: Seq<RecordView>, i: int)
    requires
        0 <= i <= records.len(),
    ensures
        body_bytes(records.take(i)).len() <= body_bytes(records).len(),
        body_bytes(records).take(body_bytes(records.take(i)).len() as int) == body_bytes(
            records.take(i),
        ),
    decreases records.len(),
{
    if i == records.len() {
        assert(records.take(i) =~= records);
        assert(body_bytes(records).take(body_bytes(records).len() as int) =~= body_bytes(records));
    } else {
        lemma_body_prefix(records.drop_last(), i);
        assert(records.drop_last().take(i) =~= records.take(i));
        let n = body_bytes(records.take(i)).len() as int;
        assert(body_bytes(records).take(n) =~= body_bytes(records.drop_last()).take(n));
    }
}

/// The fields of a record, within its bytes.
proof fn lemma_record_fields(r: RecordView)
    ensures
        ({
            let rec = record_bytes(r);
            let s = r.hybrid_sig.len() as int;
            let n = rec.len() as int;
            let ref_bytes = encode_utf8(r.snapshot_ref);
            &&& n == 56 + s + ref_bytes.len()
            &&& rec.subrange(0, 8) == be_bytes(r.version as nat, 8)
            &&& rec.subrange(8, 40) == r.signed_root@
            &&& rec.subrange(40, 48) == be_bytes(r.timestamp as nat, 8)
            &&& rec.subrange(48, 52) == be_bytes(r.hybrid_sig.len(), 4)
            &&& rec.subrange(52, 52 + s) == r.hybrid_sig
            &&& rec.subrange(52 + s, 56 + s) == be_bytes(ref_bytes.len(), 4)
            &&& rec.subrange(56 + s, n) == ref_bytes
        }),
{
    let rec = record_bytes(r);
    let s = r.hybrid_sig.len() as int;
    let ref_bytes = encode_utf8(r.snapshot_ref);
    lemma_record_len(r);
    lemma_be_len(r.version as nat, 8);
    lemma_be_len(r.timestamp as nat, 8);
    lemma_be_len(r.hybrid_sig.len(), 4);
    lemma_be_len(ref_bytes.len(), 4);
    assert(rec.subrange(0, 8) =~= be_bytes(r.version as nat, 8));
    assert(rec.subrange(8, 40) =~= r.signed_root@);
    assert(rec.subrange(40, 48) =~= be_bytes(r.timestamp as nat, 8));
    assert(rec.subrange(48, 52) =~= be_bytes(r.hybrid_sig.len(), 4));
    assert(rec.subrange(52, 52 + s) =~= r.hybrid_sig);
    assert(rec.subrange(52 + s, 56 + s) =~= be_bytes(ref_bytes.len(), 4));
    assert(rec.subrange(56 + s, rec.len() as int) =~= ref_bytes);
}

/// Record `i` of an encoding lies at `off`.
proof fn lemma_record_place(data: Seq<u8>, rs: Seq<RecordView>, i: int, off: int)
    requires
        is_encoding(data, rs),
        0 <= i < rs.len(),
        off == 12 + body_bytes(rs.take(i)).len(),
    ensures
        off + record_bytes(rs[i]).len() == 12 + body_bytes(rs.take(i + 1)).len(),
        off + record_bytes(rs[i]).len() <= data.len(),
        data.subrange(off, off + record_bytes(rs[i]).len()) == record_bytes(rs[i]),
{
    let rec = record_bytes(rs[i]);
    lemma_body_prefix(rs, i + 1);
    assert(rs.take(i + 1).drop_last() =~= rs.take(i));
    assert(rs.take(i + 1).last() == rs[i]);
    lemma_be_len(rs.len(), 4);
    let body = body_bytes(rs);
    let n = body_bytes(rs.take(i)).len() as int;
    let m = body_bytes(rs.take(i + 1)).len() as int;
    assert(m == n + rec.len());
    assert(body.take(m) == body_bytes(rs.take(i)) + rec);
    assert(body.subrange(n, m) =~= body.take(m).subrange(n, m));
    assert(body.subrange(n, m) =~= rec);
    assert(data.subrange(off, off + rec.len()) =~= body.subrange(n, m));
}

/// The fields of record `i` of an encoding read as they should.
proof fn lemma_record_at(data: Seq<u8>, rs: Seq<RecordView>, i: int, off: int)
    requires
        is_encoding(data, rs),
        0 <= i < rs.len(),
        off == 12 + body_bytes(rs.take(i)).len(),
    ensures
        ({
            let r = rs[i];
            let sig_to = off + 52 + r.hybrid_sig.len();
            let ref_bytes = encode_utf8(r.snapshot_ref);
            let end = sig_to + 4 + ref_bytes.len();
            &&& end <= data.len()
            &&& end == 12 + body_bytes(rs.take(i + 1)).len()
            &&& from_be(data.subrange(off, off + 8)) == r.version
            &&& data.subrange(off + 8, off + 40) == r.signed_root@
            &&& from_be(data.subrange(off + 40, off + 48)) == r.timestamp
            &&& from_be(data.subrange(off + 48, off + 52)) == r.hybrid_sig.len()
            &&& data.subrange(off + 52, sig_to) == r.hybrid_sig
            &&& from_be(data.subrange(sig_to, sig_to + 4)) == ref_bytes.len()
            &&& data.subrange(sig_to + 4, end) == ref_bytes
        }),
{
    let r = rs[i];
    let ref_bytes = encode_utf8(r.snapshot_ref);
    let rec = record_bytes(r);
    let s = r.hybrid_sig.len() as int;
    let n = rec.len() as int;
    lemma_record_place(data, rs, i, off);
    lemma_record_fields(r);
    lemma_byte_span();
    assert(record_fits(rs[i]));
    lemma_be_roundtrip(r.version as nat, 8);
    lemma_be_roundtrip(r.timestamp as nat, 8);
    lemma_be_roundtrip(r.hybrid_sig.len(), 4);
    lemma_be_roundtrip(ref_bytes.len(), 4);
    lemma_part_of_part(data, off, rec, 0, 8);
    lemma_part_of_part(data, off, rec, 8, 40);
    lemma_part_of_part(data, off, rec, 40, 48);
    lemma_part_of_part(data, off, rec, 48, 52);
    lemma_part_of_part(data, off, rec, 52, 52 + s);
    lemma_part_of_part(data, off, rec, 52 + s, 56 + s);
    lemma_part_of_part(data, off, rec, 56 + s, n);
}

proof fn lemma_part_of_part(data: Seq<u8>, off: int, part: Seq<u8>, from: int, to: int)
    requires
        0 <= off,
        off + part.len() <= data.len(),
        data.subrange(off, off + part.len()) == part,
        0 <= from <= to <= part.len(),
    ensures
        data.subrange(off + from, off + to) == part.subrange(from, to),
{
    assert(data.subrange(off + from, off + to) =~= data.subrange(off, off + part.len()).subrange(
        from,
        to,
    ));
}

proof fn lemma_be_of_from_be(s: Seq<u8>)
    ensures
        be_bytes(from_be(s), s.len()) == s,
    decreases s.len(),
{
    if s.len() > 0 {
        lemma_be_of_from_be(s.drop_last());
        assert(s =~= s.drop_last().push(s.last()));
    }
}

/// Fields that were read from `data` write back to the bytes they came from.
proof fn lemma_read_back(data: Seq<u8>, off: int, r: RecordView, sig_to: int, end: int)
    requires
        0 <= off,
        off + 52 <= sig_to,
        sig_to + 4 <= end <= data.len(),
        from_be(data.subrange(off, off + 8)) == r.version,
        data.subrange(off + 8, off + 40) == r.signed_root@,
        from_be(data.subrange(off + 40, off + 48)) == r.timestamp,
        from_be(data.subrange(off + 48, off + 52)) == sig_to - off - 52,
        data.subrange(off + 52, sig_to) == r.hybrid_sig,
        from_be(data.subrange(sig_to, sig_to + 4)) == end - sig_to - 4,
        data.subrange(sig_to + 4, end) == encode_utf8(r.snapshot_ref),
    ensures
        data.subrange(off, end) == record_bytes(r),
{
    lemma_be_of_from_be(data.subrange(off, off + 8));
    lemma_be_of_from_be(data.subrange(off + 40, off + 48));
    lemma_be_of_from_be(data.subrange(off + 48, off + 52));
    lemma_be_of_from_be(data.subrange(sig_to, sig_to + 4));
    assert(data.subrange(off, end) =~= data.subrange(off, off + 8) + data.subrange(
        off + 8,
        off + 40,
    ) + data.subrange(off + 40, off + 48) + (data.subrange(off + 48, off + 52) + data.subrange(
        off + 52,
        sig_to,
    )) + (data.subrange(sig_to, sig_to + 4) + data.subrange(sig_to + 4, end)));
}

/// A journal that four bytes can count packs to bytes that are an encoding of
/// it and of no other journal: unpacking them gives the same records back.
pub proof fn law_journal_roundtrip(records: Seq<RecordView>, others: Seq<RecordView>)
    requires
        is_journal(records),
        records.len() <= u32::MAX,
    ensures
        is_encoding(journal_bytes(records), records),
        is_encoding(journal_bytes(records), others) ==> others == records,
{
    let data = journal_bytes(records);
    if is_encoding(data, others) {
        lemma_header(data, records);
        lemma_header(data, others);
        lemma_same_prefix(data, records, others, records.len() as int);
        assert(records.take(records.len() as int) =~= records);
        assert(others.take(others.len() as int) =~= others);
    }
}

proof fn lemma_same_prefix(data: Seq<u8>, a: Seq<RecordView>, b: Seq<RecordView>, i: int)
    requires
        is_encoding(data, a),
        is_encoding(data, b),
        a.len() == b.len(),
        0 <= i <= a.len(),
    ensures
        a.take(i) == b.take(i),
    decreases i,
{
    if i > 0 {
        lemma_same_prefix(data, a, b, i - 1);
        let off = 12 + body_bytes(a.take(i - 1)).len() as int;
        lemma_record_at(data, a, i - 1, off);
        lemma_record_at(data, b, i - 1, off);
        lemma_digest_ext(a[i - 1].signed_root, b[i - 1].signed_root);
        vstd::utf8::encode_utf8_decode_utf8(a[i - 1].snapshot_ref);
        vstd::utf8::encode_utf8_decode_utf8(b[i - 1].snapshot_ref);
        assert(a[i - 1] == b[i - 1]);
        assert(a.take(i) =~= a.take(i - 1).push(a[i - 1]));
        assert(b.take(i) =~= b.take(i - 1).push(b[i - 1]));
    } else {
        assert(a.take(0) =~= b.take(0));
    }
}

/// A written record has its version, the signed root, the time, the signature and
/// the snapshot reference, in this order; numbers are big-endian, and the last two
/// come with their lengths.
pub proof fn law_record_fields_stand(r: RecordView)
    requires
        record_fits(r),
    ensures
        ({
            let rec = record_bytes(r);
            let s = r.hybrid_sig.len() as int;
            let name = encode_utf8(r.snapshot_ref);
            &&& rec.len() == 56 + s + name.len()
            &&& from_be(rec.subrange(0, 8)) == r.version
            &&& rec.subrange(8, 40) == r.signed_root@
            &&& from_be(rec.subrange(40, 48)) == r.timestamp
            &&& from_be(rec.subrange(48, 52)) == s
            &&& rec.subrange(52, 52 + s) == r.hybrid_sig
            &&& from_be(rec.subrange(52 + s, 56 + s)) == name.len()
            &&& rec.subrange(56 + s, rec.len() as int) == name
        }),
{
    lemma_record_fields(r);
    lemma_byte_span();
    lemma_be_roundtrip(r.version as nat, 8);
    lemma_be_roundtrip(r.timestamp as nat, 8);
    lemma_be_roundtrip(r.hybrid_sig.len(), 4);
    lemma_be_roundtrip(encode_utf8(r.snapshot_ref).len(), 4);
}

/// A packed journal starts with `MJRN`, its version, three zeros and the number of
/// its records; then come the records, oldest first.
pub proof fn law_packed_journal_has_header(records: Seq<RecordView>, i: int)
    requires
        is_journal(records),
        records.len() <= u32::MAX,
        0 <= i < records.len(),
    ensures
        ({
            let data = journal_bytes(records);
            let at = 12 + body_bytes(records.take(i)).len() as int;
            &&& data.take(8) == seq![0x4du8, 0x4a, 0x52, 0x4e, 1, 0, 0, 0]
            &&& from_be(data.subrange(8, 12)) == records.len()
            &&& at + record_bytes(records[i]).len() <= data.len()
            &&& data.subrange(at, at + record_bytes(records[i]).len()) == record_bytes(records[i])
        }),
{
    let data = journal_bytes(records);
    let at = 12 + body_bytes(records.take(i)).len() as int;
    lemma_header(data, records);
    assert(data.take(8) =~= seq![0x4du8, 0x4a, 0x52, 0x4e, 1, 0, 0, 0]);
    lemma_record_place(data, records, i, at);
}

/// Bytes are accepted as a journal only if the versions of its records increase
/// strictly, and nothing stands behind the last record.
pub proof fn law_accepted_journal_is_increasing(
    data: Seq<u8>,
    records: Seq<RecordView>,
    i: int,
    j: int,
)
    requires
        is_encoding(data, records),
        0 <= i < j < records.len(),
    ensures
        records[i].version < records[j].version,
        data.len() == 12 + body_bytes(records).len(),
{
    lemma_be_len(records.len(), 4);
}

/// Why bytes are refused: an unknown version where everything before it is right,
/// else damage.
pub proof fn law_refused_journal_is_explained(data: Seq<u8>)
    ensures
        data.len() < 12 ==> rejection(data) == MerkleError::JournalCorrupt,
        data.len() >= 12 && data.take(4) != seq![0x4du8, 0x4a, 0x52, 0x4e] ==> rejection(data)
            == MerkleError::JournalCorrupt,
        data.len() >= 12 && data.take(4) == seq![0x4du8, 0x4a, 0x52, 0x4e] && data[4] != 1
            ==> rejection(data) == (MerkleError::JournalUnsupportedVersion { found: data[4] }),
        data.len() >= 12 && data.take(4) == seq![0x4du8, 0x4a, 0x52, 0x4e] && data[4] == 1
            ==> rejection(data) == MerkleError::JournalCorrupt,
{
    if data.len() >= 12 {
        assert(data.take(4) =~= data.subrange(0, 4));
    }
}

} // verus!
