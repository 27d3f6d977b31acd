//! Dataset version counters, and the guard against presenting an older one.

use crate::bytes::{be_bytes, from_be, lemma_be_len, lemma_be_roundtrip, lemma_byte_span, push_be, read_be};
use crate::text::same_text;
use crate::error::{InvalidAttrReason, MerkleError};
use vstd::prelude::*;

verus! {

/// The name under which the counter is stored.
pub const MERKLE_VERSION_ATTR_NAME: &'static str = "merkle_version";

/// Bytes in a stored counter.
pub const MERKLE_VERSION_ATTR_SIZE: usize = 8;

/// The counter as eight bytes, most significant first.
pub fn pack_merkle_version(version: u64) -> (r: [u8; 8])
    ensures
        r@ == be_bytes(version as nat, 8),
{
    let mut v: Vec<u8> = Vec::with_capacity(8);
    push_be(&mut v, version, 8);
    proof {
        lemma_be_len(version as nat, 8);
    }
    assert(v@ =~= be_bytes(version as nat, 8));
    let mut r: [u8; 8] = [0u8;8];
    let mut i: usize = 0;
    while i < 8
        invariant
            i <= 8,
            v@.len() == 8,
            forall|j: int| 0 <= j < i ==> r[j] == v@[j],
        decreases 8 - i,
    {
        r[i] = v[i];
        i = i + 1;
    }
    assert(r@ =~= v@);
    r
}

/// Reads a stored counter.
pub fn unpack_merkle_version(data: &[u8]) -> (r: Result<u64, MerkleError>)
    ensures
        match r {
            Ok(v) => data@.len() == 8 && v == from_be(data@),
            Err(e) => data@.len() != 8 && e == (MerkleError::InvalidAttribute {
                reason: InvalidAttrReason::WrongSize,
            }),
        },
{
    if data.len() != MERKLE_VERSION_ATTR_SIZE {
        return Err(MerkleError::InvalidAttribute { reason: InvalidAttrReason::WrongSize });
    }
    assert(data@.subrange(0, 8) =~= data@);
    Ok(read_be(data, 0, 8))
}

/// A packed counter reads back as itself.
pub proof fn law_version_roundtrip(version: u64)
    ensures
        be_bytes(version as nat, 8).len() == 8,
        from_be(be_bytes(version as nat, 8)) == version,
{
    lemma_be_len(version as nat, 8);
    lemma_byte_span();
    lemma_be_roundtrip(version as nat, 8);
}

/// One dataset and the highest version seen of it.
#[derive(Debug, Clone)]
pub struct Observation {
    key: String,
    version: u64,
}

/// Remembers, for each dataset, the highest version seen.
#[derive(Debug, Clone)]
pub struct VersionObservationStore {
    entries: Vec<Observation>,
}

/// What a list of observations maps each key to.
pub closed spec fn observations(entries: Seq<Observation>) -> Map<Seq<char>, u64>
    decreases entries.len(),
{
    if entries.len() == 0 {
        Map::empty()
    } else {
        observations(entries.drop_last()).insert(entries.last().key@, entries.last().version)
    }
}

spec fn distinct_keys(entries: Seq<Observation>) -> bool {
    forall|i: int, j: int|
        0 <= i < entries.len() && 0 <= j < entries.len() && i != j ==> entries[i].key@
            != entries[j].key@
}

proof fn lemma_lookup(entries: Seq<Observation>, i: int)
    requires
        distinct_keys(entries),
        0 <= i < entries.len(),
    ensures
        observations(entries).contains_key(entries[i].key@),
        observations(entries)[entries[i].key@] == entries[i].version,
    decreases entries.len(),
{
    if i < entries.len() - 1 {
        lemma_lookup(entries.drop_last(), i);
        assert(entries[i].key@ != entries.last().key@);
    }
}

proof fn lemma_absent(entries: Seq<Observation>, key: Seq<char>)
    requires
        forall|i: int| 0 <= i < entries.len() ==> entries[i].key@ != key,
    ensures
        !observations(entries).contains_key(key),
    decreases entries.len(),
{
    if entries.len() > 0 {
        lemma_absent(entries.drop_last(), key);
        assert(entries.last().key@ != key);
    }
}

proof fn lemma_replaced(a: Seq<Observation>, b: Seq<Observation>, i: int)
    requires
        distinct_keys(a),
        0 <= i < a.len(),
        a.len() == b.len(),
        forall|j: int| 0 <= j < a.len() && j != i ==> a[j] == b[j],
        a[i].key@ == b[i].key@,
    ensures
        distinct_keys(b),
        observations(b) == observations(a).insert(a[i].key@, b[i].version),
    decreases a.len(),
{
    assert forall|x: int, y: int|
        0 <= x < b.len() && 0 <= y < b.len() && x != y implies b[x].key@ != b[y].key@ by {
        assert(a[x].key@ != a[y].key@);
    }
    let n = a.len() - 1;
    if i == n {
        assert(a.drop_last() =~= b.drop_last());
        assert(observations(b) =~= observations(a).insert(a[i].key@, b[i].version));
    } else {
        lemma_replaced(a.drop_last(), b.drop_last(), i);
        assert(a[n] == b[n]);
        assert(a[i].key@ != a[n].key@);
        assert(observations(b) =~= observations(a).insert(a[i].key@, b[i].version));
    }
}

proof fn lemma_count(entries: Seq<Observation>)
    requires
        distinct_keys(entries),
    ensures
        observations(entries).dom().finite(),
        observations(entries).dom().len() == entries.len(),
    decreases entries.len(),
{
    if entries.len() > 0 {
        let rest = entries.drop_last();
        lemma_count(rest);
        assert forall|i: int| 0 <= i < rest.len() implies rest[i].key@ != entries.last().key@ by {
            assert(entries[i].key@ != entries[entries.len() - 1].key@);
        }
        lemma_absent(rest, entries.last().key@);
        assert(observations(entries).dom() =~= observations(rest).dom().insert(
            entries.last().key@,
        ));
    } else {
        assert(observations(entries).dom() =~= Set::empty());
    }
}

impl View for VersionObservationStore {
    type V = Map<Seq<char>, u64>;

    closed spec fn view(&self) -> Map<Seq<char>, u64> {
        observations(self.entries@)
    }
}

/// The highest versions after `version` of `key` has been presented.
pub open spec fn observed(seen: Map<Seq<char>, u64>, key: Seq<char>, version: u64) -> Map<
    Seq<char>,
    u64,
> {
    if seen.contains_key(key) && version <= seen[key] {
        seen
    } else {
        seen.insert(key, version)
    }
}

impl Default for VersionObservationStore {
    fn default() -> (r: Self)
        ensures
            r.wf(),
            r@ == Map::<Seq<char>, u64>::empty(),
    {
        VersionObservationStore::new()
    }
}

impl VersionObservationStore {
    /// No key is stored twice.
    pub closed spec fn keys_are_distinct(&self) -> bool {
        distinct_keys(self.entries@)
    }

    /// The invariant: no key is stored twice, and finitely many are.
    pub open spec fn wf(&self) -> bool {
        &&& self.keys_are_distinct()
        &&& self@.dom().finite()
    }

    /// A store that has seen nothing.
    pub fn new() -> (r: Self)
        ensures
            r.wf(),
            r@ == Map::<Seq<char>, u64>::empty(),
    {
        VersionObservationStore { entries: Vec::new() }
    }

    fn find(&self, key: &str) -> (r: Option<usize>)
        ensures
            match r {
                Some(i) => i < self.entries@.len() && self.entries@[i as int].key@ == key@,
                None => forall|i: int|
                    0 <= i < self.entries@.len() ==> self.entries@[i].key@ != key@,
            },
    {
        let mut i: usize = 0;
        while i < self.entries.len()
            invariant
                i <= self.entries@.len(),
                forall|j: int| 0 <= j < i ==> self.entries@[j].key@ != key@,
            decreases self.entries@.len() - i,
        {
            if same_text(self.entries[i].key.as_str(), key) {
                return Some(i);
            }
            i = i + 1;
        }
        None
    }

    /// Records a version; one lower than the highest seen is refused.
    pub fn observe(&mut self, key: &str, version: u64) -> (r: Result<(), MerkleError>)
        requires
            old(self).wf(),
        ensures
            final(self).wf(),
            final(self)@ == observed(old(self)@, key@, version),
            final(self)@.contains_key(key@),
            final(self)@[key@] == if old(self)@.contains_key(key@) && old(self)@[key@] > version {
                old(self)@[key@]
            } else {
                version
            },
            forall|other: Seq<char>|
                other != key@ ==> (#[trigger] final(self)@.contains_key(other)
                    == old(self)@.contains_key(other)) && (old(self)@.contains_key(other)
                    ==> final(self)@[other] == old(self)@[other]),
            final(self)@.dom().len() == old(self)@.dom().len() + if old(self)@.contains_key(key@) {
                0int
            } else {
                1
            },
            r == if old(self)@.contains_key(key@) && version < old(self)@[key@] {
                Err::<(), MerkleError>(
                    MerkleError::VersionRollback {
                        observed: version,
                        highest_seen: old(self)@[key@],
                    },
                )
            } else {
                Ok(())
            },
    {
        proof {
            law_first_observation_counts(self@, key@, version);
        }
        match self.find(key) {
            Some(i) => {
                proof {
                    lemma_lookup(self.entries@, i as int);
                }
                let highest: u64 = self.entries[i].version;
                if version < highest {
                    return Err(
                        MerkleError::VersionRollback { observed: version, highest_seen: highest },
                    );
                }
                if version > highest {
                    let ghost before = self.entries@;
                    let entry = Observation { key: key.to_owned(), version };
                    self.entries.set(i, entry);
                    proof {
                        lemma_replaced(before, self.entries@, i as int);
                    }
                }
                Ok(())
            },
            None => {
                let ghost before = self.entries@;
                proof {
                    lemma_absent(before, key@);
                }
                self.entries.push(Observation { key: key.to_owned(), version });
                assert(self.entries@.drop_last() =~= before);
                Ok(())
            },
        }
    }

    /// The highest version seen of `key`.
    pub fn highest(&self, key: &str) -> (r: Option<u64>)
        requires
            self.wf(),
        ensures
            r == if self@.contains_key(key@) {
                Some(self@[key@])
            } else {
                None::<u64>
            },
    {
        match self.find(key) {
            Some(i) => {
                proof {
                    lemma_lookup(self.entries@, i as int);
                }
                Some(self.entries[i].version)
            },
            None => {
                proof {
                    lemma_absent(self.entries@, key@);
                }
                None
            },
        }
    }

    /// How many keys have been seen.
    pub fn len(&self) -> (n: usize)
        requires
            self.wf(),
        ensures
            n == self@.dom().len(),
    {
        proof {
            lemma_count(self.entries@);
        }
        self.entries.len()
    }

    /// Whether nothing has been seen.
    pub fn is_empty(&self) -> (r: bool)
        requires
            self.wf(),
        ensures
            r == (self@.dom().len() == 0),
    {
        proof {
            lemma_count(self.entries@);
        }
        self.entries.len() == 0
    }
}

/// A dataset counts once: its first observation adds one to the number of those
/// seen, and no later one does.
pub proof fn law_first_observation_counts(seen: Map<Seq<char>, u64>, key: Seq<char>, version: u64)
    requires
        seen.dom().finite(),
    ensures
        observed(seen, key, version).dom().finite(),
        observed(seen, key, version).dom().len() == seen.dom().len() + if seen.contains_key(key) {
            0int
        } else {
            1
        },
{
    assert(seen.insert(key, version).dom() =~= seen.dom().insert(key));
}

/// What has been seen of a dataset never goes down, and no other dataset's
/// record changes.
pub proof fn law_observation_is_monotonic(
    seen: Map<Seq<char>, u64>,
    key: Seq<char>,
    version: u64,
    other: Seq<char>,
)
    ensures
        observed(seen, key, version).contains_key(key),
        observed(seen, key, version)[key] >= version,
        seen.contains_key(other) ==> observed(seen, key, version).contains_key(other) && observed(
            seen,
            key,
            version,
        )[other] >= seen[other],
        other != key ==> (observed(seen, key, version).contains_key(other) == seen.contains_key(
            other,
        )),
        other != key && seen.contains_key(other) ==> observed(seen, key, version)[other]
            == seen[other],
        observed(seen, key, version)[key] == version || (seen.contains_key(key) && observed(
            seen,
            key,
            version,
        )[key] == seen[key]),
{
}

} // verus!
