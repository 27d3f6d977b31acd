//! The connector for files shared by the processes of an MPI program: one
//! process reads and writes, the others receive from it and send to it.
//!
//! What that process does with a file's bytes and with the pieces it is sent is
//! here. Moving bytes between processes is not.

use crate::builders::{bits32_bytes, bits64_bytes, DatasetBuilder, FillTime};
use crate::bytes::{
    extend, from_le, joined, le64_all, le_bytes, lemma_byte_span, lemma_from_le_bound, lemma_le_len,
    read_le,
};
use crate::file_laws::is_writable;
use crate::file_writer::FileWriter;
use crate::messages::{link_bytes, width_of, Datatype};
use crate::migrate::{blob_to_f32, blob_words};
use crate::path_laws::{is_readable, is_searchable, is_step, law_root_dataset_reads_back};
use crate::reader::{read_answer, read_dataset, ReadFault};
use crate::text::{push_text, same_text};
use vstd::prelude::*;
use vstd::utf8::encode_utf8;

verus! {

/// What a connector can do.
#[derive(Clone, Copy, PartialEq, Eq, Debug, Structural)]
pub enum VolCapability {
    ReadData,
    WriteData,
    ListObjects,
    ChunkedStorage,
    ParallelIO,
}

/// Why a connector refused.
#[derive(Debug, PartialEq, Eq)]
pub enum VolError {
    /// No file is open.
    NotOpen,
    Unsupported(String),
    NotFound(String),
    DataError(String),
}

impl VolError {
    pub open spec fn spec_message(&self) -> Seq<char> {
        match self {
            VolError::NotOpen => "file not open"@,
            VolError::Unsupported(t) => "unsupported: "@ + t@,
            VolError::NotFound(t) => "not found: "@ + t@,
            VolError::DataError(t) => "data error: "@ + t@,
        }
    }

    /// The error in words.
    pub fn message(&self) -> (r: String)
        ensures
            r@ == self.spec_message(),
    {
        match self {
            VolError::NotOpen => "file not open".to_owned(),
            VolError::Unsupported(t) => {
                let mut s: String = "unsupported: ".to_owned();
                push_text(&mut s, t.as_str());
                s
            },
            VolError::NotFound(t) => {
                let mut s: String = "not found: ".to_owned();
                push_text(&mut s, t.as_str());
                s
            },
            VolError::DataError(t) => {
                let mut s: String = "data error: ".to_owned();
                push_text(&mut s, t.as_str());
                s
            },
        }
    }
}

/// The connector.
#[derive(Debug)]
pub struct MpiVol {
    /// The file that is open, if one is.
    pub location: Option<String>,
}

/// What the connector claims, in order.
pub open spec fn claimed() -> Seq<VolCapability> {
    seq![
        VolCapability::ReadData,
        VolCapability::WriteData,
        VolCapability::ListObjects,
        VolCapability::ChunkedStorage,
        VolCapability::ParallelIO,
    ]
}

/// Whether `e` is [`VolError::Unsupported`] with this text.
pub open spec fn is_unsupported(e: VolError, text: Seq<char>) -> bool {
    e matches VolError::Unsupported(t) && t@ == text
}

impl MpiVol {
    /// A connector for all processes of the program. Without MPI there is none.
    pub fn new_world() -> (r: Result<Self, VolError>)
        ensures
            r is Err,
            is_unsupported(r->Err_0, "MPI-IO support requires the `mpi-io` feature"@),
    {
        Err(VolError::Unsupported("MPI-IO support requires the `mpi-io` feature".to_owned()))
    }

    /// What a connector of this kind claims.
    pub fn expected_capabilities() -> (r: Vec<VolCapability>)
        ensures
            r@ == claimed(),
    {
        let mut r: Vec<VolCapability> = Vec::new();
        r.push(VolCapability::ReadData);
        r.push(VolCapability::WriteData);
        r.push(VolCapability::ListObjects);
        r.push(VolCapability::ChunkedStorage);
        r.push(VolCapability::ParallelIO);
        assert(r@ =~= claimed());
        r
    }

    /// The number of this process. Without MPI there is only one.
    pub fn rank(&self) -> (r: i32)
        ensures
            r == 0,
    {
        0
    }

    /// How many processes there are.
    pub fn size(&self) -> (r: i32)
        ensures
            r == 1,
    {
        1
    }

    pub fn name(&self) -> (r: &'static str)
        ensures
            r@ == "mpi-io"@,
    {
        "mpi-io"
    }

    pub fn capabilities(&self) -> (r: Vec<VolCapability>)
        ensures
            r@ == claimed(),
    {
        MpiVol::expected_capabilities()
    }

    /// Remembers which file is meant.
    pub fn open(&mut self, location: &str) -> (r: Result<(), VolError>)
        ensures
            r is Ok,
            final(self).location is Some,
            final(self).location->0@ == location@,
    {
        self.location = Some(location.to_owned());
        Ok(())
    }

    /// Forgets the file.
    pub fn close(&mut self) -> (r: Result<(), VolError>)
        ensures
            r is Ok,
            final(self).location is None,
    {
        self.location = None;
        Ok(())
    }

    /// Reads a dataset for all processes. Without MPI this is refused.
    pub fn read_dataset(&self, path: &str) -> (r: Result<Vec<u8>, VolError>)
        ensures
            r is Err,
            self.location is None ==> r->Err_0 == VolError::NotOpen,
            self.location is Some ==> is_unsupported(r->Err_0, "mpi-io feature not enabled"@),
    {
        let _ = path;
        if self.location.is_none() {
            return Err(VolError::NotOpen);
        }
        Err(VolError::Unsupported("mpi-io feature not enabled".to_owned()))
    }

    /// Writes a dataset of all processes. Without MPI this is refused.
    pub fn write_dataset(&mut self, path: &str, data: &[u8], shape: &[u64], dtype: &str) -> (r:
        Result<(), VolError>)
        ensures
            *final(self) == *old(self),
            r is Err,
            old(self).location is None ==> r->Err_0 == VolError::NotOpen,
            old(self).location is Some ==> is_unsupported(
                r->Err_0,
                "mpi-io feature not enabled"@,
            ),
    {
        let _ = path;
        let _ = data;
        let _ = shape;
        let _ = dtype;
        if self.location.is_none() {
            return Err(VolError::NotOpen);
        }
        Err(VolError::Unsupported("mpi-io feature not enabled".to_owned()))
    }
}

// ---------------------------------------------------------------------------
// Reading
// ---------------------------------------------------------------------------

/// Whether `e` is what is answered where a read goes wrong.
pub open spec fn is_read_error(e: VolError, fault: ReadFault, path: Seq<char>) -> bool {
    match fault {
        ReadFault::NotFound => e matches VolError::NotFound(t) && t@ == path + ": no such object"@,
        ReadFault::NoSuperblock => e matches VolError::DataError(t) && t@ == "no superblock"@,
        ReadFault::NoHeader => e matches VolError::DataError(t) && t@ == "no object header"@,
        ReadFault::NoDatatype => e matches VolError::DataError(t) && t@ == "no datatype"@,
        ReadFault::NoDataspace => e matches VolError::DataError(t) && t@ == "no dataspace"@,
        ReadFault::NoDataLayout => e matches VolError::DataError(t) && t@ == "no data layout"@,
        ReadFault::UnsupportedLayout => e matches VolError::DataError(t) && t@
            == "unsupported data layout"@,
        ReadFault::UnsupportedFilter => e matches VolError::DataError(t) && t@
            == "unsupported filter"@,
        ReadFault::NoChunkIndex => e matches VolError::DataError(t) && t@ == "no chunk index"@,
        ReadFault::Truncated => e matches VolError::DataError(t) && t@ == "data past end of file"@,
    }
}

fn read_error(fault: ReadFault, path: &str) -> (e: VolError)
    ensures
        is_read_error(e, fault, path@),
{
    match fault {
        ReadFault::NotFound => {
            let mut text: String = path.to_owned();
            push_text(&mut text, ": no such object");
            VolError::NotFound(text)
        },
        ReadFault::NoSuperblock => VolError::DataError("no superblock".to_owned()),
        ReadFault::NoHeader => VolError::DataError("no object header".to_owned()),
        ReadFault::NoDatatype => VolError::DataError("no datatype".to_owned()),
        ReadFault::NoDataspace => VolError::DataError("no dataspace".to_owned()),
        ReadFault::NoDataLayout => VolError::DataError("no data layout".to_owned()),
        ReadFault::UnsupportedLayout => VolError::DataError("unsupported data layout".to_owned()),
        ReadFault::UnsupportedFilter => VolError::DataError("unsupported filter".to_owned()),
        ReadFault::NoChunkIndex => VolError::DataError("no chunk index".to_owned()),
        ReadFault::Truncated => VolError::DataError("data past end of file".to_owned()),
    }
}

/// What the reading process sends to the others: the dataset's bytes.
pub fn collective_read(file: &[u8], path: &str) -> (r: Result<Vec<u8>, VolError>)
    ensures
        match read_answer(file@, encode_utf8(path@)) {
            Ok(data) => r is Ok && r->Ok_0@ == data,
            Err(fault) => r is Err && is_read_error(r->Err_0, fault, path@),
        },
{
    match read_dataset(file, path) {
        Ok(data) => Ok(data),
        Err(fault) => Err(read_error(fault, path)),
    }
}

// ---------------------------------------------------------------------------
// Writing
// ---------------------------------------------------------------------------

/// The contents of a list of pieces.
pub open spec fn pieces(v: Seq<Vec<u8>>) -> Seq<Seq<u8>> {
    Seq::new(v.len(), |i: int| v[i]@)
}

/// The pieces of all processes, in the order of their numbers.
pub fn merge_shards(shards: &Vec<Vec<u8>>) -> (r: Vec<u8>)
    ensures
        r@ == joined(pieces(shards@)),
        pieces(shards@).len() == shards@.len(),
        forall|i: int| 0 <= i < shards@.len() ==> #[trigger] pieces(shards@)[i] == shards@[i]@,
{
    let ghost all = pieces(shards@);
    let mut merged: Vec<u8> = Vec::new();
    let mut i: usize = 0;
    assert(merged@ =~= joined(all.take(0)));
    while i < shards.len()
        invariant
            i <= shards@.len(),
            all == pieces(shards@),
            merged@ == joined(all.take(i as int)),
        decreases shards@.len() - i,
    {
        proof {
            assert(all.take(i + 1).drop_last() =~= all.take(i as int));
            assert(all.take(i + 1).last() == shards@[i as int]@);
        }
        extend(&mut merged, shards[i].as_slice());
        i = i + 1;
    }
    assert(all.take(i as int) =~= all);
    merged
}

/// The little-endian 64-bit words of some bytes; a rest of less than eight is
/// left out.
pub open spec fn long_words(data: Seq<u8>) -> Seq<u64> {
    Seq::new(
        data.len() / 8,
        |i: int| from_le(data.subrange(8 * i, 8 * i + 8)) as u64,
    )
}

pub(crate) fn to_long_words(data: &[u8]) -> (words: Vec<u64>)
    ensures
        words@ == long_words(data@),
{
    let len: usize = data.len();
    let n: usize = len / 8;
    let mut words: Vec<u64> = Vec::new();
    let mut i: usize = 0;
    while i < n
        invariant
            len == data@.len(),
            i <= n == len / 8,
            words@.len() == i,
            forall|j: int| 0 <= j < i ==> #[trigger] words@[j] == long_words(data@)[j],
        decreases n - i,
    {
        words.push(read_le(data, 8 * i, 8));
        i = i + 1;
    }
    assert(words@ =~= long_words(data@));
    words
}

/// The element type a name stands for.
pub open spec fn named_type(dtype: Seq<char>) -> Option<Datatype> {
    if dtype == "f64"@ {
        Some(Datatype::Float64)
    } else if dtype == "f32"@ {
        Some(Datatype::Float32)
    } else {
        None
    }
}

/// The whole elements among some bytes.
pub open spec fn whole_elements(data: Seq<u8>, t: Datatype) -> Seq<u8> {
    let n = t.spec_size() as int;
    data.take(n * (data.len() as int / n))
}

/// Whether `fw` describes a file with nothing but one list of elements, under
/// the given name.
pub open spec fn holds_only(fw: FileWriter, name: Seq<char>, t: Datatype, data: Seq<u8>) -> bool {
    &&& fw.groups@.len() == 0
    &&& fw.root_attrs@.len() == 0
    &&& fw.alignment_threshold == 0
    &&& fw.alignment_bytes == 0
    &&& fw.root_datasets@.len() == 1
    &&& {
        let d = fw.root_datasets@[0];
        &&& d.name@ == name
        &&& d.datatype == Some(t)
        &&& d.data is Some
        &&& d.data->0@ == data
        &&& d.shape is Some
        &&& d.shape->0@ == seq![(data.len() / t.spec_size() as nat) as u64]
        &&& d.maxshape is None
        &&& d.attrs@.len() == 0
        &&& d.chunk_options.chunk_dims is None
        &&& !d.compact
        &&& d.virtual_sources is None
        &&& d.alignment == 0
        &&& d.fill_time == FillTime::IfSet
    }
}

proof fn lemma_long_words(data: Seq<u8>)
    ensures
        bits64_bytes(long_words(data)) == whole_elements(data, Datatype::Float64),
    decreases data.len(),
{
    let n = data.len() / 8;
    lemma_words_prefix(data, n);
    assert(long_words(data).take(n as int) =~= long_words(data));
}

proof fn lemma_words_prefix(data: Seq<u8>, k: nat)
    requires
        k <= data.len() / 8,
    ensures
        le64_all(long_words(data).take(k as int)) == data.take(8 * k as int),
    decreases k,
{
    let words = long_words(data);
    if k > 0 {
        lemma_words_prefix(data, (k - 1) as nat);
        assert(words.take(k as int).drop_last() =~= words.take(k - 1));
        let i = k - 1;
        lemma_le_from(data.subrange(8 * i, 8 * i + 8));
        lemma_from_le_bound(data.subrange(8 * i, 8 * i + 8));
        lemma_byte_span();
        assert(data.take(8 * k as int) =~= data.take(8 * i) + data.subrange(8 * i, 8 * i + 8));
    } else {
        assert(words.take(0) =~= Seq::empty());
        assert(data.take(0) =~= Seq::empty());
    }
}

/// Bytes are what their number is written as.
proof fn lemma_le_from(s: Seq<u8>)
    ensures
        le_bytes(from_le(s), s.len()) == s,
    decreases s.len(),
{
    if s.len() > 0 {
        let v = from_le(s);
        let rest = s.skip(1);
        lemma_le_from(rest);
        assert(v == s[0] as nat + 256 * from_le(rest));
        assert(v % 256 == s[0]);
        assert(v / 256 == from_le(rest));
        assert(seq![s[0]] + rest =~= s);
    }
}

proof fn lemma_short_words(data: Seq<u8>)
    ensures
        bits32_bytes(blob_words(data)) == whole_elements(data, Datatype::Float32),
{
    let n = data.len() / 4;
    lemma_short_prefix(data, n);
    assert(blob_words(data).take(n as int) =~= blob_words(data));
}

proof fn lemma_short_prefix(data: Seq<u8>, k: nat)
    requires
        k <= data.len() / 4,
    ensures
        bits32_bytes(blob_words(data).take(k as int)) == data.take(4 * k as int),
    decreases k,
{
    let words = blob_words(data);
    if k > 0 {
        lemma_short_prefix(data, (k - 1) as nat);
        assert(words.take(k as int).drop_last() =~= words.take(k - 1));
        let i = k - 1;
        lemma_le_from(data.subrange(4 * i, 4 * i + 4));
        lemma_from_le_bound(data.subrange(4 * i, 4 * i + 4));
        lemma_byte_span();
        assert(data.take(4 * k as int) =~= data.take(4 * i) + data.subrange(4 * i, 4 * i + 4));
    } else {
        assert(words.take(0) =~= Seq::empty());
        assert(data.take(0) =~= Seq::empty());
    }
}

proof fn lemma_whole_count(data: Seq<u8>)
    ensures
        whole_elements(data, Datatype::Float64).len() / 8 == data.len() / 8,
        whole_elements(data, Datatype::Float32).len() / 4 == data.len() / 4,
{
    let len = data.len() as int;
    assert(whole_elements(data, Datatype::Float64) == data.take(8 * (len / 8)));
    assert(whole_elements(data, Datatype::Float32) == data.take(4 * (len / 4)));
}

/// Describes the file that the writing process writes: the merged pieces as one
/// dataset.
pub fn collective_file(path: &str, merged: &[u8], dtype: &str) -> (r: Result<FileWriter, VolError>)
    ensures
        match named_type(dtype@) {
            Some(t) => r is Ok && holds_only(r->Ok_0, path@, t, whole_elements(merged@, t)),
            None => r is Err && is_unsupported(
                r->Err_0,
                "mpi-io write: unsupported dtype "@ + dtype@,
            ),
        },
{
    if same_text(dtype, "f64") {
        let words: Vec<u64> = to_long_words(merged);
        let mut fw: FileWriter = FileWriter::new();
        let d: &mut DatasetBuilder = fw.create_dataset(path);
        let _ = d.with_f64_bits(words.as_slice());
        proof {
            lemma_long_words(merged@);
            lemma_whole_count(merged@);
        }
        Ok(fw)
    } else if same_text(dtype, "f32") {
        let words: Vec<u32> = blob_to_f32(merged);
        let mut fw: FileWriter = FileWriter::new();
        let d: &mut DatasetBuilder = fw.create_dataset(path);
        let _ = d.with_f32_bits(words.as_slice());
        proof {
            lemma_short_words(merged@);
            lemma_whole_count(merged@);
        }
        Ok(fw)
    } else {
        let mut text: String = "mpi-io write: unsupported dtype ".to_owned();
        push_text(&mut text, dtype);
        Err(VolError::Unsupported(text))
    }
}

/// What the processes write together, each of them can read: the dataset in
/// the written file is their pieces, in order.
#[verifier::spinoff_prover]
#[verifier::rlimit(60)]
pub proof fn law_collective_write_reads_back(
    fw: FileWriter,
    path: Seq<char>,
    t: Datatype,
    shards: Seq<Seq<u8>>,
)
    requires
        holds_only(fw, path, t, whole_elements(joined(shards), t)),
        is_writable(&fw),
        is_step(path),
        encode_utf8(path).len() < 0xfff0,
    ensures
        read_answer(fw.image(), encode_utf8(path)) == Ok::<Seq<u8>, ReadFault>(
            whole_elements(joined(shards), t),
        ),
{
    let links = fw.root_links(fw.ds_addrs(), fw.grp_addrs());
    let n = encode_utf8(path).len();
    assert(links.len() == 1);
    assert forall|i: int| 0 <= i < links.len() implies link_bytes(#[trigger] links[i]).len()
        < 0x1_0000 by {
        lemma_le_len(n, width_of(n));
        lemma_le_len(fw.ds_addrs()[0] as nat, 8);
    }
    assert(is_searchable(links, fw.root_attrs@));
    assert(is_readable(fw.root_datasets@[0]));
    law_root_dataset_reads_back(&fw, 0);
}

/// The written file has one dataset: under the given name, of the given type, with
/// the whole elements of the merged pieces as a list. Only bytes that are no whole
/// element are left out, at the end.
pub proof fn law_collective_file_holds_pieces(
    fw: FileWriter,
    path: Seq<char>,
    t: Datatype,
    merged: Seq<u8>,
)
    requires
        t is Float64 || t is Float32,
        holds_only(fw, path, t, whole_elements(merged, t)),
    ensures
        fw.all().len() == 1,
        fw.all()[0].name@ == path,
        fw.all()[0].datatype == Some(t),
        fw.all()[0].shape is Some,
        fw.all()[0].data is Some,
        t is Float64 ==> {
            &&& fw.all()[0].data->0@ == merged.take(merged.len() - merged.len() % 8)
            &&& fw.all()[0].shape->0@ == seq![(merged.len() / 8) as u64]
        },
        t is Float32 ==> {
            &&& fw.all()[0].data->0@ == merged.take(merged.len() - merged.len() % 4)
            &&& fw.all()[0].shape->0@ == seq![(merged.len() / 4) as u64]
        },
        fw.all()[0].attrs@.len() == 0,
        fw.all()[0].maxshape is None,
        fw.all()[0].chunk_options.chunk_dims is None,
        fw.all()[0].virtual_sources is None,
{
    let len = merged.len() as int;
    lemma_whole_count(merged);
    assert(8 * (len / 8) == len - len % 8);
    assert(4 * (len / 4) == len - len % 4);
}

/// Two element types have names, and nothing else is one.
pub proof fn law_element_types_are_named(dtype: Seq<char>)
    ensures
        named_type("f64"@) == Some(Datatype::Float64),
        named_type("f32"@) == Some(Datatype::Float32),
        named_type(dtype) is Some <==> dtype == "f64"@ || dtype == "f32"@,
{
    reveal_strlit("f64");
    reveal_strlit("f32");
    assert("f64"@[1] != "f32"@[1]);
}

/// The text of an error ends with what it is about.
pub proof fn law_message_ends_with_detail(e: VolError)
    ensures
        match e {
            VolError::NotOpen => e.spec_message() == "file not open"@,
            VolError::Unsupported(t) => e.spec_message().skip(13) == t@,
            VolError::NotFound(t) => e.spec_message().skip(11) == t@,
            VolError::DataError(t) => e.spec_message().skip(12) == t@,
        },
{
    reveal_strlit("unsupported: ");
    reveal_strlit("not found: ");
    reveal_strlit("data error: ");
    match e {
        VolError::NotOpen => {},
        VolError::Unsupported(t) => {
            assert(e.spec_message().skip(13) =~= t@);
        },
        VolError::NotFound(t) => {
            assert(e.spec_message().skip(11) =~= t@);
        },
        VolError::DataError(t) => {
            assert(e.spec_message().skip(12) =~= t@);
        },
    }
}

/// A missing object is told as such, with its path; everything else that stops a
/// read is told as an error in the data.
pub proof fn law_read_faults_are_told(e: VolError, fault: ReadFault, path: Seq<char>)
    requires
        is_read_error(e, fault, path),
    ensures
        fault == ReadFault::NotFound <==> e is NotFound,
        fault != ReadFault::NotFound <==> e is DataError,
        e matches VolError::NotFound(t) ==> t@.len() >= path.len() && t@.take(path.len() as int)
            == path,
{
    if let VolError::NotFound(t) = e {
        assert(t@.take(path.len() as int) =~= path);
    }
}

/// The connector claims to read, to write, to list, to store in chunks, and to do
/// so in parallel.
pub proof fn law_connector_claims_everything(c: VolCapability)
    ensures
        claimed().contains(c),
        claimed().len() == 5,
{
    let all = claimed();
    assert(all[0] == VolCapability::ReadData);
    assert(all[1] == VolCapability::WriteData);
    assert(all[2] == VolCapability::ListObjects);
    assert(all[3] == VolCapability::ChunkedStorage);
    assert(all[4] == VolCapability::ParallelIO);
}

} // verus!
