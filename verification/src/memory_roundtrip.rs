//! A memory file reads back as the data it was written from.

use crate::attr_laws::{
    info_of, law_group_int_attr_reads_back, law_root_int_attr_reads_back,
};
use crate::columns::{
    f32_values, i32_values, i64_values, law_i32_roundtrip, law_i64_roundtrip, law_long_words_roundtrip,
    law_short_words_roundtrip, law_texts_roundtrip, text_size, ColumnView,
};
use crate::file_laws::is_writable;
use crate::file_writer::FileWriter;
use crate::half::{all_widened, law_half_words_roundtrip};
use crate::memory_file::{
    are_chunk_columns, are_chunks, are_entities, are_entity_columns, are_relation_columns,
    are_relations, are_session_columns, are_sessions, chunks_fault, column_bytes, column_texts,
    entities_fault, is_memory_of, memory_fault, relations_fault, row_count, sessions_fault,
    stated_dim, MemoryFault,
};
use crate::memory_laws::{
    are_names, lemma_chunk_names, lemma_entity_names, lemma_relation_names, lemma_root_searchable,
    lemma_session_names, lemma_table_column, lemma_table_searchable,
};
use crate::memory_writer::{
    chunk_columns, entity_columns, fixed_row, flat_embeddings, is_memory_writer, is_table,
    relation_columns, session_columns, single_column,
};
use crate::migrate::{
    is_chunk_row, is_entity_row, is_relation_row, is_session_row, matrix_row, text_at,
    text_views, ChunkColumns, Entity, MemoryChunk, Relation, Session, SqliteData,
};
use crate::mpi_vol::long_words;
use crate::path_laws::is_group_reachable;
use crate::reader::type_answer;
use crate::validate::{
    chunks_agree, difference, entities_agree, law_full_comparison_is_exact, law_sampling_is_weaker,
    relations_agree, sessions_agree,
};
use vstd::prelude::*;
use vstd::utf8::encode_utf8;

verus! {

/// Whether texts can be stored: none ends in a zero character, and a size can
/// say how long the longest is.
pub open spec fn texts_fit(texts: Seq<Seq<char>>) -> bool {
    &&& forall|i: int|
        0 <= i < texts.len() ==> (encode_utf8(#[trigger] texts[i]).len() == 0 || encode_utf8(
            texts[i],
        ).last() != 0)
    &&& text_size(texts, texts.len() as int) < 0x1_0000_0000
}

/// Whether a column can be stored.
pub open spec fn column_fits(c: ColumnView) -> bool {
    match c {
        ColumnView::Text(texts) => texts_fit(texts),
        _ => true,
    }
}

/// Whether columns can be stored.
pub open spec fn columns_fit(cols: Seq<(Seq<char>, ColumnView)>) -> bool {
    forall|k: int| 0 <= k < cols.len() ==> column_fits((#[trigger] cols[k]).1)
}

/// Whether data can be stored: its texts can, every embedding has the stated
/// dimension, and its numbers of rows fit.
pub open spec fn is_storable(data: SqliteData) -> bool {
    &&& data.embedding_dim <= i64::MAX
    &&& data.chunks@.len() <= i64::MAX
    &&& data.sessions@.len() <= i64::MAX
    &&& data.entities@.len() <= i64::MAX
    &&& data.relations@.len() <= i64::MAX
    &&& columns_fit(
        chunk_columns(data.chunks@, single_column(data.chunks@, data.embedding_dim as nat)),
    )
    &&& columns_fit(session_columns(data.sessions@))
    &&& columns_fit(entity_columns(data.entities@))
    &&& columns_fit(relation_columns(data.relations@))
    &&& forall|i: int|
        0 <= i < data.chunks@.len() ==> (#[trigger] data.chunks@[i]).embedding@.len()
            == data.embedding_dim
}

proof fn lemma_text_column(file: Seq<u8>, path: Seq<char>, texts: Seq<Seq<char>>)
    requires
        texts_fit(texts),
        column_bytes(file, path) == Ok::<Seq<u8>, MemoryFault>(ColumnView::Text(texts).bytes()),
        type_answer(file, encode_utf8(path)) == Some(info_of(ColumnView::Text(texts).datatype())),
    ensures
        column_texts(file, path) == Ok::<Seq<Seq<char>>, MemoryFault>(texts),
{
    law_texts_roundtrip(texts);
    assert(text_size(texts, texts.len() as int) % 0x1_0000_0000 == text_size(
        texts,
        texts.len() as int,
    ));
}

/// The number of rows of a table reads back.
proof fn lemma_rows(
    fw: &FileWriter,
    g: int,
    name: Seq<char>,
    rows: nat,
    cols: Seq<(Seq<char>, ColumnView)>,
)
    requires
        is_writable(fw),
        0 <= g < fw.groups@.len(),
        is_group_reachable(fw, g),
        is_table(fw.groups@[g], name, rows, cols),
        are_names(cols),
        rows <= i64::MAX,
    ensures
        row_count(fw.image(), name) == Ok::<i64, MemoryFault>(rows as i64),
{
    reveal(row_count);
    lemma_table_searchable(fw, g, name, rows, cols);
    law_group_int_attr_reads_back(fw, g, 0, "count"@, rows as i64);
}

// ---------------------------------------------------------------------------
// Chunks
// ---------------------------------------------------------------------------

proof fn lemma_chunk_paths()
    ensures
        "chunks/id"@ == "chunks"@ + seq!['/'] + "id"@,
        "chunks/text"@ == "chunks"@ + seq!['/'] + "text"@,
        "chunks/source_channel"@ == "chunks"@ + seq!['/'] + "source_channel"@,
        "chunks/timestamp"@ == "chunks"@ + seq!['/'] + "timestamp"@,
        "chunks/session_id"@ == "chunks"@ + seq!['/'] + "session_id"@,
        "chunks/tags"@ == "chunks"@ + seq!['/'] + "tags"@,
        "chunks/deleted"@ == "chunks"@ + seq!['/'] + "deleted"@,
        "chunks/embeddings"@ == "chunks"@ + seq!['/'] + "embeddings"@,
{
    reveal_strlit("chunks");
    reveal_strlit("id");
    reveal_strlit("text");
    reveal_strlit("source_channel");
    reveal_strlit("timestamp");
    reveal_strlit("session_id");
    reveal_strlit("tags");
    reveal_strlit("deleted");
    reveal_strlit("embeddings");
    reveal_strlit("chunks/id");
    reveal_strlit("chunks/text");
    reveal_strlit("chunks/source_channel");
    reveal_strlit("chunks/timestamp");
    reveal_strlit("chunks/session_id");
    reveal_strlit("chunks/tags");
    reveal_strlit("chunks/deleted");
    reveal_strlit("chunks/embeddings");
    assert("chunks/id"@ =~= "chunks"@ + seq!['/'] + "id"@);
    assert("chunks/text"@ =~= "chunks"@ + seq!['/'] + "text"@);
    assert("chunks/source_channel"@ =~= "chunks"@ + seq!['/'] + "source_channel"@);
    assert("chunks/timestamp"@ =~= "chunks"@ + seq!['/'] + "timestamp"@);
    assert("chunks/session_id"@ =~= "chunks"@ + seq!['/'] + "session_id"@);
    assert("chunks/tags"@ =~= "chunks"@ + seq!['/'] + "tags"@);
    assert("chunks/deleted"@ =~= "chunks"@ + seq!['/'] + "deleted"@);
    assert("chunks/embeddings"@ =~= "chunks"@ + seq!['/'] + "embeddings"@);
}

/// The bits that a column of numbers reads back as.
pub open spec fn words_of(embeddings: ColumnView) -> Seq<u32> {
    match embeddings {
        ColumnView::F32(words) => words,
        ColumnView::F16(halves) => all_widened(halves),
        _ => Seq::empty(),
    }
}

/// Whether a column holds 32-bit or 16-bit numbers.
pub open spec fn is_number_column(embeddings: ColumnView) -> bool {
    embeddings is F32 || embeddings is F16
}

/// Whether the chunk columns of a file are those of `chunks`, with `words` as
/// the embeddings.
pub open spec fn holds_chunks(file: Seq<u8>, chunks: Seq<MemoryChunk>, words: Seq<u32>) -> bool {
    let n = chunks.len();
    &&& column_bytes(file, "chunks/id"@) is Ok
    &&& i64_values(column_bytes(file, "chunks/id"@)->Ok_0) == Seq::new(n, |i: int| chunks[i].id)
    &&& column_texts(file, "chunks/text"@) == Ok::<Seq<Seq<char>>, MemoryFault>(
        Seq::new(n, |i: int| chunks[i].chunk@),
    )
    &&& column_texts(file, "chunks/source_channel"@) == Ok::<Seq<Seq<char>>, MemoryFault>(
        Seq::new(n, |i: int| chunks[i].source_channel@),
    )
    &&& column_bytes(file, "chunks/timestamp"@) is Ok
    &&& long_words(column_bytes(file, "chunks/timestamp"@)->Ok_0) == Seq::new(
        n,
        |i: int| chunks[i].timestamp,
    )
    &&& column_texts(file, "chunks/session_id"@) == Ok::<Seq<Seq<char>>, MemoryFault>(
        Seq::new(n, |i: int| chunks[i].session_id@),
    )
    &&& column_texts(file, "chunks/tags"@) == Ok::<Seq<Seq<char>>, MemoryFault>(
        Seq::new(n, |i: int| chunks[i].tags@),
    )
    &&& column_bytes(file, "chunks/deleted"@) is Ok
    &&& i32_values(column_bytes(file, "chunks/deleted"@)->Ok_0) == Seq::new(
        n,
        |i: int| chunks[i].deleted,
    )
    &&& column_bytes(file, "chunks/embeddings"@) is Ok
    &&& f32_values(
        column_bytes(file, "chunks/embeddings"@)->Ok_0,
        type_answer(file, encode_utf8("chunks/embeddings"@)),
    ) == words
}

proof fn lemma_chunk_columns(fw: &FileWriter, chunks: Seq<MemoryChunk>, embeddings: ColumnView)
    requires
        is_number_column(embeddings),
        is_writable(fw),
        fw.groups@.len() == 4,
        is_group_reachable(fw, 0),
        is_table(fw.groups@[0], "chunks"@, chunks.len(), chunk_columns(chunks, embeddings)),
        columns_fit(chunk_columns(chunks, embeddings)),
    ensures
        holds_chunks(fw.image(), chunks, words_of(embeddings)),
{
    let cols = chunk_columns(chunks, embeddings);
    let n = chunks.len();
    let file = fw.image();
    lemma_chunk_names(chunks, embeddings);
    lemma_chunk_paths();
    assert forall|k: int| 0 <= k < 8 implies column_bytes(
        file,
        "chunks"@ + seq!['/'] + (#[trigger] cols[k]).0,
    ) == Ok::<Seq<u8>, MemoryFault>(cols[k].1.bytes()) && type_answer(
        file,
        encode_utf8("chunks"@ + seq!['/'] + cols[k].0),
    ) == Some(info_of(cols[k].1.datatype())) && column_fits(cols[k].1) by {
        lemma_table_column(fw, 0, "chunks"@, n, cols, k);
    }
    let ids = Seq::new(n, |i: int| chunks[i].id);
    let texts = Seq::new(n, |i: int| chunks[i].chunk@);
    let channels = Seq::new(n, |i: int| chunks[i].source_channel@);
    let timestamps = Seq::new(n, |i: int| chunks[i].timestamp);
    let session_ids = Seq::new(n, |i: int| chunks[i].session_id@);
    let tags = Seq::new(n, |i: int| chunks[i].tags@);
    let deleted = Seq::new(n, |i: int| chunks[i].deleted);
    assert(cols[0] == ("id"@, ColumnView::I64(ids)));
    assert(cols[1] == ("text"@, ColumnView::Text(texts)));
    assert(cols[2] == ("source_channel"@, ColumnView::Text(channels)));
    assert(cols[3] == ("timestamp"@, ColumnView::F64(timestamps)));
    assert(cols[4] == ("session_id"@, ColumnView::Text(session_ids)));
    assert(cols[5] == ("tags"@, ColumnView::Text(tags)));
    assert(cols[6] == ("deleted"@, ColumnView::I32(deleted)));
    assert(cols[7] == ("embeddings"@, embeddings));
    law_i64_roundtrip(ids);
    lemma_text_column(file, "chunks/text"@, texts);
    lemma_text_column(file, "chunks/source_channel"@, channels);
    law_long_words_roundtrip(timestamps);
    lemma_text_column(file, "chunks/session_id"@, session_ids);
    lemma_text_column(file, "chunks/tags"@, tags);
    law_i32_roundtrip(deleted);
    match embeddings {
        ColumnView::F32(words) => law_short_words_roundtrip(words),
        ColumnView::F16(halves) => law_half_words_roundtrip(halves),
        _ => {},
    }
}

/// Whether two chunks hold the same.
pub open spec fn same_chunk(a: MemoryChunk, b: MemoryChunk) -> bool {
    same_but_embedding(a, b) && a.embedding@ == b.embedding@
}

/// Whether two chunks hold the same, but for their embeddings.
pub open spec fn same_but_embedding(a: MemoryChunk, b: MemoryChunk) -> bool {
    &&& a.id == b.id
    &&& a.chunk@ == b.chunk@
    &&& a.source_channel@ == b.source_channel@
    &&& a.timestamp == b.timestamp
    &&& a.session_id@ == b.session_id@
    &&& a.tags@ == b.tags@
    &&& a.deleted == b.deleted
}

proof fn lemma_flat(chunks: Seq<MemoryChunk>, dim: nat, n: int, i: int)
    requires
        0 <= i <= n <= chunks.len(),
    ensures
        flat_embeddings(chunks, dim, n).len() == n * dim,
        0 <= i * dim <= n * dim,
        i < n ==> i * dim + dim <= n * dim && flat_embeddings(chunks, dim, n).subrange(
            i * dim,
            i * dim + dim,
        ) == fixed_row(chunks[i].embedding@, dim),
    decreases n,
{
    assert(0 <= i * dim <= n * dim) by (nonlinear_arith)
        requires
            0 <= i <= n,
            0 <= dim,
    ;
    if n > 0 {
        assert((n - 1) * dim + dim == n * dim) by (nonlinear_arith);
        if i < n {
            lemma_flat(chunks, dim, n - 1, i);
            let all = flat_embeddings(chunks, dim, n);
            if i < n - 1 {
                assert(all.subrange(i * dim, i * dim + dim) =~= flat_embeddings(
                    chunks,
                    dim,
                    n - 1,
                ).subrange(i * dim, i * dim + dim));
            } else {
                assert(all.subrange(i * dim, i * dim + dim) =~= fixed_row(
                    chunks[i].embedding@,
                    dim,
                ));
            }
        } else {
            lemma_flat(chunks, dim, n - 1, n - 1);
        }
    } else {
        assert(0 * dim == 0);
    }
}

proof fn lemma_row_back(chunks: Seq<MemoryChunk>, dim: usize, i: int)
    requires
        0 <= i < chunks.len(),
        chunks[i].embedding@.len() == dim,
    ensures
        matrix_row(
            flat_embeddings(chunks, dim as nat, chunks.len() as int),
            row_width(dim),
            i,
        ) == chunks[i].embedding@,
{
    let n = chunks.len() as int;
    lemma_flat(chunks, dim as nat, n, i);
    if dim == 0 {
        assert(n * 0 == 0);
        assert((i + 1) * 1 == i + 1);
        assert(chunks[i].embedding@ =~= Seq::empty());
    } else {
        assert((i + 1) * dim == i * dim + dim) by (nonlinear_arith);
        assert(fixed_row(chunks[i].embedding@, dim as nat) =~= chunks[i].embedding@);
    }
}

proof fn lemma_text_at(column: Seq<String>, texts: Seq<Seq<char>>, i: int)
    requires
        text_views(column) == texts,
        0 <= i < texts.len(),
    ensures
        text_at(column, i) == texts[i],
        column[i]@ == texts[i],
{
    assert(text_views(column)[i] == column[i]@);
}

/// How wide the rows of a dimension are read.
pub open spec fn row_width(dim: usize) -> int {
    if dim == 0 {
        1
    } else {
        dim as int
    }
}

/// What is read from the columns of `chunks` is `chunks`, with the rows of
/// `words` as their embeddings.
proof fn lemma_chunks_back(
    file: Seq<u8>,
    chunks: Seq<MemoryChunk>,
    words: Seq<u32>,
    dim: usize,
    got: Seq<MemoryChunk>,
)
    requires
        holds_chunks(file, chunks, words),
        row_count(file, "chunks"@) == Ok::<i64, MemoryFault>(chunks.len() as i64),
        chunks.len() <= i64::MAX,
        are_chunks(file, dim, got),
    ensures
        got.len() == chunks.len(),
        forall|i: int|
            0 <= i < chunks.len() ==> {
                &&& same_but_embedding(#[trigger] chunks[i], got[i])
                &&& got[i].embedding@ == matrix_row(words, row_width(dim), i)
            },
{
    if chunks.len() > 0 {
        let cols = choose|cols: ChunkColumns|
            {
                &&& #[trigger] are_chunk_columns(file, cols)
                &&& got.len() == cols.ids@.len()
                &&& forall|i: int|
                    0 <= i < got.len() ==> is_chunk_row(#[trigger] got[i], cols, dim, i)
            };
        let n = chunks.len();
        assert forall|i: int| 0 <= i < n implies same_but_embedding(#[trigger] chunks[i], got[i])
            && got[i].embedding@ == matrix_row(words, row_width(dim), i) by {
            assert(is_chunk_row(got[i], cols, dim, i));
            lemma_text_at(cols.texts@, Seq::new(n, |i: int| chunks[i].chunk@), i);
            lemma_text_at(cols.channels@, Seq::new(n, |i: int| chunks[i].source_channel@), i);
            lemma_text_at(cols.session_ids@, Seq::new(n, |i: int| chunks[i].session_id@), i);
            lemma_text_at(cols.tags@, Seq::new(n, |i: int| chunks[i].tags@), i);
        }
    }
}

// ---------------------------------------------------------------------------
// Sessions
// ---------------------------------------------------------------------------

proof fn lemma_session_paths()
    ensures
        "sessions/id"@ == "sessions"@ + seq!['/'] + "id"@,
        "sessions/start_idx"@ == "sessions"@ + seq!['/'] + "start_idx"@,
        "sessions/end_idx"@ == "sessions"@ + seq!['/'] + "end_idx"@,
        "sessions/channel"@ == "sessions"@ + seq!['/'] + "channel"@,
        "sessions/timestamp"@ == "sessions"@ + seq!['/'] + "timestamp"@,
        "sessions/summary"@ == "sessions"@ + seq!['/'] + "summary"@,
{
    reveal_strlit("sessions");
    reveal_strlit("id");
    reveal_strlit("start_idx");
    reveal_strlit("end_idx");
    reveal_strlit("channel");
    reveal_strlit("timestamp");
    reveal_strlit("summary");
    reveal_strlit("sessions/id");
    reveal_strlit("sessions/start_idx");
    reveal_strlit("sessions/end_idx");
    reveal_strlit("sessions/channel");
    reveal_strlit("sessions/timestamp");
    reveal_strlit("sessions/summary");
    assert("sessions/id"@ =~= "sessions"@ + seq!['/'] + "id"@);
    assert("sessions/start_idx"@ =~= "sessions"@ + seq!['/'] + "start_idx"@);
    assert("sessions/end_idx"@ =~= "sessions"@ + seq!['/'] + "end_idx"@);
    assert("sessions/channel"@ =~= "sessions"@ + seq!['/'] + "channel"@);
    assert("sessions/timestamp"@ =~= "sessions"@ + seq!['/'] + "timestamp"@);
    assert("sessions/summary"@ =~= "sessions"@ + seq!['/'] + "summary"@);
}

/// Whether the session columns of a file are those of `sessions`.
pub open spec fn holds_sessions(file: Seq<u8>, sessions: Seq<Session>) -> bool {
    let n = sessions.len();
    &&& column_texts(file, "sessions/id"@) == Ok::<Seq<Seq<char>>, MemoryFault>(
        Seq::new(n, |i: int| sessions[i].id@),
    )
    &&& column_bytes(file, "sessions/start_idx"@) is Ok
    &&& i64_values(column_bytes(file, "sessions/start_idx"@)->Ok_0) == Seq::new(
        n,
        |i: int| sessions[i].start_idx,
    )
    &&& column_bytes(file, "sessions/end_idx"@) is Ok
    &&& i64_values(column_bytes(file, "sessions/end_idx"@)->Ok_0) == Seq::new(
        n,
        |i: int| sessions[i].end_idx,
    )
    &&& column_texts(file, "sessions/channel"@) == Ok::<Seq<Seq<char>>, MemoryFault>(
        Seq::new(n, |i: int| sessions[i].channel@),
    )
    &&& column_bytes(file, "sessions/timestamp"@) is Ok
    &&& long_words(column_bytes(file, "sessions/timestamp"@)->Ok_0) == Seq::new(
        n,
        |i: int| sessions[i].timestamp,
    )
    &&& column_texts(file, "sessions/summary"@) == Ok::<Seq<Seq<char>>, MemoryFault>(
        Seq::new(n, |i: int| sessions[i].summary@),
    )
}

proof fn lemma_session_columns(fw: &FileWriter, sessions: Seq<Session>)
    requires
        is_writable(fw),
        fw.groups@.len() == 4,
        is_group_reachable(fw, 1),
        is_table(fw.groups@[1], "sessions"@, sessions.len(), session_columns(sessions)),
        columns_fit(session_columns(sessions)),
    ensures
        holds_sessions(fw.image(), sessions),
{
    let cols = session_columns(sessions);
    let n = sessions.len();
    let file = fw.image();
    lemma_session_names(sessions);
    lemma_session_paths();
    assert forall|k: int| 0 <= k < 6 implies column_bytes(
        file,
        "sessions"@ + seq!['/'] + (#[trigger] cols[k]).0,
    ) == Ok::<Seq<u8>, MemoryFault>(cols[k].1.bytes()) && type_answer(
        file,
        encode_utf8("sessions"@ + seq!['/'] + cols[k].0),
    ) == Some(info_of(cols[k].1.datatype())) && column_fits(cols[k].1) by {
        lemma_table_column(fw, 1, "sessions"@, n, cols, k);
    }
    let c0 = Seq::new(n, |i: int| sessions[i].id@);
    let c1 = Seq::new(n, |i: int| sessions[i].start_idx);
    let c2 = Seq::new(n, |i: int| sessions[i].end_idx);
    let c3 = Seq::new(n, |i: int| sessions[i].channel@);
    let c4 = Seq::new(n, |i: int| sessions[i].timestamp);
    let c5 = Seq::new(n, |i: int| sessions[i].summary@);
    assert(cols[0] == ("id"@, ColumnView::Text(c0)));
    assert(cols[1] == ("start_idx"@, ColumnView::I64(c1)));
    assert(cols[2] == ("end_idx"@, ColumnView::I64(c2)));
    assert(cols[3] == ("channel"@, ColumnView::Text(c3)));
    assert(cols[4] == ("timestamp"@, ColumnView::F64(c4)));
    assert(cols[5] == ("summary"@, ColumnView::Text(c5)));
    lemma_text_column(file, "sessions/id"@, c0);
    law_i64_roundtrip(c1);
    law_i64_roundtrip(c2);
    lemma_text_column(file, "sessions/channel"@, c3);
    law_long_words_roundtrip(c4);
    lemma_text_column(file, "sessions/summary"@, c5);
}

/// What is read from the columns of `sessions` is `sessions`.
proof fn lemma_sessions_back(file: Seq<u8>, sessions: Seq<Session>, got: Seq<Session>)
    requires
        holds_sessions(file, sessions),
        row_count(file, "sessions"@) == Ok::<i64, MemoryFault>(sessions.len() as i64),
        sessions.len() <= i64::MAX,
        are_sessions(file, got),
    ensures
        got.len() == sessions.len(),
        forall|i: int| 0 <= i < sessions.len() ==> sessions_agree(#[trigger] sessions[i], got[i]),
{
    if sessions.len() > 0 {
        let (ids, starts, ends, channels, timestamps, summaries) = choose|
            ids: Seq<String>,
            starts: Seq<i64>,
            ends: Seq<i64>,
            channels: Seq<String>,
            timestamps: Seq<u64>,
            summaries: Seq<String>,
        |
            {
                &&& #[trigger] are_session_columns(
                    file,
                    ids,
                    starts,
                    ends,
                    channels,
                    timestamps,
                    summaries,
                )
                &&& got.len() == ids.len()
                &&& forall|i: int|
                    0 <= i < got.len() ==> is_session_row(
                        #[trigger] got[i],
                        ids,
                        starts,
                        ends,
                        channels,
                        timestamps,
                        summaries,
                        i,
                    )
            };
        let n = sessions.len();
        assert(text_views(ids).len() == n);
        assert forall|i: int| 0 <= i < n implies sessions_agree(#[trigger] sessions[i], got[i]) by {
            assert(is_session_row(
                got[i],
                ids,
                starts,
                ends,
                channels,
                timestamps,
                summaries,
                i,
            ));
            lemma_text_at(ids, Seq::new(n, |i: int| sessions[i].id@), i);
            lemma_text_at(channels, Seq::new(n, |i: int| sessions[i].channel@), i);
            lemma_text_at(summaries, Seq::new(n, |i: int| sessions[i].summary@), i);
        }
    }
}

// ---------------------------------------------------------------------------
// Entities
// ---------------------------------------------------------------------------

proof fn lemma_entity_paths()
    ensures
        "entities/id"@ == "entities"@ + seq!['/'] + "id"@,
        "entities/name"@ == "entities"@ + seq!['/'] + "name"@,
        "entities/type"@ == "entities"@ + seq!['/'] + "type"@,
        "entities/embedding_idx"@ == "entities"@ + seq!['/'] + "embedding_idx"@,
{
    reveal_strlit("entities");
    reveal_strlit("id");
    reveal_strlit("name");
    reveal_strlit("type");
    reveal_strlit("embedding_idx");
    reveal_strlit("entities/id");
    reveal_strlit("entities/name");
    reveal_strlit("entities/type");
    reveal_strlit("entities/embedding_idx");
    assert("entities/id"@ =~= "entities"@ + seq!['/'] + "id"@);
    assert("entities/name"@ =~= "entities"@ + seq!['/'] + "name"@);
    assert("entities/type"@ =~= "entities"@ + seq!['/'] + "type"@);
    assert("entities/embedding_idx"@ =~= "entities"@ + seq!['/'] + "embedding_idx"@);
}

/// Whether the entity columns of a file are those of `entities`.
pub open spec fn holds_entities(file: Seq<u8>, entities: Seq<Entity>) -> bool {
    let n = entities.len();
    &&& column_bytes(file, "entities/id"@) is Ok
    &&& i64_values(column_bytes(file, "entities/id"@)->Ok_0) == Seq::new(
        n,
        |i: int| entities[i].id,
    )
    &&& column_texts(file, "entities/name"@) == Ok::<Seq<Seq<char>>, MemoryFault>(
        Seq::new(n, |i: int| entities[i].name@),
    )
    &&& column_texts(file, "entities/type"@) == Ok::<Seq<Seq<char>>, MemoryFault>(
        Seq::new(n, |i: int| entities[i].entity_type@),
    )
    &&& column_bytes(file, "entities/embedding_idx"@) is Ok
    &&& i64_values(column_bytes(file, "entities/embedding_idx"@)->Ok_0) == Seq::new(
        n,
        |i: int| entities[i].embedding_idx,
    )
}

proof fn lemma_entity_columns(fw: &FileWriter, entities: Seq<Entity>)
    requires
        is_writable(fw),
        fw.groups@.len() == 4,
        is_group_reachable(fw, 2),
        is_table(fw.groups@[2], "entities"@, entities.len(), entity_columns(entities)),
        columns_fit(entity_columns(entities)),
    ensures
        holds_entities(fw.image(), entities),
{
    let cols = entity_columns(entities);
    let n = entities.len();
    let file = fw.image();
    lemma_entity_names(entities);
    lemma_entity_paths();
    assert forall|k: int| 0 <= k < 4 implies column_bytes(
        file,
        "entities"@ + seq!['/'] + (#[trigger] cols[k]).0,
    ) == Ok::<Seq<u8>, MemoryFault>(cols[k].1.bytes()) && type_answer(
        file,
        encode_utf8("entities"@ + seq!['/'] + cols[k].0),
    ) == Some(info_of(cols[k].1.datatype())) && column_fits(cols[k].1) by {
        lemma_table_column(fw, 2, "entities"@, n, cols, k);
    }
    let c0 = Seq::new(n, |i: int| entities[i].id);
    let c1 = Seq::new(n, |i: int| entities[i].name@);
    let c2 = Seq::new(n, |i: int| entities[i].entity_type@);
    let c3 = Seq::new(n, |i: int| entities[i].embedding_idx);
    assert(cols[0] == ("id"@, ColumnView::I64(c0)));
    assert(cols[1] == ("name"@, ColumnView::Text(c1)));
    assert(cols[2] == ("type"@, ColumnView::Text(c2)));
    assert(cols[3] == ("embedding_idx"@, ColumnView::I64(c3)));
    law_i64_roundtrip(c0);
    lemma_text_column(file, "entities/name"@, c1);
    lemma_text_column(file, "entities/type"@, c2);
    law_i64_roundtrip(c3);
}

/// What is read from the columns of `entities` is `entities`.
proof fn lemma_entities_back(file: Seq<u8>, entities: Seq<Entity>, got: Seq<Entity>)
    requires
        holds_entities(file, entities),
        row_count(file, "entities"@) == Ok::<i64, MemoryFault>(entities.len() as i64),
        entities.len() <= i64::MAX,
        are_entities(file, got),
    ensures
        got.len() == entities.len(),
        forall|i: int| 0 <= i < entities.len() ==> entities_agree(#[trigger] entities[i], got[i]),
{
    if entities.len() > 0 {
        let (ids, names, types, embedding_idxs) = choose|
            ids: Seq<i64>,
            names: Seq<String>,
            types: Seq<String>,
            embedding_idxs: Seq<i64>,
        |
            {
                &&& #[trigger] are_entity_columns(file, ids, names, types, embedding_idxs)
                &&& got.len() == ids.len()
                &&& forall|i: int|
                    0 <= i < got.len() ==> is_entity_row(
                        #[trigger] got[i],
                        ids,
                        names,
                        types,
                        embedding_idxs,
                        i,
                    )
            };
        let n = entities.len();
        assert forall|i: int| 0 <= i < n implies entities_agree(#[trigger] entities[i], got[i]) by {
            assert(is_entity_row(got[i], ids, names, types, embedding_idxs, i));
            lemma_text_at(names, Seq::new(n, |i: int| entities[i].name@), i);
            lemma_text_at(types, Seq::new(n, |i: int| entities[i].entity_type@), i);
        }
    }
}

// ---------------------------------------------------------------------------
// Relations
// ---------------------------------------------------------------------------

proof fn lemma_relation_paths()
    ensures
        "relations/src"@ == "relations"@ + seq!['/'] + "src"@,
        "relations/tgt"@ == "relations"@ + seq!['/'] + "tgt"@,
        "relations/relation"@ == "relations"@ + seq!['/'] + "relation"@,
        "relations/weight"@ == "relations"@ + seq!['/'] + "weight"@,
        "relations/timestamp"@ == "relations"@ + seq!['/'] + "timestamp"@,
{
    reveal_strlit("relations");
    reveal_strlit("src");
    reveal_strlit("tgt");
    reveal_strlit("relation");
    reveal_strlit("weight");
    reveal_strlit("timestamp");
    reveal_strlit("relations/src");
    reveal_strlit("relations/tgt");
    reveal_strlit("relations/relation");
    reveal_strlit("relations/weight");
    reveal_strlit("relations/timestamp");
    assert("relations/src"@ =~= "relations"@ + seq!['/'] + "src"@);
    assert("relations/tgt"@ =~= "relations"@ + seq!['/'] + "tgt"@);
    assert("relations/relation"@ =~= "relations"@ + seq!['/'] + "relation"@);
    assert("relations/weight"@ =~= "relations"@ + seq!['/'] + "weight"@);
    assert("relations/timestamp"@ =~= "relations"@ + seq!['/'] + "timestamp"@);
}

/// Whether the relation columns of a file are those of `relations`.
pub open spec fn holds_relations(file: Seq<u8>, relations: Seq<Relation>) -> bool {
    let n = relations.len();
    &&& column_bytes(file, "relations/src"@) is Ok
    &&& i64_values(column_bytes(file, "relations/src"@)->Ok_0) == Seq::new(
        n,
        |i: int| relations[i].src,
    )
    &&& column_bytes(file, "relations/tgt"@) is Ok
    &&& i64_values(column_bytes(file, "relations/tgt"@)->Ok_0) == Seq::new(
        n,
        |i: int| relations[i].tgt,
    )
    &&& column_texts(file, "relations/relation"@) == Ok::<Seq<Seq<char>>, MemoryFault>(
        Seq::new(n, |i: int| relations[i].relation@),
    )
    &&& column_bytes(file, "relations/weight"@) is Ok
    &&& long_words(column_bytes(file, "relations/weight"@)->Ok_0) == Seq::new(
        n,
        |i: int| relations[i].weight,
    )
    &&& column_bytes(file, "relations/timestamp"@) is Ok
    &&& long_words(column_bytes(file, "relations/timestamp"@)->Ok_0) == Seq::new(
        n,
        |i: int| relations[i].timestamp,
    )
}

proof fn lemma_relation_columns(fw: &FileWriter, relations: Seq<Relation>)
    requires
        is_writable(fw),
        fw.groups@.len() == 4,
        is_group_reachable(fw, 3),
        is_table(fw.groups@[3], "relations"@, relations.len(), relation_columns(relations)),
        columns_fit(relation_columns(relations)),
    ensures
        holds_relations(fw.image(), relations),
{
    let cols = relation_columns(relations);
    let n = relations.len();
    let file = fw.image();
    lemma_relation_names(relations);
    lemma_relation_paths();
    assert forall|k: int| 0 <= k < 5 implies column_bytes(
        file,
        "relations"@ + seq!['/'] + (#[trigger] cols[k]).0,
    ) == Ok::<Seq<u8>, MemoryFault>(cols[k].1.bytes()) && type_answer(
        file,
        encode_utf8("relations"@ + seq!['/'] + cols[k].0),
    ) == Some(info_of(cols[k].1.datatype())) && column_fits(cols[k].1) by {
        lemma_table_column(fw, 3, "relations"@, n, cols, k);
    }
    let c0 = Seq::new(n, |i: int| relations[i].src);
    let c1 = Seq::new(n, |i: int| relations[i].tgt);
    let c2 = Seq::new(n, |i: int| relations[i].relation@);
    let c3 = Seq::new(n, |i: int| relations[i].weight);
    let c4 = Seq::new(n, |i: int| relations[i].timestamp);
    assert(cols[0] == ("src"@, ColumnView::I64(c0)));
    assert(cols[1] == ("tgt"@, ColumnView::I64(c1)));
    assert(cols[2] == ("relation"@, ColumnView::Text(c2)));
    assert(cols[3] == ("weight"@, ColumnView::F64(c3)));
    assert(cols[4] == ("timestamp"@, ColumnView::F64(c4)));
    law_i64_roundtrip(c0);
    law_i64_roundtrip(c1);
    lemma_text_column(file, "relations/relation"@, c2);
    law_long_words_roundtrip(c3);
    law_long_words_roundtrip(c4);
}

/// What is read from the columns of `relations` is `relations`.
proof fn lemma_relations_back(file: Seq<u8>, relations: Seq<Relation>, got: Seq<Relation>)
    requires
        holds_relations(file, relations),
        row_count(file, "relations"@) == Ok::<i64, MemoryFault>(relations.len() as i64),
        relations.len() <= i64::MAX,
        are_relations(file, got),
    ensures
        got.len() == relations.len(),
        forall|i: int| 0 <= i < relations.len() ==> relations_agree(#[trigger] relations[i], got[i]),
{
    if relations.len() > 0 {
        let (srcs, tgts, names, weights, timestamps) = choose|
            srcs: Seq<i64>,
            tgts: Seq<i64>,
            names: Seq<String>,
            weights: Seq<u64>,
            timestamps: Seq<u64>,
        |
            {
                &&& #[trigger] are_relation_columns(file, srcs, tgts, names, weights, timestamps)
                &&& got.len() == srcs.len()
                &&& forall|i: int|
                    0 <= i < got.len() ==> is_relation_row(
                        #[trigger] got[i],
                        srcs,
                        tgts,
                        names,
                        weights,
                        timestamps,
                        i,
                    )
            };
        let n = relations.len();
        assert forall|i: int| 0 <= i < n implies relations_agree(#[trigger] relations[i], got[i]) by {
            assert(is_relation_row(got[i], srcs, tgts, names, weights, timestamps, i));
            lemma_text_at(names, Seq::new(n, |i: int| relations[i].relation@), i);
        }
    }
}

// ---------------------------------------------------------------------------
// Whole files
// ---------------------------------------------------------------------------

/// Whether two sets of data hold the same.
pub open spec fn same_memory(a: SqliteData, b: SqliteData) -> bool {
    &&& a.embedding_dim == b.embedding_dim
    &&& a.chunks@.len() == b.chunks@.len()
    &&& a.sessions@.len() == b.sessions@.len()
    &&& a.entities@.len() == b.entities@.len()
    &&& a.relations@.len() == b.relations@.len()
    &&& forall|i: int|
        0 <= i < a.chunks@.len() ==> same_chunk(#[trigger] a.chunks@[i], b.chunks@[i])
    &&& forall|i: int|
        0 <= i < a.sessions@.len() ==> sessions_agree(#[trigger] a.sessions@[i], b.sessions@[i])
    &&& forall|i: int|
        0 <= i < a.entities@.len() ==> entities_agree(#[trigger] a.entities@[i], b.entities@[i])
    &&& forall|i: int|
        0 <= i < a.relations@.len() ==> relations_agree(#[trigger] a.relations@[i], b.relations@[i])
}

/// Whether a file's tables are those of `data`, with `words` as the embeddings.
spec fn holds_memory(file: Seq<u8>, data: SqliteData, words: Seq<u32>) -> bool {
    &&& stated_dim(file) == data.embedding_dim
    &&& row_count(file, "chunks"@) == Ok::<i64, MemoryFault>(data.chunks@.len() as i64)
    &&& row_count(file, "sessions"@) == Ok::<i64, MemoryFault>(data.sessions@.len() as i64)
    &&& row_count(file, "entities"@) == Ok::<i64, MemoryFault>(data.entities@.len() as i64)
    &&& row_count(file, "relations"@) == Ok::<i64, MemoryFault>(data.relations@.len() as i64)
    &&& holds_chunks(file, data.chunks@, words)
    &&& holds_sessions(file, data.sessions@)
    &&& holds_entities(file, data.entities@)
    &&& holds_relations(file, data.relations@)
}

proof fn lemma_written_tables(
    fw: &FileWriter,
    data: SqliteData,
    embeddings: ColumnView,
    agent_id: Seq<char>,
    embedder: Seq<char>,
)
    requires
        is_memory_writer(*fw, data, embeddings, agent_id, embedder),
        is_number_column(embeddings),
        is_writable(fw),
        is_storable(data),
        encode_utf8(agent_id).len() < 0xff00,
        encode_utf8(embedder).len() < 0xff00,
    ensures
        holds_memory(fw.image(), data, words_of(embeddings)),
{
    let cols = chunk_columns(data.chunks@, embeddings);
    lemma_root_searchable(fw, data, embeddings, agent_id, embedder);
    law_root_int_attr_reads_back(fw, 2, "embedding_dim"@, data.embedding_dim as i64);
    lemma_chunk_names(data.chunks@, embeddings);
    lemma_session_names(data.sessions@);
    lemma_entity_names(data.entities@);
    lemma_relation_names(data.relations@);
    lemma_rows(fw, 0, "chunks"@, data.chunks@.len(), cols);
    lemma_rows(fw, 1, "sessions"@, data.sessions@.len(), session_columns(data.sessions@));
    lemma_rows(fw, 2, "entities"@, data.entities@.len(), entity_columns(data.entities@));
    lemma_rows(fw, 3, "relations"@, data.relations@.len(), relation_columns(data.relations@));
    assert(columns_fit(cols)) by {
        let single = chunk_columns(
            data.chunks@,
            single_column(data.chunks@, data.embedding_dim as nat),
        );
        assert forall|k: int| 0 <= k < cols.len() implies column_fits((#[trigger] cols[k]).1) by {
            assert(column_fits(single[k].1));
        }
    }
    lemma_chunk_columns(fw, data.chunks@, embeddings);
    lemma_session_columns(fw, data.sessions@);
    lemma_entity_columns(fw, data.entities@);
    lemma_relation_columns(fw, data.relations@);
}

/// Whether two sets of data hold the same, but for their embeddings.
pub open spec fn same_but_embeddings(a: SqliteData, b: SqliteData) -> bool {
    &&& a.embedding_dim == b.embedding_dim
    &&& a.chunks@.len() == b.chunks@.len()
    &&& a.sessions@.len() == b.sessions@.len()
    &&& a.entities@.len() == b.entities@.len()
    &&& a.relations@.len() == b.relations@.len()
    &&& forall|i: int|
        0 <= i < a.chunks@.len() ==> same_but_embedding(#[trigger] a.chunks@[i], b.chunks@[i])
    &&& forall|i: int|
        0 <= i < a.sessions@.len() ==> sessions_agree(#[trigger] a.sessions@[i], b.sessions@[i])
    &&& forall|i: int|
        0 <= i < a.entities@.len() ==> entities_agree(#[trigger] a.entities@[i], b.entities@[i])
    &&& forall|i: int|
        0 <= i < a.relations@.len() ==> relations_agree(#[trigger] a.relations@[i], b.relations@[i])
}

proof fn lemma_written_reads_back(
    fw: &FileWriter,
    data: SqliteData,
    embeddings: ColumnView,
    agent_id: Seq<char>,
    embedder: Seq<char>,
    got: SqliteData,
)
    requires
        is_memory_writer(*fw, data, embeddings, agent_id, embedder),
        is_number_column(embeddings),
        is_writable(fw),
        is_storable(data),
        encode_utf8(agent_id).len() < 0xff00,
        encode_utf8(embedder).len() < 0xff00,
    ensures
        memory_fault(fw.image()) is None,
        is_memory_of(fw.image(), got) ==> {
            &&& same_but_embeddings(data, got)
            &&& forall|i: int|
                0 <= i < data.chunks@.len() ==> (#[trigger] got.chunks@[i]).embedding@
                    == matrix_row(words_of(embeddings), row_width(data.embedding_dim), i)
        },
{
    let file = fw.image();
    let words = words_of(embeddings);
    lemma_written_tables(fw, data, embeddings, agent_id, embedder);
    assert(chunks_fault(file) is None);
    assert(sessions_fault(file) is None);
    assert(entities_fault(file) is None);
    assert(relations_fault(file) is None);
    if is_memory_of(file, got) {
        lemma_chunks_back(file, data.chunks@, words, data.embedding_dim, got.chunks@);
        lemma_sessions_back(file, data.sessions@, got.sessions@);
        lemma_entities_back(file, data.entities@, got.entities@);
        lemma_relations_back(file, data.relations@, got.relations@);
        assert forall|i: int| 0 <= i < data.chunks@.len() implies (
        #[trigger] got.chunks@[i]).embedding@ == matrix_row(
            words,
            row_width(data.embedding_dim),
            i,
        ) by {
            assert(same_but_embedding(data.chunks@[i], got.chunks@[i]));
        }
    }
}

/// What is written as a memory file can be read, and what is read is what was
/// written.
pub proof fn law_memory_file_reads_back(
    fw: &FileWriter,
    data: SqliteData,
    agent_id: Seq<char>,
    embedder: Seq<char>,
    got: SqliteData,
)
    requires
        is_memory_writer(
            *fw,
            data,
            single_column(data.chunks@, data.embedding_dim as nat),
            agent_id,
            embedder,
        ),
        is_writable(fw),
        is_storable(data),
        encode_utf8(agent_id).len() < 0xff00,
        encode_utf8(embedder).len() < 0xff00,
    ensures
        memory_fault(fw.image()) is None,
        is_memory_of(fw.image(), got) ==> same_memory(data, got),
{
    let embeddings = single_column(data.chunks@, data.embedding_dim as nat);
    lemma_written_reads_back(fw, data, embeddings, agent_id, embedder, got);
    if is_memory_of(fw.image(), got) {
        assert forall|i: int| 0 <= i < data.chunks@.len() implies same_chunk(
            #[trigger] data.chunks@[i],
            got.chunks@[i],
        ) by {
            lemma_row_back(data.chunks@, data.embedding_dim, i);
        }
    }
}

/// What is written as a memory file with 16-bit embeddings can be read. What is
/// read is what was written, with each embedding the widened numbers of its row.
pub proof fn law_half_memory_file_reads_back(
    fw: &FileWriter,
    data: SqliteData,
    halves: Seq<u16>,
    agent_id: Seq<char>,
    embedder: Seq<char>,
    got: SqliteData,
)
    requires
        is_memory_writer(*fw, data, ColumnView::F16(halves), agent_id, embedder),
        halves.len() == data.chunks@.len() * data.embedding_dim,
        is_writable(fw),
        is_storable(data),
        encode_utf8(agent_id).len() < 0xff00,
        encode_utf8(embedder).len() < 0xff00,
    ensures
        memory_fault(fw.image()) is None,
        is_memory_of(fw.image(), got) ==> {
            &&& same_but_embeddings(data, got)
            &&& forall|i: int|
                0 <= i < data.chunks@.len() ==> (#[trigger] got.chunks@[i]).embedding@
                    == all_widened(
                    halves.subrange(i * data.embedding_dim, (i + 1) * data.embedding_dim),
                )
        },
{
    let dim = data.embedding_dim;
    lemma_written_reads_back(fw, data, ColumnView::F16(halves), agent_id, embedder, got);
    if is_memory_of(fw.image(), got) {
        assert forall|i: int| 0 <= i < data.chunks@.len() implies (
        #[trigger] got.chunks@[i]).embedding@ == all_widened(
            halves.subrange(i * dim, (i + 1) * dim),
        ) by {
            lemma_half_row(halves, data.chunks@.len(), dim, i);
        }
    }
}

proof fn lemma_half_row(halves: Seq<u16>, n: nat, dim: usize, i: int)
    requires
        halves.len() == n * dim,
        0 <= i < n,
    ensures
        0 <= i * dim <= (i + 1) * dim <= halves.len(),
        (i + 1) * dim - i * dim == dim,
        matrix_row(all_widened(halves), row_width(dim), i) == all_widened(
            halves.subrange(i * dim, (i + 1) * dim),
        ),
{
    assert(0 <= i * dim && i * dim + dim == (i + 1) * dim && (i + 1) * dim <= n * dim)
        by (nonlinear_arith)
        requires
            0 <= i < n,
            0 <= dim,
    ;
    if dim == 0 {
        assert((i + 1) * 1 == i + 1);
        assert(n * 0 == 0);
    }
    assert(matrix_row(all_widened(halves), row_width(dim), i) =~= all_widened(
        halves.subrange(i * dim, (i + 1) * dim),
    ));
}

/// A memory file that was written and read back passes the comparison with the
/// data it was written from.
pub proof fn law_migrated_memory_validates(
    fw: &FileWriter,
    data: SqliteData,
    agent_id: Seq<char>,
    embedder: Seq<char>,
    got: SqliteData,
    full: bool,
)
    requires
        is_memory_writer(
            *fw,
            data,
            single_column(data.chunks@, data.embedding_dim as nat),
            agent_id,
            embedder,
        ),
        is_writable(fw),
        is_storable(data),
        data.chunks@.len() <= usize::MAX,
        encode_utf8(agent_id).len() < 0xff00,
        encode_utf8(embedder).len() < 0xff00,
        is_memory_of(fw.image(), got),
    ensures
        difference(got, data, full, Seq::empty()) is None,
{
    law_memory_file_reads_back(fw, data, agent_id, embedder, got);
    law_full_comparison_is_exact(got, data, Seq::empty());
    if !full {
        law_sampling_is_weaker(got, data, Seq::empty());
    }
}

/// A memory file with 16-bit embeddings that was written and read back passes
/// the comparison with the data it was written from, as far as no number was
/// rounded by more than the caller's tolerance.
pub proof fn law_half_memory_validates(
    fw: &FileWriter,
    data: SqliteData,
    halves: Seq<u16>,
    agent_id: Seq<char>,
    embedder: Seq<char>,
    got: SqliteData,
    full: bool,
)
    requires
        is_memory_writer(*fw, data, ColumnView::F16(halves), agent_id, embedder),
        halves.len() == data.chunks@.len() * data.embedding_dim,
        is_writable(fw),
        is_storable(data),
        data.chunks@.len() <= usize::MAX,
        encode_utf8(agent_id).len() < 0xff00,
        encode_utf8(embedder).len() < 0xff00,
        is_memory_of(fw.image(), got),
    ensures
        difference(got, data, full, Seq::empty()) is None,
{
    law_half_memory_file_reads_back(fw, data, halves, agent_id, embedder, got);
    assert forall|i: int| 0 <= i < data.chunks@.len() implies chunks_agree(
        #[trigger] data.chunks@[i],
        got.chunks@[i],
    ) by {
        lemma_half_row(halves, data.chunks@.len(), data.embedding_dim, i);
        assert(same_but_embedding(data.chunks@[i], got.chunks@[i]));
        assert(got.chunks@[i].embedding@.len() == data.embedding_dim);
    }
    law_full_comparison_is_exact(got, data, Seq::empty());
    if !full {
        law_sampling_is_weaker(got, data, Seq::empty());
    }
}

/// What is read of a written memory file has every field of every row.
pub proof fn law_memory_fields_read_back(
    fw: &FileWriter,
    data: SqliteData,
    agent_id: Seq<char>,
    embedder: Seq<char>,
    got: SqliteData,
)
    requires
        is_memory_writer(
            *fw,
            data,
            single_column(data.chunks@, data.embedding_dim as nat),
            agent_id,
            embedder,
        ),
        is_writable(fw),
        is_storable(data),
        encode_utf8(agent_id).len() < 0xff00,
        encode_utf8(embedder).len() < 0xff00,
        is_memory_of(fw.image(), got),
    ensures
        got.embedding_dim == data.embedding_dim,
        got.chunks@.len() == data.chunks@.len(),
        got.sessions@.len() == data.sessions@.len(),
        got.entities@.len() == data.entities@.len(),
        got.relations@.len() == data.relations@.len(),
        forall|i: int|
            0 <= i < data.chunks@.len() ==> {
                &&& (#[trigger] got.chunks@[i]).id == data.chunks@[i].id
                &&& got.chunks@[i].chunk@ == data.chunks@[i].chunk@
                &&& got.chunks@[i].embedding@ == data.chunks@[i].embedding@
                &&& got.chunks@[i].source_channel@ == data.chunks@[i].source_channel@
                &&& got.chunks@[i].timestamp == data.chunks@[i].timestamp
                &&& got.chunks@[i].session_id@ == data.chunks@[i].session_id@
                &&& got.chunks@[i].tags@ == data.chunks@[i].tags@
                &&& got.chunks@[i].deleted == data.chunks@[i].deleted
            },
        forall|i: int|
            0 <= i < data.sessions@.len() ==> {
                &&& (#[trigger] got.sessions@[i]).id@ == data.sessions@[i].id@
                &&& got.sessions@[i].start_idx == data.sessions@[i].start_idx
                &&& got.sessions@[i].end_idx == data.sessions@[i].end_idx
                &&& got.sessions@[i].channel@ == data.sessions@[i].channel@
                &&& got.sessions@[i].timestamp == data.sessions@[i].timestamp
                &&& got.sessions@[i].summary@ == data.sessions@[i].summary@
            },
        forall|i: int|
            0 <= i < data.entities@.len() ==> {
                &&& (#[trigger] got.entities@[i]).id == data.entities@[i].id
                &&& got.entities@[i].name@ == data.entities@[i].name@
                &&& got.entities@[i].entity_type@ == data.entities@[i].entity_type@
                &&& got.entities@[i].embedding_idx == data.entities@[i].embedding_idx
            },
        forall|i: int|
            0 <= i < data.relations@.len() ==> {
                &&& (#[trigger] got.relations@[i]).src == data.relations@[i].src
                &&& got.relations@[i].tgt == data.relations@[i].tgt
                &&& got.relations@[i].relation@ == data.relations@[i].relation@
                &&& got.relations@[i].weight == data.relations@[i].weight
                &&& got.relations@[i].timestamp == data.relations@[i].timestamp
            },
{
    law_memory_file_reads_back(fw, data, agent_id, embedder, got);
    lemma_same_memory_fields(data, got);
}

proof fn lemma_same_memory_fields(data: SqliteData, got: SqliteData)
    requires
        same_memory(data, got),
    ensures
        forall|i: int|
            0 <= i < data.chunks@.len() ==> {
                &&& (#[trigger] got.chunks@[i]).id == data.chunks@[i].id
                &&& got.chunks@[i].chunk@ == data.chunks@[i].chunk@
                &&& got.chunks@[i].embedding@ == data.chunks@[i].embedding@
                &&& got.chunks@[i].source_channel@ == data.chunks@[i].source_channel@
                &&& got.chunks@[i].timestamp == data.chunks@[i].timestamp
                &&& got.chunks@[i].session_id@ == data.chunks@[i].session_id@
                &&& got.chunks@[i].tags@ == data.chunks@[i].tags@
                &&& got.chunks@[i].deleted == data.chunks@[i].deleted
            },
        forall|i: int|
            0 <= i < data.sessions@.len() ==> {
                &&& (#[trigger] got.sessions@[i]).id@ == data.sessions@[i].id@
                &&& got.sessions@[i].start_idx == data.sessions@[i].start_idx
                &&& got.sessions@[i].end_idx == data.sessions@[i].end_idx
                &&& got.sessions@[i].channel@ == data.sessions@[i].channel@
                &&& got.sessions@[i].timestamp == data.sessions@[i].timestamp
                &&& got.sessions@[i].summary@ == data.sessions@[i].summary@
            },
        forall|i: int|
            0 <= i < data.entities@.len() ==> {
                &&& (#[trigger] got.entities@[i]).id == data.entities@[i].id
                &&& got.entities@[i].name@ == data.entities@[i].name@
                &&& got.entities@[i].entity_type@ == data.entities@[i].entity_type@
                &&& got.entities@[i].embedding_idx == data.entities@[i].embedding_idx
            },
        forall|i: int|
            0 <= i < data.relations@.len() ==> {
                &&& (#[trigger] got.relations@[i]).src == data.relations@[i].src
                &&& got.relations@[i].tgt == data.relations@[i].tgt
                &&& got.relations@[i].relation@ == data.relations@[i].relation@
                &&& got.relations@[i].weight == data.relations@[i].weight
                &&& got.relations@[i].timestamp == data.relations@[i].timestamp
            },
{
    assert forall|i: int| 0 <= i < data.chunks@.len() implies same_chunk(
        data.chunks@[i],
        #[trigger] got.chunks@[i],
    ) by {
        assert(same_chunk(data.chunks@[i], got.chunks@[i]));
    }
    assert forall|i: int| 0 <= i < data.sessions@.len() implies sessions_agree(
        data.sessions@[i],
        #[trigger] got.sessions@[i],
    ) by {
        assert(sessions_agree(data.sessions@[i], got.sessions@[i]));
    }
    assert forall|i: int| 0 <= i < data.entities@.len() implies entities_agree(
        data.entities@[i],
        #[trigger] got.entities@[i],
    ) by {
        assert(entities_agree(data.entities@[i], got.entities@[i]));
    }
    assert forall|i: int| 0 <= i < data.relations@.len() implies relations_agree(
        data.relations@[i],
        #[trigger] got.relations@[i],
    ) by {
        assert(relations_agree(data.relations@[i], got.relations@[i]));
    }
}

} // verus!
