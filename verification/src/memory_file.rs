//! Agent memory as a file: four groups of columns, written and read back.

use crate::columns::{
    f32_values, i32_values, i64_values, read_f32_values, read_f64_values, read_i32_values, read_i64_values,
    read_text_values, text_values,
};
use crate::migrate::{
    chunks_from_columns, entities_from_columns, is_chunk_row, is_entity_row,
    is_relation_row, is_session_row, relations_from_columns, sessions_from_columns, text_views,
    ChunkColumns, Entity, MemoryChunk, Relation, Session, SqliteData,
};
use crate::mpi_vol::long_words;
use crate::reader::{
    int_attr, object_messages, read_answer, read_dataset, read_int_attr, read_type, type_answer,
    ReadFault,
};
use vstd::prelude::*;
use vstd::utf8::encode_utf8;

verus! {

/// Why a memory file could not be read.
#[derive(Clone, Copy, PartialEq, Eq, Debug, Structural)]
pub enum MemoryFault {
    /// A group or a column cannot be read.
    Unreadable(ReadFault),
    /// A column of texts does not hold texts.
    NotText,
}

// ---------------------------------------------------------------------------
// Columns of a file
// ---------------------------------------------------------------------------

/// The bytes of a column.
#[verifier::opaque]
pub open spec fn column_bytes(file: Seq<u8>, path: Seq<char>) -> Result<Seq<u8>, MemoryFault> {
    match read_answer(file, encode_utf8(path)) {
        Ok(data) => Ok(data),
        Err(fault) => Err(MemoryFault::Unreadable(fault)),
    }
}

fn read_column(file: &[u8], path: &str) -> (r: Result<Vec<u8>, MemoryFault>)
    ensures
        match column_bytes(file@, path@) {
            Ok(data) => r is Ok && r->Ok_0@ == data,
            Err(e) => r == Err::<Vec<u8>, MemoryFault>(e),
        },
{
    reveal(column_bytes);
    match read_dataset(file, path) {
        Ok(data) => Ok(data),
        Err(fault) => Err(MemoryFault::Unreadable(fault)),
    }
}

/// The texts of a column.
pub open spec fn column_texts(file: Seq<u8>, path: Seq<char>) -> Result<
    Seq<Seq<char>>,
    MemoryFault,
> {
    match column_bytes(file, path) {
        Err(e) => Err(e),
        Ok(data) => match type_answer(file, encode_utf8(path)) {
            None => Err(MemoryFault::NotText),
            Some(info) => match text_values(data, info.size as nat) {
                None => Err(MemoryFault::NotText),
                Some(texts) => Ok(texts),
            },
        },
    }
}

fn read_texts(file: &[u8], path: &str) -> (r: Result<Vec<String>, MemoryFault>)
    ensures
        match column_texts(file@, path@) {
            Ok(texts) => r is Ok && text_views(r->Ok_0@) == texts,
            Err(e) => r == Err::<Vec<String>, MemoryFault>(e),
        },
{
    let data: Vec<u8> = match read_column(file, path) {
        Ok(data) => data,
        Err(e) => {
            return Err(e);
        },
    };
    match read_type(file, path) {
        None => Err(MemoryFault::NotText),
        Some(info) => match read_text_values(data.as_slice(), info.size) {
            None => Err(MemoryFault::NotText),
            Some(texts) => Ok(texts),
        },
    }
}

fn read_i64s(file: &[u8], path: &str) -> (r: Result<Vec<i64>, MemoryFault>)
    ensures
        match column_bytes(file@, path@) {
            Ok(data) => r is Ok && r->Ok_0@ == i64_values(data),
            Err(e) => r == Err::<Vec<i64>, MemoryFault>(e),
        },
{
    match read_column(file, path) {
        Ok(data) => Ok(read_i64_values(data.as_slice())),
        Err(e) => Err(e),
    }
}

fn read_i32s(file: &[u8], path: &str) -> (r: Result<Vec<i32>, MemoryFault>)
    ensures
        match column_bytes(file@, path@) {
            Ok(data) => r is Ok && r->Ok_0@ == i32_values(data),
            Err(e) => r == Err::<Vec<i32>, MemoryFault>(e),
        },
{
    match read_column(file, path) {
        Ok(data) => Ok(read_i32_values(data.as_slice())),
        Err(e) => Err(e),
    }
}

fn read_f64s(file: &[u8], path: &str) -> (r: Result<Vec<u64>, MemoryFault>)
    ensures
        match column_bytes(file@, path@) {
            Ok(data) => r is Ok && r->Ok_0@ == long_words(data),
            Err(e) => r == Err::<Vec<u64>, MemoryFault>(e),
        },
{
    match read_column(file, path) {
        Ok(data) => Ok(read_f64_values(data.as_slice())),
        Err(e) => Err(e),
    }
}

fn read_f32s(file: &[u8], path: &str) -> (r: Result<Vec<u32>, MemoryFault>)
    ensures
        match column_bytes(file@, path@) {
            Ok(data) => r is Ok && r->Ok_0@ == f32_values(
                data,
                type_answer(file@, encode_utf8(path@)),
            ),
            Err(e) => r == Err::<Vec<u32>, MemoryFault>(e),
        },
{
    match read_column(file, path) {
        Ok(data) => Ok(read_f32_values(data.as_slice(), read_type(file, path))),
        Err(e) => Err(e),
    }
}

/// How many rows a group says it has: none, where it does not say.
#[verifier::opaque]
pub open spec fn row_count(file: Seq<u8>, group: Seq<char>) -> Result<i64, MemoryFault> {
    if object_messages(file, encode_utf8(group)) is None {
        Err(MemoryFault::Unreadable(ReadFault::NotFound))
    } else {
        match int_attr(file, encode_utf8(group), encode_utf8("count"@)) {
            Some(n) => Ok(n),
            None => Ok(0),
        }
    }
}

fn group_count(file: &[u8], group: &str) -> (r: Result<i64, MemoryFault>)
    ensures
        r == row_count(file@, group@),
{
    reveal(row_count);
    if !crate::reader::has_object(file, group) {
        return Err(MemoryFault::Unreadable(ReadFault::NotFound));
    }
    match read_int_attr(file, group, "count") {
        Some(n) => Ok(n),
        None => Ok(0),
    }
}

/// The fault of an attempt, if it failed.
pub open spec fn fault_of<T>(r: Result<T, MemoryFault>) -> Option<MemoryFault> {
    match r {
        Ok(_) => None,
        Err(e) => Some(e),
    }
}

/// The first of two faults.
pub open spec fn earlier(a: Option<MemoryFault>, b: Option<MemoryFault>) -> Option<MemoryFault> {
    if a is Some {
        a
    } else {
        b
    }
}

// ---------------------------------------------------------------------------
// Reading
// ---------------------------------------------------------------------------

/// What stops the chunk columns from being read.
pub open spec fn chunk_columns_fault(file: Seq<u8>) -> Option<MemoryFault> {
    earlier(
        fault_of(column_bytes(file, "chunks/id"@)),
        earlier(
            fault_of(column_texts(file, "chunks/text"@)),
            earlier(
                fault_of(column_texts(file, "chunks/source_channel"@)),
                earlier(
                    fault_of(column_bytes(file, "chunks/timestamp"@)),
                    earlier(
                        fault_of(column_texts(file, "chunks/session_id"@)),
                        earlier(
                            fault_of(column_texts(file, "chunks/tags"@)),
                            earlier(
                                fault_of(column_bytes(file, "chunks/deleted"@)),
                                fault_of(column_bytes(file, "chunks/embeddings"@)),
                            ),
                        ),
                    ),
                ),
            ),
        ),
    )
}

/// Whether `cols` are the chunk columns of a file.
pub open spec fn are_chunk_columns(file: Seq<u8>, cols: ChunkColumns) -> bool {
    &&& cols.ids@ == i64_values(column_bytes(file, "chunks/id"@)->Ok_0)
    &&& text_views(cols.texts@) == column_texts(file, "chunks/text"@)->Ok_0
    &&& text_views(cols.channels@) == column_texts(file, "chunks/source_channel"@)->Ok_0
    &&& cols.timestamps@ == long_words(column_bytes(file, "chunks/timestamp"@)->Ok_0)
    &&& text_views(cols.session_ids@) == column_texts(file, "chunks/session_id"@)->Ok_0
    &&& text_views(cols.tags@) == column_texts(file, "chunks/tags"@)->Ok_0
    &&& cols.deleted@ == i32_values(column_bytes(file, "chunks/deleted"@)->Ok_0)
    &&& cols.embeddings@ == f32_values(
        column_bytes(file, "chunks/embeddings"@)->Ok_0,
        type_answer(file, encode_utf8("chunks/embeddings"@)),
    )
}

fn read_chunk_columns(file: &[u8]) -> (r: Result<ChunkColumns, MemoryFault>)
    ensures
        match chunk_columns_fault(file@) {
            Some(e) => r == Err::<ChunkColumns, MemoryFault>(e),
            None => r is Ok && are_chunk_columns(file@, r->Ok_0),
        },
{
    let ids: Vec<i64> = match read_i64s(file, "chunks/id") {
        Ok(v) => v,
        Err(e) => {
            return Err(e);
        },
    };
    let texts: Vec<String> = match read_texts(file, "chunks/text") {
        Ok(v) => v,
        Err(e) => {
            return Err(e);
        },
    };
    let channels: Vec<String> = match read_texts(file, "chunks/source_channel") {
        Ok(v) => v,
        Err(e) => {
            return Err(e);
        },
    };
    let timestamps: Vec<u64> = match read_f64s(file, "chunks/timestamp") {
        Ok(v) => v,
        Err(e) => {
            return Err(e);
        },
    };
    let session_ids: Vec<String> = match read_texts(file, "chunks/session_id") {
        Ok(v) => v,
        Err(e) => {
            return Err(e);
        },
    };
    let tags: Vec<String> = match read_texts(file, "chunks/tags") {
        Ok(v) => v,
        Err(e) => {
            return Err(e);
        },
    };
    let deleted: Vec<i32> = match read_i32s(file, "chunks/deleted") {
        Ok(v) => v,
        Err(e) => {
            return Err(e);
        },
    };
    let embeddings: Vec<u32> = match read_f32s(file, "chunks/embeddings") {
        Ok(v) => v,
        Err(e) => {
            return Err(e);
        },
    };
    Ok(
        ChunkColumns {
            ids,
            texts,
            channels,
            timestamps,
            session_ids,
            tags,
            deleted,
            embeddings,
        },
    )
}

/// What stops the chunks from being read.
pub open spec fn chunks_fault(file: Seq<u8>) -> Option<MemoryFault> {
    match row_count(file, "chunks"@) {
        Err(e) => Some(e),
        Ok(n) => if n == 0 {
            None
        } else {
            chunk_columns_fault(file)
        },
    }
}

/// Whether `chunks` are the chunks of a file that can be read.
pub open spec fn are_chunks(file: Seq<u8>, dim: usize, chunks: Seq<MemoryChunk>) -> bool {
    if row_count(file, "chunks"@) == Ok::<i64, MemoryFault>(0) {
        chunks.len() == 0
    } else {
        exists|cols: ChunkColumns|
            {
                &&& #[trigger] are_chunk_columns(file, cols)
                &&& chunks.len() == cols.ids@.len()
                &&& forall|i: int|
                    0 <= i < chunks.len() ==> is_chunk_row(#[trigger] chunks[i], cols, dim, i)
            }
    }
}

fn read_chunks(file: &[u8], dim: usize) -> (r: Result<Vec<MemoryChunk>, MemoryFault>)
    ensures
        match chunks_fault(file@) {
            Some(e) => r == Err::<Vec<MemoryChunk>, MemoryFault>(e),
            None => r is Ok && are_chunks(file@, dim, r->Ok_0@),
        },
{
    match group_count(file, "chunks") {
        Ok(n) => {
            if n == 0 {
                return Ok(Vec::new());
            }
        },
        Err(e) => {
            return Err(e);
        },
    }
    match read_chunk_columns(file) {
        Ok(cols) => {
            let chunks: Vec<MemoryChunk> = chunks_from_columns(&cols, dim);
            assert(are_chunk_columns(file@, cols));
            Ok(chunks)
        },
        Err(e) => Err(e),
    }
}

/// What stops the sessions from being read.
pub open spec fn sessions_fault(file: Seq<u8>) -> Option<MemoryFault> {
    match row_count(file, "sessions"@) {
        Err(e) => Some(e),
        Ok(n) => if n == 0 {
            None
        } else {
            earlier(
                fault_of(column_texts(file, "sessions/id"@)),
                earlier(
                    fault_of(column_bytes(file, "sessions/start_idx"@)),
                    earlier(
                        fault_of(column_bytes(file, "sessions/end_idx"@)),
                        earlier(
                            fault_of(column_texts(file, "sessions/channel"@)),
                            earlier(
                                fault_of(column_bytes(file, "sessions/timestamp"@)),
                                fault_of(column_texts(file, "sessions/summary"@)),
                            ),
                        ),
                    ),
                ),
            )
        },
    }
}

/// Whether lists are the session columns of a file.
pub open spec fn are_session_columns(
    file: Seq<u8>,
    ids: Seq<String>,
    starts: Seq<i64>,
    ends: Seq<i64>,
    channels: Seq<String>,
    timestamps: Seq<u64>,
    summaries: Seq<String>,
) -> bool {
    &&& text_views(ids) == column_texts(file, "sessions/id"@)->Ok_0
    &&& starts == i64_values(column_bytes(file, "sessions/start_idx"@)->Ok_0)
    &&& ends == i64_values(column_bytes(file, "sessions/end_idx"@)->Ok_0)
    &&& text_views(channels) == column_texts(file, "sessions/channel"@)->Ok_0
    &&& timestamps == long_words(column_bytes(file, "sessions/timestamp"@)->Ok_0)
    &&& text_views(summaries) == column_texts(file, "sessions/summary"@)->Ok_0
}

/// Whether `sessions` are the sessions of a file that can be read.
pub open spec fn are_sessions(file: Seq<u8>, sessions: Seq<Session>) -> bool {
    if row_count(file, "sessions"@) == Ok::<i64, MemoryFault>(0) {
        sessions.len() == 0
    } else {
        exists|
            ids: Seq<String>,
            starts: Seq<i64>,
            ends: Seq<i64>,
            channels: Seq<String>,
            timestamps: Seq<u64>,
            summaries: Seq<String>,
        |
            {
                &&& #[trigger] are_session_columns(
                    file,
                    ids,
                    starts,
                    ends,
                    channels,
                    timestamps,
                    summaries,
                )
                &&& sessions.len() == ids.len()
                &&& forall|i: int|
                    0 <= i < sessions.len() ==> is_session_row(
                        #[trigger] sessions[i],
                        ids,
                        starts,
                        ends,
                        channels,
                        timestamps,
                        summaries,
                        i,
                    )
            }
    }
}

fn read_sessions(file: &[u8]) -> (r: Result<Vec<Session>, MemoryFault>)
    ensures
        match sessions_fault(file@) {
            Some(e) => r == Err::<Vec<Session>, MemoryFault>(e),
            None => r is Ok && are_sessions(file@, r->Ok_0@),
        },
{
    match group_count(file, "sessions") {
        Ok(n) => {
            if n == 0 {
                return Ok(Vec::new());
            }
        },
        Err(e) => {
            return Err(e);
        },
    }
    let ids: Vec<String> = match read_texts(file, "sessions/id") {
        Ok(v) => v,
        Err(e) => {
            return Err(e);
        },
    };
    let starts: Vec<i64> = match read_i64s(file, "sessions/start_idx") {
        Ok(v) => v,
        Err(e) => {
            return Err(e);
        },
    };
    let ends: Vec<i64> = match read_i64s(file, "sessions/end_idx") {
        Ok(v) => v,
        Err(e) => {
            return Err(e);
        },
    };
    let channels: Vec<String> = match read_texts(file, "sessions/channel") {
        Ok(v) => v,
        Err(e) => {
            return Err(e);
        },
    };
    let timestamps: Vec<u64> = match read_f64s(file, "sessions/timestamp") {
        Ok(v) => v,
        Err(e) => {
            return Err(e);
        },
    };
    let summaries: Vec<String> = match read_texts(file, "sessions/summary") {
        Ok(v) => v,
        Err(e) => {
            return Err(e);
        },
    };
    let sessions: Vec<Session> = sessions_from_columns(
        ids.as_slice(),
        starts.as_slice(),
        ends.as_slice(),
        channels.as_slice(),
        timestamps.as_slice(),
        summaries.as_slice(),
    );
    assert(are_session_columns(
        file@,
        ids@,
        starts@,
        ends@,
        channels@,
        timestamps@,
        summaries@,
    ));
    Ok(sessions)
}

/// What stops the entities from being read.
pub open spec fn entities_fault(file: Seq<u8>) -> Option<MemoryFault> {
    match row_count(file, "entities"@) {
        Err(e) => Some(e),
        Ok(n) => if n == 0 {
            None
        } else {
            earlier(
                fault_of(column_bytes(file, "entities/id"@)),
                earlier(
                    fault_of(column_texts(file, "entities/name"@)),
                    earlier(
                        fault_of(column_texts(file, "entities/type"@)),
                        fault_of(column_bytes(file, "entities/embedding_idx"@)),
                    ),
                ),
            )
        },
    }
}

/// Whether lists are the entity columns of a file.
pub open spec fn are_entity_columns(
    file: Seq<u8>,
    ids: Seq<i64>,
    names: Seq<String>,
    types: Seq<String>,
    embedding_idxs: Seq<i64>,
) -> bool {
    &&& ids == i64_values(column_bytes(file, "entities/id"@)->Ok_0)
    &&& text_views(names) == column_texts(file, "entities/name"@)->Ok_0
    &&& text_views(types) == column_texts(file, "entities/type"@)->Ok_0
    &&& embedding_idxs == i64_values(column_bytes(file, "entities/embedding_idx"@)->Ok_0)
}

/// Whether `entities` are the entities of a file that can be read.
pub open spec fn are_entities(file: Seq<u8>, entities: Seq<Entity>) -> bool {
    if row_count(file, "entities"@) == Ok::<i64, MemoryFault>(0) {
        entities.len() == 0
    } else {
        exists|ids: Seq<i64>, names: Seq<String>, types: Seq<String>, embedding_idxs: Seq<i64>|
            {
                &&& #[trigger] are_entity_columns(file, ids, names, types, embedding_idxs)
                &&& entities.len() == ids.len()
                &&& forall|i: int|
                    0 <= i < entities.len() ==> is_entity_row(
                        #[trigger] entities[i],
                        ids,
                        names,
                        types,
                        embedding_idxs,
                        i,
                    )
            }
    }
}

fn read_entities(file: &[u8]) -> (r: Result<Vec<Entity>, MemoryFault>)
    ensures
        match entities_fault(file@) {
            Some(e) => r == Err::<Vec<Entity>, MemoryFault>(e),
            None => r is Ok && are_entities(file@, r->Ok_0@),
        },
{
    match group_count(file, "entities") {
        Ok(n) => {
            if n == 0 {
                return Ok(Vec::new());
            }
        },
        Err(e) => {
            return Err(e);
        },
    }
    let ids: Vec<i64> = match read_i64s(file, "entities/id") {
        Ok(v) => v,
        Err(e) => {
            return Err(e);
        },
    };
    let names: Vec<String> = match read_texts(file, "entities/name") {
        Ok(v) => v,
        Err(e) => {
            return Err(e);
        },
    };
    let types: Vec<String> = match read_texts(file, "entities/type") {
        Ok(v) => v,
        Err(e) => {
            return Err(e);
        },
    };
    let embedding_idxs: Vec<i64> = match read_i64s(file, "entities/embedding_idx") {
        Ok(v) => v,
        Err(e) => {
            return Err(e);
        },
    };
    let entities: Vec<Entity> = entities_from_columns(
        ids.as_slice(),
        names.as_slice(),
        types.as_slice(),
        embedding_idxs.as_slice(),
    );
    assert(are_entity_columns(file@, ids@, names@, types@, embedding_idxs@));
    Ok(entities)
}

/// What stops the relations from being read.
pub open spec fn relations_fault(file: Seq<u8>) -> Option<MemoryFault> {
    match row_count(file, "relations"@) {
        Err(e) => Some(e),
        Ok(n) => if n == 0 {
            None
        } else {
            earlier(
                fault_of(column_bytes(file, "relations/src"@)),
                earlier(
                    fault_of(column_bytes(file, "relations/tgt"@)),
                    earlier(
                        fault_of(column_texts(file, "relations/relation"@)),
                        earlier(
                            fault_of(column_bytes(file, "relations/weight"@)),
                            fault_of(column_bytes(file, "relations/timestamp"@)),
                        ),
                    ),
                ),
            )
        },
    }
}

/// Whether lists are the relation columns of a file.
pub open spec fn are_relation_columns(
    file: Seq<u8>,
    srcs: Seq<i64>,
    tgts: Seq<i64>,
    relations: Seq<String>,
    weights: Seq<u64>,
    timestamps: Seq<u64>,
) -> bool {
    &&& srcs == i64_values(column_bytes(file, "relations/src"@)->Ok_0)
    &&& tgts == i64_values(column_bytes(file, "relations/tgt"@)->Ok_0)
    &&& text_views(relations) == column_texts(file, "relations/relation"@)->Ok_0
    &&& weights == long_words(column_bytes(file, "relations/weight"@)->Ok_0)
    &&& timestamps == long_words(column_bytes(file, "relations/timestamp"@)->Ok_0)
}

/// Whether `relations` are the relations of a file that can be read.
pub open spec fn are_relations(file: Seq<u8>, relations: Seq<Relation>) -> bool {
    if row_count(file, "relations"@) == Ok::<i64, MemoryFault>(0) {
        relations.len() == 0
    } else {
        exists|
            srcs: Seq<i64>,
            tgts: Seq<i64>,
            names: Seq<String>,
            weights: Seq<u64>,
            timestamps: Seq<u64>,
        |
            {
                &&& #[trigger] are_relation_columns(file, srcs, tgts, names, weights, timestamps)
                &&& relations.len() == srcs.len()
                &&& forall|i: int|
                    0 <= i < relations.len() ==> is_relation_row(
                        #[trigger] relations[i],
                        srcs,
                        tgts,
                        names,
                        weights,
                        timestamps,
                        i,
                    )
            }
    }
}

fn read_relations(file: &[u8]) -> (r: Result<Vec<Relation>, MemoryFault>)
    ensures
        match relations_fault(file@) {
            Some(e) => r == Err::<Vec<Relation>, MemoryFault>(e),
            None => r is Ok && are_relations(file@, r->Ok_0@),
        },
{
    match group_count(file, "relations") {
        Ok(n) => {
            if n == 0 {
                return Ok(Vec::new());
            }
        },
        Err(e) => {
            return Err(e);
        },
    }
    let srcs: Vec<i64> = match read_i64s(file, "relations/src") {
        Ok(v) => v,
        Err(e) => {
            return Err(e);
        },
    };
    let tgts: Vec<i64> = match read_i64s(file, "relations/tgt") {
        Ok(v) => v,
        Err(e) => {
            return Err(e);
        },
    };
    let names: Vec<String> = match read_texts(file, "relations/relation") {
        Ok(v) => v,
        Err(e) => {
            return Err(e);
        },
    };
    let weights: Vec<u64> = match read_f64s(file, "relations/weight") {
        Ok(v) => v,
        Err(e) => {
            return Err(e);
        },
    };
    let timestamps: Vec<u64> = match read_f64s(file, "relations/timestamp") {
        Ok(v) => v,
        Err(e) => {
            return Err(e);
        },
    };
    let relations: Vec<Relation> = relations_from_columns(
        srcs.as_slice(),
        tgts.as_slice(),
        names.as_slice(),
        weights.as_slice(),
        timestamps.as_slice(),
    );
    assert(are_relation_columns(file@, srcs@, tgts@, names@, weights@, timestamps@));
    Ok(relations)
}

/// The embedding dimension a file states; none, where it does not.
pub open spec fn stated_dim(file: Seq<u8>) -> usize {
    match int_attr(file, Seq::empty(), encode_utf8("embedding_dim"@)) {
        Some(d) => d as usize,
        None => 0,
    }
}

fn read_dim(file: &[u8]) -> (r: usize)
    ensures
        r == stated_dim(file@),
{
    proof {
        reveal_strlit("");
        assert(""@ =~= Seq::empty());
        assert(encode_utf8(""@) =~= Seq::empty());
    }
    match read_int_attr(file, "", "embedding_dim") {
        Some(d) => d as usize,
        None => 0,
    }
}

/// What stops a file from being read.
pub open spec fn memory_fault(file: Seq<u8>) -> Option<MemoryFault> {
    earlier(
        chunks_fault(file),
        earlier(
            sessions_fault(file),
            earlier(entities_fault(file), relations_fault(file)),
        ),
    )
}

/// Whether `data` is what a file that can be read holds.
pub open spec fn is_memory_of(file: Seq<u8>, data: SqliteData) -> bool {
    &&& data.embedding_dim == stated_dim(file)
    &&& are_chunks(file, stated_dim(file), data.chunks@)
    &&& are_sessions(file, data.sessions@)
    &&& are_entities(file, data.entities@)
    &&& are_relations(file, data.relations@)
}

/// Reads a memory file.
pub fn read_hdf5(file: &[u8]) -> (r: Result<SqliteData, MemoryFault>)
    ensures
        match memory_fault(file@) {
            Some(e) => r == Err::<SqliteData, MemoryFault>(e),
            None => r is Ok && is_memory_of(file@, r->Ok_0),
        },
{
    let embedding_dim: usize = read_dim(file);
    let chunks: Vec<MemoryChunk> = match read_chunks(file, embedding_dim) {
        Ok(v) => v,
        Err(e) => {
            return Err(e);
        },
    };
    let sessions: Vec<Session> = match read_sessions(file) {
        Ok(v) => v,
        Err(e) => {
            return Err(e);
        },
    };
    let entities: Vec<Entity> = match read_entities(file) {
        Ok(v) => v,
        Err(e) => {
            return Err(e);
        },
    };
    let relations: Vec<Relation> = match read_relations(file) {
        Ok(v) => v,
        Err(e) => {
            return Err(e);
        },
    };
    Ok(SqliteData { chunks, sessions, entities, relations, embedding_dim })
}

} // verus!
