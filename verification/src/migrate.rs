//! Migrating agent memory out of an SQL database: the queries, the rows, the
//! merge of old and new, and the check of what was written.
//!
//! Floating-point numbers are carried as their bits.

use crate::bytes::{from_le, lemma_byte_span, lemma_from_le_bound, read_le};
use crate::text::{decimal, push_signed_decimal, push_text, signed_decimal};
use vstd::prelude::*;

verus! {

/// The bits of 1.0 as a 64-bit number.
pub const ONE_BITS: u64 = 0x3ff0_0000_0000_0000;

// ---------------------------------------------------------------------------
// Rows
// ---------------------------------------------------------------------------

/// A memory chunk.
#[derive(Debug, Clone, PartialEq, Eq)]
pub struct MemoryChunk {
    pub id: i64,
    pub chunk: String,
    /// The embedding, as bits of 32-bit numbers.
    pub embedding: Vec<u32>,
    pub source_channel: String,
    /// Bits of a 64-bit number.
    pub timestamp: u64,
    pub session_id: String,
    pub tags: String,
    pub deleted: i32,
}

/// A session.
#[derive(Debug, Clone, PartialEq, Eq)]
pub struct Session {
    pub id: String,
    pub start_idx: i64,
    pub end_idx: i64,
    pub channel: String,
    /// Bits of a 64-bit number.
    pub timestamp: u64,
    pub summary: String,
}

/// An entity.
#[derive(Debug, Clone, PartialEq, Eq)]
pub struct Entity {
    pub id: i64,
    pub name: String,
    pub entity_type: String,
    pub embedding_idx: i64,
}

/// A relation between two entities.
#[derive(Debug, Clone, PartialEq, Eq)]
pub struct Relation {
    pub src: i64,
    pub tgt: i64,
    pub relation: String,
    /// Bits of a 64-bit number.
    pub weight: u64,
    /// Bits of a 64-bit number.
    pub timestamp: u64,
}

/// Everything that is migrated.
#[derive(Debug, Clone, PartialEq, Eq)]
pub struct SqliteData {
    pub chunks: Vec<MemoryChunk>,
    pub sessions: Vec<Session>,
    pub entities: Vec<Entity>,
    pub relations: Vec<Relation>,
    pub embedding_dim: usize,
}

/// The text, or no text where there is none.
pub open spec fn text_or_empty(t: Option<String>) -> Seq<char> {
    match t {
        Some(s) => s@,
        None => Seq::empty(),
    }
}

/// A text that is there is kept, letter by letter; only where there is none the row
/// has an empty one. Numbers are kept in the same way.
pub proof fn law_present_values_are_kept(
    t: Option<String>,
    i: Option<i64>,
    u: Option<u64>,
    i_default: i64,
    u_default: u64,
)
    ensures
        t is Some ==> text_or_empty(t) == t->0@,
        t is None ==> text_or_empty(t).len() == 0,
        i is Some ==> i64_or(i, i_default) == i->0,
        i is None ==> i64_or(i, i_default) == i_default,
        u is Some ==> u64_or(u, u_default) == u->0,
        u is None ==> u64_or(u, u_default) == u_default,
{
}

fn or_empty(t: Option<String>) -> (r: String)
    ensures
        r@ == text_or_empty(t),
{
    match t {
        Some(s) => s,
        None => {
            let r: String = "".to_owned();
            proof {
                reveal_strlit("");
            }
            assert(r@ =~= Seq::empty());
            r
        },
    }
}

/// The little-endian 32-bit words of a blob; a rest of less than four bytes is
/// left out.
pub open spec fn blob_words(blob: Seq<u8>) -> Seq<u32> {
    Seq::new(
        blob.len() / 4,
        |i: int| from_le(blob.subrange(4 * i, 4 * i + 4)) as u32,
    )
}

/// Word `k` of a blob is made of its bytes `4k` to `4k + 3`, the first the least.
pub proof fn law_blob_words_are_little_endian(blob: Seq<u8>, k: int)
    requires
        0 <= k,
        4 * k + 4 <= blob.len(),
    ensures
        k < blob_words(blob).len(),
        blob_words(blob)[k] == blob[4 * k] + 0x100 * blob[4 * k + 1] + 0x1_0000 * blob[4 * k + 2]
            + 0x100_0000 * blob[4 * k + 3],
{
    let w = blob.subrange(4 * k, 4 * k + 4);
    reveal_with_fuel(from_le, 5);
    assert(w.skip(1).skip(1) =~= w.skip(2));
    assert(w.skip(2).skip(1) =~= w.skip(3));
    assert(w.skip(3).skip(1) =~= Seq::empty());
    lemma_from_le_bound(w);
    lemma_byte_span();
}

/// Reads a blob as 32-bit words.
pub fn blob_to_f32(blob: &[u8]) -> (words: Vec<u32>)
    ensures
        words@ == blob_words(blob@),
{
    let len: usize = blob.len();
    let n: usize = len / 4;
    let mut words: Vec<u32> = Vec::new();
    let mut i: usize = 0;
    while i < n
        invariant
            len == blob@.len(),
            i <= n == len / 4,
            words@.len() == i,
            forall|j: int| 0 <= j < i ==> #[trigger] words@[j] == blob_words(blob@)[j],
        decreases n - i,
    {
        proof {
            lemma_from_le_bound(blob@.subrange(4 * i, 4 * i + 4));
            lemma_byte_span();
        }
        words.push(read_le(blob, 4 * i, 4) as u32);
        i = i + 1;
    }
    assert(words@ =~= blob_words(blob@));
    words
}

/// The embedding dimension that a blob stands for.
pub fn blob_dim(blob: &[u8]) -> (dim: usize)
    ensures
        dim == blob_words(blob@).len(),
{
    blob.len() / 4
}

/// `words` cut to `dim`, where a dimension is expected.
pub open spec fn cut_to_dim(words: Seq<u32>, dim: usize) -> Seq<u32> {
    if dim > 0 && words.len() > dim {
        words.take(dim as int)
    } else {
        words
    }
}

/// A chunk from the values of its row.
pub fn chunk_from_row(
    id: i64,
    chunk: String,
    blob: &[u8],
    source_channel: Option<String>,
    timestamp: u64,
    session_id: Option<String>,
    tags: Option<String>,
    deleted: i32,
    expected_dim: usize,
) -> (c: MemoryChunk)
    ensures
        c.id == id,
        c.chunk == chunk,
        c.embedding@ == cut_to_dim(blob_words(blob@), expected_dim),
        c.source_channel@ == text_or_empty(source_channel),
        c.timestamp == timestamp,
        c.session_id@ == text_or_empty(session_id),
        c.tags@ == text_or_empty(tags),
        c.deleted == deleted,
        match source_channel {
            Some(t) => c.source_channel@ == t@,
            None => c.source_channel@.len() == 0,
        },
        match session_id {
            Some(t) => c.session_id@ == t@,
            None => c.session_id@.len() == 0,
        },
        match tags {
            Some(t) => c.tags@ == t@,
            None => c.tags@.len() == 0,
        },
        c.embedding@.len() == if expected_dim > 0 && blob@.len() / 4 > expected_dim {
            expected_dim as nat
        } else {
            blob@.len() / 4
        },
        forall|k: int|
            0 <= k < c.embedding@.len() ==> #[trigger] c.embedding@[k] == blob@[4 * k] + 0x100
                * blob@[4 * k + 1] + 0x1_0000 * blob@[4 * k + 2] + 0x100_0000 * blob@[4 * k + 3],
{
    let mut embedding: Vec<u32> = blob_to_f32(blob);
    if expected_dim > 0 && embedding.len() > expected_dim {
        let ghost whole = embedding@;
        embedding.truncate(expected_dim);
        assert(embedding@ =~= whole.take(expected_dim as int));
    }
    proof {
        assert forall|k: int| 0 <= k < embedding@.len() implies #[trigger] embedding@[k]
            == blob@[4 * k] + 0x100 * blob@[4 * k + 1] + 0x1_0000 * blob@[4 * k + 2] + 0x100_0000
            * blob@[4 * k + 3] by {
            law_blob_words_are_little_endian(blob@, k);
        }
    }
    MemoryChunk {
        id,
        chunk,
        embedding,
        source_channel: or_empty(source_channel),
        timestamp,
        session_id: or_empty(session_id),
        tags: or_empty(tags),
        deleted,
    }
}

/// The number, or a default where there is none.
pub open spec fn i64_or(v: Option<i64>, default: i64) -> i64 {
    match v {
        Some(x) => x,
        None => default,
    }
}

/// The number, or a default where there is none.
pub open spec fn u64_or(v: Option<u64>, default: u64) -> u64 {
    match v {
        Some(x) => x,
        None => default,
    }
}

fn or_i64(v: Option<i64>, default: i64) -> (r: i64)
    ensures
        r == i64_or(v, default),
{
    match v {
        Some(x) => x,
        None => default,
    }
}

fn or_u64(v: Option<u64>, default: u64) -> (r: u64)
    ensures
        r == u64_or(v, default),
{
    match v {
        Some(x) => x,
        None => default,
    }
}

/// A session from the values of its row.
pub fn session_from_row(
    id: String,
    start_idx: Option<i64>,
    end_idx: Option<i64>,
    channel: Option<String>,
    timestamp: Option<u64>,
    summary: Option<String>,
) -> (s: Session)
    ensures
        s.id == id,
        s.start_idx == i64_or(start_idx, 0),
        s.end_idx == i64_or(end_idx, 0),
        s.channel@ == text_or_empty(channel),
        s.timestamp == u64_or(timestamp, 0),
        s.summary@ == text_or_empty(summary),
        match channel {
            Some(t) => s.channel@ == t@,
            None => s.channel@.len() == 0,
        },
        match summary {
            Some(t) => s.summary@ == t@,
            None => s.summary@.len() == 0,
        },
        match start_idx {
            Some(x) => s.start_idx == x,
            None => s.start_idx == 0,
        },
        match end_idx {
            Some(x) => s.end_idx == x,
            None => s.end_idx == 0,
        },
        match timestamp {
            Some(x) => s.timestamp == x,
            None => s.timestamp == 0,
        },
{
    Session {
        id,
        start_idx: or_i64(start_idx, 0),
        end_idx: or_i64(end_idx, 0),
        channel: or_empty(channel),
        timestamp: or_u64(timestamp, 0),
        summary: or_empty(summary),
    }
}

/// An entity from the values of its row.
pub fn entity_from_row(
    id: i64,
    name: String,
    entity_type: String,
    embedding_idx: Option<i64>,
) -> (e: Entity)
    ensures
        e.id == id,
        e.name == name,
        e.entity_type == entity_type,
        e.embedding_idx == i64_or(embedding_idx, -1i64),
        match embedding_idx {
            Some(x) => e.embedding_idx == x,
            None => e.embedding_idx == -1,
        },
{
    Entity { id, name, entity_type, embedding_idx: or_i64(embedding_idx, -1) }
}

/// A relation from the values of its row.
pub fn relation_from_row(
    src: i64,
    tgt: i64,
    relation: String,
    weight: Option<u64>,
    timestamp: Option<u64>,
) -> (r: Relation)
    ensures
        r.src == src,
        r.tgt == tgt,
        r.relation == relation,
        r.weight == u64_or(weight, ONE_BITS),
        r.timestamp == u64_or(timestamp, 0),
        match weight {
            Some(x) => r.weight == x,
            None => r.weight == 0x3ff0_0000_0000_0000,
        },
        match timestamp {
            Some(x) => r.timestamp == x,
            None => r.timestamp == 0,
        },
{
    Relation {
        src,
        tgt,
        relation,
        weight: or_u64(weight, ONE_BITS),
        timestamp: or_u64(timestamp, 0),
    }
}

// ---------------------------------------------------------------------------
// Queries
// ---------------------------------------------------------------------------

/// A table and its columns, in the order they are read.
#[derive(Debug, Clone, PartialEq, Eq)]
pub struct TableSchema {
    pub table: String,
    pub columns: Vec<String>,
}

/// Where the rows are.
#[derive(Debug, Clone, PartialEq, Eq)]
pub struct SchemaConfig {
    pub chunks: TableSchema,
    pub sessions: TableSchema,
    pub entities: TableSchema,
    pub relations: TableSchema,
}

/// The contents of a list of texts.
pub open spec fn text_views(v: Seq<String>) -> Seq<Seq<char>> {
    Seq::new(v.len(), |i: int| v[i]@)
}

/// Texts with `", "` between them.
pub open spec fn comma_list(v: Seq<Seq<char>>) -> Seq<char>
    decreases v.len(),
{
    if v.len() == 0 {
        Seq::empty()
    } else if v.len() == 1 {
        v[0]
    } else {
        comma_list(v.drop_last()) + ", "@ + v.last()
    }
}

/// Column `i`, or a default where there is none.
pub open spec fn column_or(columns: Seq<String>, i: int, default: Seq<char>) -> Seq<char> {
    if i < columns.len() {
        columns[i]@
    } else {
        default
    }
}

fn texts(list: &[&str]) -> (r: Vec<String>)
    ensures
        r@.len() == list@.len(),
        forall|i: int| 0 <= i < list@.len() ==> (#[trigger] r@[i])@ == list@[i]@,
{
    let mut r: Vec<String> = Vec::new();
    let mut i: usize = 0;
    while i < list.len()
        invariant
            i <= list@.len(),
            r@.len() == i,
            forall|j: int| 0 <= j < i ==> (#[trigger] r@[j])@ == list@[j]@,
        decreases list@.len() - i,
    {
        r.push(list[i].to_owned());
        i = i + 1;
    }
    r
}

impl Default for SchemaConfig {
    fn default() -> (c: Self)
        ensures
            c.chunks.table@ == "memory_chunks"@,
            text_views(c.chunks.columns@) == seq![
                "id"@,
                "chunk"@,
                "embedding"@,
                "source_channel"@,
                "timestamp"@,
                "session_id"@,
                "tags"@,
                "deleted"@,
            ],
            c.sessions.table@ == "sessions"@,
            text_views(c.sessions.columns@) == seq![
                "id"@,
                "start_idx"@,
                "end_idx"@,
                "channel"@,
                "timestamp"@,
                "summary"@,
            ],
            c.entities.table@ == "entities"@,
            text_views(c.entities.columns@) == seq!["id"@, "name"@, "type"@, "embedding_idx"@],
            c.relations.table@ == "relations"@,
            text_views(c.relations.columns@) == seq![
                "src"@,
                "tgt"@,
                "relation"@,
                "weight"@,
                "timestamp"@,
            ],
    {
        let chunks: TableSchema = TableSchema {
            table: "memory_chunks".to_owned(),
            columns: texts(
                &[
                    "id",
                    "chunk",
                    "embedding",
                    "source_channel",
                    "timestamp",
                    "session_id",
                    "tags",
                    "deleted",
                ],
            ),
        };
        let sessions: TableSchema = TableSchema {
            table: "sessions".to_owned(),
            columns: texts(&["id", "start_idx", "end_idx", "channel", "timestamp", "summary"]),
        };
        let entities: TableSchema = TableSchema {
            table: "entities".to_owned(),
            columns: texts(&["id", "name", "type", "embedding_idx"]),
        };
        let relations: TableSchema = TableSchema {
            table: "relations".to_owned(),
            columns: texts(&["src", "tgt", "relation", "weight", "timestamp"]),
        };
        SchemaConfig { chunks, sessions, entities, relations }
    }
}

impl TableSchema {
    /// The query for the table's rows.
    pub open spec fn select_text(&self, where_clause: Seq<char>) -> Seq<char> {
        "SELECT "@ + comma_list(text_views(self.columns@)) + " FROM "@ + self.table@ + where_clause
    }

    /// The query for the table's rows.
    pub fn select(&self, where_clause: &str) -> (sql: String)
        ensures
            sql@ == self.select_text(where_clause@),
    {
        let ghost views = text_views(self.columns@);
        let mut list: String = "".to_owned();
        proof {
            reveal_strlit("");
        }
        assert(list@ =~= comma_list(views.take(0)));
        let mut i: usize = 0;
        while i < self.columns.len()
            invariant
                i <= self.columns@.len(),
                views == text_views(self.columns@),
                list@ == comma_list(views.take(i as int)),
            decreases self.columns@.len() - i,
        {
            proof {
                assert(views.take(i + 1).drop_last() =~= views.take(i as int));
                assert(views.take(i + 1).last() == self.columns@[i as int]@);
            }
            if i > 0 {
                push_text(&mut list, ", ");
            }
            push_text(&mut list, self.columns[i].as_str());
            proof {
                if i == 0 {
                    assert(list@ =~= views[0]);
                }
            }
            i = i + 1;
        }
        assert(views.take(i as int) =~= views);
        let mut sql: String = "SELECT ".to_owned();
        push_text(&mut sql, list.as_str());
        push_text(&mut sql, " FROM ");
        push_text(&mut sql, self.table.as_str());
        push_text(&mut sql, where_clause);
        sql
    }

    /// The query for the number of the table's rows.
    pub open spec fn count_text(&self, where_clause: Seq<char>) -> Seq<char> {
        "SELECT COUNT(*) FROM "@ + self.table@ + where_clause
    }

    /// The query for the number of the table's rows.
    pub fn count(&self, where_clause: &str) -> (sql: String)
        ensures
            sql@ == self.count_text(where_clause@),
    {
        let mut sql: String = "SELECT COUNT(*) FROM ".to_owned();
        push_text(&mut sql, self.table.as_str());
        push_text(&mut sql, where_clause);
        sql
    }

    fn column(&self, i: usize, default: &str) -> (r: String)
        ensures
            r@ == column_or(self.columns@, i as int, default@),
    {
        if i < self.columns.len() {
            self.columns[i].as_str().to_owned()
        } else {
            default.to_owned()
        }
    }
}

impl SchemaConfig {
    /// The condition on chunks: not deleted, and newer than a chunk.
    pub open spec fn chunk_filter(&self, skip_deleted: bool, min_chunk_id: i64) -> Seq<char> {
        let live = column_or(self.chunks.columns@, 7, "deleted"@) + " = 0"@;
        let newer = column_or(self.chunks.columns@, 0, "id"@) + " > "@ + signed_decimal(
            min_chunk_id as int,
        );
        if skip_deleted && min_chunk_id > 0 {
            " WHERE "@ + live + " AND "@ + newer
        } else if skip_deleted {
            " WHERE "@ + live
        } else if min_chunk_id > 0 {
            " WHERE "@ + newer
        } else {
            Seq::empty()
        }
    }

    /// The condition on chunks.
    pub fn chunk_where(&self, skip_deleted: bool, min_chunk_id: i64) -> (sql: String)
        ensures
            sql@ == self.chunk_filter(skip_deleted, min_chunk_id),
            !skip_deleted && min_chunk_id <= 0 ==> sql@.len() == 0,
            skip_deleted && min_chunk_id <= 0 && self.chunks.columns@.len() > 7 ==> sql@
                == " WHERE "@ + self.chunks.columns@[7]@ + " = 0"@,
            !skip_deleted && min_chunk_id > 0 && self.chunks.columns@.len() > 0 ==> sql@
                == " WHERE "@ + self.chunks.columns@[0]@ + " > "@ + decimal(min_chunk_id as nat),
            skip_deleted && min_chunk_id > 0 && self.chunks.columns@.len() > 7 ==> sql@
                == " WHERE "@ + self.chunks.columns@[7]@ + " = 0"@ + " AND "@
                + self.chunks.columns@[0]@ + " > "@ + decimal(min_chunk_id as nat),
    {
        let mut sql: String = "".to_owned();
        proof {
            reveal_strlit("");
        }
        assert(sql@ =~= Seq::empty());
        if skip_deleted || min_chunk_id > 0 {
            push_text(&mut sql, " WHERE ");
            assert(sql@ =~= " WHERE "@);
        }
        if skip_deleted {
            push_text(&mut sql, self.chunks.column(7, "deleted").as_str());
            push_text(&mut sql, " = 0");
            if min_chunk_id > 0 {
                push_text(&mut sql, " AND ");
            }
        }
        if min_chunk_id > 0 {
            push_text(&mut sql, self.chunks.column(0, "id").as_str());
            push_text(&mut sql, " > ");
            push_signed_decimal(&mut sql, min_chunk_id);
        }
        assert(sql@ =~= self.chunk_filter(skip_deleted, min_chunk_id));
        sql
    }

    /// The query for chunks.
    pub fn chunk_query(&self, skip_deleted: bool, min_chunk_id: i64) -> (sql: String)
        ensures
            sql@ == self.chunks.select_text(self.chunk_filter(skip_deleted, min_chunk_id)),
    {
        let condition: String = self.chunk_where(skip_deleted, min_chunk_id);
        self.chunks.select(condition.as_str())
    }

    /// The query for the first embedding.
    pub fn dim_query(&self) -> (sql: String)
        ensures
            sql@ == "SELECT "@ + column_or(self.chunks.columns@, 2, "embedding"@) + " FROM "@
                + self.chunks.table@ + " LIMIT 1"@,
    {
        let mut sql: String = "SELECT ".to_owned();
        push_text(&mut sql, self.chunks.column(2, "embedding").as_str());
        push_text(&mut sql, " FROM ");
        push_text(&mut sql, self.chunks.table.as_str());
        push_text(&mut sql, " LIMIT 1");
        sql
    }
}

/// Rows per table.
#[derive(Clone, Copy, PartialEq, Eq, Debug, Structural)]
pub struct RowCounts {
    pub chunks: u64,
    pub sessions: u64,
    pub entities: u64,
    pub relations: u64,
}

impl Default for RowCounts {
    /// No rows.
    fn default() -> (r: Self)
        ensures
            r == (RowCounts { chunks: 0, sessions: 0, entities: 0, relations: 0 }),
    {
        RowCounts { chunks: 0, sessions: 0, entities: 0, relations: 0 }
    }
}

/// The table name, or the given one where there is one.
pub open spec fn renamed(given: Option<String>, default: Seq<char>) -> Seq<char> {
    match given {
        Some(t) => t@,
        None => default,
    }
}

fn rename(schema: TableSchema, given: Option<String>) -> (r: TableSchema)
    ensures
        r.table@ == renamed(given, schema.table@),
        r.columns == schema.columns,
{
    match given {
        Some(table) => TableSchema { table, columns: schema.columns },
        None => schema,
    }
}

/// The usual schema, with tables renamed where a name is given.
pub fn schema_from_names(
    chunks_table: Option<String>,
    sessions_table: Option<String>,
    entities_table: Option<String>,
    relations_table: Option<String>,
) -> (c: SchemaConfig)
    ensures
        exists|d: SchemaConfig|
            {
                &&& #[trigger] call_ensures(SchemaConfig::default, (), d)
                &&& c.chunks.columns == d.chunks.columns
                &&& c.sessions.columns == d.sessions.columns
                &&& c.entities.columns == d.entities.columns
                &&& c.relations.columns == d.relations.columns
            },
        c.chunks.table@ == renamed(chunks_table, "memory_chunks"@),
        match chunks_table {
            Some(t) => c.chunks.table@ == t@,
            None => c.chunks.table@ == "memory_chunks"@,
        },
        c.sessions.table@ == renamed(sessions_table, "sessions"@),
        match sessions_table {
            Some(t) => c.sessions.table@ == t@,
            None => c.sessions.table@ == "sessions"@,
        },
        c.entities.table@ == renamed(entities_table, "entities"@),
        match entities_table {
            Some(t) => c.entities.table@ == t@,
            None => c.entities.table@ == "entities"@,
        },
        c.relations.table@ == renamed(relations_table, "relations"@),
        match relations_table {
            Some(t) => c.relations.table@ == t@,
            None => c.relations.table@ == "relations"@,
        },
{
    let d: SchemaConfig = SchemaConfig::default();
    SchemaConfig {
        chunks: rename(d.chunks, chunks_table),
        sessions: rename(d.sessions, sessions_table),
        entities: rename(d.entities, entities_table),
        relations: rename(d.relations, relations_table),
    }
}

// ---------------------------------------------------------------------------
// Merging
// ---------------------------------------------------------------------------

/// The largest of the first `n` chunk numbers; of none, zero.
pub open spec fn max_id(chunks: Seq<MemoryChunk>, n: int) -> int
    decreases n,
{
    if n <= 0 {
        0
    } else if n == 1 {
        chunks[0].id as int
    } else if chunks[n - 1].id > max_id(chunks, n - 1) {
        chunks[n - 1].id as int
    } else {
        max_id(chunks, n - 1)
    }
}

/// The largest chunk number; zero where there is no chunk.
pub fn max_chunk_id(chunks: &[MemoryChunk]) -> (r: i64)
    ensures
        r == max_id(chunks@, chunks@.len() as int),
{
    let mut max: i64 = 0;
    let mut i: usize = 0;
    while i < chunks.len()
        invariant
            i <= chunks@.len(),
            max == max_id(chunks@, i as int),
        decreases chunks@.len() - i,
    {
        let id: i64 = chunks[i].id;
        if i == 0 || id > max {
            max = id;
        }
        i = i + 1;
    }
    max
}

/// The largest chunk number is that of a chunk, and no chunk has a larger one.
pub proof fn law_max_id(chunks: Seq<MemoryChunk>, n: int)
    requires
        1 <= n <= chunks.len(),
    ensures
        forall|i: int| 0 <= i < n ==> (#[trigger] chunks[i]).id <= max_id(chunks, n),
        exists|i: int| 0 <= i < n && (#[trigger] chunks[i]).id == max_id(chunks, n),
    decreases n,
{
    if n == 1 {
        assert(chunks[0].id == max_id(chunks, 1));
    } else {
        law_max_id(chunks, n - 1);
        if chunks[n - 1].id > max_id(chunks, n - 1) {
            assert(chunks[n - 1].id == max_id(chunks, n));
        } else {
            let i = choose|i: int|
                0 <= i < n - 1 && (#[trigger] chunks[i]).id == max_id(chunks, n - 1);
            assert(chunks[i].id == max_id(chunks, n));
        }
    }
}

/// Puts newly read rows together with those already migrated: the new chunks
/// behind the old, everything else from the new.
pub fn merge_incremental(base: SqliteData, source: SqliteData) -> (r: SqliteData)
    ensures
        r.chunks@ == base.chunks@ + source.chunks@,
        r.sessions == source.sessions,
        r.entities == source.entities,
        r.relations == source.relations,
        r.embedding_dim == if source.embedding_dim >= base.embedding_dim {
            source.embedding_dim
        } else {
            base.embedding_dim
        },
{
    let mut chunks: Vec<MemoryChunk> = base.chunks;
    let mut new_chunks: Vec<MemoryChunk> = source.chunks;
    chunks.append(&mut new_chunks);
    let embedding_dim: usize = if source.embedding_dim >= base.embedding_dim {
        source.embedding_dim
    } else {
        base.embedding_dim
    };
    SqliteData {
        chunks,
        sessions: source.sessions,
        entities: source.entities,
        relations: source.relations,
        embedding_dim,
    }
}

/// The chunk number after which reading goes on: that of the newest chunk
/// already migrated, or zero.
pub open spec fn resume_point(base: Option<SqliteData>) -> int {
    match base {
        Some(b) => max_id(b.chunks@, b.chunks@.len() as int),
        None => 0,
    }
}

/// The chunk number after which reading goes on.
pub fn resume_after(base: &Option<SqliteData>) -> (r: i64)
    ensures
        r == resume_point(*base),
{
    match base {
        Some(b) => max_chunk_id(b.chunks.as_slice()),
        None => 0,
    }
}

/// The embedding dimension known before anything is read: the given one, or
/// that of what is already migrated.
pub fn dim_hint(given: Option<usize>, base: &Option<SqliteData>) -> (r: Option<usize>)
    ensures
        r == match given {
            Some(d) => Some(d),
            None => match *base {
                Some(b) => Some(b.embedding_dim),
                None => None,
            },
        },
{
    match given {
        Some(d) => Some(d),
        None => match base {
            Some(b) => Some(b.embedding_dim),
            None => None,
        },
    }
}

/// The embedding dimension to read with: the known one, or that of the first
/// embedding, or none.
pub fn resolve_dim(hint: Option<usize>, first: Option<&[u8]>) -> (r: usize)
    ensures
        r == match hint {
            Some(d) => d as nat,
            None => match first {
                Some(blob) => blob_words(blob@).len(),
                None => 0,
            },
        },
{
    match hint {
        Some(d) => d,
        None => match first {
            Some(blob) => blob_dim(blob),
            None => 0,
        },
    }
}

/// A compression level within what there is.
pub fn clamp_level(level: u32) -> (r: u32)
    ensures
        r == if level < 1 {
            1
        } else if level > 9 {
            9
        } else {
            level as int
        },
{
    if level < 1 {
        1
    } else if level > 9 {
        9
    } else {
        level
    }
}

/// Reading goes on behind the newest chunk already migrated, so that no newer
/// one is passed over; where there is none, it starts behind zero.
pub proof fn law_resumes_behind_newest(base: Option<SqliteData>)
    ensures
        base is None ==> resume_point(base) == 0,
        base is Some && base->0.chunks@.len() == 0 ==> resume_point(base) == 0,
        base is Some && base->0.chunks@.len() > 0 ==> {
            &&& forall|i: int|
                0 <= i < base->0.chunks@.len() ==> (#[trigger] base->0.chunks@[i]).id
                    <= resume_point(base)
            &&& exists|i: int|
                0 <= i < base->0.chunks@.len() && (#[trigger] base->0.chunks@[i]).id
                    == resume_point(base)
        },
{
    if base is Some && base->0.chunks@.len() > 0 {
        law_max_id(base->0.chunks@, base->0.chunks@.len() as int);
    }
}

/// Chunks read after the resume point are none of those already migrated.
pub proof fn law_incremental_adds_only_new(base: SqliteData, added: Seq<MemoryChunk>)
    requires
        forall|j: int|
            0 <= j < added.len() ==> (#[trigger] added[j]).id > resume_point(Some(base)),
    ensures
        forall|i: int, j: int|
            0 <= i < base.chunks@.len() && 0 <= j < added.len() ==> (#[trigger] base.chunks@[i]).id
                < (#[trigger] added[j]).id,
{
    if base.chunks@.len() > 0 {
        law_max_id(base.chunks@, base.chunks@.len() as int);
    }
}

// ---------------------------------------------------------------------------
// Columns
// ---------------------------------------------------------------------------

/// Text `i` of a column, or no text past its end.
pub open spec fn text_at(column: Seq<String>, i: int) -> Seq<char> {
    if i < column.len() {
        column[i]@
    } else {
        Seq::empty()
    }
}

fn take_text(column: &[String], i: usize) -> (r: String)
    ensures
        r@ == text_at(column@, i as int),
{
    if i < column.len() {
        column[i].as_str().to_owned()
    } else {
        or_empty(None)
    }
}

/// The number at `i` of a column, or a default past its end.
pub open spec fn i64_at(column: Seq<i64>, i: int, default: i64) -> i64 {
    if i < column.len() {
        column[i]
    } else {
        default
    }
}

fn take_i64(column: &[i64], i: usize, default: i64) -> (r: i64)
    ensures
        r == i64_at(column@, i as int, default),
{
    if i < column.len() {
        column[i]
    } else {
        default
    }
}

/// The number at `i` of a column, or zero past its end.
pub open spec fn i32_at(column: Seq<i32>, i: int) -> i32 {
    if i < column.len() {
        column[i]
    } else {
        0
    }
}

fn take_i32(column: &[i32], i: usize) -> (r: i32)
    ensures
        r == i32_at(column@, i as int),
{
    if i < column.len() {
        column[i]
    } else {
        0
    }
}

/// The number at `i` of a column, or a default past its end.
pub open spec fn u64_at(column: Seq<u64>, i: int, default: u64) -> u64 {
    if i < column.len() {
        column[i]
    } else {
        default
    }
}

fn take_u64(column: &[u64], i: usize, default: u64) -> (r: u64)
    ensures
        r == u64_at(column@, i as int, default),
{
    if i < column.len() {
        column[i]
    } else {
        default
    }
}

/// Row `i` of a matrix of `dim` columns, stored row by row; empty where the
/// matrix does not have it.
pub open spec fn matrix_row(flat: Seq<u32>, dim: int, i: int) -> Seq<u32> {
    if (i + 1) * dim <= flat.len() {
        flat.subrange(i * dim, (i + 1) * dim)
    } else {
        Seq::empty()
    }
}

fn take_row(flat: &[u32], dim: usize, i: usize) -> (r: Vec<u32>)
    requires
        dim >= 1,
    ensures
        r@ == matrix_row(flat@, dim as int, i as int),
{
    let mut r: Vec<u32> = Vec::new();
    let len: u128 = flat.len() as u128;
    assert(0 <= i * dim && (i + 1) * dim == i * dim + dim && i * dim <= 0xffff_ffff_ffff_ffff
        * 0xffff_ffff_ffff_ffff) by (nonlinear_arith)
        requires
            0 <= i <= 0xffff_ffff_ffff_ffff,
            0 <= dim <= 0xffff_ffff_ffff_ffff,
    ;
    let from: u128 = i as u128 * dim as u128;
    if from > len || dim as u128 > len - from {
        return r;
    }
    let start: usize = from as usize;
    let total: usize = flat.len();
    let mut k: usize = 0;
    while k < dim
        invariant
            k <= dim,
            start + dim <= total == flat@.len(),
            r@.len() == k,
            forall|j: int| 0 <= j < k ==> #[trigger] r@[j] == flat@[start + j],
        decreases dim - k,
    {
        r.push(flat[start + k]);
        k = k + 1;
    }
    assert(r@ =~= flat@.subrange(i * dim, (i + 1) * dim));
    r
}

/// The columns of the chunk group.
pub struct ChunkColumns {
    pub ids: Vec<i64>,
    pub texts: Vec<String>,
    pub channels: Vec<String>,
    pub timestamps: Vec<u64>,
    pub session_ids: Vec<String>,
    pub tags: Vec<String>,
    pub deleted: Vec<i32>,
    /// All embeddings, one after another.
    pub embeddings: Vec<u32>,
}

/// Whether `c` is row `i` of the columns.
pub open spec fn is_chunk_row(c: MemoryChunk, cols: ChunkColumns, dim: usize, i: int) -> bool {
    &&& c.id == cols.ids@[i]
    &&& c.chunk@ == text_at(cols.texts@, i)
    &&& c.embedding@ == matrix_row(
        cols.embeddings@,
        if dim == 0 {
            1
        } else {
            dim as int
        },
        i,
    )
    &&& c.source_channel@ == text_at(cols.channels@, i)
    &&& c.timestamp == u64_at(cols.timestamps@, i, 0)
    &&& c.session_id@ == text_at(cols.session_ids@, i)
    &&& c.tags@ == text_at(cols.tags@, i)
    &&& c.deleted == i32_at(cols.deleted@, i)
}

/// The chunks, row by row; missing values at the ends of columns take defaults.
pub fn chunks_from_columns(cols: &ChunkColumns, dim: usize) -> (r: Vec<MemoryChunk>)
    ensures
        r@.len() == cols.ids@.len(),
        forall|i: int| 0 <= i < r@.len() ==> is_chunk_row(#[trigger] r@[i], *cols, dim, i),
{
    let width: usize = if dim == 0 {
        1
    } else {
        dim
    };
    let mut r: Vec<MemoryChunk> = Vec::new();
    let mut i: usize = 0;
    while i < cols.ids.len()
        invariant
            i <= cols.ids@.len(),
            width == if dim == 0 {
                1
            } else {
                dim as int
            },
            r@.len() == i,
            forall|j: int| 0 <= j < i ==> is_chunk_row(#[trigger] r@[j], *cols, dim, j),
        decreases cols.ids@.len() - i,
    {
        r.push(
            MemoryChunk {
                id: cols.ids[i],
                chunk: take_text(cols.texts.as_slice(), i),
                embedding: take_row(cols.embeddings.as_slice(), width, i),
                source_channel: take_text(cols.channels.as_slice(), i),
                timestamp: take_u64(cols.timestamps.as_slice(), i, 0),
                session_id: take_text(cols.session_ids.as_slice(), i),
                tags: take_text(cols.tags.as_slice(), i),
                deleted: take_i32(cols.deleted.as_slice(), i),
            },
        );
        i = i + 1;
    }
    r
}

/// Whether `s` is row `i` of the session columns.
pub open spec fn is_session_row(
    s: Session,
    ids: Seq<String>,
    starts: Seq<i64>,
    ends: Seq<i64>,
    channels: Seq<String>,
    timestamps: Seq<u64>,
    summaries: Seq<String>,
    i: int,
) -> bool {
    &&& s.id@ == ids[i]@
    &&& s.start_idx == i64_at(starts, i, 0)
    &&& s.end_idx == i64_at(ends, i, 0)
    &&& s.channel@ == text_at(channels, i)
    &&& s.timestamp == u64_at(timestamps, i, 0)
    &&& s.summary@ == text_at(summaries, i)
}

/// The sessions, row by row.
pub fn sessions_from_columns(
    ids: &[String],
    starts: &[i64],
    ends: &[i64],
    channels: &[String],
    timestamps: &[u64],
    summaries: &[String],
) -> (r: Vec<Session>)
    ensures
        r@.len() == ids@.len(),
        forall|i: int|
            0 <= i < r@.len() ==> is_session_row(
                #[trigger] r@[i],
                ids@,
                starts@,
                ends@,
                channels@,
                timestamps@,
                summaries@,
                i,
            ),
{
    let mut r: Vec<Session> = Vec::new();
    let mut i: usize = 0;
    while i < ids.len()
        invariant
            i <= ids@.len(),
            r@.len() == i,
            forall|j: int|
                0 <= j < i ==> is_session_row(
                    #[trigger] r@[j],
                    ids@,
                    starts@,
                    ends@,
                    channels@,
                    timestamps@,
                    summaries@,
                    j,
                ),
        decreases ids@.len() - i,
    {
        r.push(
            Session {
                id: take_text(ids, i),
                start_idx: take_i64(starts, i, 0),
                end_idx: take_i64(ends, i, 0),
                channel: take_text(channels, i),
                timestamp: take_u64(timestamps, i, 0),
                summary: take_text(summaries, i),
            },
        );
        i = i + 1;
    }
    r
}

/// Whether `e` is row `i` of the entity columns.
pub open spec fn is_entity_row(
    e: Entity,
    ids: Seq<i64>,
    names: Seq<String>,
    types: Seq<String>,
    embedding_idxs: Seq<i64>,
    i: int,
) -> bool {
    &&& e.id == ids[i]
    &&& e.name@ == text_at(names, i)
    &&& e.entity_type@ == text_at(types, i)
    &&& e.embedding_idx == i64_at(embedding_idxs, i, -1i64)
}

/// The entities, row by row.
pub fn entities_from_columns(
    ids: &[i64],
    names: &[String],
    types: &[String],
    embedding_idxs: &[i64],
) -> (r: Vec<Entity>)
    ensures
        r@.len() == ids@.len(),
        forall|i: int|
            0 <= i < r@.len() ==> is_entity_row(
                #[trigger] r@[i],
                ids@,
                names@,
                types@,
                embedding_idxs@,
                i,
            ),
{
    let mut r: Vec<Entity> = Vec::new();
    let mut i: usize = 0;
    while i < ids.len()
        invariant
            i <= ids@.len(),
            r@.len() == i,
            forall|j: int|
                0 <= j < i ==> is_entity_row(
                    #[trigger] r@[j],
                    ids@,
                    names@,
                    types@,
                    embedding_idxs@,
                    j,
                ),
        decreases ids@.len() - i,
    {
        r.push(
            Entity {
                id: ids[i],
                name: take_text(names, i),
                entity_type: take_text(types, i),
                embedding_idx: take_i64(embedding_idxs, i, -1),
            },
        );
        i = i + 1;
    }
    r
}

/// Whether `x` is row `i` of the relation columns.
pub open spec fn is_relation_row(
    x: Relation,
    srcs: Seq<i64>,
    tgts: Seq<i64>,
    relations: Seq<String>,
    weights: Seq<u64>,
    timestamps: Seq<u64>,
    i: int,
) -> bool {
    &&& x.src == srcs[i]
    &&& x.tgt == i64_at(tgts, i, 0)
    &&& x.relation@ == text_at(relations, i)
    &&& x.weight == u64_at(weights, i, ONE_BITS)
    &&& x.timestamp == u64_at(timestamps, i, 0)
}

/// The relations, row by row.
pub fn relations_from_columns(
    srcs: &[i64],
    tgts: &[i64],
    relations: &[String],
    weights: &[u64],
    timestamps: &[u64],
) -> (r: Vec<Relation>)
    ensures
        r@.len() == srcs@.len(),
        forall|i: int|
            0 <= i < r@.len() ==> is_relation_row(
                #[trigger] r@[i],
                srcs@,
                tgts@,
                relations@,
                weights@,
                timestamps@,
                i,
            ),
{
    let mut r: Vec<Relation> = Vec::new();
    let mut i: usize = 0;
    while i < srcs.len()
        invariant
            i <= srcs@.len(),
            r@.len() == i,
            forall|j: int|
                0 <= j < i ==> is_relation_row(
                    #[trigger] r@[j],
                    srcs@,
                    tgts@,
                    relations@,
                    weights@,
                    timestamps@,
                    j,
                ),
        decreases srcs@.len() - i,
    {
        r.push(
            Relation {
                src: srcs[i],
                tgt: take_i64(tgts, i, 0),
                relation: take_text(relations, i),
                weight: take_u64(weights, i, ONE_BITS),
                timestamp: take_u64(timestamps, i, 0),
            },
        );
        i = i + 1;
    }
    r
}

/// A row of chunks has the values of the columns at its place, and the
/// defaults where a column is too short.
pub proof fn law_chunk_rows_hold_columns(c: MemoryChunk, cols: ChunkColumns, dim: usize, i: int)
    requires
        is_chunk_row(c, cols, dim, i),
        0 <= i,
    ensures
        c.id == cols.ids@[i],
        i < cols.texts@.len() ==> c.chunk@ == cols.texts@[i]@,
        i < cols.channels@.len() ==> c.source_channel@ == cols.channels@[i]@,
        i < cols.timestamps@.len() ==> c.timestamp == cols.timestamps@[i],
        i < cols.session_ids@.len() ==> c.session_id@ == cols.session_ids@[i]@,
        i < cols.tags@.len() ==> c.tags@ == cols.tags@[i]@,
        i < cols.deleted@.len() ==> c.deleted == cols.deleted@[i],
        i >= cols.texts@.len() ==> c.chunk@.len() == 0,
        i >= cols.channels@.len() ==> c.source_channel@.len() == 0,
        i >= cols.timestamps@.len() ==> c.timestamp == 0,
        i >= cols.session_ids@.len() ==> c.session_id@.len() == 0,
        i >= cols.tags@.len() ==> c.tags@.len() == 0,
        i >= cols.deleted@.len() ==> c.deleted == 0,
        dim > 0 && (i + 1) * dim <= cols.embeddings@.len() ==> c.embedding@.len() == dim
            && forall|k: int|
            0 <= k < dim ==> #[trigger] c.embedding@[k] == cols.embeddings@[i * dim + k],
{
    if dim > 0 && (i + 1) * dim <= cols.embeddings@.len() {
        assert((i + 1) * dim == i * dim + dim && 0 <= i * dim) by (nonlinear_arith)
            requires
                0 <= i,
                0 <= dim,
        ;
    }
}

/// A row of sessions has the values of the columns at its place, and the
/// defaults where a column is too short.
pub proof fn law_session_rows_hold_columns(
    s: Session,
    ids: Seq<String>,
    starts: Seq<i64>,
    ends: Seq<i64>,
    channels: Seq<String>,
    timestamps: Seq<u64>,
    summaries: Seq<String>,
    i: int,
)
    requires
        is_session_row(s, ids, starts, ends, channels, timestamps, summaries, i),
        0 <= i < ids.len(),
    ensures
        s.id@ == ids[i]@,
        i < starts.len() ==> s.start_idx == starts[i],
        i < ends.len() ==> s.end_idx == ends[i],
        i < channels.len() ==> s.channel@ == channels[i]@,
        i < timestamps.len() ==> s.timestamp == timestamps[i],
        i < summaries.len() ==> s.summary@ == summaries[i]@,
        i >= starts.len() ==> s.start_idx == 0,
        i >= ends.len() ==> s.end_idx == 0,
        i >= channels.len() ==> s.channel@.len() == 0,
        i >= timestamps.len() ==> s.timestamp == 0,
        i >= summaries.len() ==> s.summary@.len() == 0,
{
}

/// A row of entities has the values of the columns at its place, and the
/// defaults where a column is too short.
pub proof fn law_entity_rows_hold_columns(
    e: Entity,
    ids: Seq<i64>,
    names: Seq<String>,
    types: Seq<String>,
    embedding_idxs: Seq<i64>,
    i: int,
)
    requires
        is_entity_row(e, ids, names, types, embedding_idxs, i),
        0 <= i < ids.len(),
    ensures
        e.id == ids[i],
        i < names.len() ==> e.name@ == names[i]@,
        i < types.len() ==> e.entity_type@ == types[i]@,
        i < embedding_idxs.len() ==> e.embedding_idx == embedding_idxs[i],
        i >= embedding_idxs.len() ==> e.embedding_idx == -1,
        i >= names.len() ==> e.name@.len() == 0,
        i >= types.len() ==> e.entity_type@.len() == 0,
{
}

/// A row of relations has the values of the columns at its place, and the
/// defaults where a column is too short.
pub proof fn law_relation_rows_hold_columns(
    x: Relation,
    srcs: Seq<i64>,
    tgts: Seq<i64>,
    relations: Seq<String>,
    weights: Seq<u64>,
    timestamps: Seq<u64>,
    i: int,
)
    requires
        is_relation_row(x, srcs, tgts, relations, weights, timestamps, i),
        0 <= i < srcs.len(),
    ensures
        x.src == srcs[i],
        i < tgts.len() ==> x.tgt == tgts[i],
        i < relations.len() ==> x.relation@ == relations[i]@,
        i < weights.len() ==> x.weight == weights[i],
        i >= weights.len() ==> x.weight == 0x3ff0_0000_0000_0000,
        i < timestamps.len() ==> x.timestamp == timestamps[i],
        i >= tgts.len() ==> x.tgt == 0,
        i >= relations.len() ==> x.relation@.len() == 0,
        i >= timestamps.len() ==> x.timestamp == 0,
{
}

/// A query asks for every column of its table, in order and separated by commas.
pub proof fn law_query_lists_columns(schema: TableSchema, condition: Seq<char>, i: int)
    requires
        0 <= i < schema.columns@.len(),
    ensures
        ({
            let views = text_views(schema.columns@);
            let before = comma_list(views.take(i));
            let sql = schema.select_text(condition);
            let at = 7 + before.len() + if i > 0 {
                2int
            } else {
                0
            };
            &&& at + schema.columns@[i]@.len() <= sql.len()
            &&& sql.subrange(at, at + schema.columns@[i]@.len()) == schema.columns@[i]@
            &&& i > 0 ==> sql.subrange(at - 2, at) == ", "@
            &&& sql.take(7) == "SELECT "@
            &&& comma_list(views.take(0)).len() == 0
            &&& comma_list(views.take(i + 1)).len() == at - 7 + schema.columns@[i]@.len()
            &&& sql.skip(7int + comma_list(views).len()) == " FROM "@ + schema.table@ + condition
        }),
{
    let views = text_views(schema.columns@);
    let list = comma_list(views);
    let sql = schema.select_text(condition);
    reveal_strlit("SELECT ");
    reveal_strlit(", ");
    reveal_strlit(" FROM ");
    lemma_listed(views, views.len() as int, i);
    assert(views.take(views.len() as int) =~= views);
    assert(views.take(0) =~= Seq::empty());
    assert(sql.subrange(7, 7int + list.len()) =~= list);
    assert(sql.take(7) =~= "SELECT "@);
    assert(sql.skip(7int + list.len()) =~= " FROM "@ + schema.table@ + condition);
    let from = comma_list(views.take(i)).len() + if i > 0 {
        2int
    } else {
        0
    };
    let n = schema.columns@[i]@.len();
    assert(sql.subrange(7 + from, 7 + from + n) =~= sql.subrange(7, 7int + list.len()).subrange(
        from,
        from + n,
    ));
    if i > 0 {
        assert(sql.subrange(5 + from, 7 + from) =~= sql.subrange(7, 7int + list.len()).subrange(
            from - 2,
            from,
        ));
    }
}

proof fn lemma_listed(v: Seq<Seq<char>>, n: int, i: int)
    requires
        0 <= i < n <= v.len(),
    ensures
        ({
            let list = comma_list(v.take(n));
            let from = comma_list(v.take(i)).len() + if i > 0 {
                2int
            } else {
                0
            };
            &&& comma_list(v.take(i + 1)).len() == from + v[i].len()
            &&& from + v[i].len() <= list.len()
            &&& list.subrange(from, from + v[i].len()) == v[i]
            &&& i > 0 ==> list.subrange(from - 2, from) == ", "@
        }),
    decreases n,
{
    reveal_strlit(", ");
    let list = comma_list(v.take(n));
    let from = comma_list(v.take(i)).len() + if i > 0 {
        2int
    } else {
        0
    };
    assert(v.take(i + 1).drop_last() =~= v.take(i));
    assert(v.take(n).drop_last() =~= v.take(n - 1));
    assert(v.take(0) =~= Seq::empty());
    if i == n - 1 {
        assert(list.subrange(from, from + v[i].len()) =~= v[i]);
        if i > 0 {
            assert(list.subrange(from - 2, from) =~= ", "@);
        }
    } else {
        let shorter = comma_list(v.take(n - 1));
        lemma_listed(v, n - 1, i);
        assert(list =~= shorter + ", "@ + v[n - 1]);
        assert(list.take(shorter.len() as int) =~= shorter);
        assert(list.subrange(from, from + v[i].len()) =~= shorter.subrange(
            from,
            from + v[i].len(),
        ));
        if i > 0 {
            assert(list.subrange(from - 2, from) =~= shorter.subrange(from - 2, from));
        }
    }
}

/// A count asks for the number of a table's rows under the given condition.
pub proof fn law_count_query_names_table(schema: TableSchema, condition: Seq<char>)
    ensures
        ({
            let sql = schema.count_text(condition);
            &&& sql.take(21) == "SELECT COUNT(*) FROM "@
            &&& sql.skip(21) == schema.table@ + condition
        }),
{
    reveal_strlit("SELECT COUNT(*) FROM ");
    let sql = schema.count_text(condition);
    assert(sql.take(21) =~= "SELECT COUNT(*) FROM "@);
    assert(sql.skip(21) =~= schema.table@ + condition);
}

/// A column of a schema goes by the name that the schema gives it, and by its usual
/// name where it gives none.
pub proof fn law_columns_go_by_given_names(columns: Seq<String>, i: int, default: Seq<char>)
    requires
        0 <= i,
    ensures
        i < columns.len() ==> column_or(columns, i, default) == columns[i]@,
        i >= columns.len() ==> column_or(columns, i, default) == default,
{
}

} // verus!
