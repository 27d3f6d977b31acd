//! Memory out of a database, into a file, and back.

use clawhdf5::half::widen;
use clawhdf5::memory_file::{read_hdf5, MemoryFault};
use clawhdf5::memory_writer::{half_memory_writer, memory_writer};
use clawhdf5::migrate::{
    chunk_from_row, clamp_level, dim_hint, entity_from_row, max_chunk_id, merge_incremental,
    relation_from_row, resolve_dim, resume_after, schema_from_names, session_from_row, Entity,
    MemoryChunk, Relation, RowCounts, SchemaConfig, Session, SqliteData,
};
use clawhdf5::object_header::{ObjectHeader, Superblock};
use clawhdf5::reader::{find_attr, read_dataset, read_int_attr, ReadFault};
use clawhdf5::validate::{
    sample_indices, validate_hdf5, RowKind, ValidationError, ValidationSummary,
};
use rusqlite::Connection;

const TABLES: &str = "CREATE TABLE memory_chunks (
        id INTEGER PRIMARY KEY,
        chunk TEXT NOT NULL,
        embedding BLOB NOT NULL,
        source_channel TEXT DEFAULT 'api',
        timestamp REAL NOT NULL,
        session_id TEXT,
        tags TEXT DEFAULT '',
        deleted INTEGER DEFAULT 0
    );
    CREATE TABLE sessions (
        id TEXT PRIMARY KEY,
        start_idx INTEGER,
        end_idx INTEGER,
        channel TEXT,
        timestamp REAL,
        summary TEXT
    );
    CREATE TABLE entities (
        id INTEGER PRIMARY KEY,
        name TEXT NOT NULL,
        type TEXT NOT NULL,
        embedding_idx INTEGER DEFAULT -1
    );
    CREATE TABLE relations (
        src INTEGER NOT NULL,
        tgt INTEGER NOT NULL,
        relation TEXT NOT NULL,
        weight REAL DEFAULT 1.0,
        timestamp REAL,
        FOREIGN KEY (src) REFERENCES entities(id),
        FOREIGN KEY (tgt) REFERENCES entities(id)
    );";

fn create_test_db() -> Connection {
    let conn = Connection::open_in_memory().unwrap();
    conn.execute_batch(TABLES).unwrap();
    conn
}

fn to_blob(embedding: &[f32]) -> Vec<u8> {
    embedding.iter().flat_map(|v| v.to_le_bytes()).collect()
}

fn insert_chunk(conn: &Connection, id: i64, text: &str, embedding: &[f32], deleted: i32) {
    conn.execute(
        "INSERT INTO memory_chunks (id, chunk, embedding, source_channel, timestamp, session_id, tags, deleted)
         VALUES (?1, ?2, ?3, 'api', 1700000000.0, 'sess-1', 'tag1,tag2', ?4)",
        (id, text, to_blob(embedding), deleted),
    )
    .unwrap();
}

fn insert_session(conn: &Connection, id: &str, start: i64, end: i64) {
    conn.execute(
        "INSERT INTO sessions (id, start_idx, end_idx, channel, timestamp, summary)
         VALUES (?1, ?2, ?3, 'discord', 1700000000.0, 'test summary')",
        (id, start, end),
    )
    .unwrap();
}

fn insert_entity(conn: &Connection, id: i64, name: &str, etype: &str) {
    conn.execute(
        "INSERT INTO entities (id, name, type, embedding_idx) VALUES (?1, ?2, ?3, -1)",
        (id, name, etype),
    )
    .unwrap();
}

fn insert_relation(conn: &Connection, src: i64, tgt: i64, rel: &str) {
    conn.execute(
        "INSERT INTO relations (src, tgt, relation, weight, timestamp)
         VALUES (?1, ?2, ?3, 1.0, 1700000000.0)",
        (src, tgt, rel),
    )
    .unwrap();
}

fn make_embedding(dim: usize, seed: f32) -> Vec<f32> {
    (0..dim).map(|i| seed + i as f32 * 0.1).collect()
}

fn read_sqlite_filtered(
    conn: &Connection,
    skip_deleted: bool,
    embedding_dim: Option<usize>,
    config: &SchemaConfig,
    min_chunk_id: i64,
) -> SqliteData {
    let first: Option<Vec<u8>> = conn
        .prepare(&config.dim_query())
        .unwrap()
        .query_map([], |row| row.get(0))
        .unwrap()
        .next()
        .map(|r| r.unwrap());
    let dim = resolve_dim(embedding_dim, first.as_deref());
    let chunks: Vec<MemoryChunk> = conn
        .prepare(&config.chunk_query(skip_deleted, min_chunk_id))
        .unwrap()
        .query_map([], |row| {
            let blob: Vec<u8> = row.get(2)?;
            let timestamp: f64 = row.get(4)?;
            Ok(chunk_from_row(
                row.get(0)?,
                row.get(1)?,
                &blob,
                row.get(3)?,
                timestamp.to_bits(),
                row.get(5)?,
                row.get(6)?,
                row.get(7)?,
                dim,
            ))
        })
        .unwrap()
        .map(|r| r.unwrap())
        .collect();
    let sessions: Vec<Session> = conn
        .prepare(&config.sessions.select(""))
        .unwrap()
        .query_map([], |row| {
            let timestamp: Option<f64> = row.get(4)?;
            Ok(session_from_row(
                row.get(0)?,
                row.get(1)?,
                row.get(2)?,
                row.get(3)?,
                timestamp.map(f64::to_bits),
                row.get(5)?,
            ))
        })
        .unwrap()
        .map(|r| r.unwrap())
        .collect();
    let entities: Vec<Entity> = conn
        .prepare(&config.entities.select(""))
        .unwrap()
        .query_map([], |row| {
            Ok(entity_from_row(row.get(0)?, row.get(1)?, row.get(2)?, row.get(3)?))
        })
        .unwrap()
        .map(|r| r.unwrap())
        .collect();
    let relations: Vec<Relation> = conn
        .prepare(&config.relations.select(""))
        .unwrap()
        .query_map([], |row| {
            let weight: Option<f64> = row.get(3)?;
            let timestamp: Option<f64> = row.get(4)?;
            Ok(relation_from_row(
                row.get(0)?,
                row.get(1)?,
                row.get(2)?,
                weight.map(f64::to_bits),
                timestamp.map(f64::to_bits),
            ))
        })
        .unwrap()
        .map(|r| r.unwrap())
        .collect();
    SqliteData { chunks, sessions, entities, relations, embedding_dim: dim }
}

fn read_sqlite(
    conn: &Connection,
    skip_deleted: bool,
    embedding_dim: Option<usize>,
    config: &SchemaConfig,
) -> SqliteData {
    read_sqlite_filtered(conn, skip_deleted, embedding_dim, config, 0)
}

fn read_counts(conn: &Connection, skip_deleted: bool, config: &SchemaConfig) -> RowCounts {
    let count = |sql: String| -> u64 {
        let n: i64 = conn.query_row(&sql, [], |row| row.get(0)).unwrap();
        n as u64
    };
    RowCounts {
        chunks: count(config.chunks.count(&config.chunk_where(skip_deleted, 0))),
        sessions: count(config.sessions.count("")),
        entities: count(config.entities.count("")),
        relations: count(config.relations.count("")),
    }
}

fn write(data: &SqliteData) -> Vec<u8> {
    memory_writer(data, "t", "t").finish().unwrap()
}

/// The first place in each embedding that is off by more than a tolerance.
fn embedding_faults(got: &SqliteData, source: &SqliteData, half: bool) -> Vec<Option<usize>> {
    let (absolute, relative) = if half { (1e-2, 1e-2) } else { (1e-4, 0.0) };
    source
        .chunks
        .iter()
        .zip(got.chunks.iter())
        .map(|(s, g)| {
            s.embedding.iter().zip(g.embedding.iter()).position(|(&a, &b)| {
                let (a, b) = (f32::from_bits(a), f32::from_bits(b));
                (a - b).abs() > absolute + relative * a.abs()
            })
        })
        .collect()
}

fn validate(
    file: &[u8],
    source: &SqliteData,
    full: bool,
) -> Result<ValidationSummary, ValidationError> {
    let got = read_hdf5(file).unwrap();
    let faults = embedding_faults(&got, source, false);
    validate_hdf5(&got, source, full, &faults)
}

#[test]
fn test_basic_migration() {
    let conn = create_test_db();
    insert_chunk(&conn, 1, "hello world", &make_embedding(8, 1.0), 0);
    insert_chunk(&conn, 2, "goodbye world", &make_embedding(8, 2.0), 0);
    insert_session(&conn, "s1", 0, 1);
    insert_entity(&conn, 1, "Alice", "person");
    insert_relation(&conn, 1, 1, "self");

    let data = read_sqlite(&conn, false, None, &SchemaConfig::default());
    let file = memory_writer(&data, "test-agent", "test-embed").finish().unwrap();
    let summary = validate(&file, &data, false).unwrap();
    assert_eq!(summary.chunks, 2);
    assert_eq!(summary.sessions, 1);
    assert_eq!(summary.entities, 1);
    assert_eq!(summary.relations, 1);
    assert_eq!(summary.embedding_dim, 8);
    assert_eq!(summary.rows_checked, 5);
    assert_eq!(read_hdf5(&file), Ok(data));
}

#[test]
fn test_float16_conversion() {
    let conn = create_test_db();
    let emb = vec![1.0f32, 2.5, -0.5, 3.125];
    insert_chunk(&conn, 1, "test", &emb, 0);

    let data = read_sqlite(&conn, false, None, &SchemaConfig::default());
    let halves: Vec<u16> = data.chunks[0]
        .embedding
        .iter()
        .map(|&w| half::f16::from_f32(f32::from_bits(w)).to_bits())
        .collect();
    let file = half_memory_writer(&data, halves, "t", "t").finish().unwrap();
    let plain = write(&data);
    assert_eq!(plain.len() - file.len(), 2 * emb.len());

    let got = read_hdf5(&file).unwrap();
    let faults = embedding_faults(&got, &data, true);
    let summary = validate_hdf5(&got, &data, true, &faults).unwrap();
    assert_eq!(summary.chunks, 1);
    assert_eq!(got, data);

    for &v in &emb {
        let f16 = half::f16::from_f32(v);
        let roundtrip = f16.to_f32();
        assert!((v - roundtrip).abs() < 0.01, "f16 roundtrip too lossy for {v}");
    }
}

#[test]
fn every_half_widens_to_its_value() {
    for bits in 0..=u16::MAX {
        let expected = half::f16::from_bits(bits).to_f32();
        assert_eq!(widen(bits), expected.to_bits(), "{bits:#x}");
    }
    assert_eq!(widen(0x3c00), 1.0f32.to_bits());
    assert_eq!(widen(0x8001), 0xb380_0000);
    assert_eq!(widen(0x7c00), f32::INFINITY.to_bits());
}

#[test]
fn half_embeddings_read_back_row_by_row() {
    let conn = create_test_db();
    insert_chunk(&conn, 1, "one", &[0.1, 0.2, 0.3], 0);
    insert_chunk(&conn, 2, "two", &[-0.1, 60001.0, 1e-7], 0);
    let data = read_sqlite(&conn, false, None, &SchemaConfig::default());
    let halves: Vec<u16> = data
        .chunks
        .iter()
        .flat_map(|c| c.embedding.iter())
        .map(|&w| half::f16::from_f32(f32::from_bits(w)).to_bits())
        .collect();
    let file = half_memory_writer(&data, halves.clone(), "t", "t").finish().unwrap();
    let got = read_hdf5(&file).unwrap();
    for (i, chunk) in got.chunks.iter().enumerate() {
        let row: Vec<u32> = halves[3 * i..3 * i + 3].iter().map(|&h| widen(h)).collect();
        assert_eq!(chunk.embedding, row);
        assert_eq!(chunk.chunk, data.chunks[i].chunk);
    }
    let faults = embedding_faults(&got, &data, true);
    assert!(validate_hdf5(&got, &data, true, &faults).is_ok());
    let strict = embedding_faults(&got, &data, false);
    assert_eq!(
        validate_hdf5(&got, &data, true, &strict),
        Err(ValidationError::EmbeddingValue { index: 1, position: 1 })
    );
}

#[test]
fn test_skip_deleted() {
    let conn = create_test_db();
    insert_chunk(&conn, 1, "active", &make_embedding(4, 1.0), 0);
    insert_chunk(&conn, 2, "deleted", &make_embedding(4, 2.0), 1);
    insert_chunk(&conn, 3, "also active", &make_embedding(4, 3.0), 0);

    let data = read_sqlite(&conn, true, None, &SchemaConfig::default());
    assert_eq!(data.chunks.len(), 2);

    let summary = validate(&write(&data), &data, false).unwrap();
    assert_eq!(summary.chunks, 2);
}

#[test]
fn test_include_deleted() {
    let conn = create_test_db();
    insert_chunk(&conn, 1, "active", &make_embedding(4, 1.0), 0);
    insert_chunk(&conn, 2, "deleted", &make_embedding(4, 2.0), 1);

    let data = read_sqlite(&conn, false, None, &SchemaConfig::default());
    assert_eq!(data.chunks.len(), 2);
}

#[test]
fn test_auto_detect_dim() {
    let conn = create_test_db();
    insert_chunk(&conn, 1, "test", &make_embedding(16, 0.5), 0);

    let data = read_sqlite(&conn, false, None, &SchemaConfig::default());
    assert_eq!(data.embedding_dim, 16);
}

#[test]
fn test_manual_dim() {
    let conn = create_test_db();
    insert_chunk(&conn, 1, "test", &make_embedding(16, 0.5), 0);

    let data = read_sqlite(&conn, false, Some(8), &SchemaConfig::default());
    assert_eq!(data.embedding_dim, 8);
    assert_eq!(data.chunks[0].embedding.len(), 8);
}

#[test]
fn test_dry_run() {
    let conn = create_test_db();
    insert_chunk(&conn, 1, "test", &make_embedding(4, 1.0), 0);

    let data = read_sqlite(&conn, false, None, &SchemaConfig::default());
    assert_eq!(data.chunks.len(), 1);
    assert_eq!(
        read_counts(&conn, true, &SchemaConfig::default()),
        RowCounts { chunks: 1, sessions: 0, entities: 0, relations: 0 }
    );
}

#[test]
fn test_empty_db() {
    let conn = create_test_db();
    let data = read_sqlite(&conn, false, None, &SchemaConfig::default());
    assert_eq!(data.chunks.len(), 0);
    assert_eq!(data.sessions.len(), 0);
    assert_eq!(data.entities.len(), 0);
    assert_eq!(data.relations.len(), 0);

    let summary = validate(&write(&data), &data, false).unwrap();
    assert_eq!(summary.chunks, 0);
}

#[test]
fn test_large_migration() {
    let conn = create_test_db();
    for i in 0..1000 {
        insert_chunk(
            &conn,
            i,
            &format!("chunk number {i} with some text"),
            &make_embedding(64, i as f32 * 0.01),
            0,
        );
    }

    let data = read_sqlite(&conn, false, None, &SchemaConfig::default());
    assert_eq!(data.chunks.len(), 1000);

    let file = write(&data);
    let summary = validate(&file, &data, false).unwrap();
    assert_eq!(summary.chunks, 1000);
    assert_eq!(summary.rows_checked, 16);
    let full = validate(&file, &data, true).unwrap();
    assert_eq!(full.rows_checked, 1000);
}

#[test]
fn test_session_migration() {
    let conn = create_test_db();
    insert_session(&conn, "session-alpha", 0, 10);
    insert_session(&conn, "session-beta", 11, 20);
    insert_session(&conn, "session-gamma", 21, 30);

    let data = read_sqlite(&conn, false, None, &SchemaConfig::default());
    assert_eq!(data.sessions.len(), 3);

    let summary = validate(&write(&data), &data, false).unwrap();
    assert_eq!(summary.sessions, 3);
}

#[test]
fn test_knowledge_graph_migration() {
    let conn = create_test_db();
    insert_entity(&conn, 1, "Alice", "person");
    insert_entity(&conn, 2, "Bob", "person");
    insert_entity(&conn, 3, "Rust", "language");
    insert_relation(&conn, 1, 2, "knows");
    insert_relation(&conn, 1, 3, "uses");
    insert_relation(&conn, 2, 3, "uses");

    let data = read_sqlite(&conn, false, None, &SchemaConfig::default());
    assert_eq!(data.entities.len(), 3);
    assert_eq!(data.relations.len(), 3);

    let summary = validate(&write(&data), &data, false).unwrap();
    assert_eq!(summary.entities, 3);
    assert_eq!(summary.relations, 3);
}

#[test]
fn test_validation_catches_count_mismatch() {
    let conn = create_test_db();
    insert_chunk(&conn, 1, "test", &make_embedding(4, 1.0), 0);

    let data = read_sqlite(&conn, false, None, &SchemaConfig::default());
    let file = write(&data);

    let mut bigger = read_sqlite(&conn, false, None, &SchemaConfig::default());
    let mut extra = bigger.chunks[0].clone();
    extra.id = 999;
    bigger.chunks.push(extra);
    let result = validate(&file, &bigger, false);
    assert!(result.is_err());
    assert!(result.unwrap_err().message().contains("count mismatch"));
}

#[test]
fn test_metadata_attributes() {
    let conn = create_test_db();
    insert_chunk(&conn, 1, "test", &make_embedding(8, 1.0), 0);

    let data = read_sqlite(&conn, false, None, &SchemaConfig::default());
    let file = memory_writer(&data, "my-agent-42", "openai-ada").finish().unwrap();

    let sb = Superblock::parse(&file).unwrap();
    let root = ObjectHeader::parse(&file, sb.root_group_address as usize).unwrap();
    let agent = find_attr(&root, b"agent_id").unwrap();
    assert_eq!((agent.info.class, agent.raw.as_slice()), (3, b"my-agent-42".as_slice()));
    let embedder = find_attr(&root, b"embedder").unwrap();
    assert_eq!((embedder.info.class, embedder.raw.as_slice()), (3, b"openai-ada".as_slice()));
    assert_eq!(read_int_attr(&file, "", "embedding_dim"), Some(8));
    assert_eq!(read_int_attr(&file, "", "agent_id"), None);
}

#[test]
fn test_embedding_roundtrip() {
    let conn = create_test_db();
    let emb = vec![0.1f32, 0.2, 0.3, 0.4];
    insert_chunk(&conn, 1, "test", &emb, 0);

    let data = read_sqlite(&conn, false, None, &SchemaConfig::default());
    let file = write(&data);
    let read_back: Vec<f32> = read_dataset(&file, "chunks/embeddings")
        .unwrap()
        .chunks_exact(4)
        .map(|c| f32::from_le_bytes(c.try_into().unwrap()))
        .collect();

    assert_eq!(read_back.len(), 4);
    for (a, b) in emb.iter().zip(read_back.iter()) {
        assert!((a - b).abs() < 1e-6, "Embedding mismatch: {a} vs {b}");
    }
}

#[test]
fn test_full_combined_migration() {
    let conn = create_test_db();
    for i in 0..5 {
        insert_chunk(
            &conn,
            i,
            &format!("chunk {i}"),
            &make_embedding(16, i as f32),
            if i == 3 { 1 } else { 0 },
        );
    }
    insert_session(&conn, "s1", 0, 2);
    insert_session(&conn, "s2", 3, 4);
    insert_entity(&conn, 1, "Alice", "person");
    insert_entity(&conn, 2, "Bob", "person");
    insert_relation(&conn, 1, 2, "knows");

    let data = read_sqlite(&conn, true, None, &SchemaConfig::default());
    assert_eq!(data.chunks.len(), 4);

    let file = memory_writer(&data, "combined-test", "test-embedder").finish().unwrap();
    let summary = validate(&file, &data, false).unwrap();
    assert_eq!(summary.chunks, 4);
    assert_eq!(summary.sessions, 2);
    assert_eq!(summary.entities, 2);
    assert_eq!(summary.relations, 1);
    assert_eq!(summary.embedding_dim, 16);
}

#[test]
fn test_validation_session_mismatch() {
    let conn = create_test_db();
    insert_session(&conn, "s1", 0, 10);

    let data = read_sqlite(&conn, false, None, &SchemaConfig::default());
    let file = write(&data);

    let mut tampered = read_sqlite(&conn, false, None, &SchemaConfig::default());
    tampered.sessions[0].summary = "DIFFERENT".into();
    let result = validate(&file, &tampered, false);
    assert!(result.is_err());
    assert!(result.unwrap_err().message().contains("session"));
}

#[test]
fn test_content_validation_catches_embedding_corruption() {
    let conn = create_test_db();
    insert_chunk(&conn, 1, "hello", &make_embedding(8, 1.0), 0);

    let data = read_sqlite(&conn, false, None, &SchemaConfig::default());
    let file = write(&data);

    let mut tampered = read_sqlite(&conn, false, None, &SchemaConfig::default());
    let value = f32::from_bits(tampered.chunks[0].embedding[3]) + 9.0;
    tampered.chunks[0].embedding[3] = value.to_bits();
    let result = validate(&file, &tampered, true);
    assert!(result.is_err());
    assert!(result.unwrap_err().message().contains("embedding"));
    assert_eq!(result, Err(ValidationError::EmbeddingValue { index: 0, position: 3 }));
}

#[test]
fn test_configurable_table_names() {
    let conn = Connection::open_in_memory().unwrap();
    conn.execute_batch(
        "CREATE TABLE my_chunks (
            id INTEGER PRIMARY KEY, chunk TEXT, embedding BLOB,
            source_channel TEXT, timestamp REAL, session_id TEXT, tags TEXT, deleted INTEGER
        );
        CREATE TABLE sessions (id TEXT, start_idx INTEGER, end_idx INTEGER, channel TEXT, timestamp REAL, summary TEXT);
        CREATE TABLE entities (id INTEGER, name TEXT, type TEXT, embedding_idx INTEGER);
        CREATE TABLE relations (src INTEGER, tgt INTEGER, relation TEXT, weight REAL, timestamp REAL);",
    )
    .unwrap();
    conn.execute(
        "INSERT INTO my_chunks VALUES (1, 'hi', ?1, 'api', 1.0, 's', '', 0)",
        (to_blob(&make_embedding(4, 1.0)),),
    )
    .unwrap();

    let mut schema = SchemaConfig::default();
    schema.chunks.table = "my_chunks".into();
    let data = read_sqlite(&conn, false, None, &schema);
    assert_eq!(data.chunks.len(), 1);
    assert_eq!(data.chunks[0].chunk, "hi");
    assert_eq!(data.embedding_dim, 4);

    let counts = read_counts(&conn, false, &schema);
    assert_eq!(counts.chunks, 1);

    assert_eq!(schema_from_names(Some("my_chunks".to_string()), None, None, None), schema);
}

#[test]
fn test_incremental_migration() {
    let cfg = SchemaConfig::default();
    let conn = create_test_db();
    insert_chunk(&conn, 1, "one", &make_embedding(4, 1.0), 0);
    insert_chunk(&conn, 2, "two", &make_embedding(4, 2.0), 0);
    let data = read_sqlite(&conn, false, None, &cfg);
    let file = write(&data);

    insert_chunk(&conn, 3, "three", &make_embedding(4, 3.0), 0);
    insert_chunk(&conn, 4, "four", &make_embedding(4, 4.0), 0);

    let base = read_hdf5(&file).unwrap();
    let max_id = max_chunk_id(&base.chunks);
    assert_eq!(max_id, 2);
    let new = read_sqlite_filtered(&conn, false, Some(4), &cfg, max_id);
    assert_eq!(new.chunks.len(), 2);

    let merged = merge_incremental(base, new);
    let file = write(&merged);

    let final_data = read_hdf5(&file).unwrap();
    assert_eq!(final_data.chunks.len(), 4);
    let texts: Vec<&str> = final_data.chunks.iter().map(|c| c.chunk.as_str()).collect();
    assert_eq!(texts, vec!["one", "two", "three", "four"]);
}

#[test]
fn queries_are_spelled_out() {
    let c = SchemaConfig::default();
    assert_eq!(
        c.chunk_query(true, 7),
        "SELECT id, chunk, embedding, source_channel, timestamp, session_id, tags, deleted \
         FROM memory_chunks WHERE deleted = 0 AND id > 7"
    );
    assert_eq!(c.chunk_where(true, 0), " WHERE deleted = 0");
    assert_eq!(c.chunk_where(false, 12), " WHERE id > 12");
    assert_eq!(c.chunk_where(false, -1), "");
    assert_eq!(c.dim_query(), "SELECT embedding FROM memory_chunks LIMIT 1");
    assert_eq!(c.entities.select(""), "SELECT id, name, type, embedding_idx FROM entities");
    assert_eq!(c.relations.count(" WHERE 1"), "SELECT COUNT(*) FROM relations WHERE 1");
    let mut bare = SchemaConfig::default();
    bare.chunks.columns.clear();
    assert_eq!(bare.chunk_where(true, 1), " WHERE deleted = 0 AND id > 1");
    assert_eq!(bare.dim_query(), "SELECT embedding FROM memory_chunks LIMIT 1");
    assert_eq!(bare.chunks.select(""), "SELECT  FROM memory_chunks");
}

#[test]
fn missing_values_have_defaults() {
    let chunk = chunk_from_row(1, "t".into(), &[0, 0, 128, 63, 9], None, 5, None, None, 0, 0);
    assert_eq!(chunk.embedding, vec![1.0f32.to_bits()]);
    assert_eq!((chunk.source_channel.as_str(), chunk.tags.as_str()), ("", ""));
    let session = session_from_row("s".into(), None, Some(4), None, None, None);
    assert_eq!((session.start_idx, session.end_idx, session.timestamp), (0, 4, 0));
    let entity = entity_from_row(1, "n".into(), "t".into(), None);
    assert_eq!(entity.embedding_idx, -1);
    let relation = relation_from_row(1, 2, "r".into(), None, None);
    assert_eq!(f64::from_bits(relation.weight), 1.0);
}

#[test]
fn the_next_run_goes_on_where_the_last_ended() {
    let none: Option<SqliteData> = None;
    assert_eq!(resume_after(&none), 0);
    assert_eq!(dim_hint(None, &none), None);
    assert_eq!(dim_hint(Some(3), &none), Some(3));
    let conn = create_test_db();
    for id in [9, 4, 7] {
        insert_chunk(&conn, id, "x", &make_embedding(2, 0.0), 0);
    }
    let base = Some(read_sqlite(&conn, false, None, &SchemaConfig::default()));
    assert_eq!(resume_after(&base), 9);
    assert_eq!(dim_hint(None, &base), Some(2));
    assert_eq!(resolve_dim(None, None), 0);
    assert_eq!(resolve_dim(None, Some(&[0; 13])), 3);
    assert_eq!((clamp_level(0), clamp_level(4), clamp_level(10)), (1, 4, 9));
}

#[test]
fn samples_reach_from_the_first_to_the_last_row() {
    assert_eq!(sample_indices(0, false), Vec::<usize>::new());
    assert_eq!(sample_indices(16, false), (0..16).collect::<Vec<_>>());
    assert_eq!(sample_indices(20, true), (0..20).collect::<Vec<_>>());
    assert_eq!(
        sample_indices(31, false),
        vec![0, 2, 4, 6, 8, 10, 12, 14, 16, 18, 20, 22, 24, 26, 28, 30]
    );
    assert_eq!(sample_indices(17, false).last(), Some(&16));
}

fn small() -> SqliteData {
    SqliteData {
        chunks: vec![MemoryChunk {
            id: 1,
            chunk: "a".into(),
            embedding: vec![0; 2],
            source_channel: "c".into(),
            timestamp: 0,
            session_id: "s".into(),
            tags: "t".into(),
            deleted: 0,
        }],
        sessions: vec![Session {
            id: "s".into(),
            start_idx: 0,
            end_idx: 1,
            channel: "c".into(),
            timestamp: 0,
            summary: "".into(),
        }],
        entities: vec![Entity {
            id: 1,
            name: "n".into(),
            entity_type: "t".into(),
            embedding_idx: -1,
        }],
        relations: vec![Relation {
            src: 1,
            tgt: 1,
            relation: "r".into(),
            weight: 0,
            timestamp: 0,
        }],
        embedding_dim: 2,
    }
}

fn difference(change: fn(&mut SqliteData)) -> (ValidationError, String) {
    let mut got = small();
    change(&mut got);
    let e = validate_hdf5(&got, &small(), true, &[]).unwrap_err();
    (e, e.message())
}

#[test]
fn every_difference_is_told() {
    assert!(validate_hdf5(&small(), &small(), true, &[]).is_ok());
    let (e, text) = difference(|d| d.sessions.clear());
    assert_eq!(e, ValidationError::Count { kind: RowKind::Session, got: 0, expected: 1 });
    assert_eq!(text, "session count mismatch: HDF5 has 0, source has 1");
    let (_, text) = difference(|d| d.embedding_dim = 3);
    assert_eq!(text, "embedding_dim mismatch: HDF5 has 3, source has 2");
    let (_, text) = difference(|d| d.chunks[0].id = -5);
    assert_eq!(text, "chunk[0].id mismatch: source 1, HDF5 -5");
    let (_, text) = difference(|d| d.chunks[0].chunk.push('x'));
    assert_eq!(text, "chunk[0].text mismatch");
    let (_, text) = difference(|d| d.chunks[0].tags.clear());
    assert_eq!(text, "chunk[0] string field mismatch");
    let (_, text) = difference(|d| d.chunks[0].deleted = 1);
    assert_eq!(text, "chunk[0].deleted mismatch: source 0, HDF5 1");
    let (_, text) = difference(|d| d.chunks[0].embedding.clear());
    assert_eq!(text, "chunk[0] embedding length mismatch: 2 vs 0");
    let (_, text) = difference(|d| d.sessions[0].end_idx = 2);
    assert_eq!(text, "session[0] mismatch");
    let (_, text) = difference(|d| d.entities[0].name.clear());
    assert_eq!(text, "entity[0] mismatch");
    let (e, text) = difference(|d| d.relations[0].tgt = 2);
    assert_eq!(e, ValidationError::Row { kind: RowKind::Relation, index: 0 });
    assert_eq!(text, "relation[0] mismatch");
    let off = validate_hdf5(&small(), &small(), true, &[Some(1)]).unwrap_err();
    assert_eq!(off.message(), "chunk[0].embedding[1] mismatch");
    let (e, _) = difference(|d| d.sessions[0].timestamp ^= 1);
    assert_eq!(e, ValidationError::Row { kind: RowKind::Session, index: 0 });
    let (e, _) = difference(|d| d.relations[0].weight ^= 1);
    assert_eq!(e, ValidationError::Row { kind: RowKind::Relation, index: 0 });
    let (e, _) = difference(|d| d.relations[0].timestamp ^= 1);
    assert_eq!(e, ValidationError::Row { kind: RowKind::Relation, index: 0 });
}

#[test]
fn memory_files_read_back() {
    let data = small();
    assert_eq!(read_hdf5(&write(&data)), Ok(data));
    let fault = MemoryFault::Unreadable(ReadFault::NotFound);
    assert_eq!(read_hdf5(&[]), Err(fault));
}
