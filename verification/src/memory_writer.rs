//! Describing a memory file: its groups, their columns and their attributes.

use crate::builders::{DatasetBuilder, FinishedGroup, GroupBuilder};
use crate::columns::{Column, ColumnView};
use crate::file_writer::FileWriter;
use crate::messages::{AttrValue, Datatype};
use crate::migrate::{text_views, Entity, MemoryChunk, Relation, Session, SqliteData};
use vstd::prelude::*;

verus! {

// ---------------------------------------------------------------------------
// Columns
// ---------------------------------------------------------------------------

/// An embedding of exactly `dim` values: cut, or filled up with zeros.
pub open spec fn fixed_row(e: Seq<u32>, dim: nat) -> Seq<u32> {
    Seq::new(
        dim,
        |k: int|
            if k < e.len() {
                e[k]
            } else {
                0
            },
    )
}

/// The embeddings of the first `n` chunks, one after another.
pub open spec fn flat_embeddings(chunks: Seq<MemoryChunk>, dim: nat, n: int) -> Seq<u32>
    decreases n,
{
    if n <= 0 {
        Seq::empty()
    } else {
        flat_embeddings(chunks, dim, n - 1) + fixed_row(chunks[n - 1].embedding@, dim)
    }
}

/// The embeddings of `chunks` as a column.
pub open spec fn single_column(chunks: Seq<MemoryChunk>, dim: nat) -> ColumnView {
    ColumnView::F32(flat_embeddings(chunks, dim, chunks.len() as int))
}

/// The columns of the chunk group.
pub open spec fn chunk_columns(chunks: Seq<MemoryChunk>, embeddings: ColumnView) -> Seq<
    (Seq<char>, ColumnView),
> {
    let n = chunks.len();
    seq![
        ("id"@, ColumnView::I64(Seq::new(n, |i: int| chunks[i].id))),
        ("text"@, ColumnView::Text(Seq::new(n, |i: int| chunks[i].chunk@))),
        ("source_channel"@, ColumnView::Text(Seq::new(n, |i: int| chunks[i].source_channel@))),
        ("timestamp"@, ColumnView::F64(Seq::new(n, |i: int| chunks[i].timestamp))),
        ("session_id"@, ColumnView::Text(Seq::new(n, |i: int| chunks[i].session_id@))),
        ("tags"@, ColumnView::Text(Seq::new(n, |i: int| chunks[i].tags@))),
        ("deleted"@, ColumnView::I32(Seq::new(n, |i: int| chunks[i].deleted))),
        ("embeddings"@, embeddings),
    ]
}

/// The columns of the session group.
pub open spec fn session_columns(sessions: Seq<Session>) -> Seq<(Seq<char>, ColumnView)> {
    let n = sessions.len();
    seq![
        ("id"@, ColumnView::Text(Seq::new(n, |i: int| sessions[i].id@))),
        ("start_idx"@, ColumnView::I64(Seq::new(n, |i: int| sessions[i].start_idx))),
        ("end_idx"@, ColumnView::I64(Seq::new(n, |i: int| sessions[i].end_idx))),
        ("channel"@, ColumnView::Text(Seq::new(n, |i: int| sessions[i].channel@))),
        ("timestamp"@, ColumnView::F64(Seq::new(n, |i: int| sessions[i].timestamp))),
        ("summary"@, ColumnView::Text(Seq::new(n, |i: int| sessions[i].summary@))),
    ]
}

/// The columns of the entity group.
pub open spec fn entity_columns(entities: Seq<Entity>) -> Seq<(Seq<char>, ColumnView)> {
    let n = entities.len();
    seq![
        ("id"@, ColumnView::I64(Seq::new(n, |i: int| entities[i].id))),
        ("name"@, ColumnView::Text(Seq::new(n, |i: int| entities[i].name@))),
        ("type"@, ColumnView::Text(Seq::new(n, |i: int| entities[i].entity_type@))),
        ("embedding_idx"@, ColumnView::I64(Seq::new(n, |i: int| entities[i].embedding_idx))),
    ]
}

/// The columns of the relation group.
pub open spec fn relation_columns(relations: Seq<Relation>) -> Seq<(Seq<char>, ColumnView)> {
    let n = relations.len();
    seq![
        ("src"@, ColumnView::I64(Seq::new(n, |i: int| relations[i].src))),
        ("tgt"@, ColumnView::I64(Seq::new(n, |i: int| relations[i].tgt))),
        ("relation"@, ColumnView::Text(Seq::new(n, |i: int| relations[i].relation@))),
        ("weight"@, ColumnView::F64(Seq::new(n, |i: int| relations[i].weight))),
        ("timestamp"@, ColumnView::F64(Seq::new(n, |i: int| relations[i].timestamp))),
    ]
}

/// Whether `g` is the group of a table: its columns as datasets, its number of
/// rows as an attribute.
pub open spec fn is_table(
    g: FinishedGroup,
    name: Seq<char>,
    rows: nat,
    cols: Seq<(Seq<char>, ColumnView)>,
) -> bool {
    &&& g.name@ == name
    &&& g.external_links@.len() == 0
    &&& g.attrs@.len() == 1
    &&& g.attrs@[0].0@ == "count"@
    &&& g.attrs@[0].1 == AttrValue::I64(rows as i64)
    &&& g.datasets@.len() == cols.len()
    &&& forall|i: int|
        0 <= i < cols.len() ==> cols[i].1.is_stored(#[trigger] g.datasets@[i], cols[i].0)
}

/// Starts the group of a table.
fn start_table(name: &str, rows: usize) -> (g: GroupBuilder)
    ensures
        is_table(g.spec_group(), name@, rows as nat, Seq::empty()),
{
    let mut g: GroupBuilder = GroupBuilder::new(name);
    g.set_attr("count", AttrValue::I64(rows as i64));
    g
}

/// Adds a column.
fn add_column(
    g: &mut GroupBuilder,
    name: &str,
    col: Column,
    Ghost(table): Ghost<Seq<char>>,
    Ghost(rows): Ghost<nat>,
    Ghost(cols): Ghost<Seq<(Seq<char>, ColumnView)>>,
)
    requires
        is_table(old(g).spec_group(), table, rows, cols),
    ensures
        is_table(final(g).spec_group(), table, rows, cols.push((name@, col@))),
{
    let d: &mut DatasetBuilder = g.create_dataset(name);
    col.store(d);
}

fn copy_text(s: &String) -> (r: String)
    ensures
        r@ == s@,
{
    s.as_str().to_owned()
}

fn push_row(flat: &mut Vec<u32>, e: &Vec<u32>, dim: usize)
    ensures
        final(flat)@ == old(flat)@ + fixed_row(e@, dim as nat),
{
    let ghost before = flat@;
    let mut k: usize = 0;
    assert(before + fixed_row(e@, 0) =~= before);
    while k < dim
        invariant
            k <= dim,
            flat@ == before + fixed_row(e@, k as nat),
        decreases dim - k,
    {
        if k < e.len() {
            flat.push(e[k]);
        } else {
            flat.push(0);
        }
        k = k + 1;
        assert(flat@ =~= before + fixed_row(e@, k as nat));
    }
}

// ---------------------------------------------------------------------------
// Groups
// ---------------------------------------------------------------------------

/// The embeddings of all chunks one after another, each cut or padded with zeros to
/// `dim` numbers.
pub fn join_embeddings(chunks: &Vec<MemoryChunk>, dim: usize) -> (flat: Vec<u32>)
    ensures
        flat@ == flat_embeddings(chunks@, dim as nat, chunks@.len() as int),
{
    let mut flat: Vec<u32> = Vec::new();
    let mut i: usize = 0;
    while i < chunks.len()
        invariant
            i <= chunks@.len(),
            flat@ == flat_embeddings(chunks@, dim as nat, i as int),
        decreases chunks@.len() - i,
    {
        push_row(&mut flat, &chunks[i].embedding, dim);
        i = i + 1;
    }
    flat
}

fn chunk_table(chunks: &Vec<MemoryChunk>, embeddings: Column) -> (g: FinishedGroup)
    ensures
        is_table(g, "chunks"@, chunks@.len(), chunk_columns(chunks@, embeddings@)),
{
    let mut ids: Vec<i64> = Vec::new();
    let mut texts: Vec<String> = Vec::new();
    let mut channels: Vec<String> = Vec::new();
    let mut timestamps: Vec<u64> = Vec::new();
    let mut session_ids: Vec<String> = Vec::new();
    let mut tags: Vec<String> = Vec::new();
    let mut deleted: Vec<i32> = Vec::new();
    let mut i: usize = 0;
    while i < chunks.len()
        invariant
            i <= chunks@.len(),
            ids@.len() == i,
            texts@.len() == i,
            channels@.len() == i,
            timestamps@.len() == i,
            session_ids@.len() == i,
            tags@.len() == i,
            deleted@.len() == i,
            forall|j: int| 0 <= j < i ==> #[trigger] ids@[j] == chunks@[j].id,
            forall|j: int| 0 <= j < i ==> (#[trigger] texts@[j])@ == chunks@[j].chunk@,
            forall|j: int| 0 <= j < i ==> (#[trigger] channels@[j])@ == chunks@[j].source_channel@,
            forall|j: int| 0 <= j < i ==> #[trigger] timestamps@[j] == chunks@[j].timestamp,
            forall|j: int| 0 <= j < i ==> (#[trigger] session_ids@[j])@ == chunks@[j].session_id@,
            forall|j: int| 0 <= j < i ==> (#[trigger] tags@[j])@ == chunks@[j].tags@,
            forall|j: int| 0 <= j < i ==> #[trigger] deleted@[j] == chunks@[j].deleted,
        decreases chunks@.len() - i,
    {
        ids.push(chunks[i].id);
        texts.push(copy_text(&chunks[i].chunk));
        channels.push(copy_text(&chunks[i].source_channel));
        timestamps.push(chunks[i].timestamp);
        session_ids.push(copy_text(&chunks[i].session_id));
        tags.push(copy_text(&chunks[i].tags));
        deleted.push(chunks[i].deleted);
        i = i + 1;
    }
    let ghost all = chunk_columns(chunks@, embeddings@);
    let ghost n = chunks@.len();
    proof {
        assert(ids@ =~= Seq::new(n, |i: int| chunks@[i].id));
        assert(text_views(texts@) =~= Seq::new(n, |i: int| chunks@[i].chunk@));
        assert(text_views(channels@) =~= Seq::new(n, |i: int| chunks@[i].source_channel@));
        assert(timestamps@ =~= Seq::new(n, |i: int| chunks@[i].timestamp));
        assert(text_views(session_ids@) =~= Seq::new(n, |i: int| chunks@[i].session_id@));
        assert(text_views(tags@) =~= Seq::new(n, |i: int| chunks@[i].tags@));
        assert(deleted@ =~= Seq::new(n, |i: int| chunks@[i].deleted));
        assert(all.take(0) =~= Seq::empty());
        assert(all.take(1) =~= all.take(0).push(all[0]));
        assert(all.take(2) =~= all.take(1).push(all[1]));
        assert(all.take(3) =~= all.take(2).push(all[2]));
        assert(all.take(4) =~= all.take(3).push(all[3]));
        assert(all.take(5) =~= all.take(4).push(all[4]));
        assert(all.take(6) =~= all.take(5).push(all[5]));
        assert(all.take(7) =~= all.take(6).push(all[6]));
        assert(all =~= all.take(7).push(all[7]));
    }
    let ghost t = "chunks"@;
    let mut g: GroupBuilder = start_table("chunks", chunks.len());
    add_column(&mut g, "id", Column::I64(ids), Ghost(t), Ghost(n), Ghost(all.take(0)));
    add_column(&mut g, "text", Column::Text(texts), Ghost(t), Ghost(n), Ghost(all.take(1)));
    add_column(
        &mut g,
        "source_channel",
        Column::Text(channels),
        Ghost(t),
        Ghost(n),
        Ghost(all.take(2)),
    );
    add_column(&mut g, "timestamp", Column::F64(timestamps), Ghost(t), Ghost(n), Ghost(all.take(3)));
    add_column(
        &mut g,
        "session_id",
        Column::Text(session_ids),
        Ghost(t),
        Ghost(n),
        Ghost(all.take(4)),
    );
    add_column(&mut g, "tags", Column::Text(tags), Ghost(t), Ghost(n), Ghost(all.take(5)));
    add_column(&mut g, "deleted", Column::I32(deleted), Ghost(t), Ghost(n), Ghost(all.take(6)));
    add_column(&mut g, "embeddings", embeddings, Ghost(t), Ghost(n), Ghost(all.take(7)));
    g.finish()
}

fn session_table(sessions: &Vec<Session>) -> (g: FinishedGroup)
    ensures
        is_table(g, "sessions"@, sessions@.len(), session_columns(sessions@)),
{
    let mut ids: Vec<String> = Vec::new();
    let mut starts: Vec<i64> = Vec::new();
    let mut ends: Vec<i64> = Vec::new();
    let mut channels: Vec<String> = Vec::new();
    let mut timestamps: Vec<u64> = Vec::new();
    let mut summaries: Vec<String> = Vec::new();
    let mut i: usize = 0;
    while i < sessions.len()
        invariant
            i <= sessions@.len(),
            ids@.len() == i,
            starts@.len() == i,
            ends@.len() == i,
            channels@.len() == i,
            timestamps@.len() == i,
            summaries@.len() == i,
            forall|j: int| 0 <= j < i ==> (#[trigger] ids@[j])@ == sessions@[j].id@,
            forall|j: int| 0 <= j < i ==> #[trigger] starts@[j] == sessions@[j].start_idx,
            forall|j: int| 0 <= j < i ==> #[trigger] ends@[j] == sessions@[j].end_idx,
            forall|j: int| 0 <= j < i ==> (#[trigger] channels@[j])@ == sessions@[j].channel@,
            forall|j: int| 0 <= j < i ==> #[trigger] timestamps@[j] == sessions@[j].timestamp,
            forall|j: int| 0 <= j < i ==> (#[trigger] summaries@[j])@ == sessions@[j].summary@,
        decreases sessions@.len() - i,
    {
        ids.push(copy_text(&sessions[i].id));
        starts.push(sessions[i].start_idx);
        ends.push(sessions[i].end_idx);
        channels.push(copy_text(&sessions[i].channel));
        timestamps.push(sessions[i].timestamp);
        summaries.push(copy_text(&sessions[i].summary));
        i = i + 1;
    }
    let ghost all = session_columns(sessions@);
    let ghost n = sessions@.len();
    proof {
        assert(text_views(ids@) =~= Seq::new(n, |i: int| sessions@[i].id@));
        assert(starts@ =~= Seq::new(n, |i: int| sessions@[i].start_idx));
        assert(ends@ =~= Seq::new(n, |i: int| sessions@[i].end_idx));
        assert(text_views(channels@) =~= Seq::new(n, |i: int| sessions@[i].channel@));
        assert(timestamps@ =~= Seq::new(n, |i: int| sessions@[i].timestamp));
        assert(text_views(summaries@) =~= Seq::new(n, |i: int| sessions@[i].summary@));
        assert(all.take(0) =~= Seq::empty());
        assert(all.take(1) =~= all.take(0).push(all[0]));
        assert(all.take(2) =~= all.take(1).push(all[1]));
        assert(all.take(3) =~= all.take(2).push(all[2]));
        assert(all.take(4) =~= all.take(3).push(all[3]));
        assert(all.take(5) =~= all.take(4).push(all[4]));
        assert(all =~= all.take(5).push(all[5]));
    }
    let ghost t = "sessions"@;
    let mut g: GroupBuilder = start_table("sessions", sessions.len());
    add_column(&mut g, "id", Column::Text(ids), Ghost(t), Ghost(n), Ghost(all.take(0)));
    add_column(&mut g, "start_idx", Column::I64(starts), Ghost(t), Ghost(n), Ghost(all.take(1)));
    add_column(&mut g, "end_idx", Column::I64(ends), Ghost(t), Ghost(n), Ghost(all.take(2)));
    add_column(&mut g, "channel", Column::Text(channels), Ghost(t), Ghost(n), Ghost(all.take(3)));
    add_column(&mut g, "timestamp", Column::F64(timestamps), Ghost(t), Ghost(n), Ghost(all.take(4)));
    add_column(&mut g, "summary", Column::Text(summaries), Ghost(t), Ghost(n), Ghost(all.take(5)));
    g.finish()
}

fn entity_table(entities: &Vec<Entity>) -> (g: FinishedGroup)
    ensures
        is_table(g, "entities"@, entities@.len(), entity_columns(entities@)),
{
    let mut ids: Vec<i64> = Vec::new();
    let mut names: Vec<String> = Vec::new();
    let mut types: Vec<String> = Vec::new();
    let mut embedding_idxs: Vec<i64> = Vec::new();
    let mut i: usize = 0;
    while i < entities.len()
        invariant
            i <= entities@.len(),
            ids@.len() == i,
            names@.len() == i,
            types@.len() == i,
            embedding_idxs@.len() == i,
            forall|j: int| 0 <= j < i ==> #[trigger] ids@[j] == entities@[j].id,
            forall|j: int| 0 <= j < i ==> (#[trigger] names@[j])@ == entities@[j].name@,
            forall|j: int| 0 <= j < i ==> (#[trigger] types@[j])@ == entities@[j].entity_type@,
            forall|j: int|
                0 <= j < i ==> #[trigger] embedding_idxs@[j] == entities@[j].embedding_idx,
        decreases entities@.len() - i,
    {
        ids.push(entities[i].id);
        names.push(copy_text(&entities[i].name));
        types.push(copy_text(&entities[i].entity_type));
        embedding_idxs.push(entities[i].embedding_idx);
        i = i + 1;
    }
    let ghost all = entity_columns(entities@);
    let ghost n = entities@.len();
    proof {
        assert(ids@ =~= Seq::new(n, |i: int| entities@[i].id));
        assert(text_views(names@) =~= Seq::new(n, |i: int| entities@[i].name@));
        assert(text_views(types@) =~= Seq::new(n, |i: int| entities@[i].entity_type@));
        assert(embedding_idxs@ =~= Seq::new(n, |i: int| entities@[i].embedding_idx));
        assert(all.take(0) =~= Seq::empty());
        assert(all.take(1) =~= all.take(0).push(all[0]));
        assert(all.take(2) =~= all.take(1).push(all[1]));
        assert(all.take(3) =~= all.take(2).push(all[2]));
        assert(all =~= all.take(3).push(all[3]));
    }
    let ghost t = "entities"@;
    let mut g: GroupBuilder = start_table("entities", entities.len());
    add_column(&mut g, "id", Column::I64(ids), Ghost(t), Ghost(n), Ghost(all.take(0)));
    add_column(&mut g, "name", Column::Text(names), Ghost(t), Ghost(n), Ghost(all.take(1)));
    add_column(&mut g, "type", Column::Text(types), Ghost(t), Ghost(n), Ghost(all.take(2)));
    add_column(
        &mut g,
        "embedding_idx",
        Column::I64(embedding_idxs),
        Ghost(t),
        Ghost(n),
        Ghost(all.take(3)),
    );
    g.finish()
}

fn relation_table(relations: &Vec<Relation>) -> (g: FinishedGroup)
    ensures
        is_table(g, "relations"@, relations@.len(), relation_columns(relations@)),
{
    let mut srcs: Vec<i64> = Vec::new();
    let mut tgts: Vec<i64> = Vec::new();
    let mut names: Vec<String> = Vec::new();
    let mut weights: Vec<u64> = Vec::new();
    let mut timestamps: Vec<u64> = Vec::new();
    let mut i: usize = 0;
    while i < relations.len()
        invariant
            i <= relations@.len(),
            srcs@.len() == i,
            tgts@.len() == i,
            names@.len() == i,
            weights@.len() == i,
            timestamps@.len() == i,
            forall|j: int| 0 <= j < i ==> #[trigger] srcs@[j] == relations@[j].src,
            forall|j: int| 0 <= j < i ==> #[trigger] tgts@[j] == relations@[j].tgt,
            forall|j: int| 0 <= j < i ==> (#[trigger] names@[j])@ == relations@[j].relation@,
            forall|j: int| 0 <= j < i ==> #[trigger] weights@[j] == relations@[j].weight,
            forall|j: int| 0 <= j < i ==> #[trigger] timestamps@[j] == relations@[j].timestamp,
        decreases relations@.len() - i,
    {
        srcs.push(relations[i].src);
        tgts.push(relations[i].tgt);
        names.push(copy_text(&relations[i].relation));
        weights.push(relations[i].weight);
        timestamps.push(relations[i].timestamp);
        i = i + 1;
    }
    let ghost all = relation_columns(relations@);
    let ghost n = relations@.len();
    proof {
        assert(srcs@ =~= Seq::new(n, |i: int| relations@[i].src));
        assert(tgts@ =~= Seq::new(n, |i: int| relations@[i].tgt));
        assert(text_views(names@) =~= Seq::new(n, |i: int| relations@[i].relation@));
        assert(weights@ =~= Seq::new(n, |i: int| relations@[i].weight));
        assert(timestamps@ =~= Seq::new(n, |i: int| relations@[i].timestamp));
        assert(all.take(0) =~= Seq::empty());
        assert(all.take(1) =~= all.take(0).push(all[0]));
        assert(all.take(2) =~= all.take(1).push(all[1]));
        assert(all.take(3) =~= all.take(2).push(all[2]));
        assert(all.take(4) =~= all.take(3).push(all[3]));
        assert(all =~= all.take(4).push(all[4]));
    }
    let ghost t = "relations"@;
    let mut g: GroupBuilder = start_table("relations", relations.len());
    add_column(&mut g, "src", Column::I64(srcs), Ghost(t), Ghost(n), Ghost(all.take(0)));
    add_column(&mut g, "tgt", Column::I64(tgts), Ghost(t), Ghost(n), Ghost(all.take(1)));
    add_column(&mut g, "relation", Column::Text(names), Ghost(t), Ghost(n), Ghost(all.take(2)));
    add_column(&mut g, "weight", Column::F64(weights), Ghost(t), Ghost(n), Ghost(all.take(3)));
    add_column(&mut g, "timestamp", Column::F64(timestamps), Ghost(t), Ghost(n), Ghost(all.take(4)));
    g.finish()
}

/// Whether `fw` describes a memory file of `data`, with `embeddings` for its
/// embeddings.
pub open spec fn is_memory_writer(
    fw: FileWriter,
    data: SqliteData,
    embeddings: ColumnView,
    agent_id: Seq<char>,
    embedder: Seq<char>,
) -> bool {
    &&& fw.root_datasets@.len() == 0
    &&& fw.root_attrs@.len() == 3
    &&& fw.root_attrs@[0].0@ == "agent_id"@
    &&& (fw.root_attrs@[0].1 matches AttrValue::String(s) && s@ == agent_id)
    &&& fw.root_attrs@[1].0@ == "embedder"@
    &&& (fw.root_attrs@[1].1 matches AttrValue::String(s) && s@ == embedder)
    &&& fw.root_attrs@[2].0@ == "embedding_dim"@
    &&& fw.root_attrs@[2].1 == AttrValue::I64(data.embedding_dim as i64)
    &&& fw.groups@.len() == 4
    &&& is_table(
        fw.groups@[0],
        "chunks"@,
        data.chunks@.len(),
        chunk_columns(data.chunks@, embeddings),
    )
    &&& is_table(
        fw.groups@[1],
        "sessions"@,
        data.sessions@.len(),
        session_columns(data.sessions@),
    )
    &&& is_table(
        fw.groups@[2],
        "entities"@,
        data.entities@.len(),
        entity_columns(data.entities@),
    )
    &&& is_table(
        fw.groups@[3],
        "relations"@,
        data.relations@.len(),
        relation_columns(data.relations@),
    )
}

fn describe(data: &SqliteData, embeddings: Column, agent_id: &str, embedder: &str) -> (fw:
    FileWriter)
    ensures
        is_memory_writer(fw, *data, embeddings@, agent_id@, embedder@),
{
    let mut fw: FileWriter = FileWriter::new();
    fw.set_root_attr("agent_id", AttrValue::String(agent_id.to_owned()));
    fw.set_root_attr("embedder", AttrValue::String(embedder.to_owned()));
    let ghost two = fw.root_attrs@;
    assert(two[0] == two.drop_last()[0]);
    fw.set_root_attr("embedding_dim", AttrValue::I64(data.embedding_dim as i64));
    assert(fw.root_attrs@[0] == fw.root_attrs@.drop_last()[0]);
    assert(fw.root_attrs@[1] == fw.root_attrs@.drop_last()[1]);
    fw.add_group(chunk_table(&data.chunks, embeddings));
    fw.add_group(session_table(&data.sessions));
    fw.add_group(entity_table(&data.entities));
    fw.add_group(relation_table(&data.relations));
    fw
}

/// Describes the memory file of `data`.
pub fn memory_writer(data: &SqliteData, agent_id: &str, embedder: &str) -> (fw: FileWriter)
    ensures
        is_memory_writer(
            fw,
            *data,
            single_column(data.chunks@, data.embedding_dim as nat),
            agent_id@,
            embedder@,
        ),
{
    let flat: Vec<u32> = join_embeddings(&data.chunks, data.embedding_dim);
    describe(data, Column::F32(flat), agent_id, embedder)
}

/// Describes the memory file of `data` with its embeddings as 16-bit numbers:
/// `halves`, rounded by the caller, row after row.
pub fn half_memory_writer(
    data: &SqliteData,
    halves: Vec<u16>,
    agent_id: &str,
    embedder: &str,
) -> (fw: FileWriter)
    ensures
        is_memory_writer(fw, *data, ColumnView::F16(halves@), agent_id@, embedder@),
{
    describe(data, Column::F16(halves), agent_id, embedder)
}

/// Joined embeddings have one row of `dim` numbers for each chunk: number `k` of row
/// `i` is number `k` of the chunk's embedding, or zero behind its end.
pub proof fn law_joined_embeddings_are_rows(chunks: Seq<MemoryChunk>, dim: nat, n: int, i: int, k: int)
    requires
        0 <= i < n <= chunks.len(),
        0 <= k < dim,
    ensures
        flat_embeddings(chunks, dim, n).len() == n * dim,
        0 <= i * dim + k < n * dim,
        flat_embeddings(chunks, dim, n)[i * dim + k] == if k < chunks[i].embedding@.len() {
            chunks[i].embedding@[k]
        } else {
            0
        },
    decreases n,
{
    lemma_flat_len(chunks, dim, n);
    lemma_flat_len(chunks, dim, n - 1);
    assert(i * dim + k < (i + 1) * dim) by (nonlinear_arith)
        requires
            k < dim,
    ;
    assert(0 <= i * dim && (i + 1) * dim <= n * dim) by (nonlinear_arith)
        requires
            0 <= i,
            i + 1 <= n,
            0 <= dim,
    ;
    if i < n - 1 {
        law_joined_embeddings_are_rows(chunks, dim, n - 1, i, k);
    }
}

proof fn lemma_flat_len(chunks: Seq<MemoryChunk>, dim: nat, n: int)
    requires
        0 <= n,
    ensures
        flat_embeddings(chunks, dim, n).len() == n * dim,
    decreases n,
{
    if n > 0 {
        lemma_flat_len(chunks, dim, n - 1);
        assert((n - 1) * dim + dim == n * dim) by (nonlinear_arith);
    } else {
        assert(n * dim == 0) by (nonlinear_arith)
            requires
                n == 0,
        ;
    }
}

/// A memory file states who it belongs to, what made its embeddings and how long
/// they are; it has a group for each table, with its number of rows, and nothing
/// else.
pub proof fn law_memory_file_states_its_origin(
    fw: FileWriter,
    data: SqliteData,
    embeddings: ColumnView,
    agent_id: Seq<char>,
    embedder: Seq<char>,
)
    requires
        is_memory_writer(fw, data, embeddings, agent_id, embedder),
    ensures
        fw.root_datasets@.len() == 0,
        fw.root_attrs@.len() == 3,
        fw.root_attrs@[0].0@ == "agent_id"@,
        fw.root_attrs@[0].1 matches AttrValue::String(s) && s@ == agent_id,
        fw.root_attrs@[1].0@ == "embedder"@,
        fw.root_attrs@[1].1 matches AttrValue::String(s) && s@ == embedder,
        fw.root_attrs@[2].0@ == "embedding_dim"@,
        fw.root_attrs@[2].1 == AttrValue::I64(data.embedding_dim as i64),
        fw.groups@.len() == 4,
        fw.groups@[0].name@ == "chunks"@,
        fw.groups@[1].name@ == "sessions"@,
        fw.groups@[2].name@ == "entities"@,
        fw.groups@[3].name@ == "relations"@,
        forall|t: int|
            0 <= t < 4 ==> (#[trigger] fw.groups@[t]).attrs@.len() == 1
                && fw.groups@[t].attrs@[0].0@ == "count"@ && fw.groups@[t].attrs@[0].1
                == AttrValue::I64(
                (if t == 0 {
                    data.chunks@.len()
                } else if t == 1 {
                    data.sessions@.len()
                } else if t == 2 {
                    data.entities@.len()
                } else {
                    data.relations@.len()
                }) as i64,
            ),
{
}

/// The group of chunks has a column for each of their fields, under its name and of
/// its type, with a value for each chunk.
pub proof fn law_chunk_table_has_columns(
    g: FinishedGroup,
    chunks: Seq<MemoryChunk>,
    embeddings: ColumnView,
)
    requires
        is_table(g, "chunks"@, chunks.len(), chunk_columns(chunks, embeddings)),
    ensures
        g.datasets@.len() == 8,
        g.datasets@[0].name@ == "id"@,
        g.datasets@[1].name@ == "text"@,
        g.datasets@[2].name@ == "source_channel"@,
        g.datasets@[3].name@ == "timestamp"@,
        g.datasets@[4].name@ == "session_id"@,
        g.datasets@[5].name@ == "tags"@,
        g.datasets@[6].name@ == "deleted"@,
        g.datasets@[7].name@ == "embeddings"@,
        forall|k: int|
            0 <= k < 7 ==> (#[trigger] g.datasets@[k]).shape is Some && g.datasets@[k].shape->0@
                == seq![chunks.len() as u64],
        g.datasets@[0].datatype == Some(Datatype::FixedPoint { size: 8, signed: true }),
        g.datasets@[3].datatype == Some(Datatype::Float64),
        g.datasets@[6].datatype == Some(Datatype::FixedPoint { size: 4, signed: true }),
        embeddings is F32 ==> g.datasets@[7].datatype == Some(Datatype::Float32),
        embeddings is F16 ==> g.datasets@[7].datatype == Some(Datatype::Float16),
{
    let cols = chunk_columns(chunks, embeddings);
    assert forall|k: int| 0 <= k < 8 implies cols[k].1.is_stored(
        #[trigger] g.datasets@[k],
        cols[k].0,
    ) by {}
}

/// The groups of sessions, entities and relations have a column for each field, under
/// its name, with a value for each row.
pub proof fn law_other_tables_have_columns(
    fw: FileWriter,
    data: SqliteData,
    embeddings: ColumnView,
    agent_id: Seq<char>,
    embedder: Seq<char>,
)
    requires
        is_memory_writer(fw, data, embeddings, agent_id, embedder),
    ensures
        fw.groups@[1].datasets@.len() == 6,
        fw.groups@[1].datasets@[0].name@ == "id"@,
        fw.groups@[1].datasets@[1].name@ == "start_idx"@,
        fw.groups@[1].datasets@[2].name@ == "end_idx"@,
        fw.groups@[1].datasets@[3].name@ == "channel"@,
        fw.groups@[1].datasets@[4].name@ == "timestamp"@,
        fw.groups@[1].datasets@[5].name@ == "summary"@,
        fw.groups@[2].datasets@.len() == 4,
        fw.groups@[2].datasets@[0].name@ == "id"@,
        fw.groups@[2].datasets@[1].name@ == "name"@,
        fw.groups@[2].datasets@[2].name@ == "type"@,
        fw.groups@[2].datasets@[3].name@ == "embedding_idx"@,
        fw.groups@[3].datasets@.len() == 5,
        fw.groups@[3].datasets@[0].name@ == "src"@,
        fw.groups@[3].datasets@[1].name@ == "tgt"@,
        fw.groups@[3].datasets@[2].name@ == "relation"@,
        fw.groups@[3].datasets@[3].name@ == "weight"@,
        fw.groups@[3].datasets@[4].name@ == "timestamp"@,
        forall|k: int|
            0 <= k < 6 ==> (#[trigger] fw.groups@[1].datasets@[k]).shape is Some
                && fw.groups@[1].datasets@[k].shape->0@ == seq![data.sessions@.len() as u64],
        forall|k: int|
            0 <= k < 4 ==> (#[trigger] fw.groups@[2].datasets@[k]).shape is Some
                && fw.groups@[2].datasets@[k].shape->0@ == seq![data.entities@.len() as u64],
        forall|k: int|
            0 <= k < 5 ==> (#[trigger] fw.groups@[3].datasets@[k]).shape is Some
                && fw.groups@[3].datasets@[k].shape->0@ == seq![data.relations@.len() as u64],
{
    let s = session_columns(data.sessions@);
    let e = entity_columns(data.entities@);
    let r = relation_columns(data.relations@);
    assert forall|k: int| 0 <= k < 6 implies s[k].1.is_stored(
        #[trigger] fw.groups@[1].datasets@[k],
        s[k].0,
    ) by {}
    assert forall|k: int| 0 <= k < 4 implies e[k].1.is_stored(
        #[trigger] fw.groups@[2].datasets@[k],
        e[k].0,
    ) by {}
    assert forall|k: int| 0 <= k < 5 implies r[k].1.is_stored(
        #[trigger] fw.groups@[3].datasets@[k],
        r[k].0,
    ) by {}
}

} // verus!
