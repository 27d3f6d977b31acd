//! The tables of a memory file are found by name, with their columns.

use crate::attr_laws::{first_attr, info_of, lemma_space_len, lemma_type_len};
use crate::builders::DatasetBuilder;
use crate::bytes::lemma_le_len;
use crate::chunk_laws::lemma_layout_size;
use crate::columns::ColumnView;
use crate::file_laws::{
    is_writable, law_datatype_roundtrip, law_superblock_is_right, lemma_contiguous_len,
    lemma_first_messages, lemma_header_found,
};
use crate::file_writer::{
    cdims_of, dense_attrs, layout_of, oh_len, raw_of, storable, storage_of, FileWriter,
};
use crate::layout::first_message;
use crate::memory_file::{column_bytes, MemoryFault};
use crate::memory_writer::{
    chunk_columns, entity_columns, is_memory_writer, is_table, relation_columns, session_columns,
};
use crate::messages::{
    attr_bytes, dataspace_bytes, link_bytes, width_of, AttrValue, Datatype, LinkView, MessageType,
};
use crate::migrate::{Entity, MemoryChunk, Relation, Session, SqliteData};
use crate::object_header::parsed_header;
use crate::path_laws::{
    is_group_reachable, is_reachable, is_readable, is_searchable, is_step,
    law_group_dataset_is_found, law_group_dataset_reads_back,
};
use crate::reader::type_answer;
use vstd::prelude::*;
use vstd::utf8::{encode_utf8, is_ascii_chars_encode_utf8};

verus! {

// ---------------------------------------------------------------------------
// Tables
// ---------------------------------------------------------------------------

/// The datatype in the header of a dataset.
proof fn lemma_type_found(fw: &FileWriter, i: int)
    requires
        is_writable(fw),
        0 <= i < fw.all().len(),
        is_readable(fw.all()[i]),
    ensures
        ({
            let found = parsed_header(fw.image(), fw.head_addr(i) as int);
            &&& found is Some
            &&& first_message(found->0, MessageType::Datatype) == Some(
                fw.all()[i].datatype->0.bytes(),
            )
        }),
{
    let d = fw.all()[i];
    let addr = fw.data_addr(i) as u64;
    assert(storable(d));
    lemma_layout_len(d, addr);
    lemma_header_found(fw, i);
    lemma_first_messages(d, layout_of(d, addr), (fw.head_addr(i) + oh_len(d)) as u64);
}

proof fn lemma_layout_len(d: DatasetBuilder, addr: u64)
    requires
        is_readable(d),
        storable(d),
    ensures
        layout_of(d, addr).len() < 0x1_0000,
{
    if storage_of(d) is Chunked {
        lemma_layout_size(
            d.shape->0@,
            cdims_of(d),
            d.datatype->0.spec_size(),
            addr,
            d.maxshape is Some,
        );
    }
    let raw = raw_of(d);
    lemma_contiguous_len(addr, raw.len() as u64);
    lemma_le_len(raw.len(), 2);
}

/// The datatype of a group's dataset reads back.
pub proof fn law_group_dataset_type_reads_back(fw: &FileWriter, g: int, j: int)
    requires
        is_writable(fw),
        0 <= g < fw.groups@.len(),
        0 <= j < fw.groups@[g].datasets@.len(),
        is_readable(fw.groups@[g].datasets@[j]),
        is_reachable(fw, g, j),
    ensures
        type_answer(
            fw.image(),
            encode_utf8(fw.groups@[g].name@ + seq!['/'] + fw.groups@[g].datasets@[j].name@),
        ) == Some(info_of(fw.groups@[g].datasets@[j].datatype->0)),
{
    law_superblock_is_right(fw);
    law_group_dataset_is_found(fw, g, j);
    reveal(type_answer);
    lemma_type_found(fw, fw.first_of(g) + j);
    law_datatype_roundtrip(fw.groups@[g].datasets@[j].datatype->0);
}

/// Whether a name is short, ASCII and without a slash.
pub open spec fn is_plain(s: Seq<char>) -> bool {
    &&& 1 <= s.len() <= 32
    &&& forall|i: int| 0 <= i < s.len() ==> ' ' < #[trigger] s[i] <= '~' && s[i] != '/'
}

proof fn lemma_plain(s: Seq<char>)
    requires
        is_plain(s),
    ensures
        is_step(s),
        encode_utf8(s).len() == s.len(),
{
    assert(vstd::utf8::is_ascii_chars(s));
    is_ascii_chars_encode_utf8(s);
    assert forall|i: int| 0 <= i < encode_utf8(s).len() implies #[trigger] encode_utf8(s)[i]
        != 0x2f by {
        assert(s[i] as u8 == encode_utf8(s)[i]);
    }
}

/// Whether the names of columns are plain and told apart.
pub open spec fn are_names(cols: Seq<(Seq<char>, ColumnView)>) -> bool {
    &&& cols.len() <= 8
    &&& forall|k: int| 0 <= k < cols.len() ==> is_plain((#[trigger] cols[k]).0)
    &&& forall|j: int, k: int|
        0 <= j < k < cols.len() ==> (#[trigger] cols[j]).0 != (#[trigger] cols[k]).0
}

proof fn lemma_plain_link(name: Seq<char>, address: u64)
    requires
        is_plain(name),
    ensures
        link_bytes(LinkView::Hard { name, address }).len() < 0x1_0000,
{
    lemma_plain(name);
    lemma_le_len(name.len(), width_of(name.len()));
    lemma_le_len(address as nat, 8);
}

proof fn lemma_attr_size(name: Seq<char>, value: AttrValue)
    requires
        is_plain(name),
        value.spec_raw().len() < 0xff00,
    ensures
        attr_bytes(name, value, false).len() < 0x1_0000,
        encode_utf8(name).len() < 0xffff,
{
    let n = encode_utf8(name) + seq![0u8];
    let dt = value.spec_datatype().bytes();
    let ds = dataspace_bytes(value.spec_dims(), None);
    lemma_plain(name);
    lemma_type_len(value.spec_datatype());
    lemma_space_len(value);
    lemma_le_len(n.len(), 2);
    lemma_le_len(dt.len(), 2);
    lemma_le_len(ds.len(), 2);
}

proof fn lemma_count_name()
    ensures
        is_plain("count"@),
{
    reveal_strlit("count");
}

/// The group of a table can be searched, and its number of rows is found.
pub(crate) proof fn lemma_table_searchable(
    fw: &FileWriter,
    g: int,
    name: Seq<char>,
    rows: nat,
    cols: Seq<(Seq<char>, ColumnView)>,
)
    requires
        0 <= g < fw.groups@.len(),
        is_table(fw.groups@[g], name, rows, cols),
        are_names(cols),
    ensures
        is_searchable(fw.group_links(g, fw.ds_addrs()), fw.groups@[g].attrs@),
        !dense_attrs(fw.groups@[g].attrs@),
        first_attr(fw.groups@[g].attrs@, 0, "count"@),
{
    let links = fw.group_links(g, fw.ds_addrs());
    let group = fw.groups@[g];
    lemma_count_name();
    assert forall|i: int| 0 <= i < links.len() implies link_bytes(#[trigger] links[i]).len()
        < 0x1_0000 by {
        let d = group.datasets@[i];
        assert(cols[i].1.is_stored(d, cols[i].0));
        assert(is_plain(cols[i].0));
        lemma_plain_link(d.name@, fw.ds_addrs()[fw.first_of(g) + i]);
    }
    let value = group.attrs@[0].1;
    lemma_le_len(crate::messages::twos_complement(rows as i64), 8);
    lemma_attr_size("count"@, value);
}

/// A column of a table reads back, and so does its datatype.
pub(crate) proof fn lemma_table_column(
    fw: &FileWriter,
    g: int,
    name: Seq<char>,
    rows: nat,
    cols: Seq<(Seq<char>, ColumnView)>,
    k: int,
)
    requires
        is_writable(fw),
        0 <= g < fw.groups@.len(),
        is_group_reachable(fw, g),
        is_table(fw.groups@[g], name, rows, cols),
        are_names(cols),
        0 <= k < cols.len(),
    ensures
        column_bytes(fw.image(), name + seq!['/'] + cols[k].0) == Ok::<Seq<u8>, MemoryFault>(
            cols[k].1.bytes(),
        ),
        type_answer(fw.image(), encode_utf8(name + seq!['/'] + cols[k].0)) == Some(
            info_of(cols[k].1.datatype()),
        ),
{
    let group = fw.groups@[g];
    let d = group.datasets@[k];
    lemma_table_searchable(fw, g, name, rows, cols);
    assert(cols[k].1.is_stored(d, cols[k].0));
    assert(is_plain(cols[k].0));
    lemma_plain(cols[k].0);
    assert forall|j: int| 0 <= j < k implies (#[trigger] group.datasets@[j]).name@ != d.name@ by {
        assert(cols[j].1.is_stored(group.datasets@[j], cols[j].0));
        assert(cols[j].0 != cols[k].0);
    }
    reveal(column_bytes);
    law_group_dataset_reads_back(fw, g, k);
    law_group_dataset_type_reads_back(fw, g, k);
}

// ---------------------------------------------------------------------------
// Names
// ---------------------------------------------------------------------------

pub(crate) proof fn lemma_chunk_names(chunks: Seq<MemoryChunk>, embeddings: ColumnView)
    ensures
        are_names(chunk_columns(chunks, embeddings)),
{
    reveal_strlit("id");
    reveal_strlit("text");
    reveal_strlit("source_channel");
    reveal_strlit("timestamp");
    reveal_strlit("session_id");
    reveal_strlit("tags");
    reveal_strlit("deleted");
    reveal_strlit("embeddings");
    let cols = chunk_columns(chunks, embeddings);
    assert("text"@[1] == 'e' && "tags"@[1] == 'a');
    assert("session_id"@[0] == 's' && "embeddings"@[0] == 'e');
    assert(is_plain(cols[0].0) && is_plain(cols[1].0) && is_plain(cols[2].0));
    assert(is_plain(cols[3].0) && is_plain(cols[4].0) && is_plain(cols[5].0));
    assert(is_plain(cols[6].0) && is_plain(cols[7].0));
}

pub(crate) proof fn lemma_session_names(sessions: Seq<Session>)
    ensures
        are_names(session_columns(sessions)),
{
    reveal_strlit("id");
    reveal_strlit("start_idx");
    reveal_strlit("end_idx");
    reveal_strlit("channel");
    reveal_strlit("timestamp");
    reveal_strlit("summary");
    let cols = session_columns(sessions);
    assert("start_idx"@[0] == 's' && "timestamp"@[0] == 't');
    assert("end_idx"@[0] == 'e' && "channel"@[0] == 'c' && "summary"@[0] == 's');
    assert(is_plain(cols[0].0) && is_plain(cols[1].0) && is_plain(cols[2].0));
    assert(is_plain(cols[3].0) && is_plain(cols[4].0) && is_plain(cols[5].0));
}

pub(crate) proof fn lemma_entity_names(entities: Seq<Entity>)
    ensures
        are_names(entity_columns(entities)),
{
    reveal_strlit("id");
    reveal_strlit("name");
    reveal_strlit("type");
    reveal_strlit("embedding_idx");
    let cols = entity_columns(entities);
    assert("name"@[0] == 'n' && "type"@[0] == 't');
    assert(is_plain(cols[0].0) && is_plain(cols[1].0));
    assert(is_plain(cols[2].0) && is_plain(cols[3].0));
}

pub(crate) proof fn lemma_relation_names(relations: Seq<Relation>)
    ensures
        are_names(relation_columns(relations)),
{
    reveal_strlit("src");
    reveal_strlit("tgt");
    reveal_strlit("relation");
    reveal_strlit("weight");
    reveal_strlit("timestamp");
    let cols = relation_columns(relations);
    assert("src"@[0] == 's' && "tgt"@[0] == 't');
    assert(is_plain(cols[0].0) && is_plain(cols[1].0) && is_plain(cols[2].0));
    assert(is_plain(cols[3].0) && is_plain(cols[4].0));
}

proof fn lemma_group_names()
    ensures
        is_plain("chunks"@),
        is_plain("sessions"@),
        is_plain("entities"@),
        is_plain("relations"@),
        "chunks"@ != "sessions"@,
        "chunks"@ != "entities"@,
        "chunks"@ != "relations"@,
        "sessions"@ != "entities"@,
        "sessions"@ != "relations"@,
        "entities"@ != "relations"@,
{
    reveal_strlit("chunks");
    reveal_strlit("sessions");
    reveal_strlit("entities");
    reveal_strlit("relations");
    assert("sessions"@[0] == 's' && "entities"@[0] == 'e');
}

proof fn lemma_attr_names()
    ensures
        is_plain("agent_id"@),
        is_plain("embedder"@),
        is_plain("embedding_dim"@),
        "agent_id"@ != "embedding_dim"@,
        "embedder"@ != "embedding_dim"@,
{
    reveal_strlit("agent_id");
    reveal_strlit("embedder");
    reveal_strlit("embedding_dim");
}

/// The groups of a memory file are found by their names, and so is the
/// attribute that states the dimension.
pub(crate) proof fn lemma_root_searchable(
    fw: &FileWriter,
    data: SqliteData,
    embeddings: ColumnView,
    agent_id: Seq<char>,
    embedder: Seq<char>,
)
    requires
        is_memory_writer(*fw, data, embeddings, agent_id, embedder),
        encode_utf8(agent_id).len() < 0xff00,
        encode_utf8(embedder).len() < 0xff00,
    ensures
        forall|g: int| 0 <= g < 4 ==> is_group_reachable(fw, g),
        is_searchable(fw.root_links(fw.ds_addrs(), fw.grp_addrs()), fw.root_attrs@),
        !dense_attrs(fw.root_attrs@),
        first_attr(fw.root_attrs@, 2, "embedding_dim"@),
{
    let links = fw.root_links(fw.ds_addrs(), fw.grp_addrs());
    let attrs = fw.root_attrs@;
    lemma_group_names();
    lemma_attr_names();
    lemma_plain("chunks"@);
    lemma_plain("sessions"@);
    lemma_plain("entities"@);
    lemma_plain("relations"@);
    assert(links.len() == 4);
    assert forall|i: int| 0 <= i < links.len() implies link_bytes(#[trigger] links[i]).len()
        < 0x1_0000 by {
        let name = fw.groups@[i].name@;
        assert(is_plain(name)) by {
            if i == 0 {
            } else if i == 1 {
            } else if i == 2 {
            } else {
                assert(i == 3);
            }
        }
        lemma_plain_link(name, fw.grp_addrs()[i]);
    }
    lemma_le_len(crate::messages::twos_complement(data.embedding_dim as i64), 8);
    lemma_attr_size("agent_id"@, attrs[0].1);
    lemma_attr_size("embedder"@, attrs[1].1);
    lemma_attr_size("embedding_dim"@, attrs[2].1);
    assert(is_searchable(links, attrs));
    assert forall|g: int| 0 <= g < 4 implies is_group_reachable(fw, g) by {
        assert forall|k: int| 0 <= k < g implies (#[trigger] fw.groups@[k]).name@
            != fw.groups@[g].name@ by {
            if k == 0 {
            } else if k == 1 {
            } else {
                assert(k == 2 && g == 3);
            }
        }
    }
}

} // verus!
