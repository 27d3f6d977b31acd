//! What stands for a list of values in contracts is the list itself: as many entries,
//! each the contents of the value at its place.

use crate::chunk_grid::coord_views;
use crate::fractal_heap::object_views;
use crate::journal::{record_views, ProvenanceRecord};
use crate::messages::{link_views, opt_view, LinkMessage, LinkTarget, LinkView};
use crate::migrate::text_views;
use crate::mpi_vol::pieces;
use crate::object_header::{message_views, HeaderMessage};
use crate::subset_proof::{delivered_views, ChunkData};
use crate::tree::{slice_views, vec_views};
use crate::vds::{vds_views, VdsMapping};
use vstd::prelude::*;

verus! {

/// Lists of byte strings, of texts and of coordinates.
pub proof fn law_list_views_are_contents(
    slices: Seq<&[u8]>,
    vectors: Seq<Vec<u8>>,
    texts: Seq<String>,
    coords: Seq<Vec<u64>>,
    i: int,
)
    ensures
        slice_views(slices).len() == slices.len(),
        0 <= i < slices.len() ==> slice_views(slices)[i] == slices[i]@,
        vec_views(vectors).len() == vectors.len(),
        0 <= i < vectors.len() ==> vec_views(vectors)[i] == vectors[i]@,
        object_views(vectors).len() == vectors.len(),
        0 <= i < vectors.len() ==> object_views(vectors)[i] == vectors[i]@,
        pieces(vectors).len() == vectors.len(),
        0 <= i < vectors.len() ==> pieces(vectors)[i] == vectors[i]@,
        text_views(texts).len() == texts.len(),
        0 <= i < texts.len() ==> text_views(texts)[i] == texts[i]@,
        coord_views(coords).len() == coords.len(),
        0 <= i < coords.len() ==> coord_views(coords)[i] == coords[i]@,
{
}

/// Delivered chunks: their indices and their bytes.
pub proof fn law_delivered_views_are_contents(chunks: Seq<ChunkData<'_>>, i: int)
    requires
        0 <= i < chunks.len(),
    ensures
        delivered_views(chunks).len() == chunks.len(),
        delivered_views(chunks)[i].0 == chunks[i].index,
        delivered_views(chunks)[i].1 == chunks[i].data@,
{
}

/// Records of a journal: every field.
pub proof fn law_record_views_are_contents(records: Seq<ProvenanceRecord>, i: int)
    requires
        0 <= i < records.len(),
    ensures
        record_views(records).len() == records.len(),
        record_views(records)[i].version == records[i].version,
        record_views(records)[i].signed_root == records[i].signed_root,
        record_views(records)[i].timestamp == records[i].timestamp,
        record_views(records)[i].hybrid_sig == records[i].hybrid_sig@,
        record_views(records)[i].snapshot_ref == records[i].snapshot_ref@,
{
}

/// Messages of a header: type, flags and contents.
pub proof fn law_message_views_are_contents(messages: Seq<HeaderMessage>, i: int)
    requires
        0 <= i < messages.len(),
    ensures
        message_views(messages).len() == messages.len(),
        message_views(messages)[i].kind == messages[i].msg_type,
        message_views(messages)[i].flags == messages[i].flags,
        message_views(messages)[i].data == messages[i].data@,
{
}

/// Links: name and target.
pub proof fn law_link_views_are_contents(links: Seq<LinkMessage>, i: int)
    requires
        0 <= i < links.len(),
    ensures
        link_views(links).len() == links.len(),
        match links[i].link_target {
            LinkTarget::Hard { object_header_address } => link_views(links)[i] == (
            LinkView::Hard { name: links[i].name@, address: object_header_address }),
            LinkTarget::External { filename, object_path } => link_views(links)[i] == (
            LinkView::External {
                name: links[i].name@,
                filename: filename@,
                object_path: object_path@,
            }),
        },
{
}

/// Mappings of a virtual dataset: file, dataset and both selections.
pub proof fn law_vds_views_are_contents(mappings: Seq<VdsMapping>, i: int)
    requires
        0 <= i < mappings.len(),
    ensures
        vds_views(mappings).len() == mappings.len(),
        vds_views(mappings)[i].source_file == mappings[i].source_file@,
        vds_views(mappings)[i].source_dataset == mappings[i].source_dataset@,
        vds_views(mappings)[i].source_selection == mappings[i].source_selection@,
        vds_views(mappings)[i].virtual_selection == mappings[i].virtual_selection@,
{
}

/// An extent that may be missing.
pub proof fn law_opt_view_is_contents(v: Option<Vec<u64>>)
    ensures
        v is None <==> opt_view(v) is None,
        v is Some ==> opt_view(v)->0 == v->0@,
{
}

} // verus!
