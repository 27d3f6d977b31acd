//! What holds of every written file: its parts stand where its addresses say,
//! and reading gives back what was written.

use crate::builders::DatasetBuilder;
use crate::bytes::{
    le64_all, le_bytes, lemma_byte_span, lemma_le64_all_len, lemma_le_len, lemma_le_roundtrip,
    lemma_window,
};
use crate::dense::{attr_messages, dense_attr_info, lemma_dense_attr_len, lemma_dense_link_len};
use crate::file_writer::{
    alignment_of, attr_blob, attr_blob_len, attr_part, complete, data_bytes, dataset_head,
    dataset_header, dense_attrs, dense_links, group_bytes, group_header_len, group_len, head_bytes,
    head_len, inline_attrs, layout_of, lemma_cursor_grows, lemma_group_header_len, lemma_group_same,
    lemma_no_error, lemma_oh_len, lemma_parts_inside, lemma_root_same, lemma_sum_le, link_blob,
    link_blob_len, oh_len, padding, raw_of, same_but_addresses, storable, storage_of, sum_to,
    FileWriter,
};
use crate::layout::{first_message, layout_answer, LayoutView};
use crate::messages::{
    attr_bytes, contiguous_bytes, dataspace_bytes, numbers_at, opt_view, parsed_dataspace,
    parsed_datatype, parsed_layout, undefined_at, AttrValue, DataLayout, Datatype, DatatypeInfo,
    LinkView, MessageType, EXTERNAL_DATA_FILES_MSG_TYPE,
};
use crate::object_header::{
    law_header_roundtrip, law_superblock_roundtrip, lemma_header_len, lemma_superblock_len,
    message_bytes, messages_bytes, parsed_header, parsed_superblock, superblock_bytes, MessageView,
    Superblock, SUPERBLOCK_SIZE,
};
use vstd::prelude::*;

verus! {

/// A file that can be written: nothing is wrong with it, and it fits in memory.
pub open spec fn is_writable(fw: &FileWriter) -> bool {
    &&& fw.error() is None
    &&& fw.eof() <= isize::MAX
}

// ---------------------------------------------------------------------------
// Sizes
// ---------------------------------------------------------------------------

proof fn lemma_attr_blob(attrs: Seq<(String, AttrValue)>, addr: u64)
    requires
        attr_blob_len(attrs) <= isize::MAX,
    ensures
        attr_blob(attrs, addr).len() == attr_blob_len(attrs),
{
    if dense_attrs(attrs) {
        lemma_dense_attr_len(attrs, addr);
    }
}

proof fn lemma_link_blob(links: Seq<LinkView>, addr: u64)
    requires
        link_blob_len(links) <= isize::MAX,
    ensures
        link_blob(links, addr).len() == link_blob_len(links),
{
    if dense_links(links) {
        lemma_dense_link_len(links, addr);
    }
}

pub(crate) proof fn lemma_group_bytes(links: Seq<LinkView>, attrs: Seq<(String, AttrValue)>, addr: nat)
    requires
        group_len(links, attrs) <= isize::MAX,
    ensures
        group_bytes(links, attrs, addr).len() == group_len(links, attrs),
{
    reveal(group_len);
    reveal(group_bytes);
    let links_at = (addr + group_header_len(links, attrs)) as u64;
    let attrs_at = (addr + group_header_len(links, attrs) + link_blob_len(links)) as u64;
    assert(same_but_addresses(links, links));
    lemma_group_header_len(links, links, attrs, links_at, 0, attrs_at, 0);
    lemma_link_blob(links, links_at);
    lemma_attr_blob(attrs, attrs_at);
}

proof fn lemma_head_bytes(d: DatasetBuilder, addr: nat, data_addr: nat)
    requires
        head_len(d) <= isize::MAX,
    ensures
        head_bytes(d, addr, data_addr).len() == head_len(d),
{
    reveal(head_len);
    reveal(head_bytes);
    lemma_oh_len(d, data_addr as u64, (addr + oh_len(d)) as u64);
    lemma_attr_blob(d.attrs@, (addr + oh_len(d)) as u64);
}

proof fn lemma_groups(fw: &FileWriter, g: int, n: int)
    requires
        is_writable(fw),
        0 <= g <= n <= fw.groups@.len(),
    ensures
        fw.groups_bytes(n).len() == sum_to(fw.group_lens(), n),
        fw.groups_bytes(n).take(sum_to(fw.group_lens(), g) as int) == fw.groups_bytes(g),
        sum_to(fw.group_lens(), g) <= sum_to(fw.group_lens(), n),
    decreases n,
{
    lemma_sum_le(fw.group_lens(), g, n);
    if n > 0 {
        lemma_parts_inside(*fw);
        lemma_group_same(*fw, n - 1);
        let last = group_bytes(
            fw.group_links(n - 1, fw.ds_addrs()),
            fw.groups@[n - 1].attrs@,
            fw.group_addr(n - 1),
        );
        assert(fw.group_addr(n - 1) + fw.group_lens()[n - 1] <= fw.eof());
        lemma_group_bytes(
            fw.group_links(n - 1, fw.ds_addrs()),
            fw.groups@[n - 1].attrs@,
            fw.group_addr(n - 1),
        );
        assert(fw.groups_bytes(n) == fw.groups_bytes(n - 1) + last);
        if g < n {
            lemma_groups(fw, g, n - 1);
            let k = sum_to(fw.group_lens(), g) as int;
            assert(fw.groups_bytes(n).take(k) =~= fw.groups_bytes(n - 1).take(k));
        } else {
            lemma_groups(fw, n - 1, n - 1);
            assert(fw.groups_bytes(n).take(fw.groups_bytes(n).len() as int)
                =~= fw.groups_bytes(n));
        }
    } else {
        assert(fw.groups_bytes(n).take(0) =~= fw.groups_bytes(g));
    }
}

proof fn lemma_heads(fw: &FileWriter, i: int, n: int)
    requires
        is_writable(fw),
        0 <= i <= n <= fw.all().len(),
    ensures
        fw.heads_bytes(n).len() == sum_to(fw.head_lens(), n),
        fw.heads_bytes(n).take(sum_to(fw.head_lens(), i) as int) == fw.heads_bytes(i),
        sum_to(fw.head_lens(), i) <= sum_to(fw.head_lens(), n),
    decreases n,
{
    lemma_sum_le(fw.head_lens(), i, n);
    if n > 0 {
        lemma_parts_inside(*fw);
        assert(fw.head_addr(n - 1) + fw.head_lens()[n - 1] <= fw.eof());
        lemma_head_bytes(fw.all()[n - 1], fw.head_addr(n - 1), fw.data_addr(n - 1));
        let last = head_bytes(fw.all()[n - 1], fw.head_addr(n - 1), fw.data_addr(n - 1));
        assert(fw.heads_bytes(n) == fw.heads_bytes(n - 1) + last);
        if i < n {
            lemma_heads(fw, i, n - 1);
            let k = sum_to(fw.head_lens(), i) as int;
            assert(fw.heads_bytes(n).take(k) =~= fw.heads_bytes(n - 1).take(k));
        } else {
            lemma_heads(fw, n - 1, n - 1);
            assert(fw.heads_bytes(n).take(fw.heads_bytes(n).len() as int) =~= fw.heads_bytes(n));
        }
    } else {
        assert(fw.heads_bytes(n).take(0) =~= fw.heads_bytes(i));
    }
}

proof fn lemma_data(fw: &FileWriter, i: int, n: int)
    requires
        0 <= i <= n <= fw.all().len(),
    ensures
        fw.data_cursor(0) + fw.all_data(n).len() == fw.data_cursor(n),
        fw.data_cursor(0) <= fw.data_cursor(i) <= fw.data_cursor(n),
        fw.all_data(n).take(fw.data_cursor(i) - fw.data_cursor(0)) == fw.all_data(i),
    decreases n,
{
    lemma_cursor_grows(*fw, 0, i);
    lemma_cursor_grows(*fw, i, n);
    if n > 0 {
        let last = data_bytes(
            fw.all()[n - 1],
            fw.data_cursor(n - 1),
            fw.alignment_threshold,
            fw.alignment_bytes,
        );
        assert(fw.all_data(n) == fw.all_data(n - 1) + last);
        if i < n {
            lemma_data(fw, i, n - 1);
            let k = fw.data_cursor(i) - fw.data_cursor(0);
            assert(fw.all_data(n).take(k) =~= fw.all_data(n - 1).take(k));
        } else {
            lemma_data(fw, n - 1, n - 1);
            assert(fw.all_data(n).take(fw.all_data(n).len() as int) =~= fw.all_data(n));
        }
    } else {
        assert(fw.all_data(n).take(0) =~= fw.all_data(i));
    }
}

/// The parts of the file are as long as the layout says, so each starts where
/// the ones before end.
proof fn lemma_parts(fw: &FileWriter)
    requires
        is_writable(fw),
    ensures
        superblock_bytes(fw.eof() as u64, SUPERBLOCK_SIZE as u64).len() == SUPERBLOCK_SIZE,
        fw.root_bytes().len() == fw.root_len(),
        SUPERBLOCK_SIZE + fw.root_len() + fw.groups_bytes(fw.groups@.len() as int).len()
            == fw.head_addr(0),
        fw.head_addr(0) + fw.heads_bytes(fw.all().len() as int).len() == fw.data_cursor(0),
        fw.data_cursor(0) + fw.all_data(fw.all().len() as int).len() == fw.eof(),
        fw.image().len() == fw.eof(),
{
    let n = fw.all().len() as int;
    let m = fw.groups@.len() as int;
    lemma_superblock_len(fw.eof() as u64, SUPERBLOCK_SIZE as u64);
    lemma_parts_inside(*fw);
    lemma_root_same(*fw);
    lemma_group_bytes(
        fw.root_links(fw.ds_addrs(), fw.grp_addrs()),
        fw.root_attrs@,
        SUPERBLOCK_SIZE as nat,
    );
    lemma_groups(fw, m, m);
    lemma_heads(fw, n, n);
    lemma_data(fw, n, n);
}

/// The file is as long as its superblock says, and its root group is where the
/// superblock says.
pub proof fn law_superblock_is_right(fw: &FileWriter)
    requires
        is_writable(fw),
    ensures
        fw.image().len() == fw.eof(),
        parsed_superblock(fw.image()) == Some(
            Superblock {
                version: 3,
                offset_size: 8,
                length_size: 8,
                eof_address: fw.image().len() as u64,
                root_group_address: SUPERBLOCK_SIZE as u64,
            },
        ),
        fw.image().subrange(
            SUPERBLOCK_SIZE as int,
            SUPERBLOCK_SIZE + fw.root_len(),
        ) == fw.root_bytes(),
{
    lemma_parts(fw);
    let image = fw.image();
    let sb = superblock_bytes(fw.eof() as u64, SUPERBLOCK_SIZE as u64);
    assert(image.take(SUPERBLOCK_SIZE as int) =~= sb);
    law_superblock_roundtrip(fw.eof() as u64, SUPERBLOCK_SIZE as u64, image);
    assert(image.subrange(SUPERBLOCK_SIZE as int, SUPERBLOCK_SIZE + fw.root_len())
        =~= fw.root_bytes());
}

/// Every group stands where the root group's link to it leads.
pub proof fn law_group_links_lead_to_groups(fw: &FileWriter, g: int)
    requires
        is_writable(fw),
        0 <= g < fw.groups@.len(),
    ensures
        ({
            let at = fw.group_addr(g);
            let group = group_bytes(
                fw.group_links(g, fw.ds_addrs()),
                fw.groups@[g].attrs@,
                at,
            );
            &&& at <= u64::MAX
            &&& fw.root_links(fw.ds_addrs(), fw.grp_addrs())[fw.root_datasets@.len() + g] == (
            LinkView::Hard { name: fw.groups@[g].name@, address: at as u64 })
            &&& at + group.len() <= fw.image().len()
            &&& fw.image().subrange(at as int, (at + group.len()) as int) == group
        }),
{
    let m = fw.groups@.len() as int;
    lemma_parts(fw);
    lemma_parts_inside(*fw);
    lemma_group_same(*fw, g);
    lemma_groups(fw, g, m);
    lemma_groups(fw, g + 1, m);
    lemma_groups(fw, g, g);
    lemma_groups(fw, g + 1, g + 1);
    let image = fw.image();
    let all = fw.groups_bytes(m);
    let group = group_bytes(
        fw.group_links(g, fw.ds_addrs()),
        fw.groups@[g].attrs@,
        fw.group_addr(g),
    );
    assert(fw.group_addr(g) + fw.group_lens()[g] <= fw.eof());
    lemma_group_bytes(
        fw.group_links(g, fw.ds_addrs()),
        fw.groups@[g].attrs@,
        fw.group_addr(g),
    );
    let from = sum_to(fw.group_lens(), g) as int;
    let to = sum_to(fw.group_lens(), g + 1) as int;
    let start = SUPERBLOCK_SIZE + fw.root_len();
    assert(fw.groups_bytes(g + 1) == fw.groups_bytes(g) + group);
    assert(all.subrange(from, to) =~= all.take(to).subrange(from, to));
    assert(all.subrange(from, to) =~= group);
    assert(image.subrange(start, start + all.len()) =~= all);
    lemma_window(image, start, all, from, to);
}

/// The header of dataset `i` and its dense attributes stand at their address.
proof fn lemma_whole_head_at(fw: &FileWriter, i: int)
    requires
        is_writable(fw),
        0 <= i < fw.all().len(),
    ensures
        ({
            let at = fw.head_addr(i);
            let head = head_bytes(fw.all()[i], at, fw.data_addr(i));
            &&& head.len() == head_len(fw.all()[i])
            &&& at + head.len() <= fw.image().len()
            &&& at + head.len() <= fw.eof()
            &&& fw.image().subrange(at as int, (at + head.len()) as int) == head
        }),
{
    let n = fw.all().len() as int;
    let d = fw.all()[i];
    lemma_parts(fw);
    lemma_parts_inside(*fw);
    lemma_heads(fw, i, n);
    lemma_heads(fw, i + 1, n);
    lemma_heads(fw, i, i);
    lemma_heads(fw, i + 1, i + 1);
    assert(fw.head_addr(i) + fw.head_lens()[i] <= fw.eof());
    let image = fw.image();
    let all = fw.heads_bytes(n);
    let at = fw.head_addr(i);
    let head = head_bytes(d, at, fw.data_addr(i));
    lemma_head_bytes(d, at, fw.data_addr(i));
    let from = sum_to(fw.head_lens(), i) as int;
    let to = sum_to(fw.head_lens(), i + 1) as int;
    let start = fw.head_addr(0) as int;
    assert(fw.heads_bytes(i + 1) == fw.heads_bytes(i) + head);
    assert(all.subrange(from, to) =~= all.take(to).subrange(from, to));
    assert(all.subrange(from, to) =~= head);
    assert(image.subrange(start, start + all.len()) =~= all);
    lemma_window(image, start, all, from, to);
}

/// The header of dataset `i` stands at its address, with the dataset's data
/// address in it.
proof fn lemma_head_at(fw: &FileWriter, i: int)
    requires
        is_writable(fw),
        0 <= i < fw.all().len(),
    ensures
        ({
            let at = fw.head_addr(i);
            let header = dataset_header(
                fw.all()[i],
                layout_of(fw.all()[i], fw.data_addr(i) as u64),
                (at + oh_len(fw.all()[i])) as u64,
            );
            &&& at + header.len() <= fw.image().len()
            &&& fw.image().subrange(at as int, (at + header.len()) as int) == header
        }),
{
    let d = fw.all()[i];
    let at = fw.head_addr(i);
    let head = head_bytes(d, at, fw.data_addr(i));
    lemma_whole_head_at(fw, i);
    lemma_head_starts(d, at, fw.data_addr(i));
    lemma_window(fw.image(), at as int, head, 0, oh_len(d) as int);
}

/// The dense attributes of dataset `i` stand behind its header.
pub(crate) proof fn lemma_dense_attrs_stand(fw: &FileWriter, i: int)
    requires
        is_writable(fw),
        0 <= i < fw.all().len(),
    ensures
        ({
            let d = fw.all()[i];
            let attrs_at = (fw.head_addr(i) + oh_len(d)) as u64;
            let end = attrs_at + attr_blob_len(d.attrs@);
            &&& attr_blob_len(d.attrs@) <= isize::MAX
            &&& end <= fw.image().len()
            &&& end <= u64::MAX
            &&& fw.image().subrange(attrs_at as int, end) == attr_blob(d.attrs@, attrs_at)
        }),
{
    let d = fw.all()[i];
    let at = fw.head_addr(i);
    let head = head_bytes(d, at, fw.data_addr(i));
    let from = oh_len(d) as int;
    lemma_whole_head_at(fw, i);
    lemma_head_starts(d, at, fw.data_addr(i));
    lemma_window(fw.image(), at as int, head, from, head.len() as int);
    assert(head.subrange(from, head.len() as int) =~= head.skip(from));
    reveal(head_len);
}

/// A dataset's part of the headers starts with its object header.
proof fn lemma_head_starts(d: DatasetBuilder, addr: nat, data_addr: nat)
    ensures
        ({
            let header = dataset_header(
                d,
                layout_of(d, data_addr as u64),
                (addr + oh_len(d)) as u64,
            );
            &&& header.len() == oh_len(d)
            &&& oh_len(d) <= head_bytes(d, addr, data_addr).len()
            &&& head_bytes(d, addr, data_addr).subrange(0, oh_len(d) as int) == header
            &&& head_bytes(d, addr, data_addr).skip(oh_len(d) as int) == attr_blob(
                d.attrs@,
                (addr + oh_len(d)) as u64,
            )
        }),
{
    reveal(head_bytes);
    let header = dataset_header(d, layout_of(d, data_addr as u64), (addr + oh_len(d)) as u64);
    lemma_oh_len(d, data_addr as u64, (addr + oh_len(d)) as u64);
    assert(head_bytes(d, addr, data_addr).subrange(0, oh_len(d) as int) =~= header);
    assert(head_bytes(d, addr, data_addr).skip(oh_len(d) as int) =~= attr_blob(
        d.attrs@,
        (addr + oh_len(d)) as u64,
    ));
}

/// What is written for data in one piece ends with the data.
proof fn lemma_contiguous_part(d: DatasetBuilder, cursor: nat, threshold: usize, bytes: usize)
    requires
        storage_of(d) is Contiguous,
    ensures
        ({
            let part = data_bytes(d, cursor, threshold, bytes);
            let pad = padding(cursor, alignment_of(d, threshold, bytes)) as int;
            &&& part.len() == pad + raw_of(d).len()
            &&& part.subrange(pad, part.len() as int) == raw_of(d)
            &&& forall|k: int| 0 <= k < pad ==> #[trigger] part[k] == 0
        }),
{
    reveal(data_bytes);
    let part = data_bytes(d, cursor, threshold, bytes);
    let pad = padding(cursor, alignment_of(d, threshold, bytes)) as int;
    assert(part.subrange(pad, part.len() as int) =~= raw_of(d));
}

/// Every link to a dataset leads to that dataset's object header.
pub proof fn law_dataset_links_lead_to_headers(fw: &FileWriter, i: int)
    requires
        is_writable(fw),
        0 <= i < fw.all().len(),
    ensures
        ({
            let at = fw.head_addr(i);
            let header = dataset_header(
                fw.all()[i],
                layout_of(fw.all()[i], fw.data_addr(i) as u64),
                (at + oh_len(fw.all()[i])) as u64,
            );
            &&& at <= u64::MAX
            &&& fw.ds_addrs()[i] == at
            &&& at + header.len() <= fw.image().len()
            &&& fw.image().subrange(at as int, (at + header.len()) as int) == header
        }),
        i < fw.root_datasets@.len() ==> fw.root_links(fw.ds_addrs(), fw.grp_addrs())[i] == (
        LinkView::Hard { name: fw.all()[i].name@, address: fw.ds_addrs()[i] }),
        forall|g: int|
            0 <= g < fw.groups@.len() && fw.first_of(g) <= i < fw.first_of(g)
                + fw.groups@[g].datasets@.len() ==> #[trigger] fw.group_links(
                g,
                fw.ds_addrs(),
            )[i - fw.first_of(g)] == (LinkView::Hard {
                name: fw.all()[i].name@,
                address: fw.ds_addrs()[i],
            }),
{
    lemma_head_at(fw, i);
    lemma_parts(fw);
    assert forall|g: int|
        0 <= g < fw.groups@.len() && fw.first_of(g) <= i < fw.first_of(g)
            + fw.groups@[g].datasets@.len() implies #[trigger] fw.group_links(g, fw.ds_addrs())[i
        - fw.first_of(g)] == (LinkView::Hard {
        name: fw.all()[i].name@,
        address: fw.ds_addrs()[i],
    }) by {
        lemma_group_dataset(fw, g, i - fw.first_of(g));
    }
}

pub(crate) proof fn lemma_group_dataset(fw: &FileWriter, g: int, j: int)
    requires
        0 <= g < fw.groups@.len(),
        0 <= j < fw.groups@[g].datasets@.len(),
    ensures
        fw.first_of(g) + j < fw.all().len(),
        fw.all()[fw.first_of(g) + j] == fw.groups@[g].datasets@[j],
{
    lemma_group_dataset_in(fw, g, j, fw.groups@.len() as int);
}

proof fn lemma_group_dataset_in(fw: &FileWriter, g: int, j: int, n: int)
    requires
        0 <= g < n <= fw.groups@.len(),
        0 <= j < fw.groups@[g].datasets@.len(),
    ensures
        crate::file_writer::group_datasets(fw.groups@, g).len() + j
            < crate::file_writer::group_datasets(fw.groups@, n).len(),
        crate::file_writer::group_datasets(fw.groups@, n)[(crate::file_writer::group_datasets(
            fw.groups@,
            g,
        ).len() + j) as int] == fw.groups@[g].datasets@[j],
    decreases n,
{
    if g < n - 1 {
        lemma_group_dataset_in(fw, g, j, n - 1);
    }
}

/// What a dataset stores outside its header stands where the data before it ends.
pub(crate) proof fn lemma_data_part(fw: &FileWriter, i: int)
    requires
        is_writable(fw),
        0 <= i < fw.all().len(),
    ensures
        ({
            let part = data_bytes(
                fw.all()[i],
                fw.data_cursor(i),
                fw.alignment_threshold,
                fw.alignment_bytes,
            );
            &&& fw.data_cursor(i) + part.len() <= fw.image().len()
            &&& fw.image().len() <= isize::MAX
            &&& fw.image().subrange(
                fw.data_cursor(i) as int,
                (fw.data_cursor(i) + part.len()) as int,
            ) == part
        }),
{
    let n = fw.all().len() as int;
    lemma_parts(fw);
    lemma_parts_inside(*fw);
    lemma_data(fw, i, n);
    lemma_data(fw, i + 1, n);
    lemma_data(fw, i, i);
    lemma_data(fw, i + 1, i + 1);
    let image = fw.image();
    let all = fw.all_data(n);
    let part = data_bytes(
        fw.all()[i],
        fw.data_cursor(i),
        fw.alignment_threshold,
        fw.alignment_bytes,
    );
    let start = fw.data_cursor(0) as int;
    let from = fw.data_cursor(i) - start;
    let to = fw.data_cursor(i + 1) - start;
    assert(fw.data_cursor(i + 1) == fw.data_cursor(i) + part.len());
    assert(fw.all_data(i + 1) == fw.all_data(i) + part);
    assert(all.subrange(from, to) =~= all.take(to).subrange(from, to));
    assert(all.subrange(from, to) =~= part);
    assert(image.subrange(start, start + all.len()) =~= all);
    lemma_window(image, start, all, from, to);
}

/// The data of a dataset that is stored in one piece is in the file at the
/// address its layout message gives, and that address is aligned.
pub proof fn law_data_stands_at_its_address(fw: &FileWriter, i: int)
    requires
        is_writable(fw),
        0 <= i < fw.all().len(),
        storage_of(fw.all()[i]) is Contiguous,
    ensures
        fw.data_addr(i) + raw_of(fw.all()[i]).len() <= fw.image().len(),
        fw.image().subrange(
            fw.data_addr(i) as int,
            (fw.data_addr(i) + raw_of(fw.all()[i]).len()) as int,
        ) == raw_of(fw.all()[i]),
        fw.data_addr(i) % alignment_of(
            fw.all()[i],
            fw.alignment_threshold,
            fw.alignment_bytes,
        ) == 0,
{
    let d = fw.all()[i];
    let cursor = fw.data_cursor(i);
    let part = data_bytes(d, cursor, fw.alignment_threshold, fw.alignment_bytes);
    let align = alignment_of(d, fw.alignment_threshold, fw.alignment_bytes);
    lemma_data_part(fw, i);
    lemma_contiguous_part(d, cursor, fw.alignment_threshold, fw.alignment_bytes);
    lemma_window(
        fw.image(),
        cursor as int,
        part,
        padding(cursor, align) as int,
        part.len() as int,
    );
    lemma_padding(cursor, align);
}

/// Before data stored in one piece there are only as many zeros as its alignment
/// takes.
pub proof fn law_gap_before_data_is_zeros(fw: &FileWriter, i: int, at: int)
    requires
        is_writable(fw),
        0 <= i < fw.all().len(),
        storage_of(fw.all()[i]) is Contiguous,
        fw.data_cursor(i) <= at < fw.data_addr(i),
    ensures
        fw.data_addr(i) < fw.data_cursor(i) + if fw.all()[i].alignment > 0 {
            fw.all()[i].alignment as nat
        } else if fw.alignment_bytes > 0 && raw_of(fw.all()[i]).len() >= fw.alignment_threshold {
            fw.alignment_bytes as nat
        } else {
            8
        },
        fw.image()[at] == 0,
{
    let d = fw.all()[i];
    let cursor = fw.data_cursor(i);
    let part = data_bytes(d, cursor, fw.alignment_threshold, fw.alignment_bytes);
    let align = alignment_of(d, fw.alignment_threshold, fw.alignment_bytes);
    lemma_data_part(fw, i);
    lemma_contiguous_part(d, cursor, fw.alignment_threshold, fw.alignment_bytes);
    vstd::arithmetic::div_mod::lemma_mod_bound(align - cursor as int % align as int, align as int);
    let window = fw.image().subrange(cursor as int, (cursor + part.len()) as int);
    assert(window[at - cursor] == fw.image()[at]);
    assert(part[at - cursor] == 0);
}

proof fn lemma_padding(cursor: nat, align: nat)
    requires
        align >= 1,
    ensures
        (cursor + padding(cursor, align)) % align == 0,
{
    let r = (cursor % align) as int;
    let a = align as int;
    vstd::arithmetic::div_mod::lemma_fundamental_div_mod(cursor as int, a);
    vstd::arithmetic::div_mod::lemma_mod_bound(cursor as int, a);
    let q = cursor as int / a;
    if r == 0 {
        vstd::arithmetic::div_mod::lemma_mod_self_0(a);
    } else {
        vstd::arithmetic::div_mod::lemma_small_mod((a - r) as nat, align);
        assert(cursor + (a - r) == a * (q + 1)) by (nonlinear_arith)
            requires
                cursor == a * q + r,
        ;
        vstd::arithmetic::div_mod::lemma_mod_multiples_basic(q + 1, a);
        vstd::arithmetic::mul::lemma_mul_is_commutative(q + 1, a);
    }
}

// ---------------------------------------------------------------------------
// Reading back
// ---------------------------------------------------------------------------

pub(crate) proof fn lemma_messages_concat(a: Seq<MessageView>, b: Seq<MessageView>)
    ensures
        messages_bytes(a + b) == messages_bytes(a) + messages_bytes(b),
    decreases a.len(),
{
    if a.len() == 0 {
        assert(a + b =~= b);
        assert(messages_bytes(a) + messages_bytes(b) =~= messages_bytes(b));
    } else {
        assert((a + b).skip(1) =~= a.skip(1) + b);
        lemma_messages_concat(a.skip(1), b);
        let first = message_bytes(a[0].kind, a[0].flags, a[0].data);
        assert(first + (messages_bytes(a.skip(1)) + messages_bytes(b)) =~= (first + messages_bytes(
            a.skip(1),
        )) + messages_bytes(b));
    }
}

pub(crate) proof fn lemma_one_message(m: MessageView)
    ensures
        messages_bytes(seq![m]) == message_bytes(m.kind, m.flags, m.data),
{
    assert(seq![m].skip(1) =~= Seq::<MessageView>::empty());
    assert(messages_bytes(seq![m].skip(1)) =~= Seq::empty());
    assert(message_bytes(m.kind, m.flags, m.data) + Seq::<u8>::empty() =~= message_bytes(
        m.kind,
        m.flags,
        m.data,
    ));
}

/// The messages about attributes.
pub open spec fn attr_views(attrs: Seq<(String, AttrValue)>, blob_addr: u64) -> Seq<MessageView> {
    if dense_attrs(attrs) {
        seq![
            MessageView {
                kind: MessageType::AttributeInfo,
                flags: 0,
                data: dense_attr_info(attrs, blob_addr),
            },
        ]
    } else {
        Seq::new(
            attrs.len(),
            |i: int|
                MessageView {
                    kind: MessageType::Attribute,
                    flags: 0,
                    data: attr_bytes(attrs[i].0@, attrs[i].1, false),
                },
        )
    }
}

/// The messages of a dataset's header.
pub open spec fn dataset_views(
    d: DatasetBuilder,
    layout: Seq<u8>,
    blob_addr: u64,
) -> Seq<MessageView> {
    seq![
        MessageView { kind: MessageType::Datatype, flags: 1, data: d.datatype->0.bytes() },
        MessageView {
            kind: MessageType::Dataspace,
            flags: 0,
            data: dataspace_bytes(d.shape->0@, opt_view(d.maxshape)),
        },
        MessageView {
            kind: MessageType::FillValue,
            flags: 1,
            data: seq![3u8, d.fill_time.spec_byte()],
        },
        MessageView { kind: MessageType::DataLayout, flags: 0, data: layout },
    ] + attr_views(d.attrs@, blob_addr)
}

proof fn lemma_inline_views(attrs: Seq<(String, AttrValue)>, n: int)
    requires
        !dense_attrs(attrs),
        0 <= n <= attrs.len(),
    ensures
        inline_attrs(attrs, n) == messages_bytes(attr_views(attrs, 0).take(n)),
    decreases n,
{
    let views = attr_views(attrs, 0);
    if n > 0 {
        lemma_inline_views(attrs, n - 1);
        assert(views.take(n) =~= views.take(n - 1) + seq![views[n - 1]]);
        lemma_messages_concat(views.take(n - 1), seq![views[n - 1]]);
        lemma_one_message(views[n - 1]);
    } else {
        assert(messages_bytes(views.take(0)) =~= Seq::empty());
    }
}

pub(crate) proof fn lemma_attr_views(attrs: Seq<(String, AttrValue)>, blob_addr: u64)
    ensures
        attr_part(attrs, blob_addr) == messages_bytes(attr_views(attrs, blob_addr)),
{
    let av = attr_views(attrs, blob_addr);
    if dense_attrs(attrs) {
        lemma_one_message(av[0]);
        assert(av =~= seq![av[0]]);
    } else {
        let plain = attr_views(attrs, 0);
        assert(plain =~= av);
        lemma_inline_views(attrs, attrs.len() as int);
        assert(plain.take(attrs.len() as int) =~= plain);
    }
}

proof fn lemma_dataset_body(d: DatasetBuilder, layout: Seq<u8>, blob_addr: u64)
    ensures
        dataset_head(d) + message_bytes(MessageType::DataLayout, 0, layout) + attr_part(
            d.attrs@,
            blob_addr,
        ) == messages_bytes(dataset_views(d, layout, blob_addr)),
{
    let av = attr_views(d.attrs@, blob_addr);
    let all = dataset_views(d, layout, blob_addr);
    let four = all.take(4);
    assert(all =~= four + av);
    lemma_messages_concat(four, av);
    let a = seq![all[0]];
    let b = seq![all[1]];
    let c = seq![all[2]];
    let e = seq![all[3]];
    assert(four =~= ((a + b) + c) + e);
    lemma_messages_concat((a + b) + c, e);
    lemma_messages_concat(a + b, c);
    lemma_messages_concat(a, b);
    lemma_one_message(all[0]);
    lemma_one_message(all[1]);
    lemma_one_message(all[2]);
    lemma_one_message(all[3]);
    lemma_attr_views(d.attrs@, blob_addr);
}

/// Whether the messages of a dataset's header are of sizes the header can say.
pub open spec fn small_messages(d: DatasetBuilder) -> bool {
    &&& d.shape->0@.len() <= 255
    &&& d.maxshape is Some ==> d.maxshape->0@.len() == d.shape->0@.len()
    &&& forall|i: int|
        0 <= i < d.attrs@.len() ==> attr_bytes(
            (#[trigger] d.attrs@[i]).0@,
            d.attrs@[i].1,
            false,
        ).len() < 0x1_0000
}

proof fn lemma_absent(ms: Seq<MessageView>, kind: MessageType)
    requires
        forall|i: int| 0 <= i < ms.len() ==> (#[trigger] ms[i]).kind != kind,
    ensures
        first_message(ms, kind) is None,
    decreases ms.len(),
{
    if ms.len() > 0 {
        let rest = ms.skip(1);
        assert forall|i: int| 0 <= i < rest.len() implies (#[trigger] rest[i]).kind != kind by {
            assert(rest[i] == ms[i + 1]);
        }
        lemma_absent(rest, kind);
    }
}

/// Numbers that stand in a message are read there.
pub(crate) proof fn lemma_numbers(data: Seq<u8>, at: int, v: Seq<u64>, n: int)
    requires
        0 <= n <= v.len(),
        0 <= at,
        at + 8 * v.len() <= data.len(),
        data.subrange(at, at + 8 * v.len() as int) == le64_all(v),
    ensures
        numbers_at(data, at, 8, n) == v.take(n),
    decreases n,
{
    if n > 0 {
        lemma_numbers(data, at, v, n - 1);
        lemma_le64_at(v, n - 1);
        let from = 8 * (n - 1);
        assert(data.subrange(at + 8 * (n - 1), at + 8 * n) =~= data.subrange(
            at,
            at + 8 * v.len() as int,
        ).subrange(from, from + 8));
        lemma_byte_span();
        lemma_le_roundtrip(v[n - 1] as nat, 8);
        assert(v.take(n) =~= v.take(n - 1).push(v[n - 1]));
    } else {
        assert(v.take(0) =~= Seq::empty());
    }
}

proof fn lemma_le64_at(dims: Seq<u64>, i: int)
    requires
        0 <= i < dims.len(),
    ensures
        8 * i + 8 <= le64_all(dims).len(),
        le64_all(dims).subrange(8 * i, 8 * i + 8) == le_bytes(dims[i] as nat, 8),
    decreases dims.len(),
{
    let rest = dims.drop_last();
    lemma_le64_all_len(dims);
    lemma_le64_all_len(rest);
    lemma_le_len(dims.last() as nat, 8);
    if i < rest.len() {
        lemma_le64_at(rest, i);
        assert(le64_all(dims).subrange(8 * i, 8 * i + 8) =~= le64_all(rest).subrange(
            8 * i,
            8 * i + 8,
        ));
    } else {
        assert(le64_all(dims).subrange(8 * i, 8 * i + 8) =~= le_bytes(dims[i] as nat, 8));
    }
}

/// Reading a dataspace message gives back the extent.
pub proof fn law_dataspace_roundtrip(dims: Seq<u64>, max_dims: Option<Seq<u64>>)
    requires
        dims.len() <= 255,
        max_dims is Some ==> max_dims->0.len() == dims.len(),
    ensures
        parsed_dataspace(dataspace_bytes(dims, max_dims), 8) == Some(dims),
{
    let all = dataspace_bytes(dims, max_dims);
    let n = dims.len() as int;
    lemma_le64_all_len(dims);
    if max_dims is Some {
        lemma_le64_all_len(max_dims->0);
    }
    assert(all.subrange(4, 4 + 8 * n) =~= le64_all(dims));
    lemma_numbers(all, 4, dims, n);
    assert(dims.take(n) =~= dims);
    assert(1 * n * 8 == 8 * n);
    assert(2 * n * 8 == 16 * n);
}

/// Behind the extent a dataspace message gives the maximum extent, where there is
/// one, and says by its flags whether there is. Nothing else follows.
pub proof fn law_maximum_extent_is_stated(dims: Seq<u64>, max_dims: Option<Seq<u64>>)
    requires
        dims.len() <= 255,
        max_dims is Some ==> max_dims->0.len() == dims.len(),
    ensures
        ({
            let data = dataspace_bytes(dims, max_dims);
            let rank = dims.len() as int;
            &&& data[1] == rank
            &&& numbers_at(data, 4, 8, rank) == dims
            &&& max_dims is Some ==> {
                &&& data[2] % 2 == 1
                &&& data.len() == 4 + 16 * rank
                &&& numbers_at(data, 4 + 8 * rank, 8, rank) == max_dims->0
            }
            &&& max_dims is None ==> data[2] % 2 == 0 && data.len() == 4 + 8 * rank
        }),
{
    let data = dataspace_bytes(dims, max_dims);
    let rank = dims.len() as int;
    lemma_le64_all_len(dims);
    assert(data.subrange(4, 4 + 8 * rank) =~= le64_all(dims));
    lemma_numbers(data, 4, dims, rank);
    assert(dims.take(rank) =~= dims);
    if max_dims is Some {
        let m = max_dims->0;
        lemma_le64_all_len(m);
        assert(data.subrange(4 + 8 * rank, 4 + 8 * rank + 8 * rank) =~= le64_all(m));
        lemma_numbers(data, 4 + 8 * rank, m, rank);
        assert(m.take(rank) =~= m);
    }
}

/// In a written file the header of a dataset gives its extent and, where it has one,
/// its maximum extent.
pub proof fn law_dataset_extents_stand_in_its_header(fw: &FileWriter, i: int)
    requires
        is_writable(fw),
        0 <= i < fw.all().len(),
        small_messages(fw.all()[i]),
        layout_of(fw.all()[i], fw.data_addr(i) as u64).len() < 0x1_0000,
    ensures
        ({
            let d = fw.all()[i];
            let rank = d.shape->0@.len() as int;
            let found = parsed_header(fw.image(), fw.head_addr(i) as int);
            let space = first_message(found->0, MessageType::Dataspace);
            &&& found is Some
            &&& space is Some
            &&& space->0[1] == rank
            &&& numbers_at(space->0, 4, 8, rank) == d.shape->0@
            &&& d.maxshape is Some ==> {
                &&& space->0[2] % 2 == 1
                &&& numbers_at(space->0, 4 + 8 * rank, 8, rank) == d.maxshape->0@
            }
            &&& d.maxshape is None ==> space->0[2] % 2 == 0
        }),
{
    let d = fw.all()[i];
    lemma_header_found(fw, i);
    lemma_first_messages(
        d,
        layout_of(d, fw.data_addr(i) as u64),
        (fw.head_addr(i) + oh_len(d)) as u64,
    );
    law_maximum_extent_is_stated(d.shape->0@, opt_view(d.maxshape));
}

/// Reading a datatype message gives back class and size.
pub proof fn law_datatype_roundtrip(dt: Datatype)
    ensures
        parsed_datatype(dt.bytes()) == Some(
            DatatypeInfo {
                class: match dt {
                    Datatype::FixedPoint { .. } => 0u8,
                    Datatype::Float16 => 1u8,
                    Datatype::Float32 => 1u8,
                    Datatype::Float64 => 1u8,
                    Datatype::FixedString { .. } => 3u8,
                },
                size: dt.spec_size(),
            },
        ),
{
    let all = dt.bytes();
    let size = dt.spec_size() as nat;
    lemma_byte_span();
    lemma_le_len(size, 4);
    lemma_le_len(0, 2);
    lemma_le_len(8 * size, 2);
    lemma_le_len(16, 2);
    lemma_le_len(32, 2);
    lemma_le_len(64, 2);
    lemma_le_len(15, 4);
    lemma_le_len(127, 4);
    lemma_le_len(1023, 4);
    lemma_le_roundtrip(size, 4);
    assert(all.subrange(4, 8) =~= le_bytes(size, 4));
}

/// Reading a layout message gives back address and size.
pub proof fn law_layout_roundtrip(address: u64, size: u64)
    requires
        address < u64::MAX,
    ensures
        parsed_layout(contiguous_bytes(address, size), 8, 8) == Some(
            DataLayout::Contiguous { address: Some(address), size },
        ),
{
    let all = contiguous_bytes(address, size);
    lemma_byte_span();
    lemma_le_len(address as nat, 8);
    lemma_le_len(size as nat, 8);
    lemma_le_len(u64::MAX as nat, 8);
    lemma_le_roundtrip(address as nat, 8);
    lemma_le_roundtrip(size as nat, 8);
    lemma_le_roundtrip(u64::MAX as nat, 8);
    assert(all.subrange(2, 10) =~= le_bytes(address as nat, 8));
    assert(all.subrange(10, 18) =~= le_bytes(size as nat, 8));
    if undefined_at(all, 2, 8) {
        let ones = le_bytes(u64::MAX as nat, 8);
        lemma_all_ones();
        assert forall|i: int| 0 <= i < 8 implies all.subrange(2, 10)[i] == ones[i] by {
            assert(all[2 + i] == 0xff);
        }
        assert(all.subrange(2, 10) =~= ones);
    }
}

proof fn lemma_all_ones()
    ensures
        forall|i: int| 0 <= i < 8 ==> #[trigger] le_bytes(u64::MAX as nat, 8)[i] == 0xff,
{
    reveal_with_fuel(le_bytes, 9);
}

/// A dataset stored in one piece reads back: its header is found at its address;
/// from the header come its extent, its element size, and the address and size
/// of its data; and there the data is.
pub proof fn law_contiguous_dataset_reads_back(fw: &FileWriter, i: int)
    requires
        is_writable(fw),
        0 <= i < fw.all().len(),
        storage_of(fw.all()[i]) is Contiguous,
        small_messages(fw.all()[i]),
    ensures
        ({
            let d = fw.all()[i];
            let found = parsed_header(fw.image(), fw.head_addr(i) as int);
            &&& found is Some
            &&& layout_answer(found->0, 8, 8) == Ok::<
                LayoutView,
                crate::error::UnsupportedLayoutReason,
            >(
                LayoutView {
                    data_addr: fw.data_addr(i) as u64,
                    nbytes: raw_of(d).len() as u64,
                    dims: d.shape->0@,
                    elem_size: d.datatype->0.spec_size(),
                },
            )
            &&& fw.image().subrange(
                fw.data_addr(i) as int,
                (fw.data_addr(i) + raw_of(d).len()) as int,
            ) == raw_of(d)
        }),
{
    let d = fw.all()[i];
    let addr = fw.data_addr(i) as u64;
    let layout = layout_of(d, addr);
    let blob_addr = (fw.head_addr(i) + oh_len(d)) as u64;
    law_data_stands_at_its_address(fw, i);
    lemma_parts(fw);
    lemma_contiguous_len(addr, raw_of(d).len() as u64);
    lemma_header_found(fw, i);
    lemma_answer(d, layout, blob_addr, addr);
}

/// The header of a dataset is found at its address, with its messages.
pub(crate) proof fn lemma_header_found(fw: &FileWriter, i: int)
    requires
        is_writable(fw),
        0 <= i < fw.all().len(),
        small_messages(fw.all()[i]),
        layout_of(fw.all()[i], fw.data_addr(i) as u64).len() < 0x1_0000,
    ensures
        parsed_header(fw.image(), fw.head_addr(i) as int) == Some(
            dataset_views(
                fw.all()[i],
                layout_of(fw.all()[i], fw.data_addr(i) as u64),
                (fw.head_addr(i) + oh_len(fw.all()[i])) as u64,
            ),
        ),
{
    let d = fw.all()[i];
    let layout = layout_of(d, fw.data_addr(i) as u64);
    let blob_addr = (fw.head_addr(i) + oh_len(d)) as u64;
    let ms = dataset_views(d, layout, blob_addr);
    lemma_no_error(fw.all(), 0);
    assert(complete(d));
    lemma_parts(fw);
    lemma_head_at(fw, i);
    reveal(dataset_header);
    lemma_dataset_body(d, layout, blob_addr);
    lemma_header_len(messages_bytes(ms));
    lemma_sizes(d, layout, blob_addr);
    law_header_roundtrip(ms, fw.image(), fw.head_addr(i) as int);
}

pub(crate) proof fn lemma_contiguous_len(address: u64, size: u64)
    ensures
        contiguous_bytes(address, size).len() == 18,
{
    lemma_le_len(address as nat, 8);
    lemma_le_len(size as nat, 8);
}

proof fn lemma_sizes(d: DatasetBuilder, layout: Seq<u8>, blob_addr: u64)
    requires
        small_messages(d),
        layout.len() < 0x1_0000,
    ensures
        forall|k: int|
            0 <= k < dataset_views(d, layout, blob_addr).len()
                ==> crate::object_header::storable(
                #[trigger] dataset_views(d, layout, blob_addr)[k],
            ),
{
    let ms = dataset_views(d, layout, blob_addr);
    let size = d.datatype->0.spec_size() as nat;
    lemma_le_len(size, 4);
    lemma_le_len(0, 2);
    lemma_le_len(8 * size, 2);
    lemma_le_len(16, 2);
    lemma_le_len(32, 2);
    lemma_le_len(64, 2);
    lemma_le_len(15, 4);
    lemma_le_len(127, 4);
    lemma_le_len(1023, 4);
    lemma_le64_all_len(d.shape->0@);
    if d.maxshape is Some {
        lemma_le64_all_len(d.maxshape->0@);
    }
    let h = (blob_addr + crate::fractal_heap::heap_len(attr_messages(d.attrs@, true), 40)) as u64;
    lemma_le_len(blob_addr as nat, 8);
    lemma_le_len(h as nat, 8);
    assert forall|k: int| 0 <= k < ms.len() implies crate::object_header::storable(
        #[trigger] ms[k],
    ) by {
        if k >= 4 && !dense_attrs(d.attrs@) {
            let a = d.attrs@[k - 4];
            assert(attr_bytes(a.0@, a.1, false).len() < 0x1_0000);
        }
    }
}

proof fn lemma_answer(d: DatasetBuilder, layout: Seq<u8>, blob_addr: u64, addr: u64)
    requires
        small_messages(d),
        addr < u64::MAX,
        layout == contiguous_bytes(addr, raw_of(d).len() as u64),
    ensures
        layout_answer(dataset_views(d, layout, blob_addr), 8, 8) == Ok::<
            LayoutView,
            crate::error::UnsupportedLayoutReason,
        >(
            LayoutView {
                data_addr: addr,
                nbytes: raw_of(d).len() as u64,
                dims: d.shape->0@,
                elem_size: d.datatype->0.spec_size(),
            },
        ),
{
    let ms = dataset_views(d, layout, blob_addr);
    let external = MessageType::Unknown(EXTERNAL_DATA_FILES_MSG_TYPE);
    assert forall|k: int| 0 <= k < ms.len() implies (#[trigger] ms[k]).kind != external by {
        if k >= 4 {
            assert(ms[k] == attr_views(d.attrs@, blob_addr)[k - 4]);
        }
    }
    lemma_absent(ms, external);
    lemma_first_messages(d, layout, blob_addr);
    law_dataspace_roundtrip(d.shape->0@, opt_view(d.maxshape));
    law_datatype_roundtrip(d.datatype->0);
    law_layout_roundtrip(addr, raw_of(d).len() as u64);
}

/// The messages that say what a dataset is, in its header.
pub(crate) proof fn lemma_first_messages(d: DatasetBuilder, layout: Seq<u8>, blob_addr: u64)
    ensures
        ({
            let ms = dataset_views(d, layout, blob_addr);
            &&& first_message(ms, MessageType::Datatype) == Some(d.datatype->0.bytes())
            &&& first_message(ms, MessageType::Dataspace) == Some(
                dataspace_bytes(d.shape->0@, opt_view(d.maxshape)),
            )
            &&& first_message(ms, MessageType::DataLayout) == Some(layout)
            &&& first_message(ms, MessageType::FilterPipeline) is None
        }),
{
    let ms = dataset_views(d, layout, blob_addr);
    let one = ms.skip(1);
    let two = one.skip(1);
    let three = two.skip(1);
    assert(one[0] == ms[1] && two[0] == ms[2] && three[0] == ms[3]);
    assert(first_message(ms, MessageType::Datatype) == Some(ms[0].data));
    assert(first_message(ms, MessageType::Dataspace) == Some(ms[1].data)) by {
        assert(first_message(one, MessageType::Dataspace) == Some(ms[1].data));
    }
    assert(first_message(ms, MessageType::DataLayout) == Some(ms[3].data)) by {
        assert(first_message(three, MessageType::DataLayout) == Some(ms[3].data));
        assert(first_message(two, MessageType::DataLayout) == Some(ms[3].data));
        assert(first_message(one, MessageType::DataLayout) == Some(ms[3].data));
    }
    assert forall|k: int| 0 <= k < ms.len() implies (#[trigger] ms[k]).kind
        != MessageType::FilterPipeline by {
        if k >= 4 {
            assert(ms[k] == attr_views(d.attrs@, blob_addr)[k - 4]);
        }
    }
    lemma_absent(ms, MessageType::FilterPipeline);
}

} // verus!
