//! Reading the links of a group, to objects of the file and of other files.

use crate::bytes::{copy_range, from_le, read_le};
use crate::messages::{link_views, LinkMessage, LinkTarget, LinkView, MessageType};
use crate::object_header::{
    code_width, message_views, parsed_header, HeaderMessage, MessageView, ObjectHeader,
};
use crate::reader::{
    dense_links_of, has_bit, header_at, parse_link, parsed_link, read_stored, width_if,
};
use crate::text::text_from_utf8;
use crate::vds::{find_zero, zero_at};
use vstd::prelude::*;
use vstd::utf8::{decode_utf8, valid_utf8};

verus! {

/// The file and the path that the value of an external link gives: a byte of
/// flags, then two texts, each with a zero behind it.
pub open spec fn external_target(info: Seq<u8>) -> Option<(Seq<u8>, Seq<u8>)> {
    match zero_at(info, 1) {
        None => None,
        Some(y) => match zero_at(info, y + 1) {
            None => None,
            Some(z) => Some((info.subrange(1, y), info.subrange(y + 1, z))),
        },
    }
}

/// Name, file and path of an external link, `None` if `data` is no message of one.
pub open spec fn parsed_external(data: Seq<u8>) -> Option<(Seq<u8>, Seq<u8>, Seq<u8>)> {
    if data.len() < 3 || data[0] != 1 || !has_bit(data[1], 8) || data[2] != 64 {
        None
    } else {
        let flags = data[1];
        let at = 3 + width_if(has_bit(flags, 4), 8) + width_if(has_bit(flags, 16), 1);
        let start = at + code_width(flags % 4);
        if data.len() < start {
            None
        } else {
            let end = start + from_le(data.subrange(at, start));
            if data.len() < end + 2 {
                None
            } else {
                let stop = end + 2 + from_le(data.subrange(end, end + 2));
                if data.len() < stop {
                    None
                } else {
                    match external_target(data.subrange(end + 2, stop)) {
                        None => None,
                        Some((file, path)) => Some((data.subrange(start, end), file, path)),
                    }
                }
            }
        }
    }
}

/// The link that a link message holds, `None` if it holds none that is read here.
pub open spec fn parsed_any_link(data: Seq<u8>) -> Option<LinkView> {
    match parsed_link(data) {
        Some((name, address)) => if valid_utf8(name) {
            Some(LinkView::Hard { name: decode_utf8(name), address })
        } else {
            None
        },
        None => match parsed_external(data) {
            Some((name, file, path)) => if valid_utf8(name) && valid_utf8(file) && valid_utf8(
                path,
            ) {
                Some(
                    LinkView::External {
                        name: decode_utf8(name),
                        filename: decode_utf8(file),
                        object_path: decode_utf8(path),
                    },
                )
            } else {
                None
            },
            None => None,
        },
    }
}

fn read_target(info: &[u8]) -> (r: Option<(Vec<u8>, Vec<u8>)>)
    ensures
        match r {
            Some(t) => external_target(info@) == Some((t.0@, t.1@)),
            None => external_target(info@) is None,
        },
{
    if info.len() == 0 {
        return None;
    }
    match find_zero(info, 1) {
        None => None,
        Some(y) => match find_zero(info, y + 1) {
            None => None,
            Some(z) => Some((copy_range(info, 1, y), copy_range(info, y + 1, z))),
        },
    }
}

/// Reads the message of an external link.
pub fn parse_external(data: &[u8]) -> (r: Option<(Vec<u8>, Vec<u8>, Vec<u8>)>)
    ensures
        match r {
            Some(link) => parsed_external(data@) == Some((link.0@, link.1@, link.2@)),
            None => parsed_external(data@) is None,
        },
{
    let total: usize = data.len();
    if total < 3 || data[0] != 1 {
        return None;
    }
    let flags: u8 = data[1];
    if (flags / 8) % 2 != 1 || data[2] != 64 {
        return None;
    }
    let mut at: usize = 3;
    if (flags / 4) % 2 == 1 {
        at = at + 8;
    }
    if (flags / 16) % 2 == 1 {
        at = at + 1;
    }
    let code: u8 = flags % 4;
    let width: usize = if code == 0 {
        1
    } else if code == 1 {
        2
    } else if code == 2 {
        4
    } else {
        8
    };
    let start: usize = at + width;
    if total < start {
        return None;
    }
    let len: u64 = read_le(data, at, width);
    if len > (total - start) as u64 || (total - start) as u64 - len < 2 {
        return None;
    }
    let end: usize = start + len as usize;
    let size: u64 = read_le(data, end, 2);
    if size > (total - end - 2) as u64 {
        return None;
    }
    let info: Vec<u8> = copy_range(data, end + 2, end + 2 + size as usize);
    match read_target(info.as_slice()) {
        None => None,
        Some(target) => Some((copy_range(data, start, end), target.0, target.1)),
    }
}

impl LinkMessage {
    /// Reads a link message.
    pub fn parse(data: &[u8]) -> (r: Option<LinkMessage>)
        ensures
            match r {
                Some(link) => parsed_any_link(data@) == Some(link@),
                None => parsed_any_link(data@) is None,
            },
    {
        match parse_link(data) {
            Some(link) => match text_from_utf8(link.0) {
                Some(name) => Some(
                    LinkMessage {
                        name,
                        link_target: LinkTarget::Hard { object_header_address: link.1 },
                    },
                ),
                None => None,
            },
            None => match parse_external(data) {
                Some(link) => match (
                    text_from_utf8(link.0),
                    text_from_utf8(link.1),
                    text_from_utf8(link.2),
                ) {
                    (Some(name), Some(filename), Some(object_path)) => Some(
                        LinkMessage { name, link_target: LinkTarget::External { filename, object_path } },
                    ),
                    _ => None,
                },
                None => None,
            },
        }
    }
}

/// The links that messages hold, in their order.
pub open spec fn links_among(ms: Seq<MessageView>) -> Seq<LinkView>
    decreases ms.len(),
{
    if ms.len() == 0 {
        Seq::empty()
    } else {
        let before = links_among(ms.drop_last());
        if ms.last().kind == MessageType::Link && parsed_any_link(ms.last().data) is Some {
            before.push(parsed_any_link(ms.last().data)->0)
        } else {
            before
        }
    }
}

/// The links of the group whose header is at `at`: those in the header, then those
/// in dense storage. `None` if there is no header.
pub open spec fn links_at(file: Seq<u8>, at: u64) -> Option<Seq<LinkView>> {
    match parsed_header(file, at as int) {
        None => None,
        Some(ms) => Some(links_among(ms) + links_among(dense_links_of(file, ms))),
    }
}

fn push_links(links: &mut Vec<LinkMessage>, messages: &Vec<HeaderMessage>)
    ensures
        link_views(final(links)@) == link_views(old(links)@)
            + links_among(message_views(messages@)),
{
    let ghost before = link_views(links@);
    let ghost views = message_views(messages@);
    let mut i: usize = 0;
    assert(before + Seq::<LinkView>::empty() =~= before);
    assert(views.take(0) =~= Seq::empty());
    while i < messages.len()
        invariant
            i <= messages@.len(),
            views == message_views(messages@),
            link_views(links@) == before + links_among(views.take(i as int)),
        decreases messages@.len() - i,
    {
        assert(views.take(i + 1).drop_last() =~= views.take(i as int));
        assert(views.take(i + 1).last() == messages@[i as int].spec_view());
        if messages[i].msg_type == MessageType::Link {
            match LinkMessage::parse(messages[i].data.as_slice()) {
                Some(link) => {
                    let ghost old_links = links@;
                    links.push(link);
                    assert(link_views(links@) =~= link_views(
                        old_links,
                    ).push(link@));
                },
                None => {},
            }
        }
        assert(link_views(links@) =~= before + links_among(views.take(i + 1)));
        i = i + 1;
    }
    assert(views.take(i as int) =~= views);
}

/// Reads the links of the group whose header is at `at`.
pub fn read_links(file: &[u8], at: u64) -> (r: Option<Vec<LinkMessage>>)
    ensures
        match r {
            Some(links) => links_at(file@, at) == Some(link_views(links@)),
            None => links_at(file@, at) is None,
        },
{
    let header: ObjectHeader = match header_at(file, at) {
        Some(header) => header,
        None => {
            return None;
        },
    };
    let mut links: Vec<LinkMessage> = Vec::new();
    assert(link_views(links@) =~= Seq::empty());
    push_links(&mut links, &header.messages);
    assert(link_views(links@) =~= links_among(message_views(header.messages@)));
    let stored: Vec<HeaderMessage> = read_stored(
        file,
        &header,
        MessageType::LinkInfo,
        5,
        4,
        MessageType::Link,
    );
    push_links(&mut links, &stored);
    Some(links)
}

} // verus!
