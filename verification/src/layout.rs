//! Finding a contiguous dataset's bytes from its object header.

use crate::error::{MerkleError, UnsupportedLayoutReason};
use crate::messages::{
    parse_datatype, parse_dataspace, parse_layout, parsed_dataspace, parsed_datatype, parsed_layout,
    DataLayout, DatatypeInfo, MessageType, CLASS_REFERENCE, CLASS_VARIABLE_LENGTH,
    EXTERNAL_DATA_FILES_MSG_TYPE,
};
use crate::object_header::{message_views, HeaderMessage, MessageView, ObjectHeader};
use vstd::prelude::*;

verus! {

/// Where a contiguous dataset's bytes are, and what they are.
#[derive(Debug, Clone, PartialEq, Eq)]
pub struct ContiguousLayout {
    /// File offset of the data.
    pub data_addr: u64,
    /// Bytes of data.
    pub nbytes: u64,
    /// The extent.
    pub dims: Vec<u64>,
    /// Bytes of an element.
    pub elem_size: u32,
}

/// What a contiguous layout says.
pub struct LayoutView {
    pub data_addr: u64,
    pub nbytes: u64,
    pub dims: Seq<u64>,
    pub elem_size: u32,
}

impl View for ContiguousLayout {
    type V = LayoutView;

    open spec fn view(&self) -> LayoutView {
        LayoutView {
            data_addr: self.data_addr,
            nbytes: self.nbytes,
            dims: self.dims@,
            elem_size: self.elem_size,
        }
    }
}

/// The contents of the first message of a type.
pub open spec fn first_message(ms: Seq<MessageView>, kind: MessageType) -> Option<Seq<u8>>
    decreases ms.len(),
{
    if ms.len() == 0 {
        None
    } else if ms[0].kind == kind {
        Some(ms[0].data)
    } else {
        first_message(ms.skip(1), kind)
    }
}

/// Where a dataset with these header messages has its bytes, or why they cannot
/// be vouched for.
pub open spec fn layout_answer(
    ms: Seq<MessageView>,
    offset_size: u8,
    length_size: u8,
) -> Result<LayoutView, UnsupportedLayoutReason> {
    if first_message(ms, MessageType::Unknown(EXTERNAL_DATA_FILES_MSG_TYPE)) is Some {
        Err(UnsupportedLayoutReason::ExternalStorage)
    } else {
        match first_message(ms, MessageType::Dataspace) {
            None => Err(UnsupportedLayoutReason::MalformedHeader),
            Some(space) => match parsed_dataspace(space, length_size) {
                None => Err(UnsupportedLayoutReason::MalformedHeader),
                Some(dims) => match first_message(ms, MessageType::Datatype) {
                    None => Err(UnsupportedLayoutReason::MalformedHeader),
                    Some(kind) => match parsed_datatype(kind) {
                        None => Err(UnsupportedLayoutReason::MalformedHeader),
                        Some(dt) => if dt.class == CLASS_VARIABLE_LENGTH || dt.class
                            == CLASS_REFERENCE {
                            Err(UnsupportedLayoutReason::IndirectDatatype)
                        } else {
                            match first_message(ms, MessageType::DataLayout) {
                                None => Err(UnsupportedLayoutReason::MalformedHeader),
                                Some(data) => match parsed_layout(
                                    data,
                                    offset_size,
                                    length_size,
                                ) {
                                    None => Err(UnsupportedLayoutReason::MalformedHeader),
                                    Some(DataLayout::Contiguous { address, size }) => match address {
                                        Some(data_addr) => Ok(
                                            LayoutView {
                                                data_addr,
                                                nbytes: size,
                                                dims,
                                                elem_size: dt.size,
                                            },
                                        ),
                                        None => Err(UnsupportedLayoutReason::Unallocated),
                                    },
                                    Some(_) => Err(UnsupportedLayoutReason::NotContiguous),
                                },
                            }
                        },
                    },
                },
            },
        }
    }
}

pub(crate) fn find_message(messages: &Vec<HeaderMessage>, kind: MessageType) -> (r: Option<&HeaderMessage>)
    ensures
        match r {
            Some(m) => first_message(message_views(messages@), kind) == Some(m.data@),
            None => first_message(message_views(messages@), kind) is None,
        },
{
    let ghost views = message_views(messages@);
    let mut i: usize = 0;
    assert(views.skip(0) =~= views);
    while i < messages.len()
        invariant
            i <= messages@.len(),
            views == message_views(messages@),
            first_message(views.skip(i as int), kind) == first_message(views, kind),
        decreases messages@.len() - i,
    {
        assert(views.skip(i as int)[0] == messages@[i as int].spec_view());
        assert(views.skip(i as int).skip(1) =~= views.skip(i + 1));
        if messages[i].msg_type == kind {
            return Some(&messages[i]);
        }
        i = i + 1;
    }
    None
}

fn unsupported(reason: UnsupportedLayoutReason) -> (r: Result<ContiguousLayout, MerkleError>)
    ensures
        r == Err::<ContiguousLayout, MerkleError>(MerkleError::UnsupportedLayout { reason }),
{
    Err(MerkleError::UnsupportedLayout { reason })
}

/// Reads a contiguous dataset's address and extent from its object header.
///
/// Storage in other files, storage never allocated, and datatypes whose bytes
/// only point at the data are refused.
pub fn contiguous_layout(header: &ObjectHeader, offset_size: u8, length_size: u8) -> (r: Result<
    ContiguousLayout,
    MerkleError,
>)
    ensures
        match layout_answer(message_views(header.messages@), offset_size, length_size) {
            Ok(v) => r is Ok && r->Ok_0@ == v,
            Err(reason) => r == Err::<ContiguousLayout, MerkleError>(
                MerkleError::UnsupportedLayout { reason },
            ),
        },
{
    let messages: &Vec<HeaderMessage> = &header.messages;
    if find_message(messages, MessageType::Unknown(EXTERNAL_DATA_FILES_MSG_TYPE)).is_some() {
        return unsupported(UnsupportedLayoutReason::ExternalStorage);
    }
    let dims: Vec<u64> = match find_message(messages, MessageType::Dataspace) {
        Some(m) => match parse_dataspace(m.data.as_slice(), length_size) {
            Some(dims) => dims,
            None => {
                return unsupported(UnsupportedLayoutReason::MalformedHeader);
            },
        },
        None => {
            return unsupported(UnsupportedLayoutReason::MalformedHeader);
        },
    };
    let dt: DatatypeInfo = match find_message(messages, MessageType::Datatype) {
        Some(m) => match parse_datatype(m.data.as_slice()) {
            Some(dt) => dt,
            None => {
                return unsupported(UnsupportedLayoutReason::MalformedHeader);
            },
        },
        None => {
            return unsupported(UnsupportedLayoutReason::MalformedHeader);
        },
    };
    if dt.class == CLASS_VARIABLE_LENGTH || dt.class == CLASS_REFERENCE {
        return unsupported(UnsupportedLayoutReason::IndirectDatatype);
    }
    let layout: DataLayout = match find_message(messages, MessageType::DataLayout) {
        Some(m) => match parse_layout(m.data.as_slice(), offset_size, length_size) {
            Some(layout) => layout,
            None => {
                return unsupported(UnsupportedLayoutReason::MalformedHeader);
            },
        },
        None => {
            return unsupported(UnsupportedLayoutReason::MalformedHeader);
        },
    };
    match layout {
        DataLayout::Contiguous { address, size } => match address {
            Some(data_addr) => Ok(
                ContiguousLayout { data_addr, nbytes: size, dims, elem_size: dt.size },
            ),
            None => unsupported(UnsupportedLayoutReason::Unallocated),
        },
        _ => unsupported(UnsupportedLayoutReason::NotContiguous),
    }
}

/// The first message of a type is one of that type, and none before it is; without
/// one, no message has the type.
pub proof fn law_first_message_is_first(ms: Seq<MessageView>, kind: MessageType) -> (k: int)
    ensures
        match first_message(ms, kind) {
            Some(data) => {
                &&& 0 <= k < ms.len()
                &&& ms[k].kind == kind
                &&& ms[k].data == data
                &&& forall|j: int| 0 <= j < k ==> (#[trigger] ms[j]).kind != kind
            },
            None => forall|j: int| 0 <= j < ms.len() ==> (#[trigger] ms[j]).kind != kind,
        },
    decreases ms.len(),
{
    if ms.len() == 0 {
        0
    } else if ms[0].kind == kind {
        0
    } else {
        let rest = ms.skip(1);
        let k = law_first_message_is_first(rest, kind);
        assert forall|j: int|
            0 <= j < ms.len() && (first_message(ms, kind) is Some ==> j <= k) implies (
        #[trigger] ms[j]).kind != kind by {
            if j > 0 {
                assert(rest[j - 1] == ms[j]);
            }
        }
        if first_message(ms, kind) is Some {
            assert(rest[k] == ms[k + 1]);
        }
        k + 1
    }
}

/// A layout is vouched for only where no message sends the reader to other files,
/// elements hold their data themselves, and the data stands in one allocated piece;
/// what is said of it is what those messages say.
pub proof fn law_vouched_layout_is_plain(ms: Seq<MessageView>, offset_size: u8, length_size: u8, j: int)
    requires
        layout_answer(ms, offset_size, length_size) is Ok,
        0 <= j < ms.len(),
    ensures
        ({
            let v = layout_answer(ms, offset_size, length_size)->Ok_0;
            let space = first_message(ms, MessageType::Dataspace);
            let kind = first_message(ms, MessageType::Datatype);
            let layout = first_message(ms, MessageType::DataLayout);
            &&& ms[j].kind != MessageType::Unknown(7)
            &&& space is Some && kind is Some && layout is Some
            &&& parsed_dataspace(space->0, length_size) == Some(v.dims)
            &&& parsed_datatype(kind->0) is Some
            &&& parsed_datatype(kind->0)->0.size == v.elem_size
            &&& parsed_datatype(kind->0)->0.class != 7
            &&& parsed_datatype(kind->0)->0.class != 9
            &&& parsed_layout(layout->0, offset_size, length_size) == Some(
                DataLayout::Contiguous { address: Some(v.data_addr), size: v.nbytes },
            )
        }),
{
    let k = law_first_message_is_first(ms, MessageType::Unknown(EXTERNAL_DATA_FILES_MSG_TYPE));
}

/// Why a layout is not vouched for: other files come first, then elements that only
/// point at their data; a complete header remains, with data that is in pieces or
/// nowhere.
pub proof fn law_layout_refusals(ms: Seq<MessageView>, offset_size: u8, length_size: u8, j: int)
    requires
        0 <= j < ms.len(),
    ensures
        ({
            let answer = layout_answer(ms, offset_size, length_size);
            let space = first_message(ms, MessageType::Dataspace);
            let kind = first_message(ms, MessageType::Datatype);
            let layout = first_message(ms, MessageType::DataLayout);
            let plain = forall|k: int|
                0 <= k < ms.len() ==> (#[trigger] ms[k]).kind != MessageType::Unknown(7);
            &&& ms[j].kind == MessageType::Unknown(7) ==> answer == Err::<
                LayoutView,
                UnsupportedLayoutReason,
            >(UnsupportedLayoutReason::ExternalStorage)
            &&& plain && (space is None || kind is None) ==> answer == Err::<
                LayoutView,
                UnsupportedLayoutReason,
            >(UnsupportedLayoutReason::MalformedHeader)
            &&& plain && space is Some && parsed_dataspace(space->0, length_size) is Some && kind
                is Some && parsed_datatype(kind->0) is Some ==> {
                let class = parsed_datatype(kind->0)->0.class;
                &&& class == 7 || class == 9 ==> answer == Err::<
                    LayoutView,
                    UnsupportedLayoutReason,
                >(UnsupportedLayoutReason::IndirectDatatype)
                &&& class != 7 && class != 9 && layout is Some ==> match parsed_layout(
                    layout->0,
                    offset_size,
                    length_size,
                ) {
                    Some(DataLayout::Contiguous { address: Some(_), .. }) => answer is Ok,
                    Some(DataLayout::Contiguous { address: None, .. }) => answer == Err::<
                        LayoutView,
                        UnsupportedLayoutReason,
                    >(UnsupportedLayoutReason::Unallocated),
                    Some(_) => answer == Err::<LayoutView, UnsupportedLayoutReason>(
                        UnsupportedLayoutReason::NotContiguous,
                    ),
                    None => answer == Err::<LayoutView, UnsupportedLayoutReason>(
                        UnsupportedLayoutReason::MalformedHeader,
                    ),
                }
            }
        }),
{
    let k = law_first_message_is_first(ms, MessageType::Unknown(EXTERNAL_DATA_FILES_MSG_TYPE));
}

} // verus!
