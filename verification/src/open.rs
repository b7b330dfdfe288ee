//! Opening a queue that exists.

use crate::create;
use crate::error::ShmError;
use crate::layout;
use crate::layout::{ExtentFault, RegionSizes};
use crate::os;
use crate::os::{Mapping, OsAction, OsReply};
use crate::region::ShmHeader;
use vstd::arithmetic::power2::*;
use vstd::prelude::*;

verus! {

/// Where the opening of a queue stands.
#[derive(Debug, Clone, Copy, PartialEq, Eq)]
pub enum OpenPhase {
    /// About to open the shared memory object.
    Open,
    /// About to map the header alone.
    MapHeader { fd: i32 },
    /// About to read the header.
    ReadHeader { fd: i32, address: usize },
    /// The header is not one of this queue; about to unmap it.
    UnmapRejected { fd: i32, address: usize, error: ShmError },
    /// The opening has failed; about to close the object.
    CloseFailed { fd: i32, error: ShmError },
    /// The header is accepted; about to unmap it.
    UnmapHeader { fd: i32, address: usize, header: ShmHeader },
    /// About to map the whole region.
    MapRegion { fd: i32, header: ShmHeader },
    /// The opening is over.
    Return { result: Result<Mapping, ShmError> },
}

/// The opening of a queue, between two requests to the system.
pub struct OpenCall {
    /// The name of the shared memory object.
    pub name: String,
    pub sizes: RegionSizes,
    pub phase: OpenPhase,
}

/// The size of the region that a header announces.
pub open spec fn announced_size(header: ShmHeader) -> int {
    header.slots_offset + header.capacity * header.slot_size
}

/// What is wrong with a header, if anything: the first that applies.
pub open spec fn header_fault(sizes: RegionSizes, header: ShmHeader) -> Option<ShmError> {
    if header.item_size != sizes.item_size {
        Some(ShmError::ItemSizeMismatch)
    } else if header.slot_size != sizes.slot_size {
        Some(ShmError::SlotSizeMismatch)
    } else if header.capacity * header.slot_size > usize::MAX {
        Some(ShmError::HeaderCapacityTooLarge)
    } else if announced_size(header) > usize::MAX {
        Some(ShmError::HeaderLayoutOverflow)
    } else if announced_size(header) < sizes.header_size {
        Some(ShmError::BackingTooSmall)
    } else {
        None
    }
}

/// The mapping of a queue with this header.
pub open spec fn opened_mapping(header: ShmHeader, fd: i32, base: usize) -> Mapping {
    Mapping {
        base,
        fd,
        layout_size: announced_size(header) as usize,
        slots_offset: header.slots_offset,
        capacity: header.capacity,
        mask: header.mask,
    }
}

/// The request that an opening waits for.
pub open spec fn open_pending(sizes: RegionSizes, phase: OpenPhase) -> OsAction {
    match phase {
        OpenPhase::Open => OsAction::ShmOpen { flags: os::O_RDWR, mode: 0 },
        OpenPhase::MapHeader { fd } => OsAction::map_shared(fd, sizes.header_size),
        OpenPhase::ReadHeader { address, .. } => OsAction::ReadHeader { address },
        OpenPhase::UnmapRejected { address, .. } => OsAction::Unmap {
            address,
            length: sizes.header_size,
        },
        OpenPhase::CloseFailed { fd, .. } => OsAction::Close { fd },
        OpenPhase::UnmapHeader { address, .. } => OsAction::Unmap {
            address,
            length: sizes.header_size,
        },
        OpenPhase::MapRegion { fd, header } => OsAction::map_shared(
            fd,
            announced_size(header) as usize,
        ),
        OpenPhase::Return { result } => OsAction::Return { result },
    }
}

/// Where an opening stands after a reply. A header that announces more than the address space ends
/// the opening at once; any other fault of the header unmaps it and closes the object first.
pub open spec fn open_next(sizes: RegionSizes, phase: OpenPhase, reply: OsReply) -> OpenPhase {
    match phase {
        OpenPhase::Open => if reply->code < 0 {
            OpenPhase::Return { result: Err(ShmError::Os { errno: reply->Code_errno }) }
        } else {
            OpenPhase::MapHeader { fd: reply->code }
        },
        OpenPhase::MapHeader { fd } => if reply->address == os::MAP_FAILED {
            OpenPhase::CloseFailed { fd, error: ShmError::Os { errno: reply->Address_errno } }
        } else {
            OpenPhase::ReadHeader { fd, address: reply->address }
        },
        OpenPhase::ReadHeader { fd, address } => match header_fault(sizes, reply->header) {
            Some(ShmError::HeaderCapacityTooLarge) => OpenPhase::Return {
                result: Err(ShmError::HeaderCapacityTooLarge),
            },
            Some(ShmError::HeaderLayoutOverflow) => OpenPhase::Return {
                result: Err(ShmError::HeaderLayoutOverflow),
            },
            Some(error) => OpenPhase::UnmapRejected { fd, address, error },
            None => OpenPhase::UnmapHeader { fd, address, header: reply->header },
        },
        OpenPhase::UnmapRejected { fd, error, .. } => OpenPhase::CloseFailed { fd, error },
        OpenPhase::CloseFailed { error, .. } => OpenPhase::Return { result: Err(error) },
        OpenPhase::UnmapHeader { fd, header, .. } => OpenPhase::MapRegion { fd, header },
        OpenPhase::MapRegion { fd, header } => if reply->address == os::MAP_FAILED {
            OpenPhase::CloseFailed { fd, error: ShmError::Os { errno: reply->Address_errno } }
        } else {
            OpenPhase::Return { result: Ok(opened_mapping(header, fd, reply->address)) }
        },
        OpenPhase::Return { result } => OpenPhase::Return { result },
    }
}

/// What holds of each phase: a header that has been accepted has no fault.
pub open spec fn open_phase_wf(sizes: RegionSizes, phase: OpenPhase) -> bool {
    match phase {
        OpenPhase::UnmapHeader { header, .. } => header_fault(sizes, header) is None,
        OpenPhase::MapRegion { header, .. } => header_fault(sizes, header) is None,
        _ => true,
    }
}

/// The slots that a header announces do not take up less than nothing.
proof fn lemma_slots_not_negative(header: ShmHeader)
    ensures
        header.capacity * header.slot_size >= 0,
{
    assert(header.capacity * header.slot_size >= 0) by (nonlinear_arith)
        requires
            header.capacity >= 0,
            header.slot_size >= 0,
    ;
}

/// Checks a header against the sizes of the types, and gives the size of the region.
pub fn check_header(sizes: &RegionSizes, header: &ShmHeader) -> (result: Result<usize, ShmError>)
    ensures
        match header_fault(*sizes, *header) {
            Some(error) => result == Err::<usize, ShmError>(error),
            None => result == Ok::<usize, ShmError>(announced_size(*header) as usize),
        },
        result is Ok <==> {
            &&& header.item_size == sizes.item_size
            &&& header.slot_size == sizes.slot_size
            &&& header.slots_offset + header.capacity * header.slot_size <= usize::MAX
            &&& sizes.header_size <= header.slots_offset + header.capacity * header.slot_size
        },
        result matches Ok(total_size) ==> total_size == header.slots_offset + header.capacity
            * header.slot_size,
        result == Err::<usize, ShmError>(ShmError::ItemSizeMismatch) <==> header.item_size
            != sizes.item_size,
        result == Err::<usize, ShmError>(ShmError::SlotSizeMismatch) <==> header.item_size
            == sizes.item_size && header.slot_size != sizes.slot_size,
        result == Err::<usize, ShmError>(ShmError::HeaderCapacityTooLarge) <==> header.item_size
            == sizes.item_size && header.slot_size == sizes.slot_size && header.capacity
            * header.slot_size > usize::MAX,
        result == Err::<usize, ShmError>(ShmError::HeaderLayoutOverflow) <==> header.item_size
            == sizes.item_size && header.slot_size == sizes.slot_size && header.capacity
            * header.slot_size <= usize::MAX < header.slots_offset + header.capacity
            * header.slot_size,
        result == Err::<usize, ShmError>(ShmError::BackingTooSmall) <==> header.item_size
            == sizes.item_size && header.slot_size == sizes.slot_size && header.slots_offset
            + header.capacity * header.slot_size < sizes.header_size,
{
    if header.item_size != sizes.item_size {
        return Err(ShmError::ItemSizeMismatch);
    }
    if header.slot_size != sizes.slot_size {
        return Err(ShmError::SlotSizeMismatch);
    }
    proof {
        lemma_slots_not_negative(*header);
    }
    match layout::region_extent(header.slots_offset, header.capacity, header.slot_size) {
        Err(ExtentFault::Slots) => Err(ShmError::HeaderCapacityTooLarge),
        Err(ExtentFault::Region) => Err(ShmError::HeaderLayoutOverflow),
        Ok(total_size) => if total_size < sizes.header_size {
            Err(ShmError::BackingTooSmall)
        } else {
            Ok(total_size)
        },
    }
}

impl OpenCall {
    /// Whether the call stands where it can have come to.
    pub open spec fn wf(self) -> bool {
        open_phase_wf(self.sizes, self.phase)
    }

    /// The request that the opening waits for.
    pub open spec fn pending(self) -> OsAction {
        open_pending(self.sizes, self.phase)
    }

    /// The request that the opening waits for.
    pub fn action(&self) -> (action: OsAction)
        requires
            self.wf(),
        ensures
            action == self.pending(),
    {
        match self.phase {
            OpenPhase::Open => OsAction::ShmOpen { flags: os::O_RDWR, mode: 0 },
            OpenPhase::MapHeader { fd } => os::map_shared(fd, self.sizes.header_size),
            OpenPhase::ReadHeader { address, .. } => OsAction::ReadHeader { address },
            OpenPhase::UnmapRejected { address, .. } => OsAction::Unmap {
                address,
                length: self.sizes.header_size,
            },
            OpenPhase::CloseFailed { fd, .. } => OsAction::Close { fd },
            OpenPhase::UnmapHeader { address, .. } => OsAction::Unmap {
                address,
                length: self.sizes.header_size,
            },
            OpenPhase::MapRegion { fd, header } => os::map_shared(
                fd,
                header.slots_offset + header.capacity * header.slot_size,
            ),
            OpenPhase::Return { result } => OsAction::Return { result },
        }
    }

    /// Takes the reply to the pending request and moves on.
    pub fn resume(self, reply: OsReply) -> (call: Self)
        requires
            self.wf(),
            self.pending().accepts(reply),
        ensures
            call.wf(),
            call.name == self.name,
            call.sizes == self.sizes,
            call.phase == open_next(self.sizes, self.phase, reply),
    {
        let phase = match (self.phase, reply) {
            (OpenPhase::Open, OsReply::Code { code, errno }) => if code < 0 {
                OpenPhase::Return { result: Err(ShmError::Os { errno }) }
            } else {
                OpenPhase::MapHeader { fd: code }
            },
            (OpenPhase::MapHeader { fd }, OsReply::Address { address, errno }) => {
                if address == os::MAP_FAILED {
                    OpenPhase::CloseFailed { fd, error: ShmError::Os { errno } }
                } else {
                    OpenPhase::ReadHeader { fd, address }
                }
            },
            (OpenPhase::ReadHeader { fd, address }, OsReply::Header { header }) => {
                match check_header(&self.sizes, &header) {
                    Err(ShmError::HeaderCapacityTooLarge) => OpenPhase::Return {
                        result: Err(ShmError::HeaderCapacityTooLarge),
                    },
                    Err(ShmError::HeaderLayoutOverflow) => OpenPhase::Return {
                        result: Err(ShmError::HeaderLayoutOverflow),
                    },
                    Err(error) => OpenPhase::UnmapRejected { fd, address, error },
                    Ok(_) => OpenPhase::UnmapHeader { fd, address, header },
                }
            },
            (OpenPhase::UnmapRejected { fd, error, .. }, _) => OpenPhase::CloseFailed { fd, error },
            (OpenPhase::CloseFailed { error, .. }, _) => OpenPhase::Return { result: Err(error) },
            (OpenPhase::UnmapHeader { fd, header, .. }, _) => OpenPhase::MapRegion { fd, header },
            (OpenPhase::MapRegion { fd, header }, OsReply::Address { address, errno }) => if address
                == os::MAP_FAILED {
                OpenPhase::CloseFailed { fd, error: ShmError::Os { errno } }
            } else {
                OpenPhase::Return {
                    result: Ok(
                        Mapping {
                            base: address,
                            fd,
                            layout_size: header.slots_offset + header.capacity * header.slot_size,
                            slots_offset: header.slots_offset,
                            capacity: header.capacity,
                            mask: header.mask,
                        },
                    ),
                }
            },
            (phase, _) => phase,
        };
        OpenCall { name: self.name, sizes: self.sizes, phase }
    }
}

/// Where an opening stands after these replies.
pub open spec fn open_path(sizes: RegionSizes, replies: Seq<OsReply>) -> OpenPhase
    decreases replies.len(),
{
    if replies.len() == 0 {
        OpenPhase::Open
    } else {
        open_next(sizes, open_path(sizes, replies.drop_last()), replies.last())
    }
}

/// The request that an opening makes after these replies.
pub open spec fn open_request(sizes: RegionSizes, replies: Seq<OsReply>) -> OsAction {
    open_pending(sizes, open_path(sizes, replies))
}

/// Whether each reply answers the request that the opening has made by then.
pub open spec fn open_answered(sizes: RegionSizes, replies: Seq<OsReply>) -> bool
    decreases replies.len(),
{
    replies.len() == 0 || {
        &&& open_answered(sizes, replies.drop_last())
        &&& open_request(sizes, replies.drop_last()).accepts(replies.last())
    }
}

/// How an opening got to where it stands.
proof fn lemma_open_history(sizes: RegionSizes, replies: Seq<OsReply>)
    requires
        open_answered(sizes, replies),
    ensures
        ({
            let n = replies.len() as int;
            let fd = replies[0]->code;
            let address = replies[1]->address;
            let header = replies[2]->header;
            let opened = n >= 1 && fd >= 0;
            let mapped = opened && n >= 2 && address != os::MAP_FAILED;
            match open_path(sizes, replies) {
                OpenPhase::Open => n == 0,
                OpenPhase::MapHeader { fd: f } => opened && n == 1 && f == fd,
                OpenPhase::ReadHeader { fd: f, address: a } => {
                    &&& mapped
                    &&& n == 2
                    &&& f == fd
                    &&& a == address
                },
                OpenPhase::UnmapRejected { fd: f, address: a, error } => {
                    &&& mapped
                    &&& n == 3
                    &&& f == fd
                    &&& a == address
                    &&& header_fault(sizes, header) == Some(error)
                    &&& !(error is HeaderCapacityTooLarge)
                    &&& !(error is HeaderLayoutOverflow)
                },
                OpenPhase::UnmapHeader { fd: f, address: a, header: h } => {
                    &&& mapped
                    &&& n == 3
                    &&& f == fd
                    &&& a == address
                    &&& h == header
                    &&& header_fault(sizes, header) is None
                },
                OpenPhase::MapRegion { fd: f, header: h } => {
                    &&& mapped
                    &&& n == 4
                    &&& f == fd
                    &&& h == header
                    &&& header_fault(sizes, header) is None
                    &&& open_request(sizes, replies.take(3)) == (OsAction::Unmap {
                        address,
                        length: sizes.header_size,
                    })
                },
                OpenPhase::CloseFailed { fd: f, error } => {
                    &&& opened
                    &&& n >= 2
                    &&& f == fd
                    &&& failure_of(sizes, replies, error)
                },
                OpenPhase::Return { result: Ok(mapping) } => {
                    &&& mapped
                    &&& n == 5
                    &&& header_fault(sizes, header) is None
                    &&& mapping == opened_mapping(header, fd, replies[4]->address)
                    &&& replies[4]->address != os::MAP_FAILED
                    &&& open_request(sizes, replies.take(3)) == (OsAction::Unmap {
                        address,
                        length: sizes.header_size,
                    })
                    &&& open_request(sizes, replies.take(4)) == OsAction::map_shared(
                        fd,
                        announced_size(header) as usize,
                    )
                },
                OpenPhase::Return { result: Err(error) } => if n == 1 {
                    fd < 0 && error == (ShmError::Os { errno: replies[0]->Code_errno })
                } else if error is HeaderCapacityTooLarge || error is HeaderLayoutOverflow {
                    mapped && n == 3 && header_fault(sizes, header) == Some(error)
                } else {
                    &&& opened
                    &&& n >= 3
                    &&& failure_of(sizes, replies.drop_last(), error)
                    &&& open_request(sizes, replies.drop_last()) == (OsAction::Close { fd })
                },
            }
        }),
    decreases replies.len(),
{
    if replies.len() > 0 {
        let before = replies.drop_last();
        let n = replies.len() as int;
        lemma_open_history(sizes, before);
        assert(replies.take(n - 1) =~= before);
        if n >= 4 {
            assert(replies.take(3) =~= before.take(3));
        }
    }
}

/// Why an opening closes the object after these replies: the header could not be mapped, the header
/// was rejected and has been unmapped, or the region could not be mapped after the header has been
/// unmapped.
pub open spec fn failure_of(sizes: RegionSizes, replies: Seq<OsReply>, error: ShmError) -> bool {
    let unmap = OsAction::Unmap { address: replies[1]->address, length: sizes.header_size };
    if replies.len() == 2 {
        &&& replies[1]->address == os::MAP_FAILED
        &&& error == (ShmError::Os { errno: replies[1]->Address_errno })
    } else if replies.len() == 4 {
        &&& header_fault(sizes, replies[2]->header) == Some(error)
        &&& open_request(sizes, replies.take(3)) == unmap
    } else {
        &&& replies.len() == 5
        &&& header_fault(sizes, replies[2]->header) is None
        &&& replies[4]->address == os::MAP_FAILED
        &&& error == (ShmError::Os { errno: replies[4]->Address_errno })
        &&& open_request(sizes, replies.take(3)) == unmap
    }
}

/// An opening that succeeds has found a header without fault, for the same sizes of an item and of a
/// slot and for a region that can be mapped and has room for the header; it has given back the
/// mapping of the header, and has mapped what the header announces.
pub proof fn law_opened_means_header_accepted(
    sizes: RegionSizes,
    replies: Seq<OsReply>,
    mapping: Mapping,
)
    requires
        open_answered(sizes, replies),
        open_path(sizes, replies) == (OpenPhase::Return { result: Ok(mapping) }),
    ensures
        replies.len() == 5,
        header_fault(sizes, replies[2]->header) is None,
        mapping == opened_mapping(replies[2]->header, replies[0]->code, replies[4]->address),
        mapping.layout_size == announced_size(replies[2]->header),
        ({
            let header = replies[2]->header;
            let end = header.slots_offset + header.capacity * header.slot_size;
            &&& header.item_size == sizes.item_size
            &&& header.slot_size == sizes.slot_size
            &&& sizes.header_size <= end <= usize::MAX
            &&& mapping == (Mapping {
                base: replies[4]->address,
                fd: replies[0]->code,
                layout_size: end as usize,
                slots_offset: header.slots_offset,
                capacity: header.capacity,
                mask: header.mask,
            })
        }),
        mapping.fd >= 0,
        open_request(sizes, replies.take(0)) == (OsAction::ShmOpen { flags: os::O_RDWR, mode: 0 }),
        open_request(sizes, replies.take(3)) == (OsAction::Unmap {
            address: replies[1]->address,
            length: sizes.header_size,
        }),
        open_request(sizes, replies.take(4)) == OsAction::map_shared(
            mapping.fd,
            mapping.layout_size,
        ),
{
    lemma_open_history(sizes, replies);
    lemma_slots_not_negative(replies[2]->header);
}

/// An opening that fails after the object was opened closes the object as its last request, and the
/// header is not left mapped. The exception is a header that announces more than the address space:
/// the opening then ends without another request.
pub proof fn law_failed_opening_cleans_up(
    sizes: RegionSizes,
    replies: Seq<OsReply>,
    error: ShmError,
)
    requires
        open_answered(sizes, replies),
        open_path(sizes, replies) == (OpenPhase::Return { result: Err(error) }),
        !(error is HeaderCapacityTooLarge),
        !(error is HeaderLayoutOverflow),
    ensures
        replies[0]->code < 0 ==> replies.len() == 1 && error == (ShmError::Os {
            errno: replies[0]->Code_errno,
        }),
        replies[0]->code >= 0 ==> {
            &&& replies.len() >= 3
            &&& open_request(sizes, replies.drop_last()) == (OsAction::Close {
                fd: replies[0]->code,
            })
            &&& failure_of(sizes, replies.drop_last(), error)
        },
{
    lemma_open_history(sizes, replies);
}

/// A queue that was created can be opened with the sizes that it was created with, wherever its
/// positions stand by then, and the mapping is that of its creation, at an address and with a
/// descriptor of its own.
pub proof fn law_created_queues_can_be_opened(
    capacity: usize,
    sizes: RegionSizes,
    header: ShmHeader,
    fd: i32,
    base: usize,
)
    requires
        sizes.valid(),
        create::region_size(capacity, sizes) <= usize::MAX,
        header == (ShmHeader {
            enqueue_pos: header.enqueue_pos,
            dequeue_pos: header.dequeue_pos,
            ..create::new_header(capacity, sizes)
        }),
    ensures
        header_fault(sizes, header) is None,
        opened_mapping(header, fd, base) == create::new_mapping(capacity, sizes, fd, base),
{
    reveal(is_pow2);
    layout::lemma_aligned_up(sizes.header_size as int, sizes.slot_align as int);
    assert(capacity * sizes.slot_size >= 0) by (nonlinear_arith)
        requires
            capacity >= 0,
            sizes.slot_size >= 0,
    ;
}

/// One more reply moves an opening on by one step.
proof fn lemma_open_extend(sizes: RegionSizes, replies: Seq<OsReply>, reply: OsReply)
    ensures
        open_path(sizes, replies.push(reply)) == open_next(
            sizes,
            open_path(sizes, replies),
            reply,
        ),
        open_answered(sizes, replies.push(reply)) <==> open_answered(sizes, replies)
            && open_request(sizes, replies).accepts(reply),
{
    assert(replies.push(reply).drop_last() =~= replies);
}

/// How an opening begins: it opens the object for reading and writing without creating it, maps as
/// much of it as a header takes, and reads the header. Where the object cannot be opened, the
/// opening fails with the error of the system; where it cannot be mapped, the object is closed
/// first.
pub proof fn law_opening_starts_with_the_header(
    sizes: RegionSizes,
    fd: i32,
    errno: i32,
    address: usize,
    map_errno: i32,
    closed: i32,
    close_errno: i32,
)
    ensures
        ({
            let none = Seq::<OsReply>::empty();
            let opened = none.push(OsReply::Code { code: fd, errno });
            let mapped = opened.push(OsReply::Address { address, errno: map_errno });
            let done = mapped.push(OsReply::Code { code: closed, errno: close_errno });
            &&& open_request(sizes, none) == (OsAction::ShmOpen { flags: 2, mode: 0 })
            &&& open_answered(sizes, opened)
            &&& fd < 0 ==> open_request(sizes, opened) == (OsAction::Return {
                result: Err(ShmError::Os { errno }),
            })
            &&& fd >= 0 ==> {
                &&& open_request(sizes, opened) == (OsAction::MapShared {
                    length: sizes.header_size,
                    prot: 3,
                    flags: 1,
                    fd,
                    start: 0,
                })
                &&& open_answered(sizes, mapped)
                &&& address != usize::MAX ==> open_request(sizes, mapped) == (OsAction::ReadHeader {
                    address,
                })
                &&& address == usize::MAX ==> {
                    &&& open_request(sizes, mapped) == (OsAction::Close { fd })
                    &&& open_answered(sizes, done)
                    &&& open_request(sizes, done) == (OsAction::Return {
                        result: Err(ShmError::Os { errno: map_errno }),
                    })
                }
            }
        }),
{
    let none = Seq::<OsReply>::empty();
    let opened = none.push(OsReply::Code { code: fd, errno });
    let mapped = opened.push(OsReply::Address { address, errno: map_errno });
    lemma_open_extend(sizes, none, OsReply::Code { code: fd, errno });
    lemma_open_extend(sizes, opened, OsReply::Address { address, errno: map_errno });
    lemma_open_extend(sizes, mapped, OsReply::Code { code: closed, errno: close_errno });
    os::law_mappings_are_shared(fd, sizes.header_size);
}

/// What an opening makes of the header that it reads. A header for items or slots of another size,
/// and one whose region would end before the header does, is unmapped, the object is closed, and the
/// opening fails with the error that says so; the item size is looked at first. A header whose
/// region does not fit in the address space ends the opening. With any other header the opening goes
/// on: it unmaps the header and maps the whole region, from the start to the end of the last slot.
/// Where that cannot be mapped, the object is closed and the error of the system is returned;
/// otherwise the mapping is, with the numbers that the header holds.
pub proof fn law_opening_goes_by_the_header(
    sizes: RegionSizes,
    fd: i32,
    address: usize,
    header: ShmHeader,
    base: usize,
    errno: i32,
    codes: (i32, i32, i32, i32),
    noise: (i32, i32),
)
    requires
        fd >= 0,
        address != usize::MAX,
    ensures
        ({
            let read = seq![
                OsReply::Code { code: fd, errno: noise.0 },
                OsReply::Address { address, errno: noise.1 },
                OsReply::Header { header },
            ];
            let unmapped = read.push(OsReply::Code { code: codes.0, errno: codes.1 });
            let closed = unmapped.push(OsReply::Code { code: codes.2, errno: codes.3 });
            let mapped = unmapped.push(OsReply::Address { address: base, errno });
            let given_up = mapped.push(OsReply::Code { code: codes.2, errno: codes.3 });
            let slots = header.capacity * header.slot_size;
            let end = header.slots_offset + slots;
            let refusal = if header.item_size != sizes.item_size {
                Some(ShmError::ItemSizeMismatch)
            } else if header.slot_size != sizes.slot_size {
                Some(ShmError::SlotSizeMismatch)
            } else if end < sizes.header_size {
                Some(ShmError::BackingTooSmall)
            } else {
                None
            };
            &&& open_answered(sizes, read)
            &&& refusal matches Some(error) ==> {
                &&& open_request(sizes, read) == (OsAction::Unmap {
                    address,
                    length: sizes.header_size,
                })
                &&& open_request(sizes, unmapped) == (OsAction::Close { fd })
                &&& open_answered(sizes, closed)
                &&& open_request(sizes, closed) == (OsAction::Return { result: Err(error) })
            }
            &&& refusal is None && slots > usize::MAX ==> open_request(sizes, read) == (
            OsAction::Return { result: Err(ShmError::HeaderCapacityTooLarge) })
            &&& refusal is None && slots <= usize::MAX < end ==> open_request(sizes, read) == (
            OsAction::Return { result: Err(ShmError::HeaderLayoutOverflow) })
            &&& refusal is None && end <= usize::MAX ==> {
                &&& open_request(sizes, read) == (OsAction::Unmap {
                    address,
                    length: sizes.header_size,
                })
                &&& open_request(sizes, unmapped) == (OsAction::MapShared {
                    length: end as usize,
                    prot: 3,
                    flags: 1,
                    fd,
                    start: 0,
                })
                &&& open_answered(sizes, mapped)
                &&& base != usize::MAX ==> open_request(sizes, mapped) == (OsAction::Return {
                    result: Ok(
                        Mapping {
                            base,
                            fd,
                            layout_size: end as usize,
                            slots_offset: header.slots_offset,
                            capacity: header.capacity,
                            mask: header.mask,
                        },
                    ),
                })
                &&& base == usize::MAX ==> {
                    &&& open_request(sizes, mapped) == (OsAction::Close { fd })
                    &&& open_answered(sizes, given_up)
                    &&& open_request(sizes, given_up) == (OsAction::Return {
                        result: Err(ShmError::Os { errno }),
                    })
                }
            }
        }),
{
    let none = Seq::<OsReply>::empty();
    let opened = none.push(OsReply::Code { code: fd, errno: noise.0 });
    let mapped_header = opened.push(OsReply::Address { address, errno: noise.1 });
    let read = mapped_header.push(OsReply::Header { header });
    let unmapped = read.push(OsReply::Code { code: codes.0, errno: codes.1 });
    let mapped = unmapped.push(OsReply::Address { address: base, errno });
    lemma_open_extend(sizes, none, OsReply::Code { code: fd, errno: noise.0 });
    lemma_open_extend(sizes, opened, OsReply::Address { address, errno: noise.1 });
    lemma_open_extend(sizes, mapped_header, OsReply::Header { header });
    lemma_open_extend(sizes, read, OsReply::Code { code: codes.0, errno: codes.1 });
    lemma_open_extend(sizes, unmapped, OsReply::Code { code: codes.2, errno: codes.3 });
    lemma_open_extend(sizes, unmapped, OsReply::Address { address: base, errno });
    lemma_open_extend(sizes, mapped, OsReply::Code { code: codes.2, errno: codes.3 });
    lemma_slots_not_negative(header);
    os::law_mappings_are_shared(
        fd,
        (header.slots_offset + header.capacity * header.slot_size) as usize,
    );
    assert(read =~= seq![
        OsReply::Code { code: fd, errno: noise.0 },
        OsReply::Address { address, errno: noise.1 },
        OsReply::Header { header },
    ]);
}

/// A queue that was made for items of one size cannot be opened for items of another, whatever else
/// the header holds.
pub proof fn law_another_item_size_is_refused(
    sizes: RegionSizes,
    replies: Seq<OsReply>,
    result: Result<Mapping, ShmError>,
)
    requires
        open_answered(sizes, replies),
        open_path(sizes, replies) == (OpenPhase::Return { result }),
        replies.len() >= 3,
        replies[2] matches OsReply::Header { header } && header.item_size != sizes.item_size,
    ensures
        result == Err::<Mapping, ShmError>(ShmError::ItemSizeMismatch),
{
    lemma_open_history(sizes, replies);
    if replies.len() == 3 {
        assert(replies.last() == replies[2]);
    }
}

} // verus!
