//! Creating a queue.

use crate::error::ShmError;
use crate::layout;
use crate::layout::{ExtentFault, RegionSizes};
use crate::os;
use crate::os::{Mapping, OsAction, OsReply};
use crate::region::ShmHeader;
use vstd::arithmetic::power2::*;
use vstd::prelude::*;

verus! {

/// Where the creation of a queue stands.
#[derive(Debug, Clone, Copy, PartialEq, Eq)]
pub enum CreatePhase {
    /// About to create the shared memory object.
    Open,
    /// About to give the object its size.
    Truncate { fd: i32, total_size: usize },
    /// About to map the object.
    MapRegion { fd: i32, total_size: usize },
    /// About to write the header.
    WriteHeader { fd: i32, total_size: usize, base: usize },
    /// About to write the slot `index`.
    WriteSlot { fd: i32, total_size: usize, base: usize, index: usize },
    /// A request failed; about to close the object.
    CloseFailed { fd: i32, errno: i32 },
    /// A request failed; about to remove the object.
    UnlinkFailed { errno: i32 },
    /// The creation is over.
    Return { result: Result<Mapping, ShmError> },
}

/// The creation of a queue, between two requests to the system.
pub struct CreateCall {
    /// The name of the shared memory object.
    pub name: String,
    pub capacity: usize,
    pub sizes: RegionSizes,
    pub phase: CreatePhase,
}

/// The header of a new queue.
pub open spec fn new_header(capacity: usize, sizes: RegionSizes) -> ShmHeader {
    ShmHeader {
        item_size: sizes.item_size,
        slot_size: sizes.slot_size,
        slots_offset: sizes.slots_offset() as usize,
        capacity,
        mask: (capacity - 1) as usize,
        enqueue_pos: 0,
        dequeue_pos: 0,
    }
}

/// The offset of a slot from the start of the region.
pub open spec fn slot_offset(sizes: RegionSizes, index: int) -> int {
    sizes.slots_offset() + index * sizes.slot_size
}

/// The size of a region with `capacity` slots.
pub open spec fn region_size(capacity: usize, sizes: RegionSizes) -> int {
    slot_offset(sizes, capacity as int)
}

/// The mapping of a new queue.
pub open spec fn new_mapping(capacity: usize, sizes: RegionSizes, fd: i32, base: usize) -> Mapping {
    Mapping {
        base,
        fd,
        layout_size: region_size(capacity, sizes) as usize,
        slots_offset: sizes.slots_offset() as usize,
        capacity,
        mask: (capacity - 1) as usize,
    }
}

/// The request that a creation waits for.
pub open spec fn create_pending(
    capacity: usize,
    sizes: RegionSizes,
    phase: CreatePhase,
) -> OsAction {
    match phase {
        CreatePhase::Open => OsAction::ShmOpen {
            flags: os::O_RDWR | os::O_CREAT | os::O_EXCL,
            mode: os::OWNER_READ_WRITE,
        },
        CreatePhase::Truncate { fd, total_size } => OsAction::Truncate {
            fd,
            size: total_size as i64,
        },
        CreatePhase::MapRegion { fd, total_size } => OsAction::map_shared(fd, total_size),
        CreatePhase::WriteHeader { base, .. } => OsAction::WriteHeader {
            address: base,
            header: new_header(capacity, sizes),
        },
        CreatePhase::WriteSlot { base, index, .. } => OsAction::WriteSlot {
            address: base,
            offset: slot_offset(sizes, index as int) as usize,
            sequence: index,
        },
        CreatePhase::CloseFailed { fd, .. } => OsAction::Close { fd },
        CreatePhase::UnlinkFailed { .. } => OsAction::Unlink,
        CreatePhase::Return { result } => OsAction::Return { result },
    }
}

/// Where a creation stands after a reply. The object exists once `shm_open` has succeeded; where it
/// cannot be sized or mapped, it is closed and removed again, and the creation fails with the error
/// of the request that failed.
pub open spec fn create_next(
    capacity: usize,
    sizes: RegionSizes,
    phase: CreatePhase,
    reply: OsReply,
) -> CreatePhase {
    match phase {
        CreatePhase::Open => if reply->code < 0 {
            CreatePhase::Return { result: Err(ShmError::Os { errno: reply->Code_errno }) }
        } else if capacity * sizes.slot_size > usize::MAX {
            CreatePhase::Return { result: Err(ShmError::CapacityTooLarge) }
        } else if region_size(capacity, sizes) > usize::MAX {
            CreatePhase::Return { result: Err(ShmError::LayoutOverflow) }
        } else {
            CreatePhase::Truncate {
                fd: reply->code,
                total_size: region_size(capacity, sizes) as usize,
            }
        },
        CreatePhase::Truncate { fd, total_size } => if reply->code != 0 {
            CreatePhase::CloseFailed { fd, errno: reply->Code_errno }
        } else {
            CreatePhase::MapRegion { fd, total_size }
        },
        CreatePhase::MapRegion { fd, total_size } => if reply->address == os::MAP_FAILED {
            CreatePhase::CloseFailed { fd, errno: reply->Address_errno }
        } else {
            CreatePhase::WriteHeader { fd, total_size, base: reply->address }
        },
        CreatePhase::WriteHeader { fd, total_size, base } => CreatePhase::WriteSlot {
            fd,
            total_size,
            base,
            index: 0,
        },
        CreatePhase::WriteSlot { fd, total_size, base, index } => if index + 1 < capacity {
            CreatePhase::WriteSlot { fd, total_size, base, index: (index + 1) as usize }
        } else {
            CreatePhase::Return { result: Ok(new_mapping(capacity, sizes, fd, base)) }
        },
        CreatePhase::CloseFailed { errno, .. } => CreatePhase::UnlinkFailed { errno },
        CreatePhase::UnlinkFailed { errno } => CreatePhase::Return {
            result: Err(ShmError::Os { errno }),
        },
        CreatePhase::Return { result } => CreatePhase::Return { result },
    }
}

/// What holds of each phase: the size is that of the region, and the slots are those of the queue.
pub open spec fn create_phase_wf(
    capacity: usize,
    sizes: RegionSizes,
    phase: CreatePhase,
) -> bool {
    match phase {
        CreatePhase::Truncate { total_size, .. } => total_size == region_size(capacity, sizes),
        CreatePhase::MapRegion { total_size, .. } => total_size == region_size(capacity, sizes),
        CreatePhase::WriteHeader { total_size, .. } => total_size == region_size(capacity, sizes),
        CreatePhase::WriteSlot { total_size, index, .. } => {
            &&& total_size == region_size(capacity, sizes)
            &&& index < capacity
        },
        _ => true,
    }
}

impl CreateCall {
    /// Whether the call has a capacity and sizes that it can work with, and stands where it can have
    /// come to.
    pub open spec fn wf(self) -> bool {
        &&& is_pow2(self.capacity as int)
        &&& self.sizes.valid()
        &&& create_phase_wf(self.capacity, self.sizes, self.phase)
    }

    /// The request that the creation waits for.
    pub open spec fn pending(self) -> OsAction {
        create_pending(self.capacity, self.sizes, self.phase)
    }

    /// The request that the creation waits for.
    pub fn action(&self) -> (action: OsAction)
        requires
            self.wf(),
        ensures
            action == self.pending(),
    {
        match self.phase {
            CreatePhase::Open => OsAction::ShmOpen {
                flags: os::O_RDWR | os::O_CREAT | os::O_EXCL,
                mode: os::OWNER_READ_WRITE,
            },
            CreatePhase::Truncate { fd, total_size } => OsAction::Truncate {
                fd,
                size: #[verifier::truncate] (total_size as i64),
            },
            CreatePhase::MapRegion { fd, total_size } => os::map_shared(fd, total_size),
            CreatePhase::WriteHeader { base, .. } => {
                proof {
                    reveal(is_pow2);
                }
                OsAction::WriteHeader {
                    address: base,
                    header: ShmHeader {
                        item_size: self.sizes.item_size,
                        slot_size: self.sizes.slot_size,
                        slots_offset: layout::align_up(
                            self.sizes.header_size,
                            self.sizes.slot_align,
                        ),
                        capacity: self.capacity,
                        mask: self.capacity - 1,
                        enqueue_pos: 0,
                        dequeue_pos: 0,
                    },
                }
            },
            CreatePhase::WriteSlot { base, index, .. } => {
                proof {
                    self.lemma_offsets(index as int);
                }
                let slots_offset: usize = layout::align_up(
                    self.sizes.header_size,
                    self.sizes.slot_align,
                );
                OsAction::WriteSlot {
                    address: base,
                    offset: slots_offset + index * self.sizes.slot_size,
                    sequence: index,
                }
            },
            CreatePhase::CloseFailed { fd, .. } => OsAction::Close { fd },
            CreatePhase::UnlinkFailed { .. } => OsAction::Unlink,
            CreatePhase::Return { result } => OsAction::Return { result },
        }
    }

    /// Takes the reply to the pending request and moves on.
    pub fn resume(self, reply: OsReply) -> (call: Self)
        requires
            self.wf(),
            self.pending().accepts(reply),
        ensures
            call.wf(),
            call.name == self.name,
            call.capacity == self.capacity,
            call.sizes == self.sizes,
            call.phase == create_next(self.capacity, self.sizes, self.phase, reply),
    {
        proof {
            reveal(is_pow2);
        }
        let phase = match (self.phase, reply) {
            (CreatePhase::Open, OsReply::Code { code, errno }) => if code < 0 {
                CreatePhase::Return { result: Err(ShmError::Os { errno }) }
            } else {
                let slots_offset: usize = layout::align_up(
                    self.sizes.header_size,
                    self.sizes.slot_align,
                );
                match layout::region_extent(slots_offset, self.capacity, self.sizes.slot_size) {
                    Err(ExtentFault::Slots) => CreatePhase::Return {
                        result: Err(ShmError::CapacityTooLarge),
                    },
                    Err(ExtentFault::Region) => CreatePhase::Return {
                        result: Err(ShmError::LayoutOverflow),
                    },
                    Ok(total_size) => CreatePhase::Truncate { fd: code, total_size },
                }
            },
            (CreatePhase::Truncate { fd, total_size }, OsReply::Code { code, errno }) => {
                if code != 0 {
                    CreatePhase::CloseFailed { fd, errno }
                } else {
                    CreatePhase::MapRegion { fd, total_size }
                }
            },
            (CreatePhase::MapRegion { fd, total_size }, OsReply::Address { address, errno }) => {
                if address == os::MAP_FAILED {
                    CreatePhase::CloseFailed { fd, errno }
                } else {
                    CreatePhase::WriteHeader { fd, total_size, base: address }
                }
            },
            (CreatePhase::WriteHeader { fd, total_size, base }, _) => CreatePhase::WriteSlot {
                fd,
                total_size,
                base,
                index: 0,
            },
            (CreatePhase::WriteSlot { fd, total_size, base, index }, _) => if index + 1
                < self.capacity {
                CreatePhase::WriteSlot { fd, total_size, base, index: index + 1 }
            } else {
                let slots_offset: usize = layout::align_up(
                    self.sizes.header_size,
                    self.sizes.slot_align,
                );
                CreatePhase::Return {
                    result: Ok(
                        Mapping {
                            base,
                            fd,
                            layout_size: total_size,
                            slots_offset,
                            capacity: self.capacity,
                            mask: self.capacity - 1,
                        },
                    ),
                }
            },
            (CreatePhase::CloseFailed { errno, .. }, _) => CreatePhase::UnlinkFailed { errno },
            (CreatePhase::UnlinkFailed { errno }, _) => CreatePhase::Return {
                result: Err(ShmError::Os { errno }),
            },
            (phase, _) => phase,
        };
        CreateCall { name: self.name, capacity: self.capacity, sizes: self.sizes, phase }
    }

    /// The offset of each slot is that of a slot inside of the region.
    proof fn lemma_offsets(self, index: int)
        requires
            self.wf(),
            region_size(self.capacity, self.sizes) <= usize::MAX,
            0 <= index < self.capacity,
        ensures
            0 <= self.sizes.slots_offset() <= slot_offset(self.sizes, index) <= usize::MAX,
            0 <= index * self.sizes.slot_size <= usize::MAX,
    {
        reveal(is_pow2);
        layout::lemma_aligned_up(self.sizes.header_size as int, self.sizes.slot_align as int);
        assert(0 <= index * self.sizes.slot_size <= self.capacity * self.sizes.slot_size)
            by (nonlinear_arith)
            requires
                0 <= index < self.capacity,
                0 <= self.sizes.slot_size,
        ;
    }
}

/// Where a creation stands after these replies.
pub open spec fn create_path(
    capacity: usize,
    sizes: RegionSizes,
    replies: Seq<OsReply>,
) -> CreatePhase
    decreases replies.len(),
{
    if replies.len() == 0 {
        CreatePhase::Open
    } else {
        create_next(
            capacity,
            sizes,
            create_path(capacity, sizes, replies.drop_last()),
            replies.last(),
        )
    }
}

/// Whether each reply answers the request that the creation has made by then.
pub open spec fn create_answered(
    capacity: usize,
    sizes: RegionSizes,
    replies: Seq<OsReply>,
) -> bool
    decreases replies.len(),
{
    replies.len() == 0 || {
        &&& create_answered(capacity, sizes, replies.drop_last())
        &&& create_request(capacity, sizes, replies.drop_last()).accepts(replies.last())
    }
}

/// The request that a creation makes after these replies.
pub open spec fn create_request(
    capacity: usize,
    sizes: RegionSizes,
    replies: Seq<OsReply>,
) -> OsAction {
    create_pending(capacity, sizes, create_path(capacity, sizes, replies))
}

/// Where a creation stands that nothing has disturbed, after `n` replies.
spec fn undisturbed(
    capacity: usize,
    sizes: RegionSizes,
    fd: i32,
    base: usize,
    n: int,
) -> CreatePhase {
    let total_size = region_size(capacity, sizes) as usize;
    if n == 0 {
        CreatePhase::Open
    } else if n == 1 {
        CreatePhase::Truncate { fd, total_size }
    } else if n == 2 {
        CreatePhase::MapRegion { fd, total_size }
    } else if n == 3 {
        CreatePhase::WriteHeader { fd, total_size, base }
    } else if n < 4 + capacity {
        CreatePhase::WriteSlot { fd, total_size, base, index: (n - 4) as usize }
    } else {
        CreatePhase::Return { result: Ok(new_mapping(capacity, sizes, fd, base)) }
    }
}

/// Whether a creation has not failed.
spec fn on_track(phase: CreatePhase) -> bool {
    match phase {
        CreatePhase::CloseFailed { .. } => false,
        CreatePhase::UnlinkFailed { .. } => false,
        CreatePhase::Return { result } => result is Ok,
        _ => true,
    }
}

/// A creation that has not failed stands where an undisturbed one does.
proof fn lemma_on_track(capacity: usize, sizes: RegionSizes, replies: Seq<OsReply>)
    requires
        is_pow2(capacity as int),
        sizes.valid(),
        create_answered(capacity, sizes, replies),
        on_track(create_path(capacity, sizes, replies)),
    ensures
        replies.len() <= 4 + capacity,
        replies.len() > 0 ==> replies[0]->code >= 0,
        replies.len() > 0 ==> region_size(capacity, sizes) <= usize::MAX,
        create_path(capacity, sizes, replies) == undisturbed(
            capacity,
            sizes,
            replies[0]->code,
            replies[2]->address,
            replies.len() as int,
        ),
    decreases replies.len(),
{
    reveal(is_pow2);
    if replies.len() > 0 {
        let before = replies.drop_last();
        lemma_on_track(capacity, sizes, before);
    }
}

/// Nothing brings a failed creation back on track.
proof fn lemma_prefix_on_track(capacity: usize, sizes: RegionSizes, replies: Seq<OsReply>, n: int)
    requires
        create_answered(capacity, sizes, replies),
        on_track(create_path(capacity, sizes, replies)),
        0 <= n <= replies.len(),
    ensures
        create_answered(capacity, sizes, replies.take(n)),
        on_track(create_path(capacity, sizes, replies.take(n))),
    decreases replies.len(),
{
    if n < replies.len() {
        let before = replies.drop_last();
        lemma_prefix_on_track(capacity, sizes, before, n);
        assert(before.take(n) =~= replies.take(n));
    } else {
        assert(replies.take(n) =~= replies);
    }
}

/// A creation that succeeds has created the object, sized it, mapped it, and written the header and
/// then each slot once, the `i`-th with the sequence number `i`; it has neither closed nor removed
/// anything. It gives back the mapping of that region.
pub proof fn law_created_means_initialised(
    capacity: usize,
    sizes: RegionSizes,
    replies: Seq<OsReply>,
    mapping: Mapping,
)
    requires
        is_pow2(capacity as int),
        sizes.valid(),
        create_answered(capacity, sizes, replies),
        create_path(capacity, sizes, replies) == (CreatePhase::Return { result: Ok(mapping) }),
    ensures
        replies.len() == 4 + capacity,
        mapping == new_mapping(capacity, sizes, replies[0]->code, replies[2]->address),
        mapping.fd >= 0,
        mapping.layout_size == region_size(capacity, sizes),
        ({
            let offset = sizes.slots_offset();
            let end = offset + capacity * sizes.slot_size;
            &&& end <= usize::MAX
            &&& mapping == (Mapping {
                base: replies[2]->address,
                fd: replies[0]->code,
                layout_size: end as usize,
                slots_offset: offset as usize,
                capacity,
                mask: (capacity - 1) as usize,
            })
            &&& create_request(capacity, sizes, replies.take(3)) == (OsAction::WriteHeader {
                address: replies[2]->address,
                header: ShmHeader {
                    item_size: sizes.item_size,
                    slot_size: sizes.slot_size,
                    slots_offset: offset as usize,
                    capacity,
                    mask: (capacity - 1) as usize,
                    enqueue_pos: 0,
                    dequeue_pos: 0,
                },
            })
            &&& forall|i: int| 0 <= i < capacity ==> #[trigger] create_request(
                capacity,
                sizes,
                replies.take(4 + i),
            ) == (OsAction::WriteSlot {
                address: replies[2]->address,
                offset: (offset + i * sizes.slot_size) as usize,
                sequence: i as usize,
            })
        }),
        create_request(capacity, sizes, replies.take(0)) == (OsAction::ShmOpen {
            flags: os::O_RDWR | os::O_CREAT | os::O_EXCL,
            mode: os::OWNER_READ_WRITE,
        }),
        create_request(capacity, sizes, replies.take(1)) == (OsAction::Truncate {
            fd: mapping.fd,
            size: mapping.layout_size as i64,
        }),
        create_request(capacity, sizes, replies.take(2)) == OsAction::map_shared(
            mapping.fd,
            mapping.layout_size,
        ),
        create_request(capacity, sizes, replies.take(3)) == (OsAction::WriteHeader {
            address: mapping.base,
            header: new_header(capacity, sizes),
        }),
        forall|i: int| 0 <= i < capacity ==> #[trigger] create_request(
            capacity,
            sizes,
            replies.take(4 + i),
        ) == (OsAction::WriteSlot {
            address: mapping.base,
            offset: slot_offset(sizes, i) as usize,
            sequence: i as usize,
        }),
{
    reveal(is_pow2);
    lemma_on_track(capacity, sizes, replies);
    layout::lemma_aligned_up(sizes.header_size as int, sizes.slot_align as int);
    assert(capacity * sizes.slot_size >= 0) by (nonlinear_arith)
        requires
            capacity >= 0,
            sizes.slot_size >= 0,
    ;
    assert forall|n: int| 0 <= n < replies.len() implies create_path(
        capacity,
        sizes,
        #[trigger] replies.take(n),
    ) == undisturbed(capacity, sizes, replies[0]->code, replies[2]->address, n) by {
        lemma_prefix_on_track(capacity, sizes, replies, n);
        lemma_on_track(capacity, sizes, replies.take(n));
        if n > 0 {
            assert(replies.take(n)[0] == replies[0]);
        }
        if n > 2 {
            assert(replies.take(n)[2] == replies[2]);
        }
    }
}

/// Every step of a creation that goes wrong after the object was created closes the object and
/// removes it, in that order and as its last two requests, and the creation then reports the error
/// of the request that went wrong. The exception is a capacity whose region does not fit in the
/// address space: it is found right after the object was created, and nothing more is requested.
pub proof fn law_failed_creation_cleans_up(
    capacity: usize,
    sizes: RegionSizes,
    replies: Seq<OsReply>,
    error: ShmError,
)
    requires
        create_answered(capacity, sizes, replies),
        create_path(capacity, sizes, replies) == (CreatePhase::Return { result: Err(error) }),
    ensures
        replies.len() == 1 <==> {
            ||| replies[0]->code < 0
            ||| region_size(capacity, sizes) > usize::MAX
            ||| capacity * sizes.slot_size > usize::MAX
        },
        replies.len() == 1 && replies[0]->code < 0 ==> error == (ShmError::Os {
            errno: replies[0]->Code_errno,
        }),
        replies.len() == 1 && replies[0]->code >= 0 ==> error is CapacityTooLarge
            || error is LayoutOverflow,
        replies.len() > 1 ==> {
            let last = replies.len() as int;
            &&& last >= 4
            &&& create_request(capacity, sizes, replies.take(last - 2)) == (OsAction::Close {
                fd: replies[0]->code,
            })
            &&& create_request(capacity, sizes, replies.take(last - 1)) == OsAction::Unlink
            &&& match replies[last - 3] {
                OsReply::Code { code, errno } => code != 0 && error == (ShmError::Os { errno }),
                OsReply::Address { address, errno } => address == os::MAP_FAILED && error == (
                ShmError::Os { errno }),
                _ => false,
            }
        },
{
    lemma_failure(capacity, sizes, replies);
    assert(replies.take(replies.len() as int) =~= replies);
}

/// How a failing creation got to where it stands.
proof fn lemma_failure(capacity: usize, sizes: RegionSizes, replies: Seq<OsReply>)
    requires
        create_answered(capacity, sizes, replies),
    ensures
        ({
            let n = replies.len() as int;
            let fits = region_size(capacity, sizes) <= usize::MAX && capacity * sizes.slot_size
                <= usize::MAX;
            let created = n >= 1 && replies[0]->code >= 0 && fits;
            match create_path(capacity, sizes, replies) {
                CreatePhase::Open => n == 0,
                CreatePhase::Truncate { fd, .. } => created && n == 1 && fd == replies[0]->code,
                CreatePhase::MapRegion { fd, .. } => created && n == 2 && fd == replies[0]->code,
                CreatePhase::WriteHeader { .. } => created && n >= 3,
                CreatePhase::WriteSlot { .. } => created && n >= 4,
                CreatePhase::CloseFailed { fd, errno } => {
                    &&& created
                    &&& n >= 2
                    &&& fd == replies[0]->code
                    &&& failed_with(replies[n - 1], errno)
                },
                CreatePhase::UnlinkFailed { errno } => {
                    &&& created
                    &&& n >= 3
                    &&& failed_with(replies[n - 2], errno)
                    &&& create_request(capacity, sizes, replies.take(n - 1)) == (OsAction::Close {
                        fd: replies[0]->code,
                    })
                },
                CreatePhase::Return { result: Err(error) } => if n == 1 {
                    if replies[0]->code < 0 {
                        error == (ShmError::Os { errno: replies[0]->Code_errno })
                    } else {
                        !fits && (error is CapacityTooLarge || error is LayoutOverflow)
                    }
                } else {
                    &&& created
                    &&& n >= 4
                    &&& error is Os
                    &&& failed_with(replies[n - 3], error->Os_errno)
                    &&& create_request(capacity, sizes, replies.take(n - 2)) == (OsAction::Close {
                        fd: replies[0]->code,
                    })
                    &&& create_request(capacity, sizes, replies.take(n - 1)) == OsAction::Unlink
                },
                CreatePhase::Return { result: Ok(_) } => created && n >= 5,
            }
        }),
    decreases replies.len(),
{
    if replies.len() > 0 {
        let before = replies.drop_last();
        let n = replies.len() as int;
        lemma_failure(capacity, sizes, before);
        assert(replies.take(n - 1) =~= before);
        if n >= 2 {
            assert(replies.take(n - 2) =~= before.take(n - 2));
        }
    }
}

/// Whether a reply reports a failure with this error number.
spec fn failed_with(reply: OsReply, errno: i32) -> bool {
    match reply {
        OsReply::Code { code, errno: e } => code != 0 && errno == e,
        OsReply::Address { address, errno: e } => address == os::MAP_FAILED && errno == e,
        _ => false,
    }
}

/// A creation removes an object only after it has created it itself: `shm_open` has succeeded with
/// the flags that refuse an existing object.
pub proof fn law_only_own_objects_are_removed(
    capacity: usize,
    sizes: RegionSizes,
    replies: Seq<OsReply>,
)
    requires
        create_answered(capacity, sizes, replies),
        create_request(capacity, sizes, replies) == OsAction::Unlink,
    ensures
        replies.len() >= 1,
        replies[0]->code >= 0,
        create_request(capacity, sizes, replies.take(0)) == (OsAction::ShmOpen {
            flags: os::O_RDWR | os::O_CREAT | os::O_EXCL,
            mode: os::OWNER_READ_WRITE,
        }),
{
    lemma_failure(capacity, sizes, replies);
}

/// One more reply moves a creation on by one step.
proof fn lemma_create_extend(
    capacity: usize,
    sizes: RegionSizes,
    replies: Seq<OsReply>,
    reply: OsReply,
)
    ensures
        create_path(capacity, sizes, replies.push(reply)) == create_next(
            capacity,
            sizes,
            create_path(capacity, sizes, replies),
            reply,
        ),
        create_answered(capacity, sizes, replies.push(reply)) <==> create_answered(
            capacity,
            sizes,
            replies,
        ) && create_request(capacity, sizes, replies).accepts(reply),
{
    assert(replies.push(reply).drop_last() =~= replies);
}

/// How a creation begins, whatever the system answers: it asks for an object that does not exist yet
/// (to read and write, to create, and to refuse an existing one: 2, 64 and 128) and that its owner may
/// read and write, and where there is one, gives it the size of the header, the padding and all
/// slots, and maps it whole. Where the system refuses, the error of the system is returned, and an
/// object that has been created is closed and removed first. A region that does not fit in the
/// address space ends the creation.
pub proof fn law_creation_sizes_and_maps_the_region(
    capacity: usize,
    sizes: RegionSizes,
    fd: i32,
    errno: i32,
    sized: i32,
    size_errno: i32,
    address: usize,
    map_errno: i32,
    codes: (i32, i32, i32, i32),
)
    ensures
        ({
            let none = Seq::<OsReply>::empty();
            let opened = none.push(OsReply::Code { code: fd, errno });
            let truncated = opened.push(OsReply::Code { code: sized, errno: size_errno });
            let mapped = truncated.push(OsReply::Address { address, errno: map_errno });
            let close = OsReply::Code { code: codes.0, errno: codes.1 };
            let unlink = OsReply::Code { code: codes.2, errno: codes.3 };
            let slots = capacity * sizes.slot_size;
            let end = sizes.slots_offset() + slots;
            let fits = slots <= usize::MAX && end <= usize::MAX;
            &&& create_request(capacity, sizes, none) == (OsAction::ShmOpen {
                flags: 194,
                mode: 384,
            })
            &&& create_answered(capacity, sizes, opened)
            &&& fd < 0 ==> create_request(capacity, sizes, opened) == (OsAction::Return {
                result: Err(ShmError::Os { errno }),
            })
            &&& fd >= 0 && slots > usize::MAX ==> create_request(capacity, sizes, opened) == (
            OsAction::Return { result: Err(ShmError::CapacityTooLarge) })
            &&& fd >= 0 && slots <= usize::MAX < end ==> create_request(capacity, sizes, opened)
                == (OsAction::Return { result: Err(ShmError::LayoutOverflow) })
            &&& fd >= 0 && fits ==> {
                &&& create_request(capacity, sizes, opened) == (OsAction::Truncate {
                    fd,
                    size: end as usize as i64,
                })
                &&& create_answered(capacity, sizes, truncated)
                &&& sized != 0 ==> {
                    &&& create_request(capacity, sizes, truncated) == (OsAction::Close { fd })
                    &&& create_request(capacity, sizes, truncated.push(close)) == OsAction::Unlink
                    &&& create_answered(capacity, sizes, truncated.push(close).push(unlink))
                    &&& create_request(capacity, sizes, truncated.push(close).push(unlink)) == (
                    OsAction::Return { result: Err(ShmError::Os { errno: size_errno }) })
                }
                &&& sized == 0 ==> {
                    &&& create_request(capacity, sizes, truncated) == (OsAction::MapShared {
                        length: end as usize,
                        prot: 3,
                        flags: 1,
                        fd,
                        start: 0,
                    })
                    &&& create_answered(capacity, sizes, mapped)
                    &&& address == usize::MAX ==> {
                        &&& create_request(capacity, sizes, mapped) == (OsAction::Close { fd })
                        &&& create_request(capacity, sizes, mapped.push(close)) == OsAction::Unlink
                        &&& create_answered(capacity, sizes, mapped.push(close).push(unlink))
                        &&& create_request(capacity, sizes, mapped.push(close).push(unlink)) == (
                        OsAction::Return { result: Err(ShmError::Os { errno: map_errno }) })
                    }
                    &&& address != usize::MAX ==> create_request(capacity, sizes, mapped) == (
                    OsAction::WriteHeader {
                        address,
                        header: ShmHeader {
                            item_size: sizes.item_size,
                            slot_size: sizes.slot_size,
                            slots_offset: sizes.slots_offset() as usize,
                            capacity,
                            mask: (capacity - 1) as usize,
                            enqueue_pos: 0,
                            dequeue_pos: 0,
                        },
                    })
                }
            }
        }),
{
    let none = Seq::<OsReply>::empty();
    let opened = none.push(OsReply::Code { code: fd, errno });
    let truncated = opened.push(OsReply::Code { code: sized, errno: size_errno });
    let mapped = truncated.push(OsReply::Address { address, errno: map_errno });
    let close = OsReply::Code { code: codes.0, errno: codes.1 };
    let unlink = OsReply::Code { code: codes.2, errno: codes.3 };
    lemma_create_extend(capacity, sizes, none, OsReply::Code { code: fd, errno });
    lemma_create_extend(
        capacity,
        sizes,
        opened,
        OsReply::Code { code: sized, errno: size_errno },
    );
    lemma_create_extend(capacity, sizes, truncated, close);
    lemma_create_extend(capacity, sizes, truncated.push(close), unlink);
    lemma_create_extend(
        capacity,
        sizes,
        truncated,
        OsReply::Address { address, errno: map_errno },
    );
    lemma_create_extend(capacity, sizes, mapped, close);
    lemma_create_extend(capacity, sizes, mapped.push(close), unlink);
    os::law_mappings_are_shared(fd, region_size(capacity, sizes) as usize);
    assert(2i32 | 64i32 | 128i32 == 194i32) by (bit_vector);
}

/// A creation succeeds where the system does what it is asked: once the object has been created,
/// sized and mapped, and the header and as many slots as the capacity says have been written, the
/// creation is over and has succeeded. Until then it asks for the next of these.
pub proof fn law_creation_succeeds_where_the_system_does(
    capacity: usize,
    sizes: RegionSizes,
    replies: Seq<OsReply>,
)
    requires
        is_pow2(capacity as int),
        is_pow2(sizes.slot_align as int),
        sizes.header_size + sizes.slot_align <= usize::MAX,
        sizes.slots_offset() + capacity * sizes.slot_size <= usize::MAX,
        replies.len() <= 4 + capacity,
        forall|i: int| 3 <= i < replies.len() ==> #[trigger] replies[i] == OsReply::Done,
        replies.len() > 0 ==> (replies[0] matches OsReply::Code { code, .. } && code >= 0),
        replies.len() > 1 ==> (replies[1] matches OsReply::Code { code, .. } && code == 0),
        replies.len() > 2 ==> (replies[2] matches OsReply::Address { address, .. } && address
            != usize::MAX),
    ensures
        create_answered(capacity, sizes, replies),
        match create_request(capacity, sizes, replies) {
            OsAction::ShmOpen { .. } => replies.len() == 0,
            OsAction::Truncate { .. } => replies.len() == 1,
            OsAction::MapShared { .. } => replies.len() == 2,
            OsAction::WriteHeader { .. } => replies.len() == 3,
            OsAction::WriteSlot { sequence, .. } => replies.len() == 4 + sequence
                && replies.len() < 4 + capacity,
            OsAction::Return { result } => replies.len() == 4 + capacity && result is Ok,
            _ => false,
        },
    decreases replies.len(),
{
    reveal(is_pow2);
    layout::law_slots_start_right_behind_the_header(sizes, 0);
    assert(capacity * sizes.slot_size >= 0) by (nonlinear_arith)
        requires
            capacity >= 0,
            sizes.slot_size >= 0,
    ;
    lemma_undisturbed(capacity, sizes, replies);
}

/// A creation that the system does not disturb stands where an undisturbed one does.
proof fn lemma_undisturbed(capacity: usize, sizes: RegionSizes, replies: Seq<OsReply>)
    requires
        capacity > 0,
        capacity * sizes.slot_size <= usize::MAX,
        0 <= region_size(capacity, sizes) <= usize::MAX,
        replies.len() <= 4 + capacity,
        forall|i: int| 3 <= i < replies.len() ==> #[trigger] replies[i] == OsReply::Done,
        replies.len() > 0 ==> (replies[0] matches OsReply::Code { code, .. } && code >= 0),
        replies.len() > 1 ==> (replies[1] matches OsReply::Code { code, .. } && code == 0),
        replies.len() > 2 ==> (replies[2] matches OsReply::Address { address, .. } && address
            != usize::MAX),
    ensures
        create_answered(capacity, sizes, replies),
        create_path(capacity, sizes, replies) == undisturbed(
            capacity,
            sizes,
            replies[0]->code,
            replies[2]->address,
            replies.len() as int,
        ),
    decreases replies.len(),
{
    if replies.len() > 0 {
        let before = replies.drop_last();
        assert forall|i: int| 3 <= i < before.len() implies #[trigger] before[i]
            == OsReply::Done by {
            assert(replies[i] == before[i]);
        }
        lemma_undisturbed(capacity, sizes, before);
    }
}

} // verus!
