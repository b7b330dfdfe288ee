//! What a call asks of the operating system and of mapped memory, and what comes back.

use crate::error::ShmError;
use crate::region::ShmHeader;
use vstd::prelude::*;

verus! {

pub const O_RDWR: i32 = 2;

pub const O_CREAT: i32 = 64;

pub const O_EXCL: i32 = 128;

pub const PROT_READ: i32 = 1;

pub const PROT_WRITE: i32 = 2;

pub const MAP_SHARED: i32 = 1;

/// The address that `mmap` returns where it fails.
pub const MAP_FAILED: usize = usize::MAX;

/// The mode of a new shared memory object: its owner may read and write it.
pub const OWNER_READ_WRITE: i32 = 384;

/// A mapped region.
#[derive(Debug, Clone, Copy, PartialEq, Eq, Structural)]
pub struct Mapping {
    /// The address at which the region is mapped.
    pub base: usize,
    /// The file descriptor of the shared memory object.
    pub fd: i32,
    /// The size of the region in bytes.
    pub layout_size: usize,
    /// Where the slots start, in bytes from the start of the region.
    pub slots_offset: usize,
    /// The number of slots.
    pub capacity: usize,
    /// One less than the number of slots.
    pub mask: usize,
}

/// One request of a call. `shm_open` and `shm_unlink` are made with the name of the call.
#[derive(Debug, Clone, Copy, PartialEq, Eq)]
pub enum OsAction {
    ShmOpen { flags: i32, mode: i32 },
    Truncate { fd: i32, size: i64 },
    /// Maps the object from the byte `start` on, at any address.
    MapShared { length: usize, prot: i32, flags: i32, fd: i32, start: i64 },
    Unmap { address: usize, length: usize },
    Close { fd: i32 },
    Unlink,
    /// Reads the header at this address.
    ReadHeader { address: usize },
    /// Writes the header at this address.
    WriteHeader { address: usize, header: ShmHeader },
    /// Writes a slot with this sequence number and no item, so many bytes behind the address.
    WriteSlot { address: usize, offset: usize, sequence: usize },
    /// The call is over.
    Return { result: Result<Mapping, ShmError> },
}

/// What a request gave back. The error number is that of the request, taken right after it, and
/// means nothing unless the request failed.
#[derive(Debug, Clone, Copy, PartialEq, Eq, Structural)]
pub enum OsReply {
    /// The result of `shm_open`, `ftruncate`, `munmap`, `close` or `shm_unlink`.
    Code { code: i32, errno: i32 },
    /// The result of `mmap`.
    Address { address: usize, errno: i32 },
    /// The header that was read.
    Header { header: ShmHeader },
    /// Memory has been written.
    Done,
}

impl OsAction {
    /// Whether a reply is one to this request.
    pub open spec fn accepts(self, reply: OsReply) -> bool {
        match self {
            OsAction::ShmOpen { .. } => reply is Code,
            OsAction::Truncate { .. } => reply is Code,
            OsAction::MapShared { .. } => reply is Address,
            OsAction::Unmap { .. } => reply is Code,
            OsAction::Close { .. } => reply is Code,
            OsAction::Unlink => reply is Code,
            OsAction::ReadHeader { .. } => reply is Header,
            OsAction::WriteHeader { .. } => reply is Done,
            OsAction::WriteSlot { .. } => reply is Done,
            OsAction::Return { .. } => false,
        }
    }

    /// The request to map `length` bytes of an object for reading and writing, shared with others.
    pub open spec fn map_shared(fd: i32, length: usize) -> Self {
        OsAction::MapShared {
            length,
            prot: PROT_READ | PROT_WRITE,
            flags: MAP_SHARED,
            fd,
            start: 0,
        }
    }
}

/// Requests that map `length` bytes of an object for reading and writing, shared with others.
pub fn map_shared(fd: i32, length: usize) -> (action: OsAction)
    ensures
        action == OsAction::map_shared(fd, length),
{
    OsAction::MapShared { length, prot: PROT_READ | PROT_WRITE, flags: MAP_SHARED, fd, start: 0 }
}

impl Mapping {
    /// What is to be done when the mapping is dropped: unmap the region, unless the mapping has no
    /// address or no size, and close the descriptor, unless it has none.
    pub fn release(&self) -> (actions: Vec<OsAction>)
        ensures
            actions@ == self.release_actions(),
            actions@.len() <= 2,
            self.base != 0 && self.layout_size > 0 ==> actions@.len() > 0 && actions@[0] == (
            OsAction::Unmap { address: self.base, length: self.layout_size }),
            self.fd >= 0 ==> actions@.len() > 0 && actions@.last() == (OsAction::Close {
                fd: self.fd,
            }),
    {
        let mut actions: Vec<OsAction> = Vec::new();
        if self.base != 0 && self.layout_size > 0 {
            actions.push(OsAction::Unmap { address: self.base, length: self.layout_size });
        }
        if self.fd >= 0 {
            actions.push(OsAction::Close { fd: self.fd });
        }
        proof {
            assert(actions@ =~= self.release_actions());
        }
        actions
    }

    /// The requests that undo the mapping, in order.
    pub open spec fn release_actions(self) -> Seq<OsAction> {
        let unmap = if self.base != 0 && self.layout_size > 0 {
            seq![OsAction::Unmap { address: self.base, length: self.layout_size }]
        } else {
            Seq::empty()
        };
        if self.fd >= 0 {
            unmap.push(OsAction::Close { fd: self.fd })
        } else {
            unmap
        }
    }
}

/// Dropping a mapping gives up what the mapping holds and nothing else: the region is unmapped once,
/// whole, exactly where there is one, and after that the descriptor is closed once, exactly where
/// there is one.
pub proof fn law_release_gives_up_what_is_held(mapping: Mapping)
    ensures
        ({
            let actions = mapping.release_actions();
            let mapped = mapping.base != 0 && mapping.layout_size > 0;
            let opened = mapping.fd >= 0;
            let unmap = OsAction::Unmap { address: mapping.base, length: mapping.layout_size };
            let close = OsAction::Close { fd: mapping.fd };
            &&& mapped && opened ==> actions == seq![unmap, close]
            &&& mapped && !opened ==> actions == seq![unmap]
            &&& !mapped && opened ==> actions == seq![close]
            &&& !mapped && !opened ==> actions.len() == 0
        }),
{
    let actions = mapping.release_actions();
    let unmap = OsAction::Unmap { address: mapping.base, length: mapping.layout_size };
    let close = OsAction::Close { fd: mapping.fd };
    if mapping.base != 0 && mapping.layout_size > 0 && mapping.fd >= 0 {
        assert(actions =~= seq![unmap, close]);
    } else if mapping.fd >= 0 {
        assert(actions =~= seq![close]);
    }
}

/// A mapping request asks for all of the given length, from the start of the object, readable and
/// writable, and shared with the others that map the object.
pub proof fn law_mappings_are_shared(fd: i32, length: usize)
    ensures
        OsAction::map_shared(fd, length) == (OsAction::MapShared {
            length,
            prot: 3,
            flags: 1,
            fd,
            start: 0,
        }),
{
    assert(1i32 | 2i32 == 3i32) by (bit_vector);
}

} // verus!
