//! The requests of creating, opening, removing and dropping a queue, and the pieces they use.

use shared_shmem_queue::create::CreateCall;
use shared_shmem_queue::error::{ShmError, ShmErrorKind};
use shared_shmem_queue::layout::{
    align_up, is_power_of_two, region_extent, ExtentFault, RegionSizes,
};
use shared_shmem_queue::name::to_cstring;
use shared_shmem_queue::open::{check_header, OpenCall};
use shared_shmem_queue::os::{Mapping, OsAction, OsReply};
use shared_shmem_queue::queue::ShmRingBuffer;
use shared_shmem_queue::region::ShmHeader;

const SIZES: RegionSizes = RegionSizes {
    header_size: 56,
    item_size: 4,
    slot_size: 16,
    slot_align: 8,
};

fn header() -> ShmHeader {
    ShmHeader {
        item_size: 4,
        slot_size: 16,
        slots_offset: 56,
        capacity: 2,
        mask: 1,
        enqueue_pos: 9,
        dequeue_pos: 8,
    }
}

fn code(code: i32, errno: i32) -> OsReply {
    OsReply::Code { code, errno }
}

fn address(address: usize, errno: i32) -> OsReply {
    OsReply::Address { address, errno }
}

/// The requests that a creation makes, given the replies.
fn create_requests(capacity: usize, sizes: RegionSizes, replies: &[OsReply]) -> Vec<OsAction> {
    let mut call: CreateCall = ShmRingBuffer::<u32>::create("q", capacity, sizes).ok().unwrap();
    let mut requests = vec![call.action()];
    for reply in replies {
        call = call.resume(*reply);
        requests.push(call.action());
    }
    requests
}

/// The requests that an opening makes, given the replies.
fn open_requests(replies: &[OsReply]) -> Vec<OsAction> {
    let mut call: OpenCall = ShmRingBuffer::<u32>::open("q", SIZES).ok().unwrap();
    let mut requests = vec![call.action()];
    for reply in replies {
        call = call.resume(*reply);
        requests.push(call.action());
    }
    requests
}

fn map(fd: i32, length: usize) -> OsAction {
    OsAction::MapShared { length, prot: 3, flags: 1, fd, start: 0 }
}

fn failed(error: ShmError) -> OsAction {
    OsAction::Return { result: Err(error) }
}

#[test]
fn creation_makes_these_requests() {
    let requests = create_requests(
        2,
        SIZES,
        &[code(5, 0), code(0, 0), address(8192, 0), OsReply::Done, OsReply::Done, OsReply::Done],
    );
    let mapping = Mapping {
        base: 8192,
        fd: 5,
        layout_size: 88,
        slots_offset: 56,
        capacity: 2,
        mask: 1,
    };
    let expected = vec![
        OsAction::ShmOpen { flags: 0o302, mode: 0o600 },
        OsAction::Truncate { fd: 5, size: 88 },
        map(5, 88),
        OsAction::WriteHeader {
            address: 8192,
            header: ShmHeader { enqueue_pos: 0, dequeue_pos: 0, ..header() },
        },
        OsAction::WriteSlot { address: 8192, offset: 56, sequence: 0 },
        OsAction::WriteSlot { address: 8192, offset: 72, sequence: 1 },
        OsAction::Return { result: Ok(mapping) },
    ];
    assert_eq!(requests, expected);
}

#[test]
fn creation_aligns_the_slots() {
    let sizes = RegionSizes { header_size: 56, item_size: 16, slot_size: 32, slot_align: 16 };
    let replies = [code(5, 0), code(0, 0), address(64, 0), OsReply::Done];
    let requests = create_requests(1, sizes, &replies);
    assert_eq!(requests[1], OsAction::Truncate { fd: 5, size: 96 });
    assert_eq!(requests[4], OsAction::WriteSlot { address: 64, offset: 64, sequence: 0 });
}

#[test]
fn creation_that_cannot_open_just_fails() {
    let requests = create_requests(2, SIZES, &[code(-1, 13)]);
    assert_eq!(requests[1], failed(ShmError::Os { errno: 13 }));
}

#[test]
fn creation_that_cannot_size_the_object_removes_it() {
    let requests = create_requests(2, SIZES, &[code(5, 0), code(-1, 22), code(-1, 9), code(-1, 2)]);
    assert_eq!(requests[2], OsAction::Close { fd: 5 });
    assert_eq!(requests[3], OsAction::Unlink);
    assert_eq!(requests[4], failed(ShmError::Os { errno: 22 }));
}

#[test]
fn creation_that_cannot_map_the_object_removes_it() {
    let requests = create_requests(
        2,
        SIZES,
        &[code(5, 0), code(0, 0), address(usize::MAX, 12), code(0, 0), code(0, 0)],
    );
    assert_eq!(requests[3], OsAction::Close { fd: 5 });
    assert_eq!(requests[4], OsAction::Unlink);
    assert_eq!(requests[5], failed(ShmError::Os { errno: 12 }));
}

#[test]
fn creation_of_too_large_a_region_fails() {
    let half = usize::MAX / 2 + 1;
    let requests = create_requests(half, SIZES, &[code(5, 0)]);
    assert_eq!(requests[1], failed(ShmError::CapacityTooLarge));
    let sizes = RegionSizes { slot_size: 1, slot_align: 1, header_size: half, ..SIZES };
    let requests = create_requests(half, sizes, &[code(5, 0)]);
    assert_eq!(requests[1], failed(ShmError::LayoutOverflow));
}

#[test]
fn arguments_of_creation_are_checked() {
    for capacity in [0usize, 3, 6, 12, usize::MAX] {
        let refused = ShmRingBuffer::<u32>::create("q", capacity, SIZES).err();
        assert_eq!(refused, Some(ShmError::CapacityNotPowerOfTwo));
    }
    assert_eq!(
        ShmRingBuffer::<u32>::create("", 3, SIZES).err(),
        Some(ShmError::CapacityNotPowerOfTwo)
    );
    assert_eq!(ShmRingBuffer::<u32>::create("", 4, SIZES).err(), Some(ShmError::EmptyName));
    assert_eq!(
        ShmRingBuffer::<u32>::create("a\0b", 4, SIZES).err(),
        Some(ShmError::NameContainsNul)
    );
    assert_eq!(ShmRingBuffer::<u32>::open("", SIZES).err(), Some(ShmError::EmptyName));
    assert_eq!(ShmRingBuffer::<u32>::open("\0", SIZES).err(), Some(ShmError::NameContainsNul));
    assert_eq!(ShmRingBuffer::<u32>::unlink("").err(), Some(ShmError::EmptyName));
    assert_eq!(ShmRingBuffer::<u32>::unlink("a\0").err(), Some(ShmError::NameContainsNul));
}

#[test]
fn opening_makes_these_requests() {
    let requests = open_requests(&[
        code(6, 0),
        address(4096, 0),
        OsReply::Header { header: header() },
        code(0, 0),
        address(12288, 0),
    ]);
    let mapping = Mapping {
        base: 12288,
        fd: 6,
        layout_size: 88,
        slots_offset: 56,
        capacity: 2,
        mask: 1,
    };
    let expected = vec![
        OsAction::ShmOpen { flags: 2, mode: 0 },
        map(6, 56),
        OsAction::ReadHeader { address: 4096 },
        OsAction::Unmap { address: 4096, length: 56 },
        map(6, 88),
        OsAction::Return { result: Ok(mapping) },
    ];
    assert_eq!(requests, expected);
}

#[test]
fn opening_that_fails_closes_the_object() {
    assert_eq!(open_requests(&[code(-1, 2)])[1], failed(ShmError::Os { errno: 2 }));
    let requests = open_requests(&[code(6, 0), address(usize::MAX, 12), code(0, 0)]);
    assert_eq!(requests[2], OsAction::Close { fd: 6 });
    assert_eq!(requests[3], failed(ShmError::Os { errno: 12 }));
    let requests = open_requests(&[
        code(6, 0),
        address(4096, 0),
        OsReply::Header { header: header() },
        code(0, 0),
        address(usize::MAX, 12),
        code(0, 0),
    ]);
    assert_eq!(requests[5], OsAction::Close { fd: 6 });
    assert_eq!(requests[6], failed(ShmError::Os { errno: 12 }));
}

#[test]
fn opening_rejects_a_header_of_another_queue() {
    let too_small = ShmHeader { slots_offset: 0, ..header() };
    let rejected = [
        (ShmHeader { item_size: 8, ..header() }, ShmError::ItemSizeMismatch),
        (ShmHeader { slot_size: 24, ..header() }, ShmError::SlotSizeMismatch),
        (too_small, ShmError::BackingTooSmall),
    ];
    for (header, error) in rejected {
        let requests = open_requests(&[
            code(6, 0),
            address(4096, 0),
            OsReply::Header { header },
            code(0, 0),
            code(0, 0),
        ]);
        assert_eq!(requests[3], OsAction::Unmap { address: 4096, length: 56 });
        assert_eq!(requests[4], OsAction::Close { fd: 6 });
        assert_eq!(requests[5], failed(error));
    }
}

#[test]
fn opening_ends_at_once_where_the_header_announces_too_much() {
    let rejected = [
        (ShmHeader { capacity: usize::MAX, ..header() }, ShmError::HeaderCapacityTooLarge),
        (ShmHeader { slots_offset: usize::MAX, ..header() }, ShmError::HeaderLayoutOverflow),
    ];
    for (header, error) in rejected {
        let requests = open_requests(&[code(6, 0), address(4096, 0), OsReply::Header { header }]);
        assert_eq!(requests[3], failed(error));
    }
}

#[test]
fn headers_are_checked_in_order() {
    assert_eq!(check_header(&SIZES, &header()), Ok(88));
    let wrong = ShmHeader { item_size: 1, slot_size: 1, capacity: usize::MAX, ..header() };
    assert_eq!(check_header(&SIZES, &wrong), Err(ShmError::ItemSizeMismatch));
    let wrong = ShmHeader { item_size: 4, ..wrong };
    assert_eq!(check_header(&SIZES, &wrong), Err(ShmError::SlotSizeMismatch));
    let exact = ShmHeader { slots_offset: 24, ..header() };
    assert_eq!(check_header(&SIZES, &exact), Ok(56));
}

#[test]
fn unlinking_reports_the_error() {
    let call = ShmRingBuffer::<u32>::unlink("q").ok().unwrap();
    assert_eq!(call.name, "/q");
    assert_eq!(call.action(), OsAction::Unlink);
    assert_eq!(call.finish(0, 7), Ok(()));
    let call = ShmRingBuffer::<u32>::unlink("/q").ok().unwrap();
    assert_eq!(call.name, "/q");
    assert_eq!(call.finish(-1, 2), Err(ShmError::Os { errno: 2 }));
}

#[test]
fn dropping_releases_what_is_there() {
    let mapping = Mapping {
        base: 4096,
        fd: 4,
        layout_size: 88,
        slots_offset: 56,
        capacity: 2,
        mask: 1,
    };
    let unmap = OsAction::Unmap { address: 4096, length: 88 };
    let close = OsAction::Close { fd: 4 };
    assert_eq!(mapping.release(), vec![unmap, close]);
    assert_eq!(Mapping { base: 0, ..mapping }.release(), vec![close]);
    assert_eq!(Mapping { layout_size: 0, ..mapping }.release(), vec![close]);
    assert_eq!(Mapping { fd: -1, ..mapping }.release(), vec![unmap]);
    assert_eq!(Mapping { fd: 0, base: 0, ..mapping }.release(), vec![OsAction::Close { fd: 0 }]);
}

#[test]
fn values_are_aligned_up() {
    assert_eq!(align_up(56, 8), 56);
    assert_eq!(align_up(57, 8), 64);
    assert_eq!(align_up(0, 16), 0);
    assert_eq!(align_up(5, 0), 5);
    assert_eq!(align_up(5, 1), 5);
    assert_eq!(align_up(7, 6), 8);
    assert_eq!(align_up(usize::MAX - 8, 8), usize::MAX - 7);
}

#[test]
fn powers_of_two_are_recognised() {
    for n in 0..200usize {
        assert_eq!(is_power_of_two(n), n.is_power_of_two());
    }
    assert!(is_power_of_two(usize::MAX / 2 + 1));
    assert!(!is_power_of_two(usize::MAX));
}

#[test]
fn extents_are_checked() {
    assert_eq!(region_extent(56, 8, 16), Ok(184));
    assert_eq!(region_extent(56, usize::MAX, 2), Err(ExtentFault::Slots));
    assert_eq!(region_extent(56, usize::MAX, 1), Err(ExtentFault::Region));
    assert_eq!(region_extent(0, usize::MAX, 1), Ok(usize::MAX));
}

#[test]
fn names_get_a_leading_slash() {
    assert_eq!(to_cstring("queue"), Ok("/queue".to_string()));
    assert_eq!(to_cstring("/queue"), Ok("/queue".to_string()));
    assert_eq!(to_cstring("//queue"), Ok("//queue".to_string()));
    assert_eq!(to_cstring("/"), Ok("/".to_string()));
    assert_eq!(to_cstring("a/b"), Ok("/a/b".to_string()));
    assert_eq!(to_cstring("größe"), Ok("/größe".to_string()));
    assert_eq!(to_cstring(""), Err(ShmError::EmptyName));
    assert_eq!(to_cstring("a\0"), Err(ShmError::NameContainsNul));
    assert_eq!(to_cstring("\0"), Err(ShmError::NameContainsNul));
}

#[test]
fn errors_have_a_kind_and_a_text() {
    let expected = [
        (
            ShmError::CapacityNotPowerOfTwo,
            ShmErrorKind::InvalidInput,
            "capacity must be a non-zero power of two",
        ),
        (ShmError::CapacityTooLarge, ShmErrorKind::InvalidInput, "capacity is too large"),
        (ShmError::LayoutOverflow, ShmErrorKind::InvalidInput, "layout overflow"),
        (
            ShmError::ItemSizeMismatch,
            ShmErrorKind::InvalidData,
            "type size mismatch for shared memory queue",
        ),
        (
            ShmError::SlotSizeMismatch,
            ShmErrorKind::InvalidData,
            "slot size mismatch for shared memory queue",
        ),
        (
            ShmError::HeaderCapacityTooLarge,
            ShmErrorKind::InvalidData,
            "capacity too large in header",
        ),
        (ShmError::HeaderLayoutOverflow, ShmErrorKind::InvalidData, "layout overflow in header"),
        (
            ShmError::BackingTooSmall,
            ShmErrorKind::InvalidData,
            "shared memory backing size is too small",
        ),
        (ShmError::EmptyName, ShmErrorKind::InvalidInput, "shared memory name must not be empty"),
        (
            ShmError::NameContainsNul,
            ShmErrorKind::InvalidInput,
            "shared memory name contains interior null bytes",
        ),
    ];
    for (error, kind, text) in expected {
        assert_eq!(error.kind(), kind);
        assert_eq!(error.message(), Some(text));
    }
    assert_eq!(ShmError::Os { errno: 2 }.kind(), ShmErrorKind::Os);
    assert_eq!(ShmError::Os { errno: 2 }.message(), None);
}
