//! The queue from creation to removal, with a table of objects in place of the system.

use std::collections::HashMap;

use shared_shmem_queue::create::CreateCall;
use shared_shmem_queue::error::ShmError;
use shared_shmem_queue::layout::RegionSizes;
use shared_shmem_queue::open::OpenCall;
use shared_shmem_queue::os::{Mapping, OsAction, OsReply};
use shared_shmem_queue::region::{ShmHeader, Slot};
use shared_shmem_queue::{ShmRingBuffer, TryPopError, TryPushError};

/// A shared memory object. Its contents are out while a queue is attached to it.
struct Object<T> {
    size: i64,
    header: Option<ShmHeader>,
    slots: Vec<Slot<T>>,
}

/// The shared memory objects by name.
struct System<T> {
    objects: HashMap<String, Object<T>>,
    sizes: RegionSizes,
    log: Vec<OsAction>,
}

const FD: i32 = 3;
const BASE: usize = 4096;
const EEXIST: i32 = 17;
const ENOENT: i32 = 2;

fn sizes_of<T>() -> RegionSizes {
    RegionSizes {
        header_size: 7 * std::mem::size_of::<usize>(),
        item_size: std::mem::size_of::<T>(),
        slot_size: std::mem::size_of::<(usize, T)>(),
        slot_align: std::mem::align_of::<(usize, T)>(),
    }
}

impl<T: Copy> System<T> {
    fn new() -> Self {
        System { objects: HashMap::new(), sizes: sizes_of::<T>(), log: Vec::new() }
    }

    fn perform(&mut self, name: &str, action: OsAction) -> OsReply {
        self.log.push(action);
        match action {
            OsAction::ShmOpen { flags, .. } => {
                let exclusive = flags & 128 != 0;
                match (exclusive, self.objects.contains_key(name)) {
                    (true, true) => OsReply::Code { code: -1, errno: EEXIST },
                    (false, false) => OsReply::Code { code: -1, errno: ENOENT },
                    (false, true) => OsReply::Code { code: FD, errno: 0 },
                    (true, false) => {
                        let object = Object { size: 0, header: None, slots: Vec::new() };
                        self.objects.insert(name.to_string(), object);
                        OsReply::Code { code: FD, errno: 0 }
                    }
                }
            }
            OsAction::Truncate { size, .. } => {
                self.objects.get_mut(name).unwrap().size = size;
                OsReply::Code { code: 0, errno: 0 }
            }
            OsAction::MapShared { .. } => OsReply::Address { address: BASE, errno: 0 },
            OsAction::Unmap { .. } | OsAction::Close { .. } => OsReply::Code { code: 0, errno: 0 },
            OsAction::Unlink => match self.objects.remove(name) {
                Some(_) => OsReply::Code { code: 0, errno: 0 },
                None => OsReply::Code { code: -1, errno: ENOENT },
            },
            OsAction::ReadHeader { .. } => OsReply::Header {
                header: self.objects[name].header.unwrap(),
            },
            OsAction::WriteHeader { header, .. } => {
                self.objects.get_mut(name).unwrap().header = Some(header);
                OsReply::Done
            }
            OsAction::WriteSlot { offset, sequence, .. } => {
                let sizes = self.sizes;
                let object = self.objects.get_mut(name).unwrap();
                let start = object.header.unwrap().slots_offset;
                assert_eq!(offset, start + object.slots.len() * sizes.slot_size);
                assert!(offset + sizes.slot_size <= object.size as usize);
                object.slots.push(Slot { sequence, value: None });
                OsReply::Done
            }
            OsAction::Return { .. } => unreachable!(),
        }
    }

    fn attach(&mut self, name: &str, mapping: Mapping) -> ShmRingBuffer<T> {
        let object = self.objects.get_mut(name).unwrap();
        let slots = std::mem::take(&mut object.slots);
        ShmRingBuffer::attach(mapping, object.header.unwrap(), slots)
    }

    fn create(&mut self, name: &str, capacity: usize) -> Result<ShmRingBuffer<T>, ShmError> {
        let mut call: CreateCall = ShmRingBuffer::<T>::create(name, capacity, self.sizes)?;
        loop {
            match call.action() {
                OsAction::Return { result } => return Ok(self.attach(&call.name, result?)),
                action => {
                    let reply = self.perform(&call.name, action);
                    call = call.resume(reply);
                }
            }
        }
    }

    fn open(&mut self, name: &str) -> Result<ShmRingBuffer<T>, ShmError> {
        let mut call: OpenCall = ShmRingBuffer::<T>::open(name, self.sizes)?;
        loop {
            match call.action() {
                OsAction::Return { result } => return Ok(self.attach(&call.name, result?)),
                action => {
                    let reply = self.perform(&call.name, action);
                    call = call.resume(reply);
                }
            }
        }
    }

    fn unlink(&mut self, name: &str) -> Result<(), ShmError> {
        let call = ShmRingBuffer::<T>::unlink(name)?;
        let name = call.name.clone();
        match self.perform(&name, call.action()) {
            OsReply::Code { code, errno } => call.finish(code, errno),
            _ => unreachable!(),
        }
    }

    fn close(&mut self, name: &str, queue: ShmRingBuffer<T>) {
        let (actions, header, slots) = queue.detach();
        for action in actions {
            self.perform(name, action);
        }
        let object = self.objects.get_mut(name).unwrap();
        object.header = Some(header);
        object.slots = slots;
    }
}

#[test]
fn single_thread_roundtrip() {
    let name = "demo_shm_queue_1_0";
    let mut system: System<u32> = System::new();
    let mut queue = system.create(name, 8).unwrap();
    assert_eq!(queue.capacity(), 8);

    queue.try_push(42).unwrap();
    assert_eq!(queue.try_pop().unwrap(), 42);

    system.unlink(name).unwrap();
}

#[test]
fn reopen_existing_queue() {
    let name = "demo_shm_queue_1_1";
    let mut system: System<u64> = System::new();
    {
        let mut queue = system.create(name, 16).unwrap();
        queue.try_push(5).unwrap();
        assert_eq!(queue.try_pop().unwrap(), 5);
        system.close("/demo_shm_queue_1_1", queue);
    }

    let mut reopened = system.open(name).unwrap();
    reopened.try_push(11).unwrap();
    assert_eq!(reopened.try_pop().unwrap(), 11);
    system.unlink(name).unwrap();
}

#[test]
fn items_survive_reopening() {
    let mut system: System<u64> = System::new();
    let mut queue = system.create("/kept", 4).unwrap();
    for value in 0..6u64 {
        queue.try_push(value).unwrap();
        if value < 3 {
            assert_eq!(queue.try_pop(), Ok(value));
        }
    }
    system.close("/kept", queue);
    let mut reopened = system.open("kept").unwrap();
    assert_eq!(reopened.capacity(), 4);
    assert_eq!(reopened.try_pop(), Ok(3));
    assert_eq!(reopened.try_pop(), Ok(4));
    assert_eq!(reopened.try_pop(), Ok(5));
    assert_eq!(reopened.try_pop(), Err(TryPopError::Empty));
}

#[test]
fn fills_up_and_runs_empty() {
    for capacity in [1usize, 2, 4, 64] {
        let mut system: System<u32> = System::new();
        let mut queue = system.create("bounded", capacity).unwrap();
        for lap in 0..5u32 {
            assert_eq!(queue.try_pop(), Err(TryPopError::Empty));
            for i in 0..capacity as u32 {
                assert_eq!(queue.try_push(lap * 1000 + i), Ok(()));
            }
            assert_eq!(queue.try_push(7), Err(TryPushError::Full));
            for i in 0..capacity as u32 {
                assert_eq!(queue.try_pop(), Ok(lap * 1000 + i));
            }
        }
    }
}

#[test]
fn one_slot_holds_one_item() {
    let mut system: System<u8> = System::new();
    let mut queue = system.create("single", 1).unwrap();
    assert_eq!(queue.try_push(1), Ok(()));
    assert_eq!(queue.try_push(2), Err(TryPushError::Full));
    assert_eq!(queue.try_pop(), Ok(1));
    assert_eq!(queue.try_pop(), Err(TryPopError::Empty));
    assert_eq!(queue.try_push(3), Ok(()));
    assert_eq!(queue.try_pop(), Ok(3));
}

#[test]
fn sequence_numbers_of_a_lap() {
    let mut system: System<u32> = System::new();
    let mut queue = system.create("numbers", 4).unwrap();
    assert_eq!(queue.slots[2].sequence, 2);
    queue.try_push(9).unwrap();
    assert_eq!(queue.slots[0].sequence, 1);
    assert_eq!(queue.header.enqueue_pos, 1);
    queue.try_pop().unwrap();
    assert_eq!(queue.slots[0].sequence, 4);
    assert_eq!(queue.header.dequeue_pos, 1);
}

#[test]
fn positions_wrap_around() {
    for capacity in [1usize, 2, 8] {
        let start = usize::MAX - 2;
        let stride: usize = if capacity == 1 { 2 } else { 1 };
        let mut slots: Vec<Slot<u32>> = Vec::new();
        for _ in 0..capacity {
            slots.push(Slot { sequence: 0, value: None });
        }
        for i in 0..capacity {
            let pos = start.wrapping_add(i);
            slots[pos % capacity].sequence = pos.wrapping_mul(stride);
        }
        let header = ShmHeader {
            item_size: 4,
            slot_size: 16,
            slots_offset: 56,
            capacity,
            mask: capacity - 1,
            enqueue_pos: start,
            dequeue_pos: start,
        };
        let mapping = Mapping {
            base: BASE,
            fd: FD,
            layout_size: 56 + capacity * 16,
            slots_offset: 56,
            capacity,
            mask: capacity - 1,
        };
        let mut queue = ShmRingBuffer::attach(mapping, header, slots);
        for value in 0..20u32 {
            assert_eq!(queue.try_push(value), Ok(()));
            assert_eq!(queue.try_pop(), Ok(value));
        }
        assert_eq!(queue.header.dequeue_pos, 17);
        for value in 0..capacity as u32 {
            assert_eq!(queue.try_push(value), Ok(()));
        }
        assert_eq!(queue.try_push(99), Err(TryPushError::Full));
    }
}

#[test]
fn created_twice_is_refused() {
    let mut system: System<u32> = System::new();
    let first = system.create("taken", 2).unwrap();
    let log = system.log.len();
    assert_eq!(system.create("taken", 2).err(), Some(ShmError::Os { errno: EEXIST }));
    assert_eq!(system.log.len(), log + 1);
    assert!(system.objects.contains_key("/taken"));
    assert_eq!(first.capacity(), 2);
}

#[test]
fn missing_objects_are_reported() {
    let mut system: System<u32> = System::new();
    assert_eq!(system.open("missing").err(), Some(ShmError::Os { errno: ENOENT }));
    assert_eq!(system.unlink("missing"), Err(ShmError::Os { errno: ENOENT }));
}

#[test]
fn another_item_type_is_refused() {
    let mut system: System<u32> = System::new();
    let queue = system.create("typed", 2).unwrap();
    system.close("/typed", queue);
    system.sizes.item_size = 8;
    assert_eq!(system.open("typed").err(), Some(ShmError::ItemSizeMismatch));
    system.sizes.item_size = 4;
    system.sizes.slot_size = 24;
    assert_eq!(system.open("typed").err(), Some(ShmError::SlotSizeMismatch));
}

#[test]
fn created_region_has_the_announced_size() {
    let mut system: System<u32> = System::new();
    let queue = system.create("sized", 8).unwrap();
    let sizes = sizes_of::<u32>();
    let expected = sizes.header_size + 8 * sizes.slot_size;
    assert_eq!(system.objects["/sized"].size, expected as i64);
    assert_eq!(queue.mapping.layout_size, expected);
    let header = queue.header;
    assert_eq!(header.item_size, 4);
    assert_eq!(header.slots_offset, sizes.header_size);
    assert_eq!((header.capacity, header.mask), (8, 7));
    assert_eq!((header.enqueue_pos, header.dequeue_pos), (0, 0));
}

#[test]
fn pushes_and_pops_mix_in_any_order() {
    let mut system: System<u32> = System::new();
    let mut queue = system.create("mixed", 4).unwrap();
    let mut accepted: Vec<u32> = Vec::new();
    let mut popped: Vec<u32> = Vec::new();
    let mut choice: u32 = 7;
    for value in 0..500u32 {
        choice = choice.wrapping_mul(1664525).wrapping_add(1013904223);
        if choice >> 31 == 0 {
            if queue.try_push(value).is_ok() {
                accepted.push(value);
            }
        } else if let Ok(value) = queue.try_pop() {
            popped.push(value);
        }
    }
    while let Ok(value) = queue.try_pop() {
        popped.push(value);
    }
    assert_eq!(popped, accepted);
}
