//! Many calls at once on one region, one access at a time.

use shared_shmem_queue::os::Mapping;
use shared_shmem_queue::protocol::{
    MemoryOrder, PopAction, PopCall, PushAction, PushCall, RingReply,
};
use shared_shmem_queue::region::{ShmHeader, Slot};
use shared_shmem_queue::{ShmRingBuffer, TryPopError, TryPushError};

/// A region that several calls work on.
struct Shared {
    enqueue_pos: usize,
    dequeue_pos: usize,
    sequences: Vec<usize>,
    values: Vec<Option<u32>>,
    mask: usize,
}

impl Shared {
    fn new(capacity: usize) -> Self {
        Shared {
            enqueue_pos: 0,
            dequeue_pos: 0,
            sequences: (0..capacity).collect(),
            values: vec![None; capacity],
            mask: capacity - 1,
        }
    }

    /// Makes the pending access of a push. `weak` lets an exchange fail although it could succeed.
    fn push_step(
        &mut self,
        call: PushCall<u32>,
        weak: bool,
    ) -> Result<PushCall<u32>, Result<(), TryPushError>> {
        let reply = match call.action() {
            PushAction::LoadEnqueuePos { .. } => RingReply::Word { word: self.enqueue_pos },
            PushAction::LoadSequence { index, .. } => RingReply::Word {
                word: self.sequences[index],
            },
            PushAction::ExchangeEnqueuePos { current, new, .. } => {
                let stored = self.enqueue_pos == current && !weak;
                if stored {
                    self.enqueue_pos = new;
                }
                RingReply::Exchanged { stored }
            }
            PushAction::WriteValue { index, value } => {
                self.values[index] = Some(value);
                RingReply::Done
            }
            PushAction::StoreSequence { index, sequence, .. } => {
                self.sequences[index] = sequence;
                RingReply::Done
            }
            PushAction::YieldNow => RingReply::Done,
            PushAction::Return { result } => return Err(result),
        };
        Ok(call.resume(reply))
    }

    fn pop_step(
        &mut self,
        call: PopCall<u32>,
        weak: bool,
    ) -> Result<PopCall<u32>, Result<u32, TryPopError>> {
        let reply = match call.action() {
            PopAction::LoadDequeuePos { .. } => RingReply::Word { word: self.dequeue_pos },
            PopAction::LoadSequence { index, .. } => RingReply::Word {
                word: self.sequences[index],
            },
            PopAction::ExchangeDequeuePos { current, new, .. } => {
                let stored = self.dequeue_pos == current && !weak;
                if stored {
                    self.dequeue_pos = new;
                }
                RingReply::Exchanged { stored }
            }
            PopAction::ReadValue { index } => RingReply::Value {
                value: self.values[index].unwrap(),
            },
            PopAction::StoreSequence { index, sequence, .. } => {
                self.sequences[index] = sequence;
                RingReply::Done
            }
            PopAction::YieldNow => RingReply::Done,
            PopAction::Return { result } => return Err(result),
        };
        Ok(call.resume(reply))
    }

    fn push(&mut self, value: u32) -> Result<(), TryPushError> {
        let mut call = PushCall::new(value, self.mask);
        loop {
            match self.push_step(call, false) {
                Ok(next) => call = next,
                Err(result) => return result,
            }
        }
    }

    fn pop(&mut self) -> Result<u32, TryPopError> {
        let mut call = PopCall::new(self.mask);
        loop {
            match self.pop_step(call, false) {
                Ok(next) => call = next,
                Err(result) => return result,
            }
        }
    }
}

/// A stream of numbers that picks who runs next.
struct Scheduler {
    state: u64,
}

impl Scheduler {
    fn pick(&mut self, n: usize) -> usize {
        self.state = self.state.wrapping_mul(6364136223846793005).wrapping_add(1442695040888963407);
        ((self.state >> 33) as usize) % n
    }
}

/// Checks that no two calls own the same slot.
fn check_owners(
    capacity: usize,
    pushes: &[Option<PushCall<u32>>],
    pops: &[Option<PopCall<u32>>],
) {
    let mut owned = vec![false; capacity];
    let mut own = |index: usize| {
        assert!(!owned[index]);
        owned[index] = true;
    };
    for push in pushes.iter().flatten() {
        match push.action() {
            PushAction::WriteValue { index, .. } => own(index),
            PushAction::StoreSequence { index, .. } => own(index),
            _ => {}
        }
    }
    for pop in pops.iter().flatten() {
        match pop.action() {
            PopAction::ReadValue { index } => own(index),
            PopAction::StoreSequence { index, .. } => own(index),
            _ => {}
        }
    }
}

/// Lets producers and consumers run in a random order until every item has come out.
fn stress(
    capacity: usize,
    producers: usize,
    consumers: usize,
    items_per_producer: usize,
    seed: u64,
) {
    let total_items = producers * items_per_producer;
    let mut shared = Shared::new(capacity);
    let mut scheduler = Scheduler { state: seed };
    let mut results: Vec<u32> = Vec::new();
    let mut next: Vec<usize> = (0..producers).map(|p| p * items_per_producer).collect();
    let mut pushes: Vec<Option<PushCall<u32>>> = (0..producers).map(|_| None).collect();
    let mut pops: Vec<Option<PopCall<u32>>> = (0..consumers).map(|_| None).collect();
    while results.len() < total_items {
        let weak = scheduler.pick(10) == 0;
        let who = scheduler.pick(producers + consumers);
        if who < producers {
            if next[who] == (who + 1) * items_per_producer {
                continue;
            }
            let call = match pushes[who].take() {
                Some(call) => call,
                None => PushCall::new(next[who] as u32, shared.mask),
            };
            match shared.push_step(call, weak) {
                Ok(call) => pushes[who] = Some(call),
                Err(Ok(())) => next[who] += 1,
                Err(Err(TryPushError::Full)) => {}
            }
        } else {
            let call = match pops[who - producers].take() {
                Some(call) => call,
                None => PopCall::new(shared.mask),
            };
            match shared.pop_step(call, weak) {
                Ok(call) => pops[who - producers] = Some(call),
                Err(Ok(value)) => results.push(value),
                Err(Err(TryPopError::Empty)) => {}
            }
        }
        check_owners(capacity, &pushes, &pops);
    }
    results.sort_unstable();
    for (idx, value) in results.iter().copied().enumerate() {
        assert_eq!(value as usize, idx);
    }
    assert_eq!(results.len(), total_items);
}

#[test]
fn mpmc_stress() {
    stress(64, 4, 4, 512, 1);
}

#[test]
fn mpmc_stress_with_few_slots() {
    for seed in 0..8 {
        stress(1, 3, 3, 100, seed);
        stress(2, 4, 4, 100, seed);
        stress(4, 2, 5, 100, seed);
    }
}

#[test]
fn one_producer_keeps_its_order() {
    let mut shared = Shared::new(4);
    let mut scheduler = Scheduler { state: 5 };
    let mut pushed: u32 = 0;
    let mut popped: u32 = 0;
    let mut push = PushCall::new(0, shared.mask);
    let mut pop = PopCall::new(shared.mask);
    while popped < 500 {
        if scheduler.pick(2) == 0 {
            push = match shared.push_step(push, false) {
                Ok(call) => call,
                Err(result) => {
                    pushed += result.is_ok() as u32;
                    PushCall::new(pushed, shared.mask)
                }
            };
        } else {
            pop = match shared.pop_step(pop, false) {
                Ok(call) => call,
                Err(result) => {
                    if let Ok(value) = result {
                        assert_eq!(value, popped);
                        popped += 1;
                    }
                    PopCall::new(shared.mask)
                }
            };
        }
    }
}

#[test]
fn accesses_of_a_push() {
    let call = PushCall::new(7u32, 3);
    assert_eq!(call.action(), PushAction::LoadEnqueuePos { order: MemoryOrder::Relaxed });
    let call = call.resume(RingReply::Word { word: 6 });
    assert_eq!(call.action(), PushAction::LoadSequence { index: 2, order: MemoryOrder::Acquire });
    let call = call.resume(RingReply::Word { word: 6 });
    assert_eq!(
        call.action(),
        PushAction::ExchangeEnqueuePos {
            current: 6,
            new: 7,
            success: MemoryOrder::Acquire,
            failure: MemoryOrder::Relaxed,
        }
    );
    let call = call.resume(RingReply::Exchanged { stored: true });
    assert_eq!(call.action(), PushAction::WriteValue { index: 2, value: 7 });
    let call = call.resume(RingReply::Done);
    assert_eq!(
        call.action(),
        PushAction::StoreSequence { index: 2, sequence: 7, order: MemoryOrder::Release }
    );
    let call = call.resume(RingReply::Done);
    assert_eq!(call.action(), PushAction::Return { result: Ok(()) });
}

#[test]
fn accesses_of_a_pop() {
    let call: PopCall<u32> = PopCall::new(3);
    assert_eq!(call.action(), PopAction::LoadDequeuePos { order: MemoryOrder::Relaxed });
    let call = call.resume(RingReply::Word { word: 6 });
    assert_eq!(call.action(), PopAction::LoadSequence { index: 2, order: MemoryOrder::Acquire });
    let call = call.resume(RingReply::Word { word: 7 });
    assert_eq!(
        call.action(),
        PopAction::ExchangeDequeuePos {
            current: 6,
            new: 7,
            success: MemoryOrder::Acquire,
            failure: MemoryOrder::Relaxed,
        }
    );
    let call = call.resume(RingReply::Exchanged { stored: true });
    assert_eq!(call.action(), PopAction::ReadValue { index: 2 });
    let call = call.resume(RingReply::Value { value: 9 });
    assert_eq!(
        call.action(),
        PopAction::StoreSequence { index: 2, sequence: 10, order: MemoryOrder::Release }
    );
    let call = call.resume(RingReply::Done);
    assert_eq!(call.action(), PopAction::Return { result: Ok(9) });
}

#[test]
fn a_lost_race_starts_over() {
    let push = PushCall::new(7u32, 3).resume(RingReply::Word { word: 6 });
    let push = push.resume(RingReply::Word { word: 7 });
    assert_eq!(push.action(), PushAction::YieldNow);
    let push = push.resume(RingReply::Done);
    assert_eq!(push, PushCall::new(7u32, 3));
    let push = push.resume(RingReply::Word { word: 8 }).resume(RingReply::Word { word: 8 });
    let push = push.resume(RingReply::Exchanged { stored: false });
    assert_eq!(push, PushCall::new(7u32, 3));
    let pop: PopCall<u32> = PopCall::new(3).resume(RingReply::Word { word: 6 });
    let pop = pop.resume(RingReply::Word { word: 10 });
    assert_eq!(pop.action(), PopAction::YieldNow);
}

#[test]
fn an_item_that_is_not_announced_is_not_there() {
    let mut shared = Shared::new(2);
    let mut push = PushCall::new(1, shared.mask);
    for _ in 0..4 {
        push = shared.push_step(push, false).unwrap();
    }
    assert_eq!(shared.pop(), Err(TryPopError::Empty));
    assert_eq!(shared.push(2), Ok(()));
    assert_eq!(shared.push(3), Err(TryPushError::Full));
    assert_eq!(shared.pop(), Err(TryPopError::Empty));
    push = shared.push_step(push, false).unwrap();
    assert_eq!(shared.push_step(push, false), Err(Ok(())));
    assert_eq!(shared.pop(), Ok(1));
    assert_eq!(shared.pop(), Ok(2));
}

#[test]
fn a_slot_that_is_not_given_up_is_not_free() {
    let mut shared = Shared::new(2);
    assert_eq!(shared.push(1), Ok(()));
    assert_eq!(shared.push(2), Ok(()));
    let mut pop = PopCall::new(shared.mask);
    for _ in 0..4 {
        pop = shared.pop_step(pop, false).unwrap();
    }
    assert_eq!(shared.push(3), Err(TryPushError::Full));
    pop = shared.pop_step(pop, false).unwrap();
    assert_eq!(shared.pop_step(pop, false), Err(Ok(1)));
    assert_eq!(shared.push(3), Ok(()));
}

#[test]
fn sequence_numbers_are_compared_around_the_end_of_the_range() {
    let ahead = PushCall::new(1u32, 3).resume(RingReply::Word { word: usize::MAX });
    let ahead = ahead.resume(RingReply::Word { word: 0 });
    assert_eq!(ahead.action(), PushAction::YieldNow);
    let behind = PushCall::new(1u32, 3).resume(RingReply::Word { word: 1 });
    let behind = behind.resume(RingReply::Word { word: usize::MAX - 1 });
    assert_eq!(behind.action(), PushAction::Return { result: Err(TryPushError::Full) });
    let half = PushCall::new(1u32, 3).resume(RingReply::Word { word: usize::MAX / 2 });
    let half = half.resume(RingReply::Word { word: usize::MAX / 2 + 1 });
    assert_eq!(half.action(), PushAction::YieldNow);
}

#[test]
fn a_region_without_calls_goes_on_as_a_queue() {
    let mut shared = Shared::new(4);
    for value in 0..7 {
        assert_eq!(shared.push(value), Ok(()));
        if value < 4 {
            assert_eq!(shared.pop(), Ok(value));
        }
    }
    let header = ShmHeader {
        item_size: 4,
        slot_size: 16,
        slots_offset: 56,
        capacity: 4,
        mask: 3,
        enqueue_pos: shared.enqueue_pos,
        dequeue_pos: shared.dequeue_pos,
    };
    let mapping = Mapping {
        base: 4096,
        fd: 3,
        layout_size: 120,
        slots_offset: 56,
        capacity: 4,
        mask: 3,
    };
    let slots: Vec<Slot<u32>> = shared
        .sequences
        .iter()
        .zip(shared.values.iter())
        .map(|(sequence, value)| Slot { sequence: *sequence, value: *value })
        .collect();
    let mut queue = ShmRingBuffer::attach(mapping, header, slots);
    assert_eq!(queue.try_push(7), Ok(()));
    assert_eq!(queue.try_push(8), Err(TryPushError::Full));
    for value in 4..8 {
        assert_eq!(queue.try_pop(), Ok(value));
    }
    assert_eq!(queue.try_pop(), Err(TryPopError::Empty));
}

#[test]
fn an_exchange_only_misses_a_full_circle() {
    for enqueue_pos in [1usize, 2, usize::MAX, 0] {
        let mut shared = Shared::new(2);
        let mut push = PushCall::new(1, shared.mask);
        for _ in 0..2 {
            push = shared.push_step(push, false).unwrap();
        }
        shared.enqueue_pos = enqueue_pos;
        push = shared.push_step(push, false).unwrap();
        let claimed = push.action() == PushAction::WriteValue { index: 0, value: 1 };
        assert_eq!(claimed, enqueue_pos == 0);
    }
}

/// Runs these pushes at once in a random order, and gives back the result of each.
fn push_all(
    shared: &mut Shared,
    values: std::ops::Range<u32>,
    seed: u64,
) -> Vec<Result<(), TryPushError>> {
    let mut scheduler = Scheduler { state: seed };
    let mut calls: Vec<Option<PushCall<u32>>> =
        values.map(|value| Some(PushCall::new(value, shared.mask))).collect();
    let mut results: Vec<Option<Result<(), TryPushError>>> = vec![None; calls.len()];
    while results.iter().any(|result| result.is_none()) {
        let weak = scheduler.pick(5) == 0;
        let who = scheduler.pick(calls.len());
        if let Some(call) = calls[who].take() {
            match shared.push_step(call, weak) {
                Ok(call) => calls[who] = Some(call),
                Err(result) => results[who] = Some(result),
            }
        }
    }
    results.into_iter().flatten().collect()
}

#[test]
fn as_many_pushes_succeed_as_there_is_room_for() {
    for capacity in [1usize, 2, 8] {
        for waiting in 0..=capacity {
            for pushes in [1usize, 3, 8, 20] {
                let mut shared = Shared::new(capacity);
                for value in 0..waiting as u32 {
                    assert_eq!(shared.push(value), Ok(()));
                }
                let results = push_all(&mut shared, 100..100 + pushes as u32, pushes as u64);
                let accepted = results.iter().filter(|result| result.is_ok()).count();
                assert_eq!(accepted, pushes.min(capacity - waiting));
                for value in 0..waiting as u32 {
                    assert_eq!(shared.pop(), Ok(value));
                }
                let mut added: Vec<u32> = Vec::new();
                while let Ok(value) = shared.pop() {
                    added.push(value);
                }
                added.sort_unstable();
                let expected: Vec<u32> = (0..pushes)
                    .filter(|i| results[*i].is_ok())
                    .map(|i| 100 + i as u32)
                    .collect();
                assert_eq!(added, expected);
            }
        }
    }
}

#[test]
fn what_comes_out_is_what_went_in() {
    for seed in 0..20u64 {
        let mut shared = Shared::new(4);
        let mut scheduler = Scheduler { state: seed };
        let mut accepted: Vec<u32> = Vec::new();
        let mut popped: Vec<u32> = Vec::new();
        let mut pushes: Vec<Option<PushCall<u32>>> =
            (0..30).map(|value| Some(PushCall::new(value, shared.mask))).collect();
        let mut pops: Vec<Option<PopCall<u32>>> =
            (0..20).map(|_| Some(PopCall::new(shared.mask))).collect();
        while pushes.iter().any(|call| call.is_some()) || pops.iter().any(|call| call.is_some()) {
            let who = scheduler.pick(50);
            if who < 30 {
                if let Some(call) = pushes[who].take() {
                    match shared.push_step(call, false) {
                        Ok(call) => pushes[who] = Some(call),
                        Err(Ok(())) => accepted.push(who as u32),
                        Err(Err(TryPushError::Full)) => {}
                    }
                }
            } else if let Some(call) = pops[who - 30].take() {
                match shared.pop_step(call, false) {
                    Ok(call) => pops[who - 30] = Some(call),
                    Err(Ok(value)) => popped.push(value),
                    Err(Err(TryPopError::Empty)) => {}
                }
            }
        }
        while let Ok(value) = shared.pop() {
            popped.push(value);
        }
        accepted.sort_unstable();
        popped.sort_unstable();
        assert_eq!(popped, accepted);
    }
}

#[test]
fn each_consumer_sees_each_producer_in_order() {
    for seed in 0..8u64 {
        let mut shared = Shared::new(4);
        let mut scheduler = Scheduler { state: seed };
        let mut next = [0u32; 3];
        let mut seen = [[0u32; 3]; 3];
        let mut total = 0;
        let mut pushes: Vec<Option<PushCall<u32>>> = (0..3).map(|_| None).collect();
        let mut pops: Vec<Option<PopCall<u32>>> = (0..3).map(|_| None).collect();
        while total < 300 {
            let who = scheduler.pick(6);
            if who < 3 {
                let value = who as u32 * 1000 + next[who] + 1;
                let call = match pushes[who].take() {
                    Some(call) => call,
                    None => PushCall::new(value, shared.mask),
                };
                match shared.push_step(call, false) {
                    Ok(call) => pushes[who] = Some(call),
                    Err(result) => next[who] += result.is_ok() as u32,
                }
            } else {
                let consumer = who - 3;
                let call = match pops[consumer].take() {
                    Some(call) => call,
                    None => PopCall::new(shared.mask),
                };
                match shared.pop_step(call, false) {
                    Ok(call) => pops[consumer] = Some(call),
                    Err(Ok(value)) => {
                        let producer = value as usize / 1000;
                        assert!(seen[consumer][producer] < value % 1000);
                        seen[consumer][producer] = value % 1000;
                        total += 1;
                    }
                    Err(Err(TryPopError::Empty)) => {}
                }
            }
        }
    }
}
