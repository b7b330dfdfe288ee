//! The queue over a region that a single owner works on.

use crate::create;
use crate::create::{CreateCall, CreatePhase};
use crate::error::{ShmError, TryPopError, TryPushError};
use crate::interleaving;
use crate::interleaving::World;
use crate::layout;
use crate::layout::RegionSizes;
use crate::name;
use crate::open;
use crate::open::{OpenCall, OpenPhase};
use crate::os::{Mapping, OsAction};
use crate::protocol;
use crate::protocol::{PopAction, PopCall, PopPhase, PushAction, PushCall, PushPhase, RingReply};
use crate::region;
use crate::region::{ShmHeader, Slot};
use crate::unlink::UnlinkCall;
use crate::words;
use vstd::arithmetic::div_mod::*;
use vstd::arithmetic::power2::*;
use vstd::prelude::*;

verus! {

/// Multi-producer multi-consumer ring buffer built on top of POSIX shared memory.
///
/// The queue stores values of type `T` that implement [`Copy`]. It is a mapping together with the
/// contents of the mapped region, as the one that has the region to itself sees it. Where others
/// work on the same region, each push and each pop goes through the same accesses one by one; see
/// [`PushCall`] and [`PopCall`].
///
/// The implementation is based on the bounded MPMC queue by Dmitry Vyukov. Each slot contains a
/// sequence counter that allows writers and readers to coordinate without additional locks.
pub struct ShmRingBuffer<T> {
    pub mapping: Mapping,
    pub header: ShmHeader,
    pub slots: Vec<Slot<T>>,
}

/// Whether a mapping is one of the region that a header describes.
pub open spec fn describes(header: ShmHeader, mapping: Mapping) -> bool {
    &&& mapping.slots_offset == header.slots_offset
    &&& mapping.capacity == header.capacity
    &&& mapping.mask == header.mask
    &&& mapping.layout_size == header.slots_offset + header.capacity * header.slot_size
    &&& header.capacity == header.mask + 1
}

/// Whether a region with this header and these slots is a queue that no call is halfway through,
/// mapped by this mapping.
pub open spec fn attachable<T>(mapping: Mapping, header: ShmHeader, slots: Seq<Slot<T>>) -> bool {
    &&& describes(header, mapping)
    &&& region::holds(slots, header.mask, header.dequeue_pos as int, waiting(header, slots))
}

/// The items that wait in a region, oldest first.
pub open spec fn waiting<T>(header: ShmHeader, slots: Seq<Slot<T>>) -> Seq<T> {
    region::items_between(slots, header.mask, header.dequeue_pos, header.enqueue_pos)
}

impl<T> View for ShmRingBuffer<T> {
    type V = Seq<T>;

    /// The items that wait in the queue, oldest first.
    open spec fn view(&self) -> Seq<T> {
        waiting(self.header, self.slots@)
    }
}

impl<T> ShmRingBuffer<T> {
    /// Whether the region is a queue that no call is halfway through.
    pub open spec fn wf(&self) -> bool {
        attachable(self.mapping, self.header, self.slots@)
    }

    /// The view of a region that holds `items`.
    proof fn lemma_view(&self, items: Seq<T>)
        requires
            region::holds(self.slots@, self.header.mask, self.header.dequeue_pos as int, items),
            self.header.enqueue_pos == words::word(self.header.dequeue_pos + items.len()),
        ensures
            self@ == items,
    {
        region::lemma_items_between(
            self.slots@,
            self.header.mask,
            self.header.dequeue_pos,
            self.header.enqueue_pos,
            items,
        );
    }

    /// The position of the next push, as a counter from the position of the next pop.
    proof fn lemma_enqueue_pos(&self)
        requires
            self.wf(),
        ensures
            self.header.enqueue_pos == words::word(self.header.dequeue_pos + self@.len()),
    {
        let start = self.header.dequeue_pos as int;
        words::lemma_word_add(self.header.enqueue_pos - start, start);
        words::lemma_word_of_usize(self.header.enqueue_pos);
    }
}

impl<T> ShmRingBuffer<T> {
    /// The sequence number that the next push finds: its own where there is room, and one behind
    /// that where there is none.
    proof fn lemma_push_gap(&self)
        requires
            self.wf(),
        ensures
            ({
                let end = self.header.dequeue_pos + self@.len();
                let gap = words::signed_gap(
                    region::slot_at(self.slots@, end, self.mapping.mask).sequence,
                    words::word(protocol::ready(end, self.mapping.mask)),
                );
                &&& self@.len() < self.mapping.capacity ==> gap == 0
                &&& self@.len() == self.mapping.capacity ==> gap < 0
            }),
    {
        let start = self.header.dequeue_pos as int;
        let end = start + self@.len();
        let slot = region::slot_at(self.slots@, end, self.mapping.mask);
        if self@.len() < self.mapping.capacity {
            words::lemma_signed_gap_zero(
                slot.sequence,
                words::word(protocol::ready(end, self.mapping.mask)),
            );
        } else {
            let lap = protocol::stride(self.mapping.mask) * self.mapping.capacity;
            words::lemma_pow2_divides_modulus(self.mapping.capacity);
            lemma_mod_add_multiples_vanish(start, self.mapping.capacity as int);
            assert(slot == region::slot_at(self.slots@, start, self.mapping.mask));
            let stride = protocol::stride(self.mapping.mask);
            assert(stride * end == stride * start + lap) by (nonlinear_arith)
                requires
                    end == start + self.mapping.capacity,
                    lap == stride * self.mapping.capacity,
            ;
            assert(2 <= lap <= isize::MAX + 1) by {
                assert(self.mapping.capacity == self.mapping.mask + 1);
                assert(lap == if self.mapping.mask == 0 {
                    2
                } else {
                    self.mapping.capacity as int
                });
            }
            words::lemma_signed_gap(
                protocol::ready(start, self.mapping.mask) + 1,
                protocol::ready(end, self.mapping.mask),
            );
        }
    }

    /// The sequence number that the next pop finds: the one that announces its item where there is
    /// one, and the number before that where the queue is empty.
    proof fn lemma_pop_gap(&self)
        requires
            self.wf(),
        ensures
            ({
                let start = self.header.dequeue_pos as int;
                let gap = words::signed_gap(
                    region::slot_at(self.slots@, start, self.mapping.mask).sequence,
                    words::word(protocol::ready(start, self.mapping.mask) + 1),
                );
                &&& self@.len() > 0 ==> gap == 0
                &&& self@.len() == 0 ==> gap < 0
            }),
    {
        let start = self.header.dequeue_pos as int;
        let slot = region::slot_at(self.slots@, start, self.mapping.mask);
        if self@.len() > 0 {
            words::lemma_signed_gap_zero(
                slot.sequence,
                words::word(protocol::ready(start, self.mapping.mask) + 1),
            );
        } else {
            words::lemma_signed_gap(
                protocol::ready(start, self.mapping.mask),
                protocol::ready(start, self.mapping.mask) + 1,
            );
        }
    }

    /// Writing and announcing an item in the next slot appends it.
    proof fn lemma_pushed(&self, before: &Self, value: T)
        requires
            before.wf(),
            before@.len() < before.mapping.capacity,
            self.mapping == before.mapping,
            ({
                let end = before.header.dequeue_pos + before@.len();
                &&& self.header == (ShmHeader {
                    enqueue_pos: words::word(end + 1),
                    ..before.header
                })
                &&& self.slots@ == before.slots@.update(
                    end % (before.mapping.mask + 1),
                    Slot {
                        sequence: words::word(protocol::ready(end, before.mapping.mask) + 1),
                        value: Some(value),
                    },
                )
            }),
        ensures
            self.wf(),
            self@ == before@.push(value),
    {
        let start = before.header.dequeue_pos as int;
        let items = before@.push(value);
        let end = start + before@.len();
        let capacity = before.mapping.mask + 1;
        lemma_mod_bound(end, capacity);
        assert forall|pos: int| #![trigger region::slot_at(self.slots@, pos, self.mapping.mask)]
            start <= pos < start + capacity && pos != end implies region::slot_at(
            self.slots@,
            pos,
            self.mapping.mask,
        ) == region::slot_at(before.slots@, pos, self.mapping.mask) by {
            lemma_mod_bound(pos, capacity);
            if pos % capacity == end % capacity {
                region::lemma_slots_distinct(pos, end, capacity);
            }
        }
        assert(region::holds(self.slots@, self.mapping.mask, start, items));
        self.lemma_view(items);
    }

    /// Freeing the slot of the oldest item for the next lap removes the item.
    proof fn lemma_popped(&self, before: &Self)
        requires
            before.wf(),
            before@.len() > 0,
            self.mapping == before.mapping,
            ({
                let start = before.header.dequeue_pos as int;
                &&& self.header == (ShmHeader {
                    dequeue_pos: words::word(start + 1),
                    ..before.header
                })
                &&& self.slots@ == before.slots@.update(
                    start % (before.mapping.mask + 1),
                    Slot {
                        sequence: words::word(
                            protocol::ready(start + before.mapping.mask + 1, before.mapping.mask),
                        ),
                        value: region::slot_at(before.slots@, start, before.mapping.mask).value,
                    },
                )
            }),
        ensures
            self.wf(),
            self@ == before@.drop_first(),
    {
        let start = before.header.dequeue_pos as int;
        let items = before@.drop_first();
        let capacity = before.mapping.mask + 1;
        lemma_mod_bound(start, capacity);
        lemma_mod_add_multiples_vanish(start, capacity);
        before.lemma_enqueue_pos();
        assert forall|pos: int| #![trigger region::slot_at(self.slots@, pos, self.mapping.mask)]
            start + 1 <= pos < start + capacity implies region::slot_at(
            self.slots@,
            pos,
            self.mapping.mask,
        ) == region::slot_at(before.slots@, pos, self.mapping.mask) by {
            lemma_mod_bound(pos, capacity);
            if pos % capacity == start % capacity {
                region::lemma_slots_distinct(pos, start, capacity);
            }
        }
        assert(region::holds(self.slots@, self.mapping.mask, start + 1, items));
        region::lemma_rebase(self.slots@, self.mapping.mask, start + 1, items);
        words::lemma_word_add(start + 1, items.len() as int);
        self.lemma_view(items);
    }
}

/// How many accesses a push that nobody disturbs has left.
spec fn push_accesses_left(phase: PushPhase) -> int {
    match phase {
        PushPhase::Yield => 6,
        PushPhase::LoadPosition => 5,
        PushPhase::LoadSequence { .. } => 4,
        PushPhase::Exchange { .. } => 3,
        PushPhase::WriteValue { .. } => 2,
        PushPhase::Publish { .. } => 1,
        PushPhase::Return { .. } => 0,
    }
}

/// How many accesses a pop that nobody disturbs has left.
spec fn pop_accesses_left<T>(phase: PopPhase<T>) -> int {
    match phase {
        PopPhase::Yield => 6,
        PopPhase::LoadPosition => 5,
        PopPhase::LoadSequence { .. } => 4,
        PopPhase::Exchange { .. } => 3,
        PopPhase::ReadValue { .. } => 2,
        PopPhase::Release { .. } => 1,
        PopPhase::Return { .. } => 0,
    }
}

impl<T: Copy> ShmRingBuffer<T> {
    /// Attempts to push a value into the buffer. Returns [`TryPushError::Full`] if the queue is full.
    pub fn try_push(&mut self, value: T) -> (result: Result<(), TryPushError>)
        requires
            old(self).wf(),
        ensures
            final(self).wf(),
            final(self).mapping == old(self).mapping,
            result is Ok <==> old(self)@.len() < old(self).mapping.capacity,
            result is Ok ==> final(self)@ == old(self)@.push(value),
            call_effect(
                old(self)@,
                old(self).mapping.capacity,
                QueueCall::Push { value, result },
                final(self)@,
            ),
            result is Ok ==> {
                let pos = old(self).header.enqueue_pos;
                &&& final(self).header == (ShmHeader {
                    enqueue_pos: words::word(pos + 1),
                    ..old(self).header
                })
                &&& final(self).slots@ == old(self).slots@.update(
                    pos as int % old(self).mapping.capacity as int,
                    Slot {
                        sequence: words::word(
                            protocol::ready(pos as int, old(self).mapping.mask) + 1,
                        ),
                        value: Some(value),
                    },
                )
            },
            result is Err ==> *final(self) == *old(self),
    {
        let ghost before = *self;
        let ghost end = self.header.dequeue_pos + self@.len();
        let ghost at = end % (self.mapping.mask + 1);
        proof {
            self.lemma_enqueue_pos();
            self.lemma_push_gap();
            region::lemma_slot_index(end, self.mapping.mask);
            region::lemma_ready_word(end, self.mapping.mask);
            words::lemma_word_add(end, 1);
            words::lemma_word_mod(end, self.mapping.capacity);
        }
        let mut call = PushCall::new(value, self.mapping.mask);
        loop
            invariant
                before == *old(self),
                before.wf(),
                end == before.header.dequeue_pos + before@.len(),
                at == end % (before.mapping.mask + 1),
                at == protocol::slot_index(words::word(end), before.mapping.mask) as int,
                0 <= at < before.slots@.len(),
                before.header.enqueue_pos == words::word(end),
                words::word(words::word(end) + 1) == words::word(end + 1),
                words::word(end) as int % (before.mapping.mask + 1) == at,
                words::word(protocol::ready(words::word(end) as int, before.mapping.mask))
                    == words::word(protocol::ready(end, before.mapping.mask)),
                words::word(protocol::ready(words::word(end) as int, before.mapping.mask) + 1)
                    == words::word(protocol::ready(end, before.mapping.mask) + 1),
                before@.len() < before.mapping.capacity ==> words::signed_gap(
                    before.slots@[at].sequence,
                    words::word(protocol::ready(end, before.mapping.mask)),
                ) == 0,
                before@.len() == before.mapping.capacity ==> words::signed_gap(
                    before.slots@[at].sequence,
                    words::word(protocol::ready(end, before.mapping.mask)),
                ) < 0,
                self.mapping == before.mapping,
                call.mask == before.mapping.mask,
                call.value == value,
                match call.phase {
                    PushPhase::LoadPosition => *self == before,
                    PushPhase::LoadSequence { pos } => *self == before && pos == words::word(end),
                    PushPhase::Exchange { pos } => {
                        &&& *self == before
                        &&& pos == words::word(end)
                        &&& before@.len() < before.mapping.capacity
                    },
                    PushPhase::WriteValue { pos } => {
                        &&& pos == words::word(end)
                        &&& before@.len() < before.mapping.capacity
                        &&& self.header == (ShmHeader {
                            enqueue_pos: words::word(end + 1),
                            ..before.header
                        })
                        &&& self.slots@ == before.slots@
                    },
                    PushPhase::Publish { pos } => {
                        &&& pos == words::word(end)
                        &&& before@.len() < before.mapping.capacity
                        &&& self.header == (ShmHeader {
                            enqueue_pos: words::word(end + 1),
                            ..before.header
                        })
                        &&& self.slots@ == before.slots@.update(
                            at,
                            Slot { sequence: before.slots@[at].sequence, value: Some(value) },
                        )
                    },
                    PushPhase::Yield => false,
                    PushPhase::Return { result: Ok(()) } => {
                        &&& before@.len() < before.mapping.capacity
                        &&& self.header == (ShmHeader {
                            enqueue_pos: words::word(end + 1),
                            ..before.header
                        })
                        &&& self.slots@ == before.slots@.update(
                            at,
                            Slot {
                                sequence: words::word(
                                    protocol::ready(end, before.mapping.mask) + 1,
                                ),
                                value: Some(value),
                            },
                        )
                    },
                    PushPhase::Return { result: Err(_) } => {
                        &&& *self == before
                        &&& before@.len() == before.mapping.capacity
                    },
                },
            decreases push_accesses_left(call.phase),
        {
            match call.action() {
                PushAction::LoadEnqueuePos { .. } => {
                    call = call.resume(RingReply::Word { word: self.header.enqueue_pos });
                },
                PushAction::LoadSequence { index, .. } => {
                    call = call.resume(RingReply::Word { word: self.slots[index].sequence });
                },
                PushAction::ExchangeEnqueuePos { current, new, .. } => {
                    let stored: bool = self.header.enqueue_pos == current;
                    if stored {
                        self.header.enqueue_pos = new;
                    }
                    call = call.resume(RingReply::Exchanged { stored });
                },
                PushAction::WriteValue { index, value } => {
                    self.slots[index].value = Some(value);
                    call = call.resume(RingReply::Done);
                },
                PushAction::StoreSequence { index, sequence, .. } => {
                    self.slots[index].sequence = sequence;
                    call = call.resume(RingReply::Done);
                },
                PushAction::YieldNow => {
                    call = call.resume(RingReply::Done);
                },
                PushAction::Return { result } => {
                    proof {
                        if result is Ok {
                            self.lemma_pushed(&before, value);
                        }
                    }
                    return result;
                },
            }
        }
    }

    /// Attempts to pop a value from the buffer. Returns [`TryPopError::Empty`] if no data is
    /// available.
    pub fn try_pop(&mut self) -> (result: Result<T, TryPopError>)
        requires
            old(self).wf(),
        ensures
            final(self).wf(),
            final(self).mapping == old(self).mapping,
            result is Ok <==> old(self)@.len() > 0,
            result matches Ok(value) ==> {
                &&& value == old(self)@.first()
                &&& final(self)@ == old(self)@.drop_first()
            },
            call_effect(
                old(self)@,
                old(self).mapping.capacity,
                QueueCall::Pop { result },
                final(self)@,
            ),
            result is Ok ==> {
                let pos = old(self).header.dequeue_pos;
                let index = pos as int % old(self).mapping.capacity as int;
                &&& final(self).header == (ShmHeader {
                    dequeue_pos: words::word(pos + 1),
                    ..old(self).header
                })
                &&& final(self).slots@ == old(self).slots@.update(
                    index,
                    Slot {
                        sequence: words::word(
                            protocol::ready(
                                pos + old(self).mapping.capacity,
                                old(self).mapping.mask,
                            ),
                        ),
                        value: old(self).slots@[index].value,
                    },
                )
            },
            result is Err ==> *final(self) == *old(self),
    {
        let ghost before = *self;
        let ghost start = self.header.dequeue_pos as int;
        let ghost at = start % (self.mapping.mask + 1);
        proof {
            self.lemma_pop_gap();
            words::lemma_word_of_usize(self.header.dequeue_pos);
            region::lemma_slot_index(start, self.mapping.mask);
            if self@.len() > 0 {
                assert(region::slot_at(self.slots@, start, self.mapping.mask).value == Some(
                    self@.first(),
                ));
            }
        }
        let mut call = PopCall::new(self.mapping.mask);
        loop
            invariant
                before == *old(self),
                before.wf(),
                start == before.header.dequeue_pos,
                at == start % (before.mapping.mask + 1),
                at == protocol::slot_index(before.header.dequeue_pos, before.mapping.mask) as int,
                0 <= at < before.slots@.len(),
                before@.len() > 0 ==> before.slots@[at].value == Some(before@.first()),
                before@.len() > 0 ==> words::signed_gap(
                    before.slots@[at].sequence,
                    words::word(protocol::ready(start, before.mapping.mask) + 1),
                ) == 0,
                before@.len() == 0 ==> words::signed_gap(
                    before.slots@[at].sequence,
                    words::word(protocol::ready(start, before.mapping.mask) + 1),
                ) < 0,
                self.mapping == before.mapping,
                call.mask == before.mapping.mask,
                match call.phase {
                    PopPhase::LoadPosition => *self == before,
                    PopPhase::LoadSequence { pos } => *self == before && pos == start,
                    PopPhase::Exchange { pos } => {
                        &&& *self == before
                        &&& pos == start
                        &&& before@.len() > 0
                    },
                    PopPhase::ReadValue { pos } => {
                        &&& pos == start
                        &&& before@.len() > 0
                        &&& self.header == (ShmHeader {
                            dequeue_pos: words::word(start + 1),
                            ..before.header
                        })
                        &&& self.slots@ == before.slots@
                    },
                    PopPhase::Release { pos, value } => {
                        &&& pos == start
                        &&& before@.len() > 0
                        &&& value == before@.first()
                        &&& self.header == (ShmHeader {
                            dequeue_pos: words::word(start + 1),
                            ..before.header
                        })
                        &&& self.slots@ == before.slots@
                    },
                    PopPhase::Yield => false,
                    PopPhase::Return { result: Ok(value) } => {
                        &&& before@.len() > 0
                        &&& value == before@.first()
                        &&& self.header == (ShmHeader {
                            dequeue_pos: words::word(start + 1),
                            ..before.header
                        })
                        &&& self.slots@ == before.slots@.update(
                            at,
                            Slot {
                                sequence: words::word(
                                    protocol::ready(
                                        start + before.mapping.mask + 1,
                                        before.mapping.mask,
                                    ),
                                ),
                                value: before.slots@[at].value,
                            },
                        )
                    },
                    PopPhase::Return { result: Err(_) } => {
                        &&& *self == before
                        &&& before@.len() == 0
                    },
                },
            decreases pop_accesses_left(call.phase),
        {
            match call.action() {
                PopAction::LoadDequeuePos { .. } => {
                    call = call.resume(RingReply::Word { word: self.header.dequeue_pos });
                },
                PopAction::LoadSequence { index, .. } => {
                    call = call.resume(RingReply::Word { word: self.slots[index].sequence });
                },
                PopAction::ExchangeDequeuePos { current, new, .. } => {
                    let stored: bool = self.header.dequeue_pos == current;
                    if stored {
                        self.header.dequeue_pos = new;
                    }
                    call = call.resume(RingReply::Exchanged { stored });
                },
                PopAction::ReadValue { index } => {
                    let value = self.slots[index].value.unwrap();
                    call = call.resume(RingReply::Value { value });
                },
                PopAction::StoreSequence { index, sequence, .. } => {
                    self.slots[index].sequence = sequence;
                    call = call.resume(RingReply::Done);
                },
                PopAction::YieldNow => {
                    call = call.resume(RingReply::Done);
                },
                PopAction::Return { result } => {
                    proof {
                        if result is Ok {
                            self.lemma_popped(&before);
                        }
                    }
                    return result;
                },
            }
        }
    }

    /// Returns the configured capacity of the buffer.
    pub fn capacity(&self) -> (capacity: usize)
        ensures
            capacity == self.mapping.capacity,
    {
        self.mapping.capacity
    }
}

impl<T> ShmRingBuffer<T> {
    /// Creates a new shared-memory ring buffer with the given name and power-of-two capacity. The
    /// arguments are checked; what is left to do is up to the call that is returned.
    pub fn create(name: &str, capacity: usize, sizes: RegionSizes) -> (result: Result<
        CreateCall,
        ShmError,
    >)
        requires
            sizes.valid(),
        ensures
            match result {
                Ok(call) => {
                    &&& is_pow2(capacity as int)
                    &&& name@.len() > 0
                    &&& !name@.contains('\0')
                    &&& call.wf()
                    &&& call.name@ == name::object_name(name@)
                    &&& call.capacity == capacity
                    &&& call.sizes == sizes
                    &&& call.phase == CreatePhase::Open
                },
                Err(ShmError::CapacityNotPowerOfTwo) => !is_pow2(capacity as int),
                Err(ShmError::EmptyName) => is_pow2(capacity as int) && name@.len() == 0,
                Err(ShmError::NameContainsNul) => is_pow2(capacity as int) && name@.contains('\0'),
                Err(_) => false,
            },
    {
        if !layout::is_power_of_two(capacity) {
            return Err(ShmError::CapacityNotPowerOfTwo);
        }
        match name::to_cstring(name) {
            Ok(name) => Ok(CreateCall { name, capacity, sizes, phase: CreatePhase::Open }),
            Err(error) => Err(error),
        }
    }

    /// Opens an existing shared-memory ring buffer previously created with
    /// [`ShmRingBuffer::create`]. The name is checked; what is left to do is up to the call that is
    /// returned.
    pub fn open(name: &str, sizes: RegionSizes) -> (result: Result<OpenCall, ShmError>)
        ensures
            match result {
                Ok(call) => {
                    &&& name@.len() > 0
                    &&& !name@.contains('\0')
                    &&& call.wf()
                    &&& call.name@ == name::object_name(name@)
                    &&& call.sizes == sizes
                    &&& call.phase == OpenPhase::Open
                },
                Err(ShmError::EmptyName) => name@.len() == 0,
                Err(ShmError::NameContainsNul) => name@.contains('\0'),
                Err(_) => false,
            },
    {
        match name::to_cstring(name) {
            Ok(name) => Ok(OpenCall { name, sizes, phase: OpenPhase::Open }),
            Err(error) => Err(error),
        }
    }

    /// Unlinks a shared memory queue with the provided name. The name is checked; what is left to do
    /// is up to the call that is returned.
    pub fn unlink(name: &str) -> (result: Result<UnlinkCall, ShmError>)
        ensures
            match result {
                Ok(call) => {
                    &&& name@.len() > 0
                    &&& !name@.contains('\0')
                    &&& call.name@ == name::object_name(name@)
                },
                Err(ShmError::EmptyName) => name@.len() == 0,
                Err(ShmError::NameContainsNul) => name@.contains('\0'),
                Err(_) => false,
            },
    {
        match name::to_cstring(name) {
            Ok(name) => Ok(UnlinkCall { name }),
            Err(error) => Err(error),
        }
    }

    /// The queue of a mapped region, given the contents of the region.
    pub fn attach(mapping: Mapping, header: ShmHeader, slots: Vec<Slot<T>>) -> (queue: Self)
        requires
            attachable(mapping, header, slots@),
        ensures
            queue.wf(),
            queue.mapping == mapping,
            queue.header == header,
            queue.slots == slots,
            queue@ == waiting(header, slots@),
    {
        ShmRingBuffer { mapping, header, slots }
    }

    /// Lets go of the region: what has to be requested to give up the mapping, and what stays behind
    /// in shared memory.
    pub fn detach(self) -> (left: (Vec<OsAction>, ShmHeader, Vec<Slot<T>>))
        ensures
            left.0@ == self.mapping.release_actions(),
            left.0@.len() <= 2,
            self.mapping.base != 0 && self.mapping.layout_size > 0 ==> left.0@.len() > 0
                && left.0@[0] == (OsAction::Unmap {
                address: self.mapping.base,
                length: self.mapping.layout_size,
            }),
            self.mapping.fd >= 0 ==> left.0@.len() > 0 && left.0@.last() == (OsAction::Close {
                fd: self.mapping.fd,
            }),
            left.1 == self.header,
            left.2 == self.slots,
    {
        (self.mapping.release(), self.header, self.slots)
    }
}

/// The region that a creation has written is a queue, and nothing waits in it.
pub proof fn law_created_queue_is_empty<T>(
    capacity: usize,
    sizes: RegionSizes,
    fd: i32,
    base: usize,
    slots: Seq<Slot<T>>,
)
    requires
        is_pow2(capacity as int),
        sizes.valid(),
        create::region_size(capacity, sizes) <= usize::MAX,
        slots.len() == capacity,
        forall|i: int| 0 <= i < capacity ==> (#[trigger] slots[i]).sequence == i,
    ensures
        attachable(
            create::new_mapping(capacity, sizes, fd, base),
            create::new_header(capacity, sizes),
            slots,
        ),
        waiting(create::new_header(capacity, sizes), slots).len() == 0,
{
    let header = create::new_header(capacity, sizes);
    let mask = header.mask;
    reveal(is_pow2);
    layout::lemma_aligned_up(sizes.header_size as int, sizes.slot_align as int);
    assert(capacity * sizes.slot_size >= 0) by (nonlinear_arith)
        requires
            capacity >= 0,
            sizes.slot_size >= 0,
    ;
    words::lemma_word_small(0);
    assert forall|pos: int| #![trigger region::slot_at(slots, pos, mask)]
        0 <= pos < capacity implies region::slot_at(slots, pos, mask).sequence == words::word(
        protocol::ready(pos, mask),
    ) by {
        lemma_small_mod(pos as nat, capacity as nat);
        protocol::lemma_ready(pos, mask);
        words::lemma_word_small(pos);
    }
}

/// Whoever opens a queue with the sizes that it was created with finds it as it was left: with its
/// capacity and its items.
pub proof fn law_reopened_queue_holds_the_same_items<T>(
    queue: ShmRingBuffer<T>,
    sizes: RegionSizes,
    fd: i32,
    base: usize,
)
    requires
        queue.wf(),
        queue.header.item_size == sizes.item_size,
        queue.header.slot_size == sizes.slot_size,
        queue.mapping.layout_size >= sizes.header_size,
    ensures
        open::header_fault(sizes, queue.header) is None,
        attachable(open::opened_mapping(queue.header, fd, base), queue.header, queue.slots@),
        waiting(queue.header, queue.slots@) == queue@,
        open::opened_mapping(queue.header, fd, base) == (Mapping { fd, base, ..queue.mapping }),
{
    let header = queue.header;
    assert(header.capacity * header.slot_size >= 0) by (nonlinear_arith)
        requires
            header.capacity >= 0,
            header.slot_size >= 0,
    ;
}

/// Where others have worked on the region and none of them is halfway, it is again a queue for one
/// that has it to itself, and what waits in it is what was accepted and has not been taken.
pub proof fn law_quiet_region_can_be_attached<T>(
    world: World<T>,
    mapping: Mapping,
    header: ShmHeader,
)
    requires
        world.consistent(),
        world.quiet(),
        describes(header, mapping),
        header.mask == world.mask,
        header.enqueue_pos == world.enqueue_pos,
        header.dequeue_pos == world.dequeue_pos,
    ensures
        attachable(mapping, header, world.slots),
        waiting(header, world.slots) == world.accepted.subrange(world.popped(), world.pushed()),
{
    interleaving::law_quiet_region_holds_the_waiting_items(world);
    region::lemma_items_between(
        world.slots,
        world.mask,
        world.dequeue_pos,
        world.enqueue_pos,
        world.accepted.subrange(world.popped(), world.pushed()),
    );
}

/// A call on the queue and what it returned.
pub enum QueueCall<T> {
    Push { value: T, result: Result<(), TryPushError> },
    Pop { result: Result<T, TryPopError> },
}

/// What a call does to the items that wait in a queue.
pub open spec fn call_effect<T>(
    before: Seq<T>,
    capacity: usize,
    call: QueueCall<T>,
    after: Seq<T>,
) -> bool {
    match call {
        QueueCall::Push { value, result: Ok(()) } => {
            &&& before.len() < capacity
            &&& after == before.push(value)
        },
        QueueCall::Push { result: Err(TryPushError::Full), .. } => {
            &&& before.len() == capacity
            &&& after == before
        },
        QueueCall::Pop { result: Ok(value) } => {
            &&& before.len() > 0
            &&& value == before.first()
            &&& after == before.drop_first()
        },
        QueueCall::Pop { result: Err(TryPopError::Empty) } => {
            &&& before.len() == 0
            &&& after == before
        },
    }
}

/// The values that the pushes among these calls put in, in order.
pub open spec fn values_in<T>(calls: Seq<QueueCall<T>>) -> Seq<T>
    decreases calls.len(),
{
    if calls.len() == 0 {
        Seq::empty()
    } else {
        match calls.last() {
            QueueCall::Push { value, result: Ok(()) } => values_in(calls.drop_last()).push(value),
            _ => values_in(calls.drop_last()),
        }
    }
}

/// The values that the pops among these calls returned, in order.
pub open spec fn values_out<T>(calls: Seq<QueueCall<T>>) -> Seq<T>
    decreases calls.len(),
{
    if calls.len() == 0 {
        Seq::empty()
    } else {
        match calls.last() {
            QueueCall::Pop { result: Ok(value) } => values_out(calls.drop_last()).push(value),
            _ => values_out(calls.drop_last()),
        }
    }
}

/// First in, first out, whatever the order of the calls: the values that have been popped, followed
/// by the items that wait at the end, are the items that waited at first, followed by the values
/// that have been accepted. `states` holds the items that waited before each call, and at the end.
pub proof fn law_first_in_first_out<T>(
    capacity: usize,
    calls: Seq<QueueCall<T>>,
    states: Seq<Seq<T>>,
)
    requires
        states.len() == calls.len() + 1,
        forall|i: int| 0 <= i < calls.len() ==> #[trigger] call_effect(
            states[i],
            capacity,
            calls[i],
            states[i + 1],
        ),
    ensures
        values_out(calls) + states.last() == states.first() + values_in(calls),
    decreases calls.len(),
{
    if calls.len() == 0 {
        assert(values_out(calls) + states.last() =~= states.first() + values_in(calls));
    } else {
        let n = calls.len() - 1;
        let earlier = calls.drop_last();
        assert forall|i: int| 0 <= i < earlier.len() implies #[trigger] call_effect(
            states.drop_last()[i],
            capacity,
            earlier[i],
            states.drop_last()[i + 1],
        ) by {
            assert(call_effect(states[i], capacity, calls[i], states[i + 1]));
        }
        law_first_in_first_out(capacity, earlier, states.drop_last());
        assert(call_effect(states[n], capacity, calls[n], states[n + 1]));
        let sum = values_out(earlier) + states[n];
        assert(sum == states.first() + values_in(earlier));
        match calls.last() {
            QueueCall::Push { value, result: Ok(()) } => {
                assert(values_out(calls) + states.last() =~= sum.push(value));
                assert(states.first() + values_in(calls) =~= sum.push(value));
            },
            QueueCall::Pop { result: Ok(value) } => {
                assert(values_out(calls) + states.last() =~= sum);
            },
            _ => {},
        }
    }
}

} // verus!
