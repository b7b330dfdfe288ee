//! Any number of pushes and pops at once.
//!
//! A [`World`] is a shared region together with all the calls that work on it. In one step, one
//! call makes the access that it waits for; accesses take effect one at a time, in any order that
//! the scheduler likes. Beside the shared words a world records what has happened so far: which
//! items have been accepted, in which order, and which call put in and took out each of them. The
//! laws at the end say what every schedule keeps.

use crate::error::{TryPopError, TryPushError};
use crate::protocol;
use crate::protocol::{
    PopAction, PopCall, PopPhase, PushAction, PushCall, PushPhase, RingReply,
};
use crate::region;
use crate::region::Slot;
use crate::words;
use vstd::arithmetic::div_mod::*;
use vstd::arithmetic::power2::*;
use vstd::prelude::*;

verus! {

/// What a slot is used for, and for which position of the queue.
pub enum SlotUse {
    /// Free for the push of `pos`.
    Free { pos: int },
    /// Claimed by the push of `pos`, which has not announced its item.
    Writing { pos: int },
    /// Holds the item of `pos` for a pop.
    Filled { pos: int },
    /// Claimed by the pop of `pos`, which has not freed the slot.
    Reading { pos: int },
}

impl SlotUse {
    pub open spec fn pos(self) -> int {
        match self {
            SlotUse::Free { pos } => pos,
            SlotUse::Writing { pos } => pos,
            SlotUse::Filled { pos } => pos,
            SlotUse::Reading { pos } => pos,
        }
    }

    /// The sequence number of the slot.
    pub open spec fn sequence(self, mask: usize) -> int {
        match self {
            SlotUse::Free { pos } => protocol::ready(pos, mask),
            SlotUse::Writing { pos } => protocol::ready(pos, mask),
            SlotUse::Filled { pos } => protocol::ready(pos, mask) + 1,
            SlotUse::Reading { pos } => protocol::ready(pos, mask) + 1,
        }
    }
}

/// A push in a world. `pos` is the position that it last loaded or claimed, as a counter that does
/// not wrap.
pub struct Pusher<T> {
    pub call: PushCall<T>,
    pub pos: int,
}

/// A pop in a world. `pos` is the position that it last loaded or claimed, as a counter that does not
/// wrap.
pub struct Popper<T> {
    pub call: PopCall<T>,
    pub pos: int,
}

/// A region, the calls on it and what they have done.
pub struct World<T> {
    /// One less than the number of slots.
    pub mask: usize,
    /// The shared word of the next push.
    pub enqueue_pos: usize,
    /// The shared word of the next pop.
    pub dequeue_pos: usize,
    /// The shared slots.
    pub slots: Seq<Slot<T>>,
    /// All pushes that have begun, by an identity of their own.
    pub pushers: Map<int, Pusher<T>>,
    /// All pops that have begun, by an identity of their own.
    pub poppers: Map<int, Popper<T>>,
    /// The items accepted so far, in the order in which their positions were claimed.
    pub accepted: Seq<T>,
    /// The push that claimed each position.
    pub givers: Seq<int>,
    /// The pop that claimed each position.
    pub takers: Seq<int>,
    /// What each slot is used for.
    pub uses: Seq<SlotUse>,
}

/// Something that can happen in a world.
pub enum Event<T> {
    /// A push begins.
    BeginPush { id: int, value: T },
    /// A push makes its pending access and gets this reply.
    StepPush { id: int, reply: RingReply<T> },
    /// A pop begins.
    BeginPop { id: int },
    /// A pop makes its pending access and gets this reply.
    StepPop { id: int, reply: RingReply<T> },
}

/// Who makes a step.
pub enum Caller {
    Push { id: int },
    Pop { id: int },
}

impl<T> World<T> {
    /// The number of slots.
    pub open spec fn capacity(self) -> int {
        self.mask + 1
    }

    /// How many positions pushes have claimed.
    pub open spec fn pushed(self) -> int {
        self.accepted.len() as int
    }

    /// How many positions pops have claimed.
    pub open spec fn popped(self) -> int {
        self.takers.len() as int
    }

    /// The use of the slot of a position.
    pub open spec fn use_at(self, pos: int) -> SlotUse {
        self.uses[pos % self.capacity()]
    }

    /// A fresh region with no calls.
    pub open spec fn initial(mask: usize, slots: Seq<Slot<T>>) -> Self {
        World {
            mask,
            enqueue_pos: 0,
            dequeue_pos: 0,
            slots,
            pushers: Map::empty(),
            poppers: Map::empty(),
            accepted: Seq::empty(),
            givers: Seq::empty(),
            takers: Seq::empty(),
            uses: Seq::new((mask + 1) as nat, |i: int| SlotUse::Free { pos: i }),
        }
    }

    /// Whether a push can get this reply to its pending access. An exchange that finds another word
    /// fails, and one that finds its word may fail as well.
    pub open spec fn push_can_get(self, id: int, reply: RingReply<T>) -> bool {
        let call = self.pushers[id].call;
        &&& self.pushers.contains_key(id)
        &&& call.accepts(reply)
        &&& match call.pending() {
            PushAction::LoadEnqueuePos { .. } => reply->word == self.enqueue_pos,
            PushAction::LoadSequence { index, .. } => reply->word
                == self.slots[index as int].sequence,
            PushAction::ExchangeEnqueuePos { current, .. } => reply->stored ==> self.enqueue_pos
                == current,
            _ => true,
        }
    }

    /// Whether this reply lets the push claim a position.
    pub open spec fn push_claims(self, id: int, reply: RingReply<T>) -> bool {
        self.pushers[id].call.pending() is ExchangeEnqueuePos && reply->stored
    }

    /// The world after a push has made its pending access.
    pub open spec fn step_push(self, id: int, reply: RingReply<T>) -> Self {
        let pusher = self.pushers[id];
        let action = pusher.call.pending();
        let claims = self.push_claims(id, reply);
        World {
            enqueue_pos: if claims {
                action->ExchangeEnqueuePos_new
            } else {
                self.enqueue_pos
            },
            slots: match action {
                PushAction::WriteValue { index, value } => self.slots.update(
                    index as int,
                    Slot { sequence: self.slots[index as int].sequence, value: Some(value) },
                ),
                PushAction::StoreSequence { index, sequence, .. } => self.slots.update(
                    index as int,
                    Slot { sequence, value: self.slots[index as int].value },
                ),
                _ => self.slots,
            },
            pushers: self.pushers.insert(
                id,
                Pusher {
                    call: pusher.call.next(reply),
                    pos: if action is LoadEnqueuePos || claims {
                        self.pushed()
                    } else {
                        pusher.pos
                    },
                },
            ),
            accepted: if claims {
                self.accepted.push(pusher.call.value)
            } else {
                self.accepted
            },
            givers: if claims {
                self.givers.push(id)
            } else {
                self.givers
            },
            uses: if claims {
                self.uses.update(
                    self.pushed() % self.capacity(),
                    SlotUse::Writing { pos: self.pushed() },
                )
            } else if action is StoreSequence {
                self.uses.update(
                    pusher.pos % self.capacity(),
                    SlotUse::Filled { pos: pusher.pos },
                )
            } else {
                self.uses
            },
            ..self
        }
    }

    /// Whether a pop can get this reply to its pending access.
    pub open spec fn pop_can_get(self, id: int, reply: RingReply<T>) -> bool {
        let call = self.poppers[id].call;
        &&& self.poppers.contains_key(id)
        &&& call.accepts(reply)
        &&& match call.pending() {
            PopAction::LoadDequeuePos { .. } => reply->word == self.dequeue_pos,
            PopAction::LoadSequence { index, .. } => reply->word
                == self.slots[index as int].sequence,
            PopAction::ExchangeDequeuePos { current, .. } => reply->stored ==> self.dequeue_pos
                == current,
            PopAction::ReadValue { index } => self.slots[index as int].value matches Some(value)
                ==> reply->value == value,
            _ => true,
        }
    }

    /// Whether this reply lets the pop claim a position.
    pub open spec fn pop_claims(self, id: int, reply: RingReply<T>) -> bool {
        self.poppers[id].call.pending() is ExchangeDequeuePos && reply->stored
    }

    /// The world after a pop has made its pending access.
    pub open spec fn step_pop(self, id: int, reply: RingReply<T>) -> Self {
        let popper = self.poppers[id];
        let action = popper.call.pending();
        let claims = self.pop_claims(id, reply);
        World {
            dequeue_pos: if claims {
                action->ExchangeDequeuePos_new
            } else {
                self.dequeue_pos
            },
            slots: match action {
                PopAction::StoreSequence { index, sequence, .. } => self.slots.update(
                    index as int,
                    Slot { sequence, value: self.slots[index as int].value },
                ),
                _ => self.slots,
            },
            poppers: self.poppers.insert(
                id,
                Popper {
                    call: popper.call.next(reply),
                    pos: if action is LoadDequeuePos || claims {
                        self.popped()
                    } else {
                        popper.pos
                    },
                },
            ),
            takers: if claims {
                self.takers.push(id)
            } else {
                self.takers
            },
            uses: if claims {
                self.uses.update(
                    self.popped() % self.capacity(),
                    SlotUse::Reading { pos: self.popped() },
                )
            } else if action is StoreSequence {
                self.uses.update(
                    popper.pos % self.capacity(),
                    SlotUse::Free { pos: popper.pos + self.capacity() },
                )
            } else {
                self.uses
            },
            ..self
        }
    }

    /// Whether an event can happen.
    pub open spec fn can_happen(self, event: Event<T>) -> bool {
        match event {
            Event::BeginPush { id, .. } => !self.pushers.contains_key(id),
            Event::StepPush { id, reply } => self.push_can_get(id, reply),
            Event::BeginPop { id } => !self.poppers.contains_key(id),
            Event::StepPop { id, reply } => self.pop_can_get(id, reply),
        }
    }

    /// The world after an event.
    pub open spec fn after(self, event: Event<T>) -> Self {
        match event {
            Event::BeginPush { id, value } => World {
                pushers: self.pushers.insert(
                    id,
                    Pusher { call: PushCall::start(value, self.mask), pos: 0 },
                ),
                ..self
            },
            Event::StepPush { id, reply } => self.step_push(id, reply),
            Event::BeginPop { id } => World {
                poppers: self.poppers.insert(
                    id,
                    Popper { call: PopCall::start(self.mask), pos: 0 },
                ),
                ..self
            },
            Event::StepPop { id, reply } => self.step_pop(id, reply),
        }
    }

    /// Whether a call claims a position although the slot of the position is not for it. The counter
    /// must have moved on by a whole range of words since the call loaded it, so that the exchange
    /// finds the old word again; see [`law_overrun_takes_a_full_circle`].
    pub open spec fn overruns(self, event: Event<T>) -> bool {
        match event {
            Event::StepPush { id, reply } => self.push_claims(id, reply) && self.use_at(
                self.pushed(),
            ) != (SlotUse::Free { pos: self.pushed() }),
            Event::StepPop { id, reply } => self.pop_claims(id, reply) && self.use_at(self.popped())
                != (SlotUse::Filled { pos: self.popped() }),
            _ => false,
        }
    }

    /// The state of one slot: its word, the range of its position and its item.
    pub open spec fn slot_ok(self, i: int) -> bool {
        let slot_use = self.uses[i];
        &&& slot_use.pos() >= 0
        &&& slot_use.pos() % self.capacity() == i
        &&& self.slots[i].sequence == words::word(slot_use.sequence(self.mask))
        &&& match slot_use {
            SlotUse::Free { pos } => self.pushed() <= pos < self.popped() + self.capacity(),
            SlotUse::Writing { pos } => self.popped() <= pos < self.pushed(),
            SlotUse::Filled { pos } => {
                &&& self.popped() <= pos < self.pushed()
                &&& self.slots[i].value == Some(self.accepted[pos])
            },
            SlotUse::Reading { pos } => {
                &&& pos < self.popped()
                &&& self.pushed() <= pos + self.capacity()
                &&& self.slots[i].value == Some(self.accepted[pos])
            },
        }
    }

    /// Whether a push owns the position that it last loaded.
    pub open spec fn gave(self, id: int) -> bool {
        let pusher = self.pushers[id];
        &&& 0 <= pusher.pos < self.pushed()
        &&& self.givers[pusher.pos] == id
        &&& self.accepted[pusher.pos] == pusher.call.value
    }

    /// What holds of a push, wherever it stands.
    pub open spec fn pusher_ok(self, id: int) -> bool {
        let pusher = self.pushers[id];
        &&& pusher.call.mask == self.mask
        &&& match pusher.call.phase {
            PushPhase::LoadSequence { pos } => {
                &&& 0 <= pusher.pos <= self.pushed()
                &&& pos == words::word(pusher.pos)
            },
            PushPhase::Exchange { pos } => {
                &&& 0 <= pusher.pos <= self.pushed()
                &&& pos == words::word(pusher.pos)
                &&& pusher.pos == self.pushed() ==> self.use_at(pusher.pos) == SlotUse::Free {
                    pos: pusher.pos,
                }
            },
            PushPhase::WriteValue { pos } => {
                &&& self.gave(id)
                &&& pos == words::word(pusher.pos)
                &&& self.use_at(pusher.pos) == SlotUse::Writing { pos: pusher.pos }
            },
            PushPhase::Publish { pos } => {
                &&& self.gave(id)
                &&& pos == words::word(pusher.pos)
                &&& self.use_at(pusher.pos) == SlotUse::Writing { pos: pusher.pos }
                &&& region::slot_at(self.slots, pusher.pos, self.mask).value == Some(
                    pusher.call.value,
                )
            },
            PushPhase::Return { result: Ok(()) } => {
                &&& self.gave(id)
                &&& self.use_at(pusher.pos) != SlotUse::Writing { pos: pusher.pos }
            },
            _ => true,
        }
    }

    /// Whether a pop owns the position that it last loaded.
    pub open spec fn took(self, id: int) -> bool {
        let popper = self.poppers[id];
        &&& 0 <= popper.pos < self.popped()
        &&& self.takers[popper.pos] == id
    }

    /// What holds of a pop, wherever it stands.
    pub open spec fn popper_ok(self, id: int) -> bool {
        let popper = self.poppers[id];
        &&& popper.call.mask == self.mask
        &&& match popper.call.phase {
            PopPhase::LoadSequence { pos } => {
                &&& 0 <= popper.pos <= self.popped()
                &&& pos == words::word(popper.pos)
            },
            PopPhase::Exchange { pos } => {
                &&& 0 <= popper.pos <= self.popped()
                &&& pos == words::word(popper.pos)
                &&& popper.pos == self.popped() ==> self.use_at(popper.pos) == SlotUse::Filled {
                    pos: popper.pos,
                }
            },
            PopPhase::ReadValue { pos } => {
                &&& self.took(id)
                &&& pos == words::word(popper.pos)
                &&& self.use_at(popper.pos) == SlotUse::Reading { pos: popper.pos }
            },
            PopPhase::Release { pos, value } => {
                &&& self.took(id)
                &&& pos == words::word(popper.pos)
                &&& self.use_at(popper.pos) == SlotUse::Reading { pos: popper.pos }
                &&& value == self.accepted[popper.pos]
            },
            PopPhase::Return { result: Ok(value) } => {
                &&& self.took(id)
                &&& self.use_at(popper.pos) != SlotUse::Reading { pos: popper.pos }
                &&& value == self.accepted[popper.pos]
            },
            _ => true,
        }
    }

    /// Whether a push has claimed a position: from the claim on, to the end.
    pub open spec fn push_has_claimed(self, id: int) -> bool {
        match self.pushers[id].call.phase {
            PushPhase::WriteValue { .. } => true,
            PushPhase::Publish { .. } => true,
            PushPhase::Return { result: Ok(()) } => true,
            _ => false,
        }
    }

    /// Whether a pop has claimed a position: from the claim on, to the end.
    pub open spec fn pop_has_claimed(self, id: int) -> bool {
        match self.poppers[id].call.phase {
            PopPhase::ReadValue { .. } => true,
            PopPhase::Release { .. } => true,
            PopPhase::Return { result: Ok(_) } => true,
            _ => false,
        }
    }

    /// The push that put in the item of a position is known and remembers the position.
    pub open spec fn giver_ok(self, pos: int) -> bool {
        let id = self.givers[pos];
        &&& self.pushers.contains_key(id)
        &&& self.pushers[id].pos == pos
        &&& self.push_has_claimed(id)
    }

    /// The pop that claimed a position is known and remembers the position.
    pub open spec fn taker_ok(self, pos: int) -> bool {
        let id = self.takers[pos];
        &&& self.poppers.contains_key(id)
        &&& self.poppers[id].pos == pos
        &&& self.pop_has_claimed(id)
    }

    /// What every schedule keeps.
    pub open spec fn consistent(self) -> bool {
        &&& region::well_shaped(self.slots, self.mask)
        &&& self.uses.len() == self.capacity()
        &&& self.givers.len() == self.accepted.len()
        &&& self.popped() <= self.pushed() <= self.popped() + self.capacity()
        &&& self.enqueue_pos == words::word(self.pushed())
        &&& self.dequeue_pos == words::word(self.popped())
        &&& forall|i: int| 0 <= i < self.capacity() ==> #[trigger] self.slot_ok(i)
        &&& forall|id: int| self.pushers.contains_key(id) ==> #[trigger] self.pusher_ok(id)
        &&& forall|id: int| self.poppers.contains_key(id) ==> #[trigger] self.popper_ok(id)
        &&& forall|pos: int| 0 <= pos < self.pushed() ==> #[trigger] self.giver_ok(pos)
        &&& forall|pos: int| 0 <= pos < self.popped() ==> #[trigger] self.taker_ok(pos)
    }
}

impl<T> World<T> {
    /// Whether a push is between claiming a position and announcing its item, so that nobody else may
    /// touch the item of the slot.
    pub open spec fn push_owns_slot(self, id: int) -> bool {
        &&& self.pushers.contains_key(id)
        &&& self.pushers[id].call.phase is WriteValue || self.pushers[id].call.phase is Publish
    }

    /// Whether a pop is between claiming a position and freeing its slot, so that nobody else may
    /// touch the item of the slot.
    pub open spec fn pop_owns_slot(self, id: int) -> bool {
        &&& self.poppers.contains_key(id)
        &&& self.poppers[id].call.phase is ReadValue || self.poppers[id].call.phase is Release
    }

    /// The slot that a push works on, as the push computes it.
    pub open spec fn push_slot(self, id: int) -> usize {
        match self.pushers[id].call.pending() {
            PushAction::WriteValue { index, .. } => index,
            PushAction::StoreSequence { index, .. } => index,
            PushAction::LoadSequence { index, .. } => index,
            _ => 0,
        }
    }

    /// The slot that a pop works on, as the pop computes it.
    pub open spec fn pop_slot(self, id: int) -> usize {
        match self.poppers[id].call.pending() {
            PopAction::ReadValue { index } => index,
            PopAction::StoreSequence { index, .. } => index,
            PopAction::LoadSequence { index, .. } => index,
            _ => 0,
        }
    }

    /// The world after a schedule of events.
    pub open spec fn run(self, events: Seq<Event<T>>) -> Self
        decreases events.len(),
    {
        if events.len() == 0 {
            self
        } else {
            self.run(events.drop_last()).after(events.last())
        }
    }

    /// Whether each event of a schedule can happen when its turn comes, and none of them overruns a
    /// slot.
    pub open spec fn can_run(self, events: Seq<Event<T>>) -> bool
        decreases events.len(),
    {
        events.len() == 0 || {
            let before = self.run(events.drop_last());
            &&& self.can_run(events.drop_last())
            &&& before.can_happen(events.last())
            &&& !before.overruns(events.last())
        }
    }
}

impl<T> World<T> {
    /// Whether a push slept so long after loading its position that the slot of the position has
    /// moved on by half of the range of words or more, which it takes for being behind.
    pub open spec fn push_overslept(self, id: int) -> bool {
        let pos = self.pushers[id].pos;
        self.use_at(pos).sequence(self.mask) - protocol::ready(pos, self.mask) > isize::MAX
    }

    /// The same for a pop.
    pub open spec fn pop_overslept(self, id: int) -> bool {
        let pos = self.poppers[id].pos;
        self.use_at(pos).sequence(self.mask) - protocol::ready(pos, self.mask) - 1 > isize::MAX
    }

    /// Whether no call is between claiming a position and giving up its slot.
    pub open spec fn quiet(self) -> bool {
        &&& forall|id: int| !#[trigger] self.push_owns_slot(id)
        &&& forall|id: int| !#[trigger] self.pop_owns_slot(id)
    }
}

/// The sequence numbers of one lap of the slots lie apart by less than the range of a word.
proof fn lemma_lap(mask: usize, a: int, b: int)
    requires
        mask < usize::MAX,
        is_pow2(mask + 1),
    ensures
        2 <= protocol::stride(mask) * (mask + 1),
        2 * (protocol::stride(mask) * (mask + 1)) <= words::modulus(),
        protocol::ready(b, mask) - protocol::ready(a, mask) == protocol::stride(mask) * (b - a),
{
    words::lemma_pow2_divides_modulus((mask + 1) as usize);
    let k = protocol::stride(mask);
    assert(k * (b - a) == k * b - k * a) by (nonlinear_arith);
}

impl<T> World<T> {
    /// A slot that carries the number of the next push is free for it.
    proof fn lemma_ready_is_free(self)
        requires
            self.consistent(),
            region::slot_at(self.slots, self.pushed(), self.mask).sequence == words::word(
                protocol::ready(self.pushed(), self.mask),
            ),
        ensures
            self.use_at(self.pushed()) == (SlotUse::Free { pos: self.pushed() }),
    {
        let pos = self.pushed();
        let i = pos % self.capacity();
        lemma_mod_bound(pos, self.capacity());
        assert(self.slot_ok(i));
        let slot_use = self.uses[i];
        let before = pos - self.capacity();
        lemma_lap(self.mask, before, pos);
        lemma_mod_add_multiples_vanish(before, self.capacity());
        if !(slot_use is Free) {
            assert(slot_use.pos() == before) by {
                region::lemma_slots_distinct(slot_use.pos(), before, self.capacity());
            }
            words::lemma_word_distinct(
                slot_use.sequence(self.mask),
                protocol::ready(pos, self.mask),
            );
            assert(false);
        } else {
            region::lemma_slots_distinct(slot_use.pos(), pos, self.capacity());
        }
    }

    /// A slot that announces the item of the next pop holds it.
    proof fn lemma_published_is_filled(self)
        requires
            self.consistent(),
            region::slot_at(self.slots, self.popped(), self.mask).sequence == words::word(
                protocol::ready(self.popped(), self.mask) + 1,
            ),
        ensures
            self.use_at(self.popped()) == (SlotUse::Filled { pos: self.popped() }),
    {
        let pos = self.popped();
        let i = pos % self.capacity();
        lemma_mod_bound(pos, self.capacity());
        assert(self.slot_ok(i));
        let slot_use = self.uses[i];
        let before = pos - self.capacity();
        lemma_lap(self.mask, before, pos);
        lemma_mod_add_multiples_vanish(before, self.capacity());
        if slot_use is Reading {
            assert(slot_use.pos() == before) by {
                region::lemma_slots_distinct(slot_use.pos(), before, self.capacity());
            }
            words::lemma_word_distinct(
                slot_use.sequence(self.mask),
                protocol::ready(pos, self.mask) + 1,
            );
            assert(false);
        } else {
            region::lemma_slots_distinct(slot_use.pos(), pos, self.capacity());
            if !(slot_use is Filled) {
                words::lemma_word_distinct(
                    slot_use.sequence(self.mask),
                    protocol::ready(pos, self.mask) + 1,
                );
                assert(false);
            }
        }
    }

    /// What one call does leaves everything else alone: where the caller itself is in order after a
    /// step, and the one slot that it may have changed is, the whole world is.
    proof fn lemma_step_leaves_others_alone(self, next: Self, caller: Caller, at: int)
        requires
            self.consistent(),
            next.mask == self.mask,
            next.slots.len() == self.slots.len(),
            next.uses.len() == self.uses.len(),
            0 <= at < self.capacity(),
            // Other slots are as they were, and the one that changed belonged to the caller, or is
            // that of the position that the caller has just claimed.
            forall|i: int| 0 <= i < self.capacity() && i != at ==> {
                &&& #[trigger] next.slots[i] == self.slots[i]
                &&& next.uses[i] == self.uses[i]
            },
            next.slot_ok(at),
            next.slots[at] == self.slots[at] && next.uses[at] == self.uses[at]
                || match self.uses[at] {
                SlotUse::Free { .. } => next.pushed() > self.pushed(),
                SlotUse::Writing { pos } => caller == (Caller::Push { id: self.givers[pos] }),
                SlotUse::Filled { .. } => next.popped() > self.popped(),
                SlotUse::Reading { pos } => caller == (Caller::Pop { id: self.takers[pos] }),
            },
            next.uses[at] == self.uses[at] || match next.uses[at] {
                SlotUse::Writing { pos } => pos == self.pushed(),
                SlotUse::Reading { pos } => pos == self.popped(),
                _ => true,
            },
            // The history is as it was, or has grown by the position that the caller has claimed.
            next.accepted == self.accepted && next.givers == self.givers || {
                &&& caller is Push
                &&& next.accepted == self.accepted.push(next.accepted.last())
                &&& next.givers == self.givers.push(caller->Push_id)
                &&& at == self.pushed() % self.capacity()
                &&& next.giver_ok(self.pushed())
            },
            next.takers == self.takers || {
                &&& caller is Pop
                &&& next.takers == self.takers.push(caller->Pop_id)
                &&& at == self.popped() % self.capacity()
                &&& next.taker_ok(self.popped())
            },
            next.popped() <= next.pushed() <= next.popped() + next.capacity(),
            next.enqueue_pos == words::word(next.pushed()),
            next.dequeue_pos == words::word(next.popped()),
            // Other calls are as they were, and the caller keeps a position that it has claimed.
            match caller {
                Caller::Push { id } => {
                    &&& next.pushers == self.pushers.insert(id, next.pushers[id])
                    &&& next.poppers == self.poppers
                    &&& next.pusher_ok(id)
                    &&& self.pushers.contains_key(id) && self.push_has_claimed(id) ==> {
                        &&& next.push_has_claimed(id)
                        &&& next.pushers[id].pos == self.pushers[id].pos
                    }
                },
                Caller::Pop { id } => {
                    &&& next.poppers == self.poppers.insert(id, next.poppers[id])
                    &&& next.pushers == self.pushers
                    &&& next.popper_ok(id)
                    &&& self.poppers.contains_key(id) && self.pop_has_claimed(id) ==> {
                        &&& next.pop_has_claimed(id)
                        &&& next.poppers[id].pos == self.poppers[id].pos
                    }
                },
            },
        ensures
            next.consistent(),
    {
        assert forall|i: int| 0 <= i < next.capacity() implies #[trigger] next.slot_ok(i) by {
            if i != at {
                assert(self.slot_ok(i));
                assert(next.slots[i] == self.slots[i]);
                if self.uses[i] is Reading {
                    lemma_mod_add_multiples_vanish(self.uses[i].pos(), self.capacity());
                }
            }
        }
        assert forall|id: int| next.pushers.contains_key(id) implies
            #[trigger] next.pusher_ok(id) by {
            if caller != (Caller::Push { id }) {
                let pos = self.pushers[id].pos;
                assert(self.pusher_ok(id));
                lemma_mod_bound(pos, self.capacity());
                assert(pos % self.capacity() != at ==> next.slots[pos % self.capacity()]
                    == self.slots[pos % self.capacity()]);
            }
        }
        assert forall|id: int| next.poppers.contains_key(id) implies
            #[trigger] next.popper_ok(id) by {
            if caller != (Caller::Pop { id }) {
                let pos = self.poppers[id].pos;
                assert(self.popper_ok(id));
                lemma_mod_bound(pos, self.capacity());
                assert(pos % self.capacity() != at ==> next.slots[pos % self.capacity()]
                    == self.slots[pos % self.capacity()]);
            }
        }
        assert forall|pos: int| 0 <= pos < next.pushed() implies #[trigger] next.giver_ok(pos) by {
            if pos < self.pushed() {
                assert(self.giver_ok(pos));
            }
        }
        assert forall|pos: int| 0 <= pos < next.popped() implies #[trigger] next.taker_ok(pos) by {
            if pos < self.popped() {
                assert(self.taker_ok(pos));
            }
        }
    }

    /// A call that begins keeps the world consistent.
    proof fn lemma_begins(self, event: Event<T>)
        requires
            self.consistent(),
            self.can_happen(event),
            event is BeginPush || event is BeginPop,
        ensures
            self.after(event).consistent(),
    {
        assert(self.slot_ok(0));
        let caller = match event {
            Event::BeginPush { id, .. } => Caller::Push { id },
            Event::BeginPop { id } => Caller::Pop { id },
            _ => arbitrary(),
        };
        self.lemma_step_leaves_others_alone(self.after(event), caller, 0);
    }

    /// A push that claims no position and stores nothing keeps the world consistent.
    proof fn lemma_push_looks(self, id: int, reply: RingReply<T>)
        requires
            self.consistent(),
            self.push_can_get(id, reply),
            !self.push_claims(id, reply),
            !(self.pushers[id].call.pending() is WriteValue),
            !(self.pushers[id].call.pending() is StoreSequence),
        ensures
            self.step_push(id, reply).consistent(),
    {
        let next = self.step_push(id, reply);
        let pusher = self.pushers[id];
        assert(self.pusher_ok(id));
        assert(next.pusher_ok(id)) by {
            if let PushPhase::LoadSequence { pos } = pusher.call.phase {
                region::lemma_slot_index(pusher.pos, self.mask);
                region::lemma_ready_word(pusher.pos, self.mask);
                words::lemma_signed_gap_zero(
                    reply->word,
                    words::word(protocol::ready(pos as int, self.mask)),
                );
                if pusher.pos == self.pushed() && next.pushers[id].call.phase is Exchange {
                    self.lemma_ready_is_free();
                }
            }
        }
        assert(self.slot_ok(0));
        self.lemma_step_leaves_others_alone(next, Caller::Push { id }, 0);
    }

    /// A push that claims the next position keeps the world consistent.
    proof fn lemma_push_claims(self, id: int, reply: RingReply<T>)
        requires
            self.consistent(),
            self.push_can_get(id, reply),
            self.push_claims(id, reply),
            self.use_at(self.pushed()) == (SlotUse::Free { pos: self.pushed() }),
        ensures
            self.step_push(id, reply).consistent(),
    {
        let at = self.pushed() % self.capacity();
        lemma_mod_bound(self.pushed(), self.capacity());
        assert(self.pusher_ok(id));
        assert(self.slot_ok(at));
        words::lemma_word_add(self.pushed(), 1);
        self.lemma_step_leaves_others_alone(self.step_push(id, reply), Caller::Push { id }, at);
    }

    /// A push that writes or announces its item keeps the world consistent.
    proof fn lemma_push_stores(self, id: int, reply: RingReply<T>)
        requires
            self.consistent(),
            self.push_can_get(id, reply),
            self.push_owns_slot(id),
        ensures
            self.step_push(id, reply).consistent(),
    {
        let pos = self.pushers[id].pos;
        let at = pos % self.capacity();
        assert(self.pusher_ok(id));
        region::lemma_slot_index(pos, self.mask);
        region::lemma_ready_word(pos, self.mask);
        assert(self.slot_ok(at));
        self.lemma_step_leaves_others_alone(self.step_push(id, reply), Caller::Push { id }, at);
    }

    /// A pop that claims no position and stores nothing keeps the world consistent.
    proof fn lemma_pop_looks(self, id: int, reply: RingReply<T>)
        requires
            self.consistent(),
            self.pop_can_get(id, reply),
            !self.pop_claims(id, reply),
            !(self.poppers[id].call.pending() is StoreSequence),
        ensures
            self.step_pop(id, reply).consistent(),
    {
        let next = self.step_pop(id, reply);
        let popper = self.poppers[id];
        assert(self.popper_ok(id));
        assert(next.popper_ok(id)) by {
            if let PopPhase::LoadSequence { pos } = popper.call.phase {
                region::lemma_slot_index(popper.pos, self.mask);
                region::lemma_ready_word(popper.pos, self.mask);
                words::lemma_signed_gap_zero(
                    reply->word,
                    words::word(protocol::ready(pos as int, self.mask) + 1),
                );
                if popper.pos == self.popped() && next.poppers[id].call.phase is Exchange {
                    self.lemma_published_is_filled();
                }
            }
            if let PopPhase::ReadValue { .. } = popper.call.phase {
                region::lemma_slot_index(popper.pos, self.mask);
                assert(self.slot_ok(popper.pos % self.capacity()));
            }
        }
        assert(self.slot_ok(0));
        self.lemma_step_leaves_others_alone(next, Caller::Pop { id }, 0);
    }

    /// A pop that claims the next position keeps the world consistent.
    proof fn lemma_pop_claims(self, id: int, reply: RingReply<T>)
        requires
            self.consistent(),
            self.pop_can_get(id, reply),
            self.pop_claims(id, reply),
            self.use_at(self.popped()) == (SlotUse::Filled { pos: self.popped() }),
        ensures
            self.step_pop(id, reply).consistent(),
    {
        let at = self.popped() % self.capacity();
        lemma_mod_bound(self.popped(), self.capacity());
        assert(self.popper_ok(id));
        assert(self.slot_ok(at));
        words::lemma_word_add(self.popped(), 1);
        self.lemma_step_leaves_others_alone(self.step_pop(id, reply), Caller::Pop { id }, at);
    }

    /// A pop that frees its slot keeps the world consistent.
    proof fn lemma_pop_releases(self, id: int, reply: RingReply<T>)
        requires
            self.consistent(),
            self.pop_can_get(id, reply),
            self.poppers[id].call.pending() is StoreSequence,
        ensures
            self.step_pop(id, reply).consistent(),
    {
        let pos = self.poppers[id].pos;
        let at = pos % self.capacity();
        assert(self.popper_ok(id));
        region::lemma_slot_index(pos, self.mask);
        region::lemma_ready_word(pos, self.mask);
        lemma_mod_add_multiples_vanish(pos, self.capacity());
        assert(self.slot_ok(at));
        self.lemma_step_leaves_others_alone(self.step_pop(id, reply), Caller::Pop { id }, at);
    }
}

impl<T> World<T> {
    /// The number of slots does not change.
    proof fn lemma_mask_stays(self, events: Seq<Event<T>>)
        ensures
            self.run(events).mask == self.mask,
        decreases events.len(),
    {
        if events.len() > 0 {
            self.lemma_mask_stays(events.drop_last());
        }
    }
}

impl<T> World<T> {
    /// The slot of the position that a push last loaded is never behind, unless that position is the
    /// next one: then it may still hold the item of the lap before.
    pub(crate) proof fn lemma_sequence_seen_by_push(self, id: int)
        requires
            self.consistent(),
            self.pushers.contains_key(id),
            self.pushers[id].call.phase is LoadSequence,
        ensures
            ({
                let pos = self.pushers[id].pos;
                let gap = self.use_at(pos).sequence(self.mask) - protocol::ready(pos, self.mask);
                &&& self.slots[self.push_slot(id) as int].sequence == words::word(
                    self.use_at(pos).sequence(self.mask),
                )
                &&& gap >= isize::MIN
                &&& gap < 0 ==> {
                    &&& pos == self.pushed()
                    &&& self.use_at(pos).pos() == pos - self.capacity()
                }
                &&& gap > 0 ==> pos < self.pushed()
            }),
    {
        let pos = self.pushers[id].pos;
        assert(self.pusher_ok(id));
        region::lemma_slot_index(pos, self.mask);
        assert(self.slot_ok(pos % self.capacity()));
        let used = self.use_at(pos).pos();
        lemma_lap(self.mask, pos, used);
        self.lemma_same_slot(pos, used);
    }

    /// The slot of the position that a pop last loaded is never behind, unless that position is the
    /// next one: then its item may not be there yet.
    pub(crate) proof fn lemma_sequence_seen_by_pop(self, id: int)
        requires
            self.consistent(),
            self.poppers.contains_key(id),
            self.poppers[id].call.phase is LoadSequence,
        ensures
            ({
                let pos = self.poppers[id].pos;
                let gap = self.use_at(pos).sequence(self.mask) - protocol::ready(pos, self.mask)
                    - 1;
                &&& self.slots[self.pop_slot(id) as int].sequence == words::word(
                    self.use_at(pos).sequence(self.mask),
                )
                &&& gap >= isize::MIN
                &&& gap < 0 ==> {
                    &&& pos == self.popped()
                    &&& !(self.use_at(pos) is Filled)
                    &&& self.use_at(pos) is Writing ==> self.use_at(pos).pos() == pos
                }
                &&& gap > 0 ==> pos < self.popped()
            }),
    {
        let pos = self.poppers[id].pos;
        assert(self.popper_ok(id));
        region::lemma_slot_index(pos, self.mask);
        assert(self.slot_ok(pos % self.capacity()));
        let used = self.use_at(pos).pos();
        lemma_lap(self.mask, pos, used);
        self.lemma_same_slot(pos, used);
    }

    /// Positions with the same slot are whole laps apart.
    proof fn lemma_same_slot(self, pos: int, used: int)
        requires
            self.mask < usize::MAX,
            used % self.capacity() == pos % self.capacity(),
        ensures
            used < pos ==> used <= pos - self.capacity(),
            used > pos ==> used >= pos + self.capacity(),
            used == pos - self.capacity() ==> protocol::stride(self.mask) * (used - pos) == -(
            protocol::stride(self.mask) * (self.mask + 1)),
            used == pos ==> protocol::stride(self.mask) * (used - pos) == 0,
            used >= pos + self.capacity() ==> protocol::stride(self.mask) * (used - pos)
                >= protocol::stride(self.mask) * (self.mask + 1),
    {
        let k = protocol::stride(self.mask);
        let capacity = self.capacity();
        if pos - capacity < used < pos + capacity {
            region::lemma_slots_distinct(pos, used, capacity);
        }
        if used == pos - capacity {
            assert(k * (used - pos) == -(k * capacity)) by (nonlinear_arith)
                requires
                    used - pos == -capacity,
            ;
        }
        if used >= pos + capacity {
            assert(k * (used - pos) >= k * capacity) by (nonlinear_arith)
                requires
                    k >= 1,
                    used - pos >= capacity,
            ;
        }
    }
}

/// Slots that carry their own index as sequence number make a consistent, empty region.
pub proof fn law_fresh_region_is_consistent<T>(mask: usize, slots: Seq<Slot<T>>)
    requires
        region::well_shaped(slots, mask),
        forall|i: int| 0 <= i <= mask ==> (#[trigger] slots[i]).sequence == i,
    ensures
        World::initial(mask, slots).consistent(),
{
    let world = World::initial(mask, slots);
    words::lemma_word_small(0);
    assert forall|i: int| 0 <= i < world.capacity() implies #[trigger] world.slot_ok(i) by {
        lemma_small_mod(i as nat, world.capacity() as nat);
        protocol::lemma_ready(i, mask);
        words::lemma_word_small(i);
    }
}

/// Whatever can happen in a consistent world leaves it consistent.
pub proof fn law_event_keeps_consistency<T>(world: World<T>, event: Event<T>)
    requires
        world.consistent(),
        world.can_happen(event),
        !world.overruns(event),
    ensures
        world.after(event).consistent(),
{
    match event {
        Event::StepPush { id, reply } => {
            if world.push_claims(id, reply) {
                world.lemma_push_claims(id, reply);
            } else if world.push_owns_slot(id) {
                world.lemma_push_stores(id, reply);
            } else {
                world.lemma_push_looks(id, reply);
            }
        },
        Event::StepPop { id, reply } => {
            if world.pop_claims(id, reply) {
                world.lemma_pop_claims(id, reply);
            } else if world.poppers[id].call.pending() is StoreSequence {
                world.lemma_pop_releases(id, reply);
            } else {
                world.lemma_pop_looks(id, reply);
            }
        },
        _ => {
            world.lemma_begins(event);
        },
    }
}

/// A call overruns a slot only where it slept, between loading a position and claiming it, while the
/// counter went through all values of a word at least once.
pub proof fn law_overrun_takes_a_full_circle<T>(world: World<T>, event: Event<T>)
    requires
        world.consistent(),
        world.can_happen(event),
        world.overruns(event),
    ensures
        match event {
            Event::StepPush { id, .. } => world.pushed() - world.pushers[id].pos
                >= words::modulus(),
            Event::StepPop { id, .. } => world.popped() - world.poppers[id].pos >= words::modulus(),
            _ => false,
        },
{
    match event {
        Event::StepPush { id, .. } => {
            assert(world.pusher_ok(id));
            if world.pushed() - world.pushers[id].pos < words::modulus() {
                words::lemma_word_distinct(world.pushed(), world.pushers[id].pos);
            }
        },
        Event::StepPop { id, .. } => {
            assert(world.popper_ok(id));
            if world.popped() - world.poppers[id].pos < words::modulus() {
                words::lemma_word_distinct(world.popped(), world.poppers[id].pos);
            }
        },
        _ => {},
    }
}

/// From a consistent world, every schedule leads to consistent worlds only.
pub proof fn law_every_schedule_keeps_consistency<T>(world: World<T>, events: Seq<Event<T>>)
    requires
        world.consistent(),
        world.can_run(events),
    ensures
        world.run(events).consistent(),
    decreases events.len(),
{
    if events.len() > 0 {
        law_every_schedule_keeps_consistency(world, events.drop_last());
        law_event_keeps_consistency(world.run(events.drop_last()), events.last());
    }
}

/// What has been accepted and taken stays so: later events only append.
pub proof fn law_history_only_grows<T>(world: World<T>, events: Seq<Event<T>>)
    ensures
        world.accepted.is_prefix_of(world.run(events).accepted),
        world.givers.is_prefix_of(world.run(events).givers),
        world.takers.is_prefix_of(world.run(events).takers),
    decreases events.len(),
{
    if events.len() > 0 {
        let before = world.run(events.drop_last());
        law_history_only_grows(world, events.drop_last());
        assert(before.accepted.is_prefix_of(before.after(events.last()).accepted));
        assert(before.givers.is_prefix_of(before.after(events.last()).givers));
        assert(before.takers.is_prefix_of(before.after(events.last()).takers));
    }
}

/// However the calls on a fresh region are scheduled, the queue never holds more items than it has
/// slots.
pub proof fn law_capacity_is_never_exceeded<T>(
    mask: usize,
    slots: Seq<Slot<T>>,
    events: Seq<Event<T>>,
)
    requires
        region::well_shaped(slots, mask),
        forall|i: int| 0 <= i <= mask ==> (#[trigger] slots[i]).sequence == i,
        World::initial(mask, slots).can_run(events),
    ensures
        World::initial(mask, slots).run(events).consistent(),
        World::initial(mask, slots).run(events).mask == mask,
        ({
            let world = World::initial(mask, slots).run(events);
            0 <= world.pushed() - world.popped() <= mask + 1
        }),
{
    law_fresh_region_is_consistent(mask, slots);
    law_every_schedule_keeps_consistency(World::initial(mask, slots), events);
    World::initial(mask, slots).lemma_mask_stays(events);
}

/// A push that has returned `Ok` put its item in, once: the item stands at the position of the push
/// in the order of accepted items, and no other push has that position.
pub proof fn law_accepted_once<T>(world: World<T>, id: int, other: int)
    requires
        world.consistent(),
        world.pushers.contains_key(id),
        world.pushers.contains_key(other),
        world.pushers[id].call.phase == (PushPhase::Return { result: Ok(()) }),
        world.push_has_claimed(other),
    ensures
        0 <= world.pushers[id].pos < world.pushed(),
        world.accepted[world.pushers[id].pos] == world.pushers[id].call.value,
        world.pushers[other].pos == world.pushers[id].pos ==> other == id,
{
    assert(world.pusher_ok(id));
    assert(world.pusher_ok(other));
}

/// Items come out in the order in which they were accepted: the pop that claimed the n-th position
/// returns the n-th accepted item, and no other pop has that position.
pub proof fn law_taken_once_in_order<T>(world: World<T>, id: int, other: int, value: T)
    requires
        world.consistent(),
        world.poppers.contains_key(id),
        world.poppers.contains_key(other),
        world.poppers[id].call.phase == (PopPhase::Return { result: Ok(value) }),
        world.pop_has_claimed(other),
    ensures
        0 <= world.poppers[id].pos < world.popped(),
        value == world.accepted[world.poppers[id].pos],
        world.poppers[other].pos == world.poppers[id].pos ==> other == id,
{
    assert(world.popper_ok(id));
    assert(world.popper_ok(other));
}

/// No item is lost: every accepted item came from one push, and every position below the dequeue
/// position went to one pop, which has returned the item or is about to.
pub proof fn law_nothing_is_lost<T>(world: World<T>, pos: int)
    requires
        world.consistent(),
        0 <= pos < world.pushed(),
    ensures
        world.pushers.contains_key(world.givers[pos]),
        world.push_has_claimed(world.givers[pos]),
        world.pushers[world.givers[pos]].call.value == world.accepted[pos],
        pos < world.popped() ==> {
            let id = world.takers[pos];
            &&& world.poppers.contains_key(id)
            &&& match world.poppers[id].call.phase {
                PopPhase::ReadValue { .. } => region::slot_at(world.slots, pos, world.mask).value
                    == Some(world.accepted[pos]),
                PopPhase::Release { value, .. } => value == world.accepted[pos],
                PopPhase::Return { result: Ok(value) } => value == world.accepted[pos],
                _ => false,
            }
        },
{
    assert(world.giver_ok(pos));
    assert(world.pusher_ok(world.givers[pos]));
    if pos < world.popped() {
        assert(world.taker_ok(pos));
        assert(world.popper_ok(world.takers[pos]));
        lemma_mod_bound(pos, world.capacity());
        assert(world.slot_ok(pos % world.capacity()));
    }
}

/// Two calls that have claimed a position and not given up its slot work on different slots, so no
/// two of them ever access the same item at the same time.
pub proof fn law_no_two_calls_share_a_slot<T>(world: World<T>, id: int, other: int)
    requires
        world.consistent(),
    ensures
        world.push_owns_slot(id) && world.push_owns_slot(other) && id != other
            ==> world.push_slot(id) != world.push_slot(other),
        world.pop_owns_slot(id) && world.pop_owns_slot(other) && id != other
            ==> world.pop_slot(id) != world.pop_slot(other),
        world.push_owns_slot(id) && world.pop_owns_slot(other) ==> world.push_slot(id)
            != world.pop_slot(other),
{
    if world.push_owns_slot(id) {
        assert(world.pusher_ok(id));
        region::lemma_slot_index(world.pushers[id].pos, world.mask);
    }
    if world.push_owns_slot(other) {
        assert(world.pusher_ok(other));
        region::lemma_slot_index(world.pushers[other].pos, world.mask);
    }
    if world.pop_owns_slot(id) {
        assert(world.popper_ok(id));
        region::lemma_slot_index(world.poppers[id].pos, world.mask);
    }
    if world.pop_owns_slot(other) {
        assert(world.popper_ok(other));
        region::lemma_slot_index(world.poppers[other].pos, world.mask);
    }
}

/// Every access to a slot names one of the slots of the region, and a pop only reads a slot that an
/// item has been written to.
pub proof fn law_accesses_are_in_bounds<T>(world: World<T>, id: int)
    requires
        world.consistent(),
    ensures
        world.pushers.contains_key(id) ==> world.push_slot(id) < world.capacity(),
        world.poppers.contains_key(id) ==> world.pop_slot(id) < world.capacity(),
        world.poppers.contains_key(id) ==> match world.poppers[id].call.pending() {
            PopAction::ReadValue { index } => world.slots[index as int].value is Some,
            _ => true,
        },
{
    if world.pushers.contains_key(id) {
        assert(world.pusher_ok(id));
        region::lemma_slot_index(world.pushers[id].pos, world.mask);
    }
    if world.poppers.contains_key(id) {
        assert(world.popper_ok(id));
        region::lemma_slot_index(world.poppers[id].pos, world.mask);
        lemma_mod_bound(world.poppers[id].pos, world.capacity());
        assert(world.slot_ok(world.poppers[id].pos % world.capacity()));
    }
}

/// A call is refused by the sequence number of a slot and by nothing else: the access after which a
/// push returns `Full` or a pop returns `Empty` is that which loads the number. A lost race for a
/// position, or an exchange that fails without a reason, refuses nobody.
pub proof fn law_only_a_sequence_number_refuses<T>(world: World<T>, id: int, reply: RingReply<T>)
    ensures
        world.push_can_get(id, reply) && (world.pushers[id].call.next(reply).phase
            matches PushPhase::Return { result: Err(_) })
            ==> world.pushers[id].call.pending() is LoadSequence,
        world.pop_can_get(id, reply) && (world.poppers[id].call.next(reply).phase
            matches PopPhase::Return { result: Err(_) })
            ==> world.poppers[id].call.pending() is LoadSequence,
{
}

/// A push is told that the queue is full, at whatever step, only at a moment when its position is
/// the next one and the slot of that position has not been freed for it: either `capacity` items are
/// waiting, or the pop that claimed the item of the slot has not taken it out yet.
pub proof fn law_full_means_full<T>(world: World<T>, id: int, reply: RingReply<T>)
    requires
        world.consistent(),
        world.push_can_get(id, reply),
        world.pushers[id].call.next(reply).phase == (PushPhase::Return {
            result: Err(TryPushError::Full),
        }),
        !world.push_overslept(id),
    ensures
        world.pushers[id].call.pending() is LoadSequence,
        world.pushers[id].pos == world.pushed(),
        world.pushed() >= world.capacity(),
        world.pushed() - world.popped() == world.capacity() || world.pop_owns_slot(
            world.takers[world.pushed() - world.capacity()],
        ),
        region::slot_at(world.slots, world.pushed(), world.mask).sequence != words::word(
            protocol::ready(world.pushed(), world.mask),
        ),
{
    let pos = world.pushers[id].pos;
    world.lemma_sequence_seen_by_push(id);
    region::lemma_slot_index(pos, world.mask);
    words::lemma_signed_gap_zero(
        region::slot_at(world.slots, pos, world.mask).sequence,
        words::word(protocol::ready(pos, world.mask)),
    );
    assert(world.pusher_ok(id));
    region::lemma_ready_word(pos, world.mask);
    words::lemma_signed_gap(
        world.use_at(pos).sequence(world.mask),
        protocol::ready(pos, world.mask),
    );
    let at = pos % world.capacity();
    lemma_mod_bound(pos, world.capacity());
    assert(world.slot_ok(at));
    let before = pos - world.capacity();
    if world.uses[at] is Reading {
        assert(world.taker_ok(before));
        assert(world.popper_ok(world.takers[before]));
    }
}

/// A pop is told that the queue is empty, at whatever step, only at a moment when its position is
/// the next one and the item of that position has not been announced: either no item is waiting, or
/// the push that claimed the position is still halfway.
pub proof fn law_empty_means_empty<T>(world: World<T>, id: int, reply: RingReply<T>)
    requires
        world.consistent(),
        world.pop_can_get(id, reply),
        world.poppers[id].call.next(reply).phase == (PopPhase::<T>::Return {
            result: Err(TryPopError::Empty),
        }),
        !world.pop_overslept(id),
    ensures
        world.poppers[id].call.pending() is LoadSequence,
        world.poppers[id].pos == world.popped(),
        world.pushed() == world.popped() || world.push_owns_slot(world.givers[world.popped()]),
        region::slot_at(world.slots, world.popped(), world.mask).sequence != words::word(
            protocol::ready(world.popped(), world.mask) + 1,
        ),
{
    let pos = world.poppers[id].pos;
    world.lemma_sequence_seen_by_pop(id);
    region::lemma_slot_index(pos, world.mask);
    words::lemma_signed_gap_zero(
        region::slot_at(world.slots, pos, world.mask).sequence,
        words::word(protocol::ready(pos, world.mask) + 1),
    );
    assert(world.popper_ok(id));
    region::lemma_ready_word(pos, world.mask);
    words::lemma_signed_gap(
        world.use_at(pos).sequence(world.mask),
        protocol::ready(pos, world.mask) + 1,
    );
    let at = pos % world.capacity();
    lemma_mod_bound(pos, world.capacity());
    assert(world.slot_ok(at));
    if world.uses[at] is Writing {
        assert(world.giver_ok(pos));
        assert(world.pusher_ok(world.givers[pos]));
    }
    if world.uses[at] is Free {
        world.lemma_same_slot(pos, world.uses[at].pos());
    }
    if world.uses[at] is Reading {
        world.lemma_same_slot(pos, world.uses[at].pos());
    }
}

/// A call starts over only after somebody else got ahead: the position that it had loaded has been
/// claimed by another call. The one exception is an exchange that fails although it finds its word.
pub proof fn law_retry_means_progress_of_another<T>(world: World<T>, id: int, reply: RingReply<T>)
    requires
        world.consistent(),
    ensures
        world.push_can_get(id, reply) && world.pushers[id].call.phase is LoadSequence
            && world.pushers[id].call.next(reply).phase is Yield ==> world.pushers[id].pos
            < world.pushed(),
        world.push_can_get(id, reply) && world.pushers[id].call.phase is Exchange && !reply->stored
            && world.enqueue_pos != world.pushers[id].call.phase->Exchange_pos
            ==> world.pushers[id].pos < world.pushed(),
        world.pop_can_get(id, reply) && world.poppers[id].call.phase is LoadSequence
            && world.poppers[id].call.next(reply).phase is Yield ==> world.poppers[id].pos
            < world.popped(),
        world.pop_can_get(id, reply) && world.poppers[id].call.phase is Exchange && !reply->stored
            && world.dequeue_pos != world.poppers[id].call.phase->Exchange_pos
            ==> world.poppers[id].pos < world.popped(),
{
    if world.push_can_get(id, reply) {
        assert(world.pusher_ok(id));
        if world.pushers[id].call.phase is LoadSequence {
            let pos = world.pushers[id].pos;
            world.lemma_sequence_seen_by_push(id);
            region::lemma_ready_word(pos, world.mask);
            if pos == world.pushed() {
                words::lemma_signed_gap(
                    world.use_at(pos).sequence(world.mask),
                    protocol::ready(pos, world.mask),
                );
            }
        }
    }
    if world.pop_can_get(id, reply) {
        assert(world.popper_ok(id));
        if world.poppers[id].call.phase is LoadSequence {
            let pos = world.poppers[id].pos;
            world.lemma_sequence_seen_by_pop(id);
            region::lemma_ready_word(pos, world.mask);
            if pos == world.popped() {
                words::lemma_signed_gap(
                    world.use_at(pos).sequence(world.mask),
                    protocol::ready(pos, world.mask) + 1,
                );
            }
        }
    }
}

/// A push that begins later comes later in the queue: its position is behind those of all the items
/// that had been accepted before it began.
pub proof fn law_later_pushes_come_later<T>(world: World<T>, events: Seq<Event<T>>, id: int)
    requires
        world.consistent(),
        world.can_run(events),
        !world.pushers.contains_key(id),
        world.run(events).pushers.contains_key(id),
        world.run(events).push_has_claimed(id),
    ensures
        world.run(events).pushers[id].pos >= world.pushed(),
{
    let last = world.run(events);
    law_every_schedule_keeps_consistency(world, events);
    law_history_only_grows(world, events);
    assert(last.pusher_ok(id));
    let pos = last.pushers[id].pos;
    if pos < world.pushed() {
        assert(world.giver_ok(pos));
        assert(world.givers[pos] == last.givers[pos]);
    }
}

/// A pop that begins later comes later as well: its position is behind all those that had been
/// claimed before it began.
pub proof fn law_later_pops_come_later<T>(world: World<T>, events: Seq<Event<T>>, id: int)
    requires
        world.consistent(),
        world.can_run(events),
        !world.poppers.contains_key(id),
        world.run(events).poppers.contains_key(id),
        world.run(events).pop_has_claimed(id),
    ensures
        world.run(events).poppers[id].pos >= world.popped(),
{
    let last = world.run(events);
    law_every_schedule_keeps_consistency(world, events);
    law_history_only_grows(world, events);
    assert(last.popper_ok(id));
    let pos = last.poppers[id].pos;
    if pos < world.popped() {
        assert(world.taker_ok(pos));
        assert(world.takers[pos] == last.takers[pos]);
    }
}

/// Where no call is halfway, the region holds exactly the items that were accepted and not taken, in
/// order, and every other slot is free: whoever opens the region goes on from there.
pub proof fn law_quiet_region_holds_the_waiting_items<T>(world: World<T>)
    requires
        world.consistent(),
        world.quiet(),
    ensures
        region::holds(
            world.slots,
            world.mask,
            world.dequeue_pos as int,
            world.accepted.subrange(world.popped(), world.pushed()),
        ),
        world.enqueue_pos == words::word(
            world.dequeue_pos + (world.pushed() - world.popped()),
        ),
{
    let start = world.popped();
    let items = world.accepted.subrange(start, world.pushed());
    assert forall|pos: int| #![trigger region::slot_at(world.slots, pos, world.mask)]
        start <= pos < start + world.capacity() implies {
        let slot = region::slot_at(world.slots, pos, world.mask);
        if pos < world.pushed() {
            &&& slot.sequence == words::word(protocol::ready(pos, world.mask) + 1)
            &&& slot.value == Some(items[pos - start])
        } else {
            slot.sequence == words::word(protocol::ready(pos, world.mask))
        }
    } by {
        let at = pos % world.capacity();
        lemma_mod_bound(pos, world.capacity());
        assert(world.slot_ok(at));
        let used = world.uses[at].pos();
        if world.uses[at] is Writing {
            assert(world.giver_ok(used));
            assert(world.pusher_ok(world.givers[used]));
            assert(world.push_owns_slot(world.givers[used]));
        }
        if world.uses[at] is Reading {
            assert(world.taker_ok(used));
            assert(world.popper_ok(world.takers[used]));
            assert(world.pop_owns_slot(world.takers[used]));
        }
        region::lemma_slots_distinct(used, pos, world.capacity());
    }
    region::lemma_rebase(world.slots, world.mask, start, items);
    words::lemma_word_add(start, world.pushed() - start);
}

} // verus!
