//! Calls come to an end.
//!
//! A call whose accesses nobody disturbs from some moment on has returned after a fixed number of
//! them, wherever it stood at that moment and whatever others had done before.

use crate::error::{TryPopError, TryPushError};
use crate::interleaving;
use crate::interleaving::{Event, World};
use crate::protocol::{PopAction, PopPhase, PushAction, PushPhase, RingReply};
use vstd::prelude::*;

verus! {

impl<T> World<T> {
    /// What a push finds at its pending access. An exchange that finds its word succeeds.
    pub open spec fn push_finds(self, id: int) -> RingReply<T> {
        match self.pushers[id].call.pending() {
            PushAction::LoadEnqueuePos { .. } => RingReply::Word { word: self.enqueue_pos },
            PushAction::LoadSequence { index, .. } => RingReply::Word {
                word: self.slots[index as int].sequence,
            },
            PushAction::ExchangeEnqueuePos { current, .. } => RingReply::Exchanged {
                stored: self.enqueue_pos == current,
            },
            _ => RingReply::Done,
        }
    }

    /// The world after a push has made up to `n` accesses and nobody else has made any.
    pub open spec fn push_alone(self, id: int, n: nat) -> Self
        decreases n,
    {
        if n == 0 || self.pushers[id].call.pending() is Return {
            self
        } else {
            self.after(Event::StepPush { id, reply: self.push_finds(id) }).push_alone(
                id,
                (n - 1) as nat,
            )
        }
    }

    /// What a pop finds at its pending access. An exchange that finds its word succeeds.
    pub open spec fn pop_finds(self, id: int) -> RingReply<T> {
        match self.poppers[id].call.pending() {
            PopAction::LoadDequeuePos { .. } => RingReply::Word { word: self.dequeue_pos },
            PopAction::LoadSequence { index, .. } => RingReply::Word {
                word: self.slots[index as int].sequence,
            },
            PopAction::ExchangeDequeuePos { current, .. } => RingReply::Exchanged {
                stored: self.dequeue_pos == current,
            },
            PopAction::ReadValue { index } => RingReply::Value {
                value: self.slots[index as int].value->0,
            },
            _ => RingReply::Done,
        }
    }

    /// The world after a pop has made up to `n` accesses and nobody else has made any.
    pub open spec fn pop_alone(self, id: int, n: nat) -> Self
        decreases n,
    {
        if n == 0 || self.poppers[id].call.pending() is Return {
            self
        } else {
            self.after(Event::StepPop { id, reply: self.pop_finds(id) }).pop_alone(
                id,
                (n - 1) as nat,
            )
        }
    }

    /// A push that has returned makes no more accesses.
    proof fn lemma_push_alone_ends(self, id: int, n: nat, more: nat)
        requires
            n <= more,
            self.push_alone(id, n).pushers[id].call.pending() is Return,
        ensures
            self.push_alone(id, more) == self.push_alone(id, n),
        decreases n,
    {
        if n > 0 && !(self.pushers[id].call.pending() is Return) {
            self.after(Event::StepPush { id, reply: self.push_finds(id) }).lemma_push_alone_ends(
                id,
                (n - 1) as nat,
                (more - 1) as nat,
            );
        }
    }

    /// A pop that has returned makes no more accesses.
    proof fn lemma_pop_alone_ends(self, id: int, n: nat, more: nat)
        requires
            n <= more,
            self.pop_alone(id, n).poppers[id].call.pending() is Return,
        ensures
            self.pop_alone(id, more) == self.pop_alone(id, n),
        decreases n,
    {
        if n > 0 && !(self.poppers[id].call.pending() is Return) {
            self.after(Event::StepPop { id, reply: self.pop_finds(id) }).lemma_pop_alone_ends(
                id,
                (n - 1) as nat,
                (more - 1) as nat,
            );
        }
    }

    /// One access of a push on its own.
    spec fn push_once(self, id: int) -> Self {
        self.after(Event::StepPush { id, reply: self.push_finds(id) })
    }

    /// One access of a pop on its own.
    spec fn pop_once(self, id: int) -> Self {
        self.after(Event::StepPop { id, reply: self.pop_finds(id) })
    }

    /// A push that holds the next position, or has claimed one, ends with success.
    proof fn lemma_push_ends_from_exchange(self, id: int)
        requires
            match self.pushers[id].call.phase {
                PushPhase::Exchange { pos } => pos == self.enqueue_pos,
                PushPhase::WriteValue { .. } => true,
                PushPhase::Publish { .. } => true,
                _ => false,
            },
        ensures
            self.push_alone(id, 3).pushers[id].call.phase == (PushPhase::Return {
                result: Ok(()),
            }),
            self.push_alone(id, 3).takers == self.takers,
            self.push_alone(id, 3).accepted == if self.pushers[id].call.phase is Exchange {
                self.accepted.push(self.pushers[id].call.value)
            } else {
                self.accepted
            },
    {
        reveal_with_fuel(World::push_alone, 4);
    }

    /// A pop that holds the next position, or has claimed one, ends with success.
    proof fn lemma_pop_ends_from_exchange(self, id: int)
        requires
            match self.poppers[id].call.phase {
                PopPhase::Exchange { pos } => pos == self.dequeue_pos,
                PopPhase::ReadValue { .. } => true,
                PopPhase::Release { .. } => true,
                _ => false,
            },
        ensures
            self.pop_alone(id, 3).poppers[id].call.phase matches PopPhase::Return { result: Ok(_) },
            self.pop_alone(id, 3).accepted == self.accepted,
            self.pop_alone(id, 3).takers == if self.poppers[id].call.phase is Exchange {
                self.takers.push(id)
            } else {
                self.takers
            },
    {
        reveal_with_fuel(World::pop_alone, 4);
    }

    /// A push that starts now ends: with success, or because the slot of the next position is not
    /// free.
    proof fn lemma_push_ends_from_start(self, id: int)
        requires
            self.consistent(),
            self.pushers.contains_key(id),
            self.pushers[id].call.phase is LoadPosition,
        ensures
            ({
                let last = self.push_alone(id, 5);
                &&& last.takers == self.takers
                &&& last.mask == self.mask
                &&& last.consistent()
                &&& last.pushers.contains_key(id)
                &&& match last.pushers[id].call.phase {
                    PushPhase::Return { result: Ok(()) } => last.accepted == self.accepted.push(
                        self.pushers[id].call.value,
                    ),
                    PushPhase::Return { result: Err(TryPushError::Full) } => {
                        &&& last.accepted == self.accepted
                        &&& self.pushed() >= self.capacity()
                        &&& self.pushed() - self.popped() == self.capacity() || self.pop_owns_slot(
                            self.takers[self.pushed() - self.capacity()],
                        )
                    },
                    _ => false,
                }
            }),
    {
        reveal_with_fuel(World::push_alone, 3);
        let positioned = self.push_once(id);
        interleaving::law_event_keeps_consistency(
            self,
            Event::StepPush { id, reply: self.push_finds(id) },
        );
        let reply = positioned.push_finds(id);
        let looked = positioned.push_once(id);
        assert(positioned.pusher_ok(id));
        positioned.lemma_sequence_seen_by_push(id);
        interleaving::law_event_keeps_consistency(positioned, Event::StepPush { id, reply });
        interleaving::law_retry_means_progress_of_another(positioned, id, reply);
        assert(self.push_alone(id, 5) == looked.push_alone(id, 3));
        if looked.pushers[id].call.phase is Return {
            interleaving::law_full_means_full(positioned, id, reply);
            assert(looked.push_alone(id, 3) == looked);
        } else {
            assert(looked.pusher_ok(id));
            looked.lemma_push_ends_from_exchange(id);
            looked.lemma_claimed_push_stays_consistent(id);
        }
    }

    /// A push that claims the free slot of the next position leaves the world consistent to the end.
    proof fn lemma_claimed_push_stays_consistent(self, id: int)
        requires
            self.consistent(),
            self.pushers.contains_key(id),
            self.pushers[id].call.phase is Exchange,
            self.pushers[id].pos == self.pushed(),
        ensures
            self.push_alone(id, 3).consistent(),
            self.push_alone(id, 3).pushers.contains_key(id),
            self.push_alone(id, 3).mask == self.mask,
    {
        reveal_with_fuel(World::push_alone, 4);
        assert(self.pusher_ok(id));
        let claimed = self.push_once(id);
        let written = claimed.push_once(id);
        interleaving::law_event_keeps_consistency(
            self,
            Event::StepPush { id, reply: self.push_finds(id) },
        );
        interleaving::law_event_keeps_consistency(
            claimed,
            Event::StepPush { id, reply: claimed.push_finds(id) },
        );
        interleaving::law_event_keeps_consistency(
            written,
            Event::StepPush { id, reply: written.push_finds(id) },
        );
    }

    /// A pop that starts now ends: with a value, or because the item of the next position is not
    /// there.
    proof fn lemma_pop_ends_from_start(self, id: int)
        requires
            self.consistent(),
            self.poppers.contains_key(id),
            self.poppers[id].call.phase is LoadPosition,
        ensures
            ({
                let last = self.pop_alone(id, 5);
                &&& last.accepted == self.accepted
                &&& last.mask == self.mask
                &&& last.consistent()
                &&& last.poppers.contains_key(id)
                &&& match last.poppers[id].call.phase {
                    PopPhase::Return { result: Ok(_) } => {
                        &&& last.takers == self.takers.push(id)
                        &&& last.poppers[id].pos == self.popped()
                    },
                    PopPhase::Return { result: Err(TryPopError::Empty) } => {
                        &&& last.takers == self.takers
                        &&& self.pushed() == self.popped() || self.push_owns_slot(
                            self.givers[self.popped()],
                        )
                    },
                    _ => false,
                }
            }),
    {
        reveal_with_fuel(World::pop_alone, 3);
        let positioned = self.pop_once(id);
        interleaving::law_event_keeps_consistency(
            self,
            Event::StepPop { id, reply: self.pop_finds(id) },
        );
        let reply = positioned.pop_finds(id);
        let looked = positioned.pop_once(id);
        assert(positioned.popper_ok(id));
        positioned.lemma_sequence_seen_by_pop(id);
        interleaving::law_event_keeps_consistency(positioned, Event::StepPop { id, reply });
        interleaving::law_retry_means_progress_of_another(positioned, id, reply);
        assert(self.pop_alone(id, 5) == looked.pop_alone(id, 3));
        if looked.poppers[id].call.phase is Return {
            interleaving::law_empty_means_empty(positioned, id, reply);
            assert(looked.pop_alone(id, 3) == looked);
        } else {
            assert(looked.popper_ok(id));
            looked.lemma_pop_ends_from_exchange(id);
            looked.lemma_claimed_pop_stays_consistent(id);
        }
    }

    /// A pop that claims the filled slot of the next position leaves the world consistent to the
    /// end.
    proof fn lemma_claimed_pop_stays_consistent(self, id: int)
        requires
            self.consistent(),
            self.poppers.contains_key(id),
            self.poppers[id].call.phase is Exchange,
            self.poppers[id].pos == self.popped(),
        ensures
            self.pop_alone(id, 3).consistent(),
            self.pop_alone(id, 3).poppers.contains_key(id),
            self.pop_alone(id, 3).poppers[id].pos == self.popped(),
            self.pop_alone(id, 3).mask == self.mask,
    {
        reveal_with_fuel(World::pop_alone, 4);
        assert(self.popper_ok(id));
        let claimed = self.pop_once(id);
        let read = claimed.pop_once(id);
        interleaving::law_event_keeps_consistency(
            self,
            Event::StepPop { id, reply: self.pop_finds(id) },
        );
        interleaving::law_event_keeps_consistency(
            claimed,
            Event::StepPop { id, reply: claimed.pop_finds(id) },
        );
        interleaving::law_event_keeps_consistency(
            read,
            Event::StepPop { id, reply: read.pop_finds(id) },
        );
    }
}

/// A push that is left alone has returned after seven accesses at most, wherever it stood and
/// whatever others have done to the position that it holds. Each of the accesses is one that it can
/// make.
pub proof fn law_push_comes_to_an_end<T>(world: World<T>, id: int)
    requires
        world.consistent(),
        world.pushers.contains_key(id),
    ensures
        world.push_alone(id, 7).pushers[id].call.pending() is Return,
        !(world.pushers[id].call.pending() is Return) ==> world.can_happen(
            Event::StepPush { id, reply: world.push_finds(id) },
        ),
{
    let phase = world.pushers[id].call.phase;
    let next = world.push_once(id);
    let event = Event::StepPush { id, reply: world.push_finds(id) };
    match phase {
        PushPhase::Return { .. } => {},
        PushPhase::LoadPosition => {
            world.lemma_push_ends_from_start(id);
            world.lemma_push_alone_ends(id, 5, 7);
        },
        PushPhase::Yield => {
            interleaving::law_event_keeps_consistency(world, event);
            next.lemma_push_ends_from_start(id);
            next.lemma_push_alone_ends(id, 5, 6);
            assert(world.push_alone(id, 7) == next.push_alone(id, 6));
        },
        PushPhase::Exchange { pos } => {
            lemma_push_ends_from_any_exchange(world, id);
            world.lemma_push_alone_ends(id, 6, 7);
        },
        PushPhase::LoadSequence { pos } => {
            interleaving::law_event_keeps_consistency(world, event);
            assert(world.push_alone(id, 7) == next.push_alone(id, 6));
            match next.pushers[id].call.phase {
                PushPhase::Exchange { .. } => {
                    lemma_push_ends_from_any_exchange(next, id);
                },
                PushPhase::Yield => {
                    let after = next.push_once(id);
                    interleaving::law_event_keeps_consistency(
                        next,
                        Event::StepPush { id, reply: next.push_finds(id) },
                    );
                    after.lemma_push_ends_from_start(id);
                    assert(next.push_alone(id, 6) == after.push_alone(id, 5));
                },
                _ => {},
            }
        },
        _ => {
            world.lemma_push_ends_from_exchange(id);
            world.lemma_push_alone_ends(id, 3, 7);
        },
    }
}

proof fn lemma_push_ends_from_any_exchange<T>(world: World<T>, id: int)
    requires
        world.consistent(),
        world.pushers.contains_key(id),
        world.pushers[id].call.phase is Exchange,
    ensures
        world.push_alone(id, 6).pushers[id].call.pending() is Return,
{
    if world.pushers[id].call.phase->Exchange_pos == world.enqueue_pos {
        world.lemma_push_ends_from_exchange(id);
        world.lemma_push_alone_ends(id, 3, 6);
    } else {
        let next = world.push_once(id);
        interleaving::law_event_keeps_consistency(
            world,
            Event::StepPush { id, reply: world.push_finds(id) },
        );
        next.lemma_push_ends_from_start(id);
        assert(world.push_alone(id, 6) == next.push_alone(id, 5));
    }
}

/// A pop that is left alone has returned after seven accesses at most, wherever it stood and
/// whatever others have done to the position that it holds. Each of the accesses is one that it can
/// make.
pub proof fn law_pop_comes_to_an_end<T>(world: World<T>, id: int)
    requires
        world.consistent(),
        world.poppers.contains_key(id),
    ensures
        world.pop_alone(id, 7).poppers[id].call.pending() is Return,
        !(world.poppers[id].call.pending() is Return) ==> world.can_happen(
            Event::StepPop { id, reply: world.pop_finds(id) },
        ),
{
    let phase = world.poppers[id].call.phase;
    let next = world.pop_once(id);
    let event = Event::StepPop { id, reply: world.pop_finds(id) };
    match phase {
        PopPhase::Return { .. } => {},
        PopPhase::LoadPosition => {
            world.lemma_pop_ends_from_start(id);
            world.lemma_pop_alone_ends(id, 5, 7);
        },
        PopPhase::Yield => {
            interleaving::law_event_keeps_consistency(world, event);
            next.lemma_pop_ends_from_start(id);
            next.lemma_pop_alone_ends(id, 5, 6);
            assert(world.pop_alone(id, 7) == next.pop_alone(id, 6));
        },
        PopPhase::Exchange { pos } => {
            lemma_pop_ends_from_any_exchange(world, id);
            world.lemma_pop_alone_ends(id, 6, 7);
        },
        PopPhase::LoadSequence { pos } => {
            interleaving::law_event_keeps_consistency(world, event);
            assert(world.pop_alone(id, 7) == next.pop_alone(id, 6));
            match next.poppers[id].call.phase {
                PopPhase::Exchange { .. } => {
                    lemma_pop_ends_from_any_exchange(next, id);
                },
                PopPhase::Yield => {
                    let after = next.pop_once(id);
                    interleaving::law_event_keeps_consistency(
                        next,
                        Event::StepPop { id, reply: next.pop_finds(id) },
                    );
                    after.lemma_pop_ends_from_start(id);
                    assert(next.pop_alone(id, 6) == after.pop_alone(id, 5));
                },
                _ => {},
            }
        },
        _ => {
            world.lemma_pop_ends_from_exchange(id);
            world.lemma_pop_alone_ends(id, 3, 7);
        },
    }
}

proof fn lemma_pop_ends_from_any_exchange<T>(world: World<T>, id: int)
    requires
        world.consistent(),
        world.poppers.contains_key(id),
        world.poppers[id].call.phase is Exchange,
    ensures
        world.pop_alone(id, 6).poppers[id].call.pending() is Return,
{
    if world.poppers[id].call.phase->Exchange_pos == world.dequeue_pos {
        world.lemma_pop_ends_from_exchange(id);
        world.lemma_pop_alone_ends(id, 3, 6);
    } else {
        let next = world.pop_once(id);
        interleaving::law_event_keeps_consistency(
            world,
            Event::StepPop { id, reply: world.pop_finds(id) },
        );
        next.lemma_pop_ends_from_start(id);
        assert(world.pop_alone(id, 6) == next.pop_alone(id, 5));
    }
}

/// Where no call is halfway, a push that begins and is left alone is accepted exactly where there is
/// room. Its value is then the last of the accepted ones; otherwise nothing is accepted.
pub proof fn law_lone_push_is_accepted_where_there_is_room<T>(world: World<T>, id: int, value: T)
    requires
        world.consistent(),
        world.quiet(),
        !world.pushers.contains_key(id),
    ensures
        ({
            let last = world.after(Event::BeginPush { id, value }).push_alone(id, 5);
            if world.pushed() - world.popped() < world.capacity() {
                &&& last.pushers[id].call.pending() == (PushAction::<T>::Return { result: Ok(()) })
                &&& last.accepted == world.accepted.push(value)
                &&& last.takers == world.takers
            } else {
                &&& last.pushers[id].call.pending() == (PushAction::<T>::Return {
                    result: Err(TryPushError::Full),
                })
                &&& last.accepted == world.accepted
                &&& last.takers == world.takers
            }
        }),
{
    let begun = world.after(Event::BeginPush { id, value });
    let last = begun.push_alone(id, 5);
    interleaving::law_event_keeps_consistency(world, Event::BeginPush { id, value });
    begun.lemma_push_ends_from_start(id);
    let taker = world.takers[world.pushed() - world.capacity()];
    assert(!world.pop_owns_slot(taker));
    assert(!begun.pop_owns_slot(taker));
    if last.pushers[id].call.phase matches PushPhase::Return { result: Ok(()) } {
        assert(last.pushed() == world.pushed() + 1);
    }
    match last.pushers[id].call.phase->result {
        Ok(unit) => {
            assert(unit == ());
        },
        Err(error) => {
            assert(error == TryPushError::Full);
        },
    }
}

/// Where no call is halfway, a pop that begins and is left alone returns the oldest of the waiting
/// items exactly where there is one.
pub proof fn law_lone_pop_returns_the_oldest_item<T>(world: World<T>, id: int)
    requires
        world.consistent(),
        world.quiet(),
        !world.poppers.contains_key(id),
    ensures
        ({
            let last = world.after(Event::BeginPop { id }).pop_alone(id, 5);
            if world.popped() < world.pushed() {
                &&& last.poppers[id].call.pending() == (PopAction::Return {
                    result: Ok(world.accepted[world.popped()]),
                })
                &&& last.takers == world.takers.push(id)
                &&& last.accepted == world.accepted
            } else {
                &&& last.poppers[id].call.pending() == (PopAction::<T>::Return {
                    result: Err(TryPopError::Empty),
                })
                &&& last.takers == world.takers
                &&& last.accepted == world.accepted
            }
        }),
{
    let begun = world.after(Event::BeginPop { id });
    let last = begun.pop_alone(id, 5);
    interleaving::law_event_keeps_consistency(world, Event::BeginPop { id });
    begun.lemma_pop_ends_from_start(id);
    assert(last.popper_ok(id));
    let giver = world.givers[world.popped()];
    assert(!world.push_owns_slot(giver));
    assert(!begun.push_owns_slot(giver));
    if last.poppers[id].call.phase matches PopPhase::Return { result: Ok(_) } {
        assert(last.popped() == world.popped() + 1);
    }
    if let Err(error) = last.poppers[id].call.phase->result {
        assert(error == TryPopError::Empty);
    }
}

} // verus!
