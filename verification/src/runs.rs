//! What holds of a whole run of concurrent calls.
//!
//! The laws of [`crate::interleaving`] speak of one position or one call. Those here speak of all
//! the calls of a schedule together: what comes out is what went in, each consumer sees the values
//! of each producer in their order, of many pushes at once just as many succeed as there is room
//! for, of many pops at once just as many as there are items, and whoever is refused has found the
//! queue full or empty.

use crate::error::{TryPopError, TryPushError};
use crate::interleaving;
use crate::interleaving::{Event, World};
use crate::protocol;
use crate::protocol::{PopPhase, PushPhase};
use crate::region;
use crate::words;
use vstd::arithmetic::div_mod::*;
use vstd::math::min;
use vstd::multiset::*;
use vstd::prelude::*;
use vstd::seq_lib::*;

verus! {

impl<T> World<T> {
    /// The items that wait in the region, oldest first.
    pub open spec fn waiting(self) -> Seq<T> {
        region::items_between(self.slots, self.mask, self.dequeue_pos, self.enqueue_pos)
    }

    /// Whether a push has begun and returned.
    pub open spec fn push_returned(self, id: int) -> bool {
        self.pushers.contains_key(id) && self.pushers[id].call.phase is Return
    }

    /// Whether a push has returned `Ok`.
    pub open spec fn push_succeeded(self, id: int) -> bool {
        &&& self.pushers.contains_key(id)
        &&& self.pushers[id].call.phase matches PushPhase::Return { result: Ok(()) }
    }

    /// Whether a push has been told that the queue is full.
    pub open spec fn push_refused(self, id: int) -> bool {
        &&& self.pushers.contains_key(id)
        &&& self.pushers[id].call.phase matches PushPhase::Return {
            result: Err(TryPushError::Full),
        }
    }

    /// Whether a pop has begun and returned.
    pub open spec fn pop_returned(self, id: int) -> bool {
        self.poppers.contains_key(id) && self.poppers[id].call.phase is Return
    }

    /// Whether a pop has returned a value.
    pub open spec fn pop_succeeded(self, id: int) -> bool {
        &&& self.poppers.contains_key(id)
        &&& self.poppers[id].call.phase matches PopPhase::Return { result: Ok(_) }
    }

    /// Whether a pop has been told that the queue is empty.
    pub open spec fn pop_refused(self, id: int) -> bool {
        &&& self.poppers.contains_key(id)
        &&& self.poppers[id].call.phase matches PopPhase::Return {
            result: Err(TryPopError::Empty),
        }
    }

    /// The value that a pop has returned.
    pub open spec fn pop_value(self, id: int) -> T {
        self.poppers[id].call.phase->result->Ok_0
    }

    /// Whether every call that has begun has returned.
    pub open spec fn settled(self) -> bool {
        &&& forall|id: int| #[trigger]
            self.pushers.contains_key(id) ==> self.pushers[id].call.phase is Return
        &&& forall|id: int| #[trigger]
            self.poppers.contains_key(id) ==> self.poppers[id].call.phase is Return
    }

    /// Whether each event of a schedule can happen when its turn comes.
    pub open spec fn possible(self, events: Seq<Event<T>>) -> bool
        decreases events.len(),
    {
        events.len() == 0 || {
            &&& self.possible(events.drop_last())
            &&& self.run(events.drop_last()).can_happen(events.last())
        }
    }

    /// Those of the pushes that begin in a schedule that have returned `Ok`.
    pub open spec fn accepted_pushes(self, events: Seq<Event<T>>) -> Seq<int> {
        pushes_begun(events).filter(|id: int| self.push_succeeded(id))
    }

    /// Those of the pops that begin in a schedule that have returned a value.
    pub open spec fn successful_pops(self, events: Seq<Event<T>>) -> Seq<int> {
        pops_begun(events).filter(|id: int| self.pop_succeeded(id))
    }

    /// The values of these pushes.
    pub open spec fn values_of_pushes(self, ids: Seq<int>) -> Seq<T> {
        ids.map_values(|id: int| self.pushers[id].call.value)
    }

    /// The values that these pops have returned.
    pub open spec fn values_of_pops(self, ids: Seq<int>) -> Seq<T> {
        ids.map_values(|id: int| self.pop_value(id))
    }

    /// Whether a pop has returned what a push put in.
    pub open spec fn delivers(self, push: int, pop: int) -> bool {
        &&& self.pushers.contains_key(push)
        &&& self.push_has_claimed(push)
        &&& self.pop_succeeded(pop)
        &&& self.poppers[pop].pos == self.pushers[push].pos
    }

    /// Whether, in this schedule, the push `first` has returned at some moment at which the push
    /// `second` has not begun.
    pub open spec fn push_precedes(self, events: Seq<Event<T>>, first: int, second: int) -> bool {
        exists|n: int|
            0 <= n <= events.len() && {
                let world = self.run(#[trigger] events.take(n));
                world.push_returned(first) && !world.pushers.contains_key(second)
            }
    }

    /// Whether, in this schedule, the pop `first` has returned at some moment at which the pop
    /// `second` has not begun.
    pub open spec fn pop_precedes(self, events: Seq<Event<T>>, first: int, second: int) -> bool {
        exists|n: int|
            0 <= n <= events.len() && {
                let world = self.run(#[trigger] events.take(n));
                world.pop_returned(first) && !world.poppers.contains_key(second)
            }
    }

    /// Whether these pushes are made one after another, as one producer makes them.
    pub open spec fn one_producer(self, events: Seq<Event<T>>, ids: Seq<int>) -> bool {
        forall|i: int, j: int|
            #![trigger ids[i], ids[j]]
            0 <= i < j < ids.len() ==> self.push_precedes(events, ids[i], ids[j])
    }

    /// Whether these pops are made one after another, as one consumer makes them.
    pub open spec fn one_consumer(self, events: Seq<Event<T>>, ids: Seq<int>) -> bool {
        forall|i: int, j: int|
            #![trigger ids[i], ids[j]]
            0 <= i < j < ids.len() ==> self.pop_precedes(events, ids[i], ids[j])
    }
}

/// The pushes that begin in a schedule, in the order in which they begin.
pub open spec fn pushes_begun<T>(events: Seq<Event<T>>) -> Seq<int>
    decreases events.len(),
{
    if events.len() == 0 {
        Seq::empty()
    } else {
        match events.last() {
            Event::BeginPush { id, .. } => pushes_begun(events.drop_last()).push(id),
            _ => pushes_begun(events.drop_last()),
        }
    }
}

/// The pops that begin in a schedule, in the order in which they begin.
pub open spec fn pops_begun<T>(events: Seq<Event<T>>) -> Seq<int>
    decreases events.len(),
{
    if events.len() == 0 {
        Seq::empty()
    } else {
        match events.last() {
            Event::BeginPop { id } => pops_begun(events.drop_last()).push(id),
            _ => pops_begun(events.drop_last()),
        }
    }
}

/// Whether nobody pushes in a schedule.
pub open spec fn only_pops<T>(events: Seq<Event<T>>) -> bool {
    forall|i: int|
        0 <= i < events.len() ==> (#[trigger] events[i] is BeginPop || events[i] is StepPop)
}

/// Whether nobody pops in a schedule.
pub open spec fn only_pushes<T>(events: Seq<Event<T>>) -> bool {
    forall|i: int|
        0 <= i < events.len() ==> (#[trigger] events[i] is BeginPush || events[i] is StepPush)
}

/// Two lists of the same things, each thing once, are the same up to order.
proof fn lemma_same_elements(a: Seq<int>, b: Seq<int>)
    requires
        a.no_duplicates(),
        b.no_duplicates(),
        forall|x: int| a.contains(x) <==> b.contains(x),
    ensures
        a.to_multiset() == b.to_multiset(),
        a.len() == b.len(),
{
    a.lemma_multiset_has_no_duplicates();
    b.lemma_multiset_has_no_duplicates();
    a.to_multiset_ensures();
    b.to_multiset_ensures();
    assert forall|x: int| a.to_multiset().count(x) == b.to_multiset().count(x) by {
        assert(a.contains(x) <==> a.to_multiset().count(x) > 0);
        assert(b.contains(x) <==> b.to_multiset().count(x) > 0);
        assert(a.to_multiset().contains(x) <==> a.to_multiset().count(x) > 0);
        assert(b.to_multiset().contains(x) <==> b.to_multiset().count(x) > 0);
    }
    assert(a.to_multiset() =~= b.to_multiset());
}

/// Lists that are the same up to order stay so under a map.
proof fn lemma_map_keeps_multiset<T>(a: Seq<int>, b: Seq<int>, f: spec_fn(int) -> T)
    requires
        a.to_multiset() == b.to_multiset(),
    ensures
        a.map_values(f).to_multiset() == b.map_values(f).to_multiset(),
    decreases a.len(),
{
    a.to_multiset_ensures();
    b.to_multiset_ensures();
    if a.len() == 0 {
        assert(a.map_values(f) =~= b.map_values(f));
    } else {
        let x = a.last();
        assert(a.contains(x));
        assert(b.to_multiset().count(x) > 0);
        assert(b.contains(x));
        let i = choose|i: int| 0 <= i < b.len() && b[i] == x;
        let shorter = a.drop_last();
        assert(shorter.push(x) =~= a);
        shorter.to_multiset_ensures();
        assert(a.to_multiset() == shorter.to_multiset().insert(x));
        assert(b.remove(i).to_multiset() == b.to_multiset().remove(x));
        assert(shorter.to_multiset() =~= b.remove(i).to_multiset());
        lemma_map_keeps_multiset(shorter, b.remove(i), f);
        let mapped_a = shorter.map_values(f);
        let mapped_b = b.map_values(f);
        mapped_a.to_multiset_ensures();
        mapped_b.to_multiset_ensures();
        assert(mapped_a.push(f(x)) =~= a.map_values(f));
        assert(mapped_b[i] == f(x));
        assert(mapped_b.contains(f(x)));
        assert(mapped_b.remove(i) =~= b.remove(i).map_values(f));
        assert(mapped_b.remove(i).to_multiset() == mapped_b.to_multiset().remove(f(x)));
        assert(mapped_b.to_multiset() =~= mapped_b.to_multiset().remove(f(x)).insert(f(x)));
    }
}

/// What a filter keeps of a list without repetitions.
proof fn lemma_filter(s: Seq<int>, keep: spec_fn(int) -> bool)
    requires
        s.no_duplicates(),
    ensures
        s.filter(keep).no_duplicates(),
        s.filter(keep).len() <= s.len(),
        forall|x: int| #[trigger] s.filter(keep).contains(x) <==> s.contains(x) && keep(x),
    decreases s.len(),
{
    reveal(Seq::filter);
    if s.len() > 0 {
        let shorter = s.drop_last();
        lemma_filter(shorter, keep);
        let kept = shorter.filter(keep);
        assert(shorter.push(s.last()) =~= s);
        lemma_push_contains(shorter, s.last());
        lemma_push_contains(kept, s.last());
        assert(!kept.contains(s.last()));
        assert forall|i: int| 0 <= i < kept.len() implies kept[i] != s.last() by {
            assert(kept.contains(kept[i]));
        }
    }
}

/// What a list contains after a push.
proof fn lemma_push_contains(s: Seq<int>, last: int)
    ensures
        forall|x: int| #[trigger] s.push(last).contains(x) <==> s.contains(x) || x == last,
{
    assert forall|x: int| #[trigger] s.push(last).contains(x) <==> s.contains(x) || x == last by {
        if s.contains(x) {
            let i = choose|i: int| 0 <= i < s.len() && s[i] == x;
            assert(s.push(last)[i] == x);
        }
        assert(s.push(last)[s.len() as int] == last);
    }
}

impl<T> World<T> {
    /// A schedule that can run is possible.
    proof fn lemma_can_run_is_possible(self, events: Seq<Event<T>>)
        requires
            self.can_run(events),
        ensures
            self.possible(events),
        decreases events.len(),
    {
        if events.len() > 0 {
            self.lemma_can_run_is_possible(events.drop_last());
        }
    }

    /// A schedule can be cut in two.
    proof fn lemma_cut(self, events: Seq<Event<T>>, n: int)
        requires
            self.can_run(events),
            0 <= n <= events.len(),
        ensures
            self.can_run(events.take(n)),
            self.run(events.take(n)).can_run(events.skip(n)),
            self.run(events.take(n)).run(events.skip(n)) == self.run(events),
        decreases events.len(),
    {
        if n < events.len() {
            let shorter = events.drop_last();
            self.lemma_cut(shorter, n);
            assert(shorter.take(n) =~= events.take(n));
            assert(shorter.skip(n) =~= events.skip(n).drop_last());
        } else {
            assert(events.take(n) =~= events);
        }
    }

    /// A call that has returned stays as it is.
    proof fn lemma_returned_calls_stay(self, events: Seq<Event<T>>)
        requires
            self.possible(events),
        ensures
            forall|id: int| #[trigger]
                self.push_returned(id) ==> {
                    &&& self.run(events).pushers.contains_key(id)
                    &&& self.run(events).pushers[id] == self.pushers[id]
                },
            forall|id: int| #[trigger]
                self.pop_returned(id) ==> {
                    &&& self.run(events).poppers.contains_key(id)
                    &&& self.run(events).poppers[id] == self.poppers[id]
                },
        decreases events.len(),
    {
        if events.len() > 0 {
            self.lemma_returned_calls_stay(events.drop_last());
        }
    }

    /// The calls that are there after a schedule are those that were there before and those that
    /// begin in it.
    proof fn lemma_calls_begun(self, events: Seq<Event<T>>)
        requires
            self.possible(events),
        ensures
            pushes_begun(events).no_duplicates(),
            pops_begun(events).no_duplicates(),
            forall|id: int| #[trigger]
                self.run(events).pushers.contains_key(id) <==> self.pushers.contains_key(id)
                    || pushes_begun(events).contains(id),
            forall|id: int| #[trigger]
                self.run(events).poppers.contains_key(id) <==> self.poppers.contains_key(id)
                    || pops_begun(events).contains(id),
            forall|id: int|
                self.pushers.contains_key(id) ==> !#[trigger] pushes_begun(events).contains(id),
            forall|id: int|
                self.poppers.contains_key(id) ==> !#[trigger] pops_begun(events).contains(id),
        decreases events.len(),
    {
        if events.len() > 0 {
            let shorter = events.drop_last();
            self.lemma_calls_begun(shorter);
            match events.last() {
                Event::BeginPush { id, .. } => {
                    lemma_push_contains(pushes_begun(shorter), id);
                },
                Event::BeginPop { id } => {
                    lemma_push_contains(pops_begun(shorter), id);
                },
                _ => {},
            }
        }
    }

    /// Where every call has returned, the waiting items are those that were accepted and not taken.
    proof fn lemma_waiting(self)
        requires
            self.consistent(),
            self.settled(),
        ensures
            self.waiting() == self.accepted.subrange(self.popped(), self.pushed()),
    {
        let items = self.accepted.subrange(self.popped(), self.pushed());
        assert(self.quiet());
        interleaving::law_quiet_region_holds_the_waiting_items(self);
        region::lemma_items_between(
            self.slots,
            self.mask,
            self.dequeue_pos,
            self.enqueue_pos,
            items,
        );
    }

    /// The pushes of a schedule that have returned `Ok` are those that have claimed the new
    /// positions.
    proof fn lemma_accepted_pushes(self, events: Seq<Event<T>>)
        requires
            self.consistent(),
            self.settled(),
            self.can_run(events),
            self.run(events).settled(),
        ensures
            ({
                let last = self.run(events);
                let ids = last.accepted_pushes(events);
                &&& self.pushed() <= last.pushed()
                &&& ids.no_duplicates()
                &&& ids.len() == last.pushed() - self.pushed()
                &&& forall|id: int| #[trigger]
                    ids.contains(id) <==> pushes_begun(events).contains(id) && last.push_succeeded(
                        id,
                    )
                &&& last.values_of_pushes(ids).to_multiset() == last.accepted.skip(
                    self.pushed(),
                ).to_multiset()
            }),
    {
        let last = self.run(events);
        let ids = last.accepted_pushes(events);
        let claimed = last.givers.skip(self.pushed());
        self.lemma_can_run_is_possible(events);
        self.lemma_returned_calls_stay(events);
        self.lemma_calls_begun(events);
        interleaving::law_every_schedule_keeps_consistency(self, events);
        interleaving::law_history_only_grows(self, events);
        lemma_filter(pushes_begun(events), |id: int| last.push_succeeded(id));
        assert(claimed.no_duplicates()) by {
            assert forall|i: int, j: int|
                0 <= i < claimed.len() && 0 <= j < claimed.len() && i != j implies claimed[i]
                != claimed[j] by {
                assert(last.giver_ok(self.pushed() + i));
                assert(last.giver_ok(self.pushed() + j));
            }
        }
        assert forall|id: int| ids.contains(id) <==> claimed.contains(id) by {
            if ids.contains(id) {
                interleaving::law_later_pushes_come_later(self, events, id);
                assert(last.pusher_ok(id));
                assert(claimed[last.pushers[id].pos - self.pushed()] == id);
            }
            if claimed.contains(id) {
                let i = choose|i: int| 0 <= i < claimed.len() && claimed[i] == id;
                assert(last.giver_ok(self.pushed() + i));
                if self.pushers.contains_key(id) {
                    assert(self.push_returned(id));
                    assert(self.pusher_ok(id));
                }
            }
        }
        lemma_same_elements(ids, claimed);
        lemma_map_keeps_multiset(ids, claimed, |id: int| last.pushers[id].call.value);
        let added = last.accepted.skip(self.pushed());
        assert(last.values_of_pushes(claimed) =~= added) by {
            assert forall|i: int| 0 <= i < claimed.len() implies
                #[trigger] last.values_of_pushes(claimed)[i] == added[i] by {
                assert(last.giver_ok(self.pushed() + i));
                assert(last.pusher_ok(claimed[i]));
            }
        }
    }

    /// The pops of a schedule that have returned a value are those that have claimed the new
    /// positions.
    proof fn lemma_successful_pops(self, events: Seq<Event<T>>)
        requires
            self.consistent(),
            self.settled(),
            self.can_run(events),
            self.run(events).settled(),
        ensures
            ({
                let last = self.run(events);
                let ids = last.successful_pops(events);
                &&& self.popped() <= last.popped()
                &&& ids.no_duplicates()
                &&& ids.len() == last.popped() - self.popped()
                &&& forall|id: int| #[trigger]
                    ids.contains(id) <==> pops_begun(events).contains(id) && last.pop_succeeded(id)
                &&& last.values_of_pops(ids).to_multiset() == last.accepted.subrange(
                    self.popped(),
                    last.popped(),
                ).to_multiset()
            }),
    {
        let last = self.run(events);
        let ids = last.successful_pops(events);
        let claimed = last.takers.skip(self.popped());
        let taken = last.accepted.subrange(self.popped(), last.popped());
        self.lemma_can_run_is_possible(events);
        self.lemma_returned_calls_stay(events);
        self.lemma_calls_begun(events);
        interleaving::law_every_schedule_keeps_consistency(self, events);
        interleaving::law_history_only_grows(self, events);
        lemma_filter(pops_begun(events), |id: int| last.pop_succeeded(id));
        assert(claimed.no_duplicates()) by {
            assert forall|i: int, j: int|
                0 <= i < claimed.len() && 0 <= j < claimed.len() && i != j implies claimed[i]
                != claimed[j] by {
                assert(last.taker_ok(self.popped() + i));
                assert(last.taker_ok(self.popped() + j));
            }
        }
        assert forall|id: int| ids.contains(id) <==> claimed.contains(id) by {
            if ids.contains(id) {
                interleaving::law_later_pops_come_later(self, events, id);
                assert(last.popper_ok(id));
                assert(claimed[last.poppers[id].pos - self.popped()] == id);
            }
            if claimed.contains(id) {
                let i = choose|i: int| 0 <= i < claimed.len() && claimed[i] == id;
                assert(last.taker_ok(self.popped() + i));
                if self.poppers.contains_key(id) {
                    assert(self.pop_returned(id));
                    assert(self.popper_ok(id));
                }
            }
        }
        lemma_same_elements(ids, claimed);
        lemma_map_keeps_multiset(ids, claimed, |id: int| last.pop_value(id));
        assert(last.values_of_pops(claimed) =~= taken) by {
            assert forall|i: int| 0 <= i < claimed.len() implies
                #[trigger] last.values_of_pops(claimed)[i] == taken[i] by {
                assert(last.taker_ok(self.popped() + i));
                assert(last.popper_ok(claimed[i]));
            }
        }
    }
}

/// Whatever the schedule, once all calls have returned, the values that have been popped and those
/// that still wait are together the values that waited before and those whose push was accepted:
/// nothing is lost, nothing is doubled and nothing is made up. No two pops return what one push put
/// in.
pub proof fn law_what_comes_out_is_what_went_in<T>(world: World<T>, events: Seq<Event<T>>)
    requires
        world.consistent(),
        world.settled(),
        world.can_run(events),
        world.run(events).settled(),
    ensures
        ({
            let last = world.run(events);
            let popped = last.values_of_pops(last.successful_pops(events));
            let pushed = last.values_of_pushes(last.accepted_pushes(events));
            &&& popped.to_multiset().add(last.waiting().to_multiset())
                == world.waiting().to_multiset().add(pushed.to_multiset())
            &&& forall|push: int, pop: int, other: int|
                #![trigger last.delivers(push, pop), last.delivers(push, other)]
                last.delivers(push, pop) && last.delivers(push, other) ==> pop == other
        }),
{
    let last = world.run(events);
    interleaving::law_every_schedule_keeps_consistency(world, events);
    interleaving::law_history_only_grows(world, events);
    world.lemma_accepted_pushes(events);
    world.lemma_successful_pops(events);
    world.lemma_waiting();
    last.lemma_waiting();
    let taken = last.accepted.subrange(world.popped(), last.popped());
    let added = last.accepted.skip(world.pushed());
    assert(taken + last.waiting() =~= world.waiting() + added) by {
        assert(forall|i: int|
            0 <= i < world.pushed() ==> world.accepted[i] == #[trigger] last.accepted[i]);
    }
    lemma_multiset_commutative(taken, last.waiting());
    lemma_multiset_commutative(world.waiting(), added);
    assert forall|push: int, pop: int, other: int|
        #![trigger last.delivers(push, pop), last.delivers(push, other)]
        last.delivers(push, pop) && last.delivers(push, other) implies pop == other by {
        interleaving::law_taken_once_in_order(last, pop, other, last.pop_value(pop));
    }
}

/// Positions are claimed in the order of the pushes of one producer.
proof fn lemma_pushes_in_order<T>(world: World<T>, events: Seq<Event<T>>, first: int, second: int)
    requires
        world.consistent(),
        world.can_run(events),
        world.push_precedes(events, first, second),
        world.run(events).push_has_claimed(first),
        world.run(events).pushers.contains_key(second),
        world.run(events).push_has_claimed(second),
    ensures
        world.run(events).pushers[first].pos < world.run(events).pushers[second].pos,
{
    let n = choose|n: int|
        0 <= n <= events.len() && {
            let moment = world.run(#[trigger] events.take(n));
            moment.push_returned(first) && !moment.pushers.contains_key(second)
        };
    let moment = world.run(events.take(n));
    world.lemma_cut(events, n);
    interleaving::law_every_schedule_keeps_consistency(world, events.take(n));
    moment.lemma_can_run_is_possible(events.skip(n));
    moment.lemma_returned_calls_stay(events.skip(n));
    interleaving::law_later_pushes_come_later(moment, events.skip(n), second);
    assert(moment.push_returned(first));
    assert(moment.pusher_ok(first));
}

/// Positions are claimed in the order of the pops of one consumer.
proof fn lemma_pops_in_order<T>(world: World<T>, events: Seq<Event<T>>, first: int, second: int)
    requires
        world.consistent(),
        world.can_run(events),
        world.pop_precedes(events, first, second),
        world.run(events).pop_has_claimed(first),
        world.run(events).poppers.contains_key(second),
        world.run(events).pop_has_claimed(second),
    ensures
        world.run(events).poppers[first].pos < world.run(events).poppers[second].pos,
{
    let n = choose|n: int|
        0 <= n <= events.len() && {
            let moment = world.run(#[trigger] events.take(n));
            moment.pop_returned(first) && !moment.poppers.contains_key(second)
        };
    let moment = world.run(events.take(n));
    world.lemma_cut(events, n);
    interleaving::law_every_schedule_keeps_consistency(world, events.take(n));
    moment.lemma_can_run_is_possible(events.skip(n));
    moment.lemma_returned_calls_stay(events.skip(n));
    interleaving::law_later_pops_come_later(moment, events.skip(n), second);
    assert(moment.pop_returned(first));
    assert(moment.popper_ok(first));
}

/// Any one consumer gets the values of any one producer in the order in which the producer pushed
/// them: where an earlier and a later pop of the consumer return what two pushes of the producer put
/// in, the push of the earlier pop is the earlier one. Each of the pops returns the value of its
/// push.
pub proof fn law_consumer_sees_producer_in_order<T>(
    world: World<T>,
    events: Seq<Event<T>>,
    producer: Seq<int>,
    consumer: Seq<int>,
    i: int,
    j: int,
    x: int,
    y: int,
)
    requires
        world.consistent(),
        world.can_run(events),
        world.one_producer(events, producer),
        world.one_consumer(events, consumer),
        0 <= i < j < consumer.len(),
        0 <= x < producer.len(),
        0 <= y < producer.len(),
        world.run(events).delivers(producer[x], consumer[i]),
        world.run(events).delivers(producer[y], consumer[j]),
    ensures
        x < y,
        ({
            let last = world.run(events);
            &&& last.pop_value(consumer[i]) == last.pushers[producer[x]].call.value
            &&& last.pop_value(consumer[j]) == last.pushers[producer[y]].call.value
        }),
{
    let last = world.run(events);
    interleaving::law_every_schedule_keeps_consistency(world, events);
    lemma_pops_in_order(world, events, consumer[i], consumer[j]);
    if y < x {
        lemma_pushes_in_order(world, events, producer[y], producer[x]);
    }
    assert(last.pusher_ok(producer[x]));
    assert(last.pusher_ok(producer[y]));
    assert(last.popper_ok(consumer[i]));
    assert(last.popper_ok(consumer[j]));
}

impl<T> World<T> {
    /// What holds while nobody pops, after a moment at which every call had returned: `start` is the
    /// world at that moment.
    spec fn only_pushes_since(self, start: Self) -> bool {
        &&& self.consistent()
        &&& self.mask == start.mask
        &&& self.poppers == start.poppers
        &&& self.takers == start.takers
        &&& start.pushed() <= self.pushed()
        &&& forall|id: int| #[trigger]
            self.pushers.contains_key(id) ==> match self.pushers[id].call.phase {
                PushPhase::LoadSequence { .. } => start.pushed() <= self.pushers[id].pos,
                PushPhase::Exchange { .. } => start.pushed() <= self.pushers[id].pos,
                PushPhase::Return { result: Err(_) } => start.pushers.contains_key(id)
                    || self.pushed() == self.popped() + self.capacity(),
                _ => true,
            }
    }

    /// While nobody pops, a push that is told that the queue is full is told the truth.
    proof fn lemma_refused_where_full(self, start: Self, id: int, reply: protocol::RingReply<T>)
        requires
            start.consistent(),
            start.settled(),
            self.only_pushes_since(start),
            self.push_can_get(id, reply),
            self.pushers[id].call.phase is LoadSequence,
            self.pushers[id].call.next(reply).phase is Return,
        ensures
            self.pushed() == self.popped() + self.capacity(),
    {
        let pos = self.pushers[id].pos;
        let at = pos % self.capacity();
        assert(self.pusher_ok(id));
        lemma_mod_bound(pos, self.capacity());
        assert(self.slot_ok(at));
        let used = self.uses[at].pos();
        if self.uses[at] is Reading {
            assert(self.taker_ok(used));
            assert(self.popper_ok(self.takers[used]));
            assert(false);
        }
        if used > pos {
            region::lemma_slots_distinct(used, pos, self.capacity());
        }
        assert(protocol::ready(used, self.mask) <= protocol::ready(pos, self.mask))
            by (nonlinear_arith)
            requires
                used <= pos,
                protocol::ready(used, self.mask) == protocol::stride(self.mask) * used,
                protocol::ready(pos, self.mask) == protocol::stride(self.mask) * pos,
                protocol::stride(self.mask) >= 1,
        ;
        assert(!self.push_overslept(id));
        interleaving::law_full_means_full(self, id, reply);
        if self.pushed() != self.popped() + self.capacity() {
            let taker = self.takers[self.pushed() - self.capacity()];
            assert(self.poppers.contains_key(taker));
            assert(false);
        }
    }

    /// Nobody pops: no push overruns a slot, and a push is refused only where there is no room.
    proof fn lemma_only_pushes(self, events: Seq<Event<T>>)
        requires
            self.consistent(),
            self.settled(),
            self.possible(events),
            only_pushes(events),
        ensures
            self.can_run(events),
            self.run(events).only_pushes_since(self),
        decreases events.len(),
    {
        if events.len() > 0 {
            let shorter = events.drop_last();
            let before = self.run(shorter);
            let event = events.last();
            assert forall|i: int| 0 <= i < shorter.len() implies (#[trigger] shorter[i] is BeginPush
                || shorter[i] is StepPush) by {
                assert(events[i] == shorter[i]);
            }
            self.lemma_only_pushes(shorter);
            assert(event is BeginPush || event is StepPush) by {
                assert(events[events.len() - 1] == event);
            }
            if before.overruns(event) {
                interleaving::law_overrun_takes_a_full_circle(before, event);
                words::lemma_pow2_divides_modulus(before.capacity() as usize);
                assert(before.pusher_ok(event->StepPush_id));
                assert(false);
            }
            interleaving::law_event_keeps_consistency(before, event);
            if let Event::StepPush { id, reply } = event {
                assert(before.pusher_ok(id));
                if before.pushers[id].call.phase is LoadSequence
                    && before.pushers[id].call.next(reply).phase is Return {
                    before.lemma_refused_where_full(self, id, reply);
                }
            }
        }
    }
}

/// Of many pushes at once, while nobody pops, exactly as many are accepted as there is room for, and
/// the others are told that the queue is full. The items that waited before stay first, and the
/// accepted values come after them, each once.
pub proof fn law_concurrent_pushes_fill_the_queue<T>(world: World<T>, events: Seq<Event<T>>)
    requires
        world.consistent(),
        world.settled(),
        world.possible(events),
        only_pushes(events),
        world.run(events).settled(),
    ensures
        ({
            let last = world.run(events);
            let begun = pushes_begun(events);
            let accepted = last.accepted_pushes(events);
            let n = world.waiting().len() as int;
            &&& accepted.len() == min(begun.len() as int, world.capacity() - n)
            &&& forall|id: int| #[trigger]
                begun.contains(id) ==> last.push_succeeded(id) || last.push_refused(id)
            &&& last.waiting().len() == n + accepted.len()
            &&& last.waiting().take(n) == world.waiting()
            &&& last.waiting().skip(n).to_multiset() == last.values_of_pushes(
                accepted,
            ).to_multiset()
        }),
{
    let last = world.run(events);
    let begun = pushes_begun(events);
    let accepted = last.accepted_pushes(events);
    let n = world.waiting().len() as int;
    world.lemma_only_pushes(events);
    interleaving::law_history_only_grows(world, events);
    world.lemma_calls_begun(events);
    world.lemma_accepted_pushes(events);
    world.lemma_waiting();
    last.lemma_waiting();
    lemma_filter(begun, |id: int| last.push_succeeded(id));
    assert(last.waiting().take(n) =~= world.waiting());
    assert(last.waiting().skip(n) =~= last.accepted.skip(world.pushed()));
    assert forall|id: int| #[trigger] begun.contains(id) implies last.push_succeeded(id)
        || last.push_refused(id) by {
        assert(last.pushers.contains_key(id));
    }
    if forall|id: int| #[trigger] begun.contains(id) ==> last.push_succeeded(id) {
        lemma_same_elements(begun, accepted);
    } else {
        let id = choose|id: int| #[trigger] begun.contains(id) && !last.push_succeeded(id);
        assert(last.pushers.contains_key(id));
        assert(last.pushed() == last.popped() + last.capacity());
    }
}

impl<T> World<T> {
    /// What holds while nobody pushes, after a moment at which every call had returned: `start` is
    /// the world at that moment.
    spec fn only_pops_since(self, start: Self) -> bool {
        &&& self.consistent()
        &&& self.mask == start.mask
        &&& self.pushers == start.pushers
        &&& self.givers == start.givers
        &&& self.accepted == start.accepted
        &&& start.popped() <= self.popped()
        &&& forall|id: int| #[trigger]
            self.poppers.contains_key(id) ==> match self.poppers[id].call.phase {
                PopPhase::LoadSequence { .. } => start.popped() <= self.poppers[id].pos,
                PopPhase::Exchange { .. } => start.popped() <= self.poppers[id].pos,
                PopPhase::Return { result: Err(_) } => start.poppers.contains_key(id)
                    || self.pushed() == self.popped(),
                _ => true,
            }
    }

    /// While nobody pushes, a pop that is told that the queue is empty is told the truth.
    proof fn lemma_refused_where_empty(self, start: Self, id: int, reply: protocol::RingReply<T>)
        requires
            start.consistent(),
            start.settled(),
            self.only_pops_since(start),
            self.pop_can_get(id, reply),
            self.poppers[id].call.phase is LoadSequence,
            self.poppers[id].call.next(reply).phase is Return,
        ensures
            self.pushed() == self.popped(),
    {
        let pos = self.poppers[id].pos;
        let capacity = self.capacity();
        let at = pos % capacity;
        assert(self.popper_ok(id));
        lemma_mod_bound(pos, capacity);
        assert(self.slot_ok(at));
        let used = self.uses[at].pos();
        if used > pos + capacity {
            lemma_mod_add_multiples_vanish(pos, capacity);
            region::lemma_slots_distinct(used, pos + capacity, capacity);
        }
        words::lemma_pow2_divides_modulus(capacity as usize);
        let stride = protocol::stride(self.mask);
        assert(stride * used <= stride * pos + stride * capacity) by (nonlinear_arith)
            requires
                used <= pos + capacity,
                stride >= 1,
        ;
        assert(stride * capacity <= isize::MAX + 1) by {
            assert(self.mask == 0 ==> stride * capacity == 2);
            assert(self.mask > 0 ==> stride * capacity == capacity);
        }
        if self.uses[at] is Filled {
            assert(used <= pos) by {
                if used > pos {
                    region::lemma_slots_distinct(used, pos, capacity);
                }
            }
            assert(stride * used <= stride * pos) by (nonlinear_arith)
                requires
                    used <= pos,
                    stride >= 1,
            ;
        }
        if self.uses[at] is Reading {
            assert(used <= pos) by {
                if used > pos {
                    region::lemma_slots_distinct(used, pos, capacity);
                }
            }
            assert(stride * used <= stride * pos) by (nonlinear_arith)
                requires
                    used <= pos,
                    stride >= 1,
            ;
        }
        assert(!self.pop_overslept(id));
        interleaving::law_empty_means_empty(self, id, reply);
        if self.pushed() != self.popped() {
            let giver = self.givers[self.popped()];
            assert(self.pushers.contains_key(giver));
            assert(false);
        }
    }

    /// Nobody pushes: no pop overruns a slot, and a pop is refused only where nothing waits.
    proof fn lemma_only_pops(self, events: Seq<Event<T>>)
        requires
            self.consistent(),
            self.settled(),
            self.possible(events),
            only_pops(events),
        ensures
            self.can_run(events),
            self.run(events).only_pops_since(self),
        decreases events.len(),
    {
        if events.len() > 0 {
            let shorter = events.drop_last();
            let before = self.run(shorter);
            let event = events.last();
            assert forall|i: int| 0 <= i < shorter.len() implies (#[trigger] shorter[i] is BeginPop
                || shorter[i] is StepPop) by {
                assert(events[i] == shorter[i]);
            }
            self.lemma_only_pops(shorter);
            assert(event is BeginPop || event is StepPop) by {
                assert(events[events.len() - 1] == event);
            }
            if before.overruns(event) {
                interleaving::law_overrun_takes_a_full_circle(before, event);
                words::lemma_pow2_divides_modulus(before.capacity() as usize);
                assert(before.popper_ok(event->StepPop_id));
                assert(false);
            }
            interleaving::law_event_keeps_consistency(before, event);
            if let Event::StepPop { id, reply } = event {
                assert(before.popper_ok(id));
                if before.poppers[id].call.phase is LoadSequence
                    && before.poppers[id].call.next(reply).phase is Return {
                    before.lemma_refused_where_empty(self, id, reply);
                }
            }
        }
    }
}

/// Of many pops at once, while nobody pushes, exactly as many return a value as items were waiting,
/// and the others are told that the queue is empty. The values are those of the oldest items, each
/// once, and the other items stay as they were.
pub proof fn law_concurrent_pops_drain_the_queue<T>(world: World<T>, events: Seq<Event<T>>)
    requires
        world.consistent(),
        world.settled(),
        world.possible(events),
        only_pops(events),
        world.run(events).settled(),
    ensures
        ({
            let last = world.run(events);
            let begun = pops_begun(events);
            let successful = last.successful_pops(events);
            let taken = successful.len() as int;
            &&& taken == min(begun.len() as int, world.waiting().len() as int)
            &&& forall|id: int| #[trigger]
                begun.contains(id) ==> last.pop_succeeded(id) || last.pop_refused(id)
            &&& last.values_of_pops(successful).to_multiset() == world.waiting().take(
                taken,
            ).to_multiset()
            &&& last.waiting() == world.waiting().skip(taken)
        }),
{
    let last = world.run(events);
    let begun = pops_begun(events);
    let successful = last.successful_pops(events);
    let taken = successful.len() as int;
    world.lemma_only_pops(events);
    interleaving::law_history_only_grows(world, events);
    world.lemma_calls_begun(events);
    world.lemma_successful_pops(events);
    world.lemma_waiting();
    last.lemma_waiting();
    lemma_filter(begun, |id: int| last.pop_succeeded(id));
    assert(world.waiting().take(taken) =~= last.accepted.subrange(world.popped(), last.popped()));
    assert(last.waiting() =~= world.waiting().skip(taken));
    assert forall|id: int| #[trigger] begun.contains(id) implies last.pop_succeeded(id)
        || last.pop_refused(id) by {
        assert(last.poppers.contains_key(id));
    }
    if forall|id: int| #[trigger] begun.contains(id) ==> last.pop_succeeded(id) {
        lemma_same_elements(begun, successful);
    } else {
        let id = choose|id: int| #[trigger] begun.contains(id) && !last.pop_succeeded(id);
        assert(last.poppers.contains_key(id));
        assert(last.pushed() == last.popped());
    }
}

impl<T> World<T> {
    /// Whether a push that loads the number of a slot now is right to say that the queue is full: its
    /// position is the next one, the slot of that position has not been freed for it, and either
    /// `capacity` items are waiting, or the pop that has claimed the item of the slot is halfway.
    pub open spec fn push_finds_it_full(self, id: int) -> bool {
        &&& self.pushers[id].pos == self.pushed()
        &&& region::slot_at(self.slots, self.pushed(), self.mask).sequence != words::word(
            protocol::ready(self.pushed(), self.mask),
        )
        &&& self.pushed() >= self.capacity()
        &&& self.pushed() - self.popped() == self.capacity() || self.pop_owns_slot(
            self.takers[self.pushed() - self.capacity()],
        )
    }

    /// Whether a pop that loads the number of a slot now is right to say that the queue is empty: its
    /// position is the next one, the item of that position has not been announced, and either
    /// nothing is waiting, or the push that has claimed the position is halfway.
    pub open spec fn pop_finds_it_empty(self, id: int) -> bool {
        &&& self.poppers[id].pos == self.popped()
        &&& region::slot_at(self.slots, self.popped(), self.mask).sequence != words::word(
            protocol::ready(self.popped(), self.mask) + 1,
        )
        &&& self.pushed() == self.popped() || self.push_owns_slot(self.givers[self.popped()])
    }
}

/// Whatever the schedule, a push that has returned `Full` has found the queue so when it last loaded
/// the number of a slot, which was the access right before it returned. The one exception is a push
/// that slept, between two of its accesses, through half of the range of words.
pub proof fn law_refused_push_found_the_queue_full<T>(
    world: World<T>,
    events: Seq<Event<T>>,
    id: int,
)
    requires
        world.consistent(),
        world.can_run(events),
        !world.pushers.contains_key(id),
        world.run(events).push_refused(id),
    ensures
        exists|n: int|
            0 <= n < events.len() && {
                let moment = world.run(#[trigger] events.take(n));
                &&& moment.pushers.contains_key(id)
                &&& moment.pushers[id].call.pending() is LoadSequence
                &&& world.run(events.take(n + 1)).push_refused(id)
                &&& moment.push_overslept(id) || moment.push_finds_it_full(id)
            },
    decreases events.len(),
{
    assert(events.len() > 0);
    let shorter = events.drop_last();
    let before = world.run(shorter);
    if before.push_refused(id) {
        law_refused_push_found_the_queue_full(world, shorter, id);
        let n = choose|n: int|
            0 <= n < shorter.len() && {
                let moment = world.run(#[trigger] shorter.take(n));
                &&& moment.pushers.contains_key(id)
                &&& moment.pushers[id].call.pending() is LoadSequence
                &&& world.run(shorter.take(n + 1)).push_refused(id)
                &&& moment.push_overslept(id) || moment.push_finds_it_full(id)
            };
        assert(shorter.take(n) =~= events.take(n));
        assert(shorter.take(n + 1) =~= events.take(n + 1));
    } else {
        let n = shorter.len() as int;
        assert(events.take(n) =~= shorter);
        assert(events.take(n + 1) =~= events);
        interleaving::law_every_schedule_keeps_consistency(world, shorter);
        let reply = events.last()->StepPush_reply;
        interleaving::law_only_a_sequence_number_refuses(before, id, reply);
        if !before.push_overslept(id) {
            assert(before.pushers[id].call.next(reply).phase == (PushPhase::Return {
                result: Err(TryPushError::Full),
            })) by {
                assert(world.run(events).pushers[id].call.phase->result->Err_0
                    == TryPushError::Full);
            }
            interleaving::law_full_means_full(before, id, reply);
        }
    }
}

/// Whatever the schedule, a pop that has returned `Empty` has found the queue so when it last loaded
/// the number of a slot, which was the access right before it returned. The one exception is a pop
/// that slept, between two of its accesses, through half of the range of words.
pub proof fn law_refused_pop_found_the_queue_empty<T>(
    world: World<T>,
    events: Seq<Event<T>>,
    id: int,
)
    requires
        world.consistent(),
        world.can_run(events),
        !world.poppers.contains_key(id),
        world.run(events).pop_refused(id),
    ensures
        exists|n: int|
            0 <= n < events.len() && {
                let moment = world.run(#[trigger] events.take(n));
                &&& moment.poppers.contains_key(id)
                &&& moment.poppers[id].call.pending() is LoadSequence
                &&& world.run(events.take(n + 1)).pop_refused(id)
                &&& moment.pop_overslept(id) || moment.pop_finds_it_empty(id)
            },
    decreases events.len(),
{
    assert(events.len() > 0);
    let shorter = events.drop_last();
    let before = world.run(shorter);
    if before.pop_refused(id) {
        law_refused_pop_found_the_queue_empty(world, shorter, id);
        let n = choose|n: int|
            0 <= n < shorter.len() && {
                let moment = world.run(#[trigger] shorter.take(n));
                &&& moment.poppers.contains_key(id)
                &&& moment.poppers[id].call.pending() is LoadSequence
                &&& world.run(shorter.take(n + 1)).pop_refused(id)
                &&& moment.pop_overslept(id) || moment.pop_finds_it_empty(id)
            };
        assert(shorter.take(n) =~= events.take(n));
        assert(shorter.take(n + 1) =~= events.take(n + 1));
    } else {
        let n = shorter.len() as int;
        assert(events.take(n) =~= shorter);
        assert(events.take(n + 1) =~= events);
        interleaving::law_every_schedule_keeps_consistency(world, shorter);
        let reply = events.last()->StepPop_reply;
        interleaving::law_only_a_sequence_number_refuses(before, id, reply);
        if !before.pop_overslept(id) {
            assert(before.poppers[id].call.next(reply).phase == (PopPhase::<T>::Return {
                result: Err(TryPopError::Empty),
            })) by {
                assert(world.run(events).poppers[id].call.phase->result->Err_0
                    == TryPopError::Empty);
            }
            interleaving::law_empty_means_empty(before, id, reply);
        }
    }
}

} // verus!
