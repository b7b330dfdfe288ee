//! The steps by which a push and a pop work on a shared region.
//!
//! A call is a small state machine. It names one access to shared memory at a time, and whoever
//! runs it performs the access and hands back what it saw. Each slot carries a sequence number that
//! says which position of the queue may use the slot next, and whether that is for a push or a pop:
//!
//! * `ready(pos)`: the slot is free, and the push of position `pos` may claim it;
//! * `ready(pos) + 1`: the slot holds the item of position `pos`, and a pop may claim it;
//! * `ready(pos + capacity)`: the item has been taken out, and the slot is free for the next lap.
//!
//! With two slots or more, `ready(pos)` is `pos`. With a single slot the number that announces an
//! item would then also announce the free slot of the next lap, so there the numbers advance in
//! steps of two.

use crate::error::{TryPopError, TryPushError};
use crate::words;
use vstd::prelude::*;

verus! {

/// How an access to an atomic word is ordered with the accesses around it.
#[derive(Debug, Clone, Copy, PartialEq, Eq, Structural)]
pub enum MemoryOrder {
    Relaxed,
    Acquire,
    Release,
}

/// What an access to shared memory gave back.
#[derive(Debug, PartialEq, Eq)]
pub enum RingReply<T> {
    /// The word that a load read.
    Word { word: usize },
    /// Whether an exchange stored its new word.
    Exchanged { stored: bool },
    /// The item that was read from a slot.
    Value { value: T },
    /// The access has been made and gives nothing back.
    Done,
}

/// By how much sequence numbers advance from one position to the next.
pub open spec fn stride(mask: usize) -> int {
    if mask == 0 {
        2
    } else {
        1
    }
}

/// The sequence number that frees a slot for the push of position `pos`.
pub open spec fn ready(pos: int, mask: usize) -> int {
    stride(mask) * pos
}

/// The sequence number of a position, by the number of slots.
pub proof fn lemma_ready(pos: int, mask: usize)
    ensures
        mask == 0 ==> ready(pos, mask) == 2 * pos,
        mask > 0 ==> ready(pos, mask) == pos,
{
    assert(ready(pos, mask) == stride(mask) * pos);
    assert(1 * pos == pos);
}

/// The slot of a position.
pub open spec fn slot_index(pos: usize, mask: usize) -> usize {
    pos & mask
}

/// The word of the sequence number that frees a slot for the push of `pos`.
fn ready_word(pos: usize, mask: usize) -> (sequence: usize)
    ensures
        sequence == words::word(ready(pos as int, mask)),
{
    proof {
        words::lemma_word_of_usize(pos);
        words::lemma_wrapping_add(pos, pos);
    }
    if mask == 0 {
        pos.wrapping_add(pos)
    } else {
        pos
    }
}

/// The word of the sequence number that announces the item of `pos`.
fn published_word(pos: usize, mask: usize) -> (sequence: usize)
    ensures
        sequence == words::word(ready(pos as int, mask) + 1),
{
    let base: usize = ready_word(pos, mask);
    proof {
        words::lemma_wrapping_add(base, 1);
        words::lemma_word_add(ready(pos as int, mask), 1);
    }
    base.wrapping_add(1)
}

/// The word of the sequence number that frees the slot of `pos` for the next lap.
fn released_word(pos: usize, mask: usize) -> (sequence: usize)
    ensures
        sequence == words::word(ready(pos + mask + 1, mask)),
{
    let last: usize = pos.wrapping_add(mask);
    let next: usize = last.wrapping_add(1);
    proof {
        words::lemma_wrapping_add(pos, mask);
        words::lemma_wrapping_add(last, 1);
        words::lemma_word_add(pos + mask, 1);
        words::lemma_word_mul(stride(mask), pos + mask + 1);
    }
    ready_word(next, mask)
}

/// Where a push stands.
#[derive(Debug, Clone, Copy, PartialEq, Eq)]
pub enum PushPhase {
    /// About to load the position of the next push.
    LoadPosition,
    /// About to load the sequence number of the slot of `pos`.
    LoadSequence { pos: usize },
    /// About to claim `pos`.
    Exchange { pos: usize },
    /// `pos` is claimed; about to write the item.
    WriteValue { pos: usize },
    /// The item is written; about to announce it.
    Publish { pos: usize },
    /// Another push took `pos`; about to let others run before starting over.
    Yield,
    /// The push is over.
    Return { result: Result<(), TryPushError> },
}

/// One access that a push asks for.
#[derive(Debug, PartialEq, Eq)]
pub enum PushAction<T> {
    LoadEnqueuePos { order: MemoryOrder },
    LoadSequence { index: usize, order: MemoryOrder },
    /// Stores `new` where the enqueue position is still `current`; may fail without a reason.
    ExchangeEnqueuePos {
        current: usize,
        new: usize,
        success: MemoryOrder,
        failure: MemoryOrder,
    },
    WriteValue { index: usize, value: T },
    StoreSequence { index: usize, sequence: usize, order: MemoryOrder },
    YieldNow,
    Return { result: Result<(), TryPushError> },
}

/// A push of one item, between two accesses to the region.
#[derive(Debug, PartialEq, Eq)]
pub struct PushCall<T> {
    pub value: T,
    pub mask: usize,
    pub phase: PushPhase,
}

impl<T> PushCall<T> {
    /// A push that has not made any access.
    pub open spec fn start(value: T, mask: usize) -> Self {
        PushCall { value, mask, phase: PushPhase::LoadPosition }
    }

    /// The access that the push waits for.
    pub open spec fn pending(self) -> PushAction<T> {
        match self.phase {
            PushPhase::LoadPosition => PushAction::LoadEnqueuePos { order: MemoryOrder::Relaxed },
            PushPhase::LoadSequence { pos } => PushAction::LoadSequence {
                index: slot_index(pos, self.mask),
                order: MemoryOrder::Acquire,
            },
            PushPhase::Exchange { pos } => PushAction::ExchangeEnqueuePos {
                current: pos,
                new: words::word(pos + 1),
                success: MemoryOrder::Acquire,
                failure: MemoryOrder::Relaxed,
            },
            PushPhase::WriteValue { pos } => PushAction::WriteValue {
                index: slot_index(pos, self.mask),
                value: self.value,
            },
            PushPhase::Publish { pos } => PushAction::StoreSequence {
                index: slot_index(pos, self.mask),
                sequence: words::word(ready(pos as int, self.mask) + 1),
                order: MemoryOrder::Release,
            },
            PushPhase::Yield => PushAction::YieldNow,
            PushPhase::Return { result } => PushAction::Return { result },
        }
    }

    /// Whether a reply is one to the access that the push waits for.
    pub open spec fn accepts(self, reply: RingReply<T>) -> bool {
        match self.phase {
            PushPhase::LoadPosition => reply is Word,
            PushPhase::LoadSequence { .. } => reply is Word,
            PushPhase::Exchange { .. } => reply is Exchanged,
            PushPhase::Return { .. } => false,
            _ => reply is Done,
        }
    }

    /// Where the push stands after a reply. A slot whose sequence number is behind that of the
    /// position still holds an item of the lap before: the queue is full. One whose number is ahead
    /// belongs to another push by now.
    pub open spec fn next_phase(self, reply: RingReply<T>) -> PushPhase {
        match self.phase {
            PushPhase::LoadPosition => PushPhase::LoadSequence { pos: reply->word },
            PushPhase::LoadSequence { pos } => {
                let gap = words::signed_gap(
                    reply->word,
                    words::word(ready(pos as int, self.mask)),
                );
                if gap == 0 {
                    PushPhase::Exchange { pos }
                } else if gap < 0 {
                    PushPhase::Return { result: Err(TryPushError::Full) }
                } else {
                    PushPhase::Yield
                }
            },
            PushPhase::Exchange { pos } => if reply->stored {
                PushPhase::WriteValue { pos }
            } else {
                PushPhase::LoadPosition
            },
            PushPhase::WriteValue { pos } => PushPhase::Publish { pos },
            PushPhase::Publish { .. } => PushPhase::Return { result: Ok(()) },
            PushPhase::Yield => PushPhase::LoadPosition,
            PushPhase::Return { result } => PushPhase::Return { result },
        }
    }

    /// The push after a reply.
    pub open spec fn next(self, reply: RingReply<T>) -> Self {
        PushCall { value: self.value, mask: self.mask, phase: self.next_phase(reply) }
    }
}

impl<T: Copy> PushCall<T> {
    /// Begins a push of `value` into a queue whose capacity is `mask + 1`.
    pub fn new(value: T, mask: usize) -> (call: Self)
        ensures
            call == Self::start(value, mask),
    {
        PushCall { value, mask, phase: PushPhase::LoadPosition }
    }

    /// The access that the push waits for.
    pub fn action(&self) -> (action: PushAction<T>)
        ensures
            action == self.pending(),
    {
        match self.phase {
            PushPhase::LoadPosition => PushAction::LoadEnqueuePos { order: MemoryOrder::Relaxed },
            PushPhase::LoadSequence { pos } => PushAction::LoadSequence {
                index: pos & self.mask,
                order: MemoryOrder::Acquire,
            },
            PushPhase::Exchange { pos } => {
                proof {
                    words::lemma_wrapping_add(pos, 1);
                }
                PushAction::ExchangeEnqueuePos {
                    current: pos,
                    new: pos.wrapping_add(1),
                    success: MemoryOrder::Acquire,
                    failure: MemoryOrder::Relaxed,
                }
            },
            PushPhase::WriteValue { pos } => PushAction::WriteValue {
                index: pos & self.mask,
                value: self.value,
            },
            PushPhase::Publish { pos } => PushAction::StoreSequence {
                index: pos & self.mask,
                sequence: published_word(pos, self.mask),
                order: MemoryOrder::Release,
            },
            PushPhase::Yield => PushAction::YieldNow,
            PushPhase::Return { result } => PushAction::Return { result },
        }
    }

    /// Takes the reply to the pending access and moves on.
    pub fn resume(self, reply: RingReply<T>) -> (call: Self)
        requires
            self.accepts(reply),
        ensures
            call == self.next(reply),
    {
        let phase = match (self.phase, reply) {
            (PushPhase::LoadPosition, RingReply::Word { word }) => PushPhase::LoadSequence {
                pos: word,
            },
            (PushPhase::LoadSequence { pos }, RingReply::Word { word }) => {
                let expected: usize = ready_word(pos, self.mask);
                let gap: usize = word.wrapping_sub(expected);
                proof {
                    words::lemma_wrapping_sub(word, expected);
                }
                if gap == 0 {
                    PushPhase::Exchange { pos }
                } else if gap > usize::MAX / 2 {
                    PushPhase::Return { result: Err(TryPushError::Full) }
                } else {
                    PushPhase::Yield
                }
            },
            (PushPhase::Exchange { pos }, RingReply::Exchanged { stored }) => if stored {
                PushPhase::WriteValue { pos }
            } else {
                PushPhase::LoadPosition
            },
            (PushPhase::WriteValue { pos }, _) => PushPhase::Publish { pos },
            (PushPhase::Publish { .. }, _) => PushPhase::Return { result: Ok(()) },
            (PushPhase::Yield, _) => PushPhase::LoadPosition,
            (phase, _) => phase,
        };
        PushCall { value: self.value, mask: self.mask, phase }
    }
}

/// Where a pop stands.
#[derive(Debug, PartialEq, Eq)]
pub enum PopPhase<T> {
    /// About to load the position of the next pop.
    LoadPosition,
    /// About to load the sequence number of the slot of `pos`.
    LoadSequence { pos: usize },
    /// About to claim `pos`.
    Exchange { pos: usize },
    /// `pos` is claimed; about to read the item.
    ReadValue { pos: usize },
    /// The item is read; about to free the slot.
    Release { pos: usize, value: T },
    /// Another pop took `pos`; about to let others run before starting over.
    Yield,
    /// The pop is over.
    Return { result: Result<T, TryPopError> },
}

/// One access that a pop asks for.
#[derive(Debug, PartialEq, Eq)]
pub enum PopAction<T> {
    LoadDequeuePos { order: MemoryOrder },
    LoadSequence { index: usize, order: MemoryOrder },
    /// Stores `new` where the dequeue position is still `current`; may fail without a reason.
    ExchangeDequeuePos {
        current: usize,
        new: usize,
        success: MemoryOrder,
        failure: MemoryOrder,
    },
    ReadValue { index: usize },
    StoreSequence { index: usize, sequence: usize, order: MemoryOrder },
    YieldNow,
    Return { result: Result<T, TryPopError> },
}

/// A pop of one item, between two accesses to the region.
#[derive(Debug, PartialEq, Eq)]
pub struct PopCall<T> {
    pub mask: usize,
    pub phase: PopPhase<T>,
}

impl<T> PopCall<T> {
    /// A pop that has not made any access.
    pub open spec fn start(mask: usize) -> Self {
        PopCall { mask, phase: PopPhase::LoadPosition }
    }

    /// The access that the pop waits for.
    pub open spec fn pending(self) -> PopAction<T> {
        match self.phase {
            PopPhase::LoadPosition => PopAction::LoadDequeuePos { order: MemoryOrder::Relaxed },
            PopPhase::LoadSequence { pos } => PopAction::LoadSequence {
                index: slot_index(pos, self.mask),
                order: MemoryOrder::Acquire,
            },
            PopPhase::Exchange { pos } => PopAction::ExchangeDequeuePos {
                current: pos,
                new: words::word(pos + 1),
                success: MemoryOrder::Acquire,
                failure: MemoryOrder::Relaxed,
            },
            PopPhase::ReadValue { pos } => PopAction::ReadValue {
                index: slot_index(pos, self.mask),
            },
            PopPhase::Release { pos, .. } => PopAction::StoreSequence {
                index: slot_index(pos, self.mask),
                sequence: words::word(ready(pos + self.mask + 1, self.mask)),
                order: MemoryOrder::Release,
            },
            PopPhase::Yield => PopAction::YieldNow,
            PopPhase::Return { result } => PopAction::Return { result },
        }
    }

    /// Whether a reply is one to the access that the pop waits for.
    pub open spec fn accepts(self, reply: RingReply<T>) -> bool {
        match self.phase {
            PopPhase::LoadPosition => reply is Word,
            PopPhase::LoadSequence { .. } => reply is Word,
            PopPhase::Exchange { .. } => reply is Exchanged,
            PopPhase::ReadValue { .. } => reply is Value,
            PopPhase::Return { .. } => false,
            _ => reply is Done,
        }
    }

    /// Where the pop stands after a reply. A slot whose sequence number is behind the one that
    /// announces the item of the position has no item yet: the queue is empty. One whose number is
    /// ahead has been emptied by another pop.
    pub open spec fn next_phase(self, reply: RingReply<T>) -> PopPhase<T> {
        match self.phase {
            PopPhase::LoadPosition => PopPhase::LoadSequence { pos: reply->word },
            PopPhase::LoadSequence { pos } => {
                let gap = words::signed_gap(
                    reply->word,
                    words::word(ready(pos as int, self.mask) + 1),
                );
                if gap == 0 {
                    PopPhase::Exchange { pos }
                } else if gap < 0 {
                    PopPhase::Return { result: Err(TryPopError::Empty) }
                } else {
                    PopPhase::Yield
                }
            },
            PopPhase::Exchange { pos } => if reply->stored {
                PopPhase::ReadValue { pos }
            } else {
                PopPhase::LoadPosition
            },
            PopPhase::ReadValue { pos } => PopPhase::Release { pos, value: reply->value },
            PopPhase::Release { value, .. } => PopPhase::Return { result: Ok(value) },
            PopPhase::Yield => PopPhase::LoadPosition,
            PopPhase::Return { result } => PopPhase::Return { result },
        }
    }

    /// The pop after a reply.
    pub open spec fn next(self, reply: RingReply<T>) -> Self {
        PopCall { mask: self.mask, phase: self.next_phase(reply) }
    }
}

impl<T: Copy> PopCall<T> {
    /// Begins a pop from a queue whose capacity is `mask + 1`.
    pub fn new(mask: usize) -> (call: Self)
        ensures
            call == Self::start(mask),
    {
        PopCall { mask, phase: PopPhase::LoadPosition }
    }

    /// The access that the pop waits for.
    pub fn action(&self) -> (action: PopAction<T>)
        ensures
            action == self.pending(),
    {
        match &self.phase {
            PopPhase::LoadPosition => PopAction::LoadDequeuePos { order: MemoryOrder::Relaxed },
            PopPhase::LoadSequence { pos } => PopAction::LoadSequence {
                index: *pos & self.mask,
                order: MemoryOrder::Acquire,
            },
            PopPhase::Exchange { pos } => {
                proof {
                    words::lemma_wrapping_add(*pos, 1);
                }
                PopAction::ExchangeDequeuePos {
                    current: *pos,
                    new: pos.wrapping_add(1),
                    success: MemoryOrder::Acquire,
                    failure: MemoryOrder::Relaxed,
                }
            },
            PopPhase::ReadValue { pos } => PopAction::ReadValue { index: *pos & self.mask },
            PopPhase::Release { pos, .. } => PopAction::StoreSequence {
                index: *pos & self.mask,
                sequence: released_word(*pos, self.mask),
                order: MemoryOrder::Release,
            },
            PopPhase::Yield => PopAction::YieldNow,
            PopPhase::Return { result } => PopAction::Return { result: *result },
        }
    }

    /// Takes the reply to the pending access and moves on.
    pub fn resume(self, reply: RingReply<T>) -> (call: Self)
        requires
            self.accepts(reply),
        ensures
            call == self.next(reply),
    {
        let phase = match (self.phase, reply) {
            (PopPhase::LoadPosition, RingReply::Word { word }) => PopPhase::LoadSequence {
                pos: word,
            },
            (PopPhase::LoadSequence { pos }, RingReply::Word { word }) => {
                let expected: usize = published_word(pos, self.mask);
                let gap: usize = word.wrapping_sub(expected);
                proof {
                    words::lemma_wrapping_sub(word, expected);
                }
                if gap == 0 {
                    PopPhase::Exchange { pos }
                } else if gap > usize::MAX / 2 {
                    PopPhase::Return { result: Err(TryPopError::Empty) }
                } else {
                    PopPhase::Yield
                }
            },
            (PopPhase::Exchange { pos }, RingReply::Exchanged { stored }) => if stored {
                PopPhase::ReadValue { pos }
            } else {
                PopPhase::LoadPosition
            },
            (PopPhase::ReadValue { pos }, RingReply::Value { value }) => PopPhase::Release {
                pos,
                value,
            },
            (PopPhase::Release { value, .. }, _) => PopPhase::Return { result: Ok(value) },
            (PopPhase::Yield, _) => PopPhase::LoadPosition,
            (phase, _) => phase,
        };
        PopCall { mask: self.mask, phase }
    }
}

/// The accesses of a push, one by one, whatever it finds: `pos` is the position that it loads and
/// `sequence` the number that it finds in the slot of the position. It claims the position exactly
/// where the number is the one of the position, gives up exactly where the number is behind, and
/// otherwise lets others run; where it neither claims the position nor gives up, it starts over from
/// the beginning. Only after a claim does it write, and only after that does it announce the item,
/// by a store that others cannot see before what was written.
pub proof fn law_accesses_of_a_push<T>(value: T, mask: usize, pos: usize, sequence: usize)
    ensures
        ({
            let own: usize = if mask == 0 {
                pos.wrapping_add(pos)
            } else {
                pos
            };
            let ahead = sequence.wrapping_sub(own);
            let begun = PushCall::start(value, mask);
            let positioned = begun.next(RingReply::Word { word: pos });
            let looked = positioned.next(RingReply::Word { word: sequence });
            &&& begun.accepts(RingReply::Word { word: pos })
            &&& begun.pending() == (PushAction::<T>::LoadEnqueuePos { order: MemoryOrder::Relaxed })
            &&& positioned.accepts(RingReply::Word { word: sequence })
            &&& positioned.pending() == (PushAction::<T>::LoadSequence {
                index: pos & mask,
                order: MemoryOrder::Acquire,
            })
            &&& ahead > isize::MAX ==> looked.pending() == (PushAction::<T>::Return {
                result: Err(TryPushError::Full),
            })
            &&& 0 < ahead <= isize::MAX ==> {
                &&& looked.pending() == PushAction::<T>::YieldNow
                &&& looked.accepts(RingReply::Done)
                &&& looked.next(RingReply::Done) == begun
            }
            &&& ahead == 0 ==> {
                let claimed = looked.next(RingReply::Exchanged { stored: true });
                let written = claimed.next(RingReply::Done);
                let announced = written.next(RingReply::Done);
                &&& looked.pending() == (PushAction::<T>::ExchangeEnqueuePos {
                    current: pos,
                    new: pos.wrapping_add(1),
                    success: MemoryOrder::Acquire,
                    failure: MemoryOrder::Relaxed,
                })
                &&& looked.accepts(RingReply::Exchanged { stored: true })
                &&& looked.accepts(RingReply::Exchanged { stored: false })
                &&& looked.next(RingReply::Exchanged { stored: false }) == begun
                &&& claimed.pending() == (PushAction::WriteValue { index: pos & mask, value })
                &&& claimed.accepts(RingReply::Done)
                &&& written.pending() == (PushAction::<T>::StoreSequence {
                    index: pos & mask,
                    sequence: own.wrapping_add(1),
                    order: MemoryOrder::Release,
                })
                &&& written.accepts(RingReply::Done)
                &&& announced.pending() == (PushAction::<T>::Return { result: Ok(()) })
            }
        }),
{
    let own: usize = if mask == 0 {
        pos.wrapping_add(pos)
    } else {
        pos
    };
    words::lemma_wrapping_add(pos, pos);
    words::lemma_wrapping_add(pos, 1);
    words::lemma_wrapping_add(own, 1);
    words::lemma_wrapping_sub(sequence, own);
    words::lemma_word_of_usize(pos);
    lemma_ready(pos as int, mask);
    words::lemma_word_add(ready(pos as int, mask), 1);
}

/// The accesses of a pop, one by one, whatever it finds: `pos` is the position that it loads and
/// `sequence` the number that it finds in the slot of the position. It claims the position exactly
/// where the number announces an item, gives up exactly where the number is behind that, and
/// otherwise lets others run; where it neither claims the position nor gives up, it starts over from
/// the beginning. Only after a claim does it read, and only after that does it free the slot for the
/// next lap; it returns what it has read.
pub proof fn law_accesses_of_a_pop<T>(mask: usize, pos: usize, sequence: usize, value: T)
    ensures
        ({
            let own: usize = if mask == 0 {
                pos.wrapping_add(pos)
            } else {
                pos
            };
            let ahead = sequence.wrapping_sub(own.wrapping_add(1));
            let begun = PopCall::<T>::start(mask);
            let positioned = begun.next(RingReply::Word { word: pos });
            let looked = positioned.next(RingReply::Word { word: sequence });
            &&& begun.accepts(RingReply::Word { word: pos })
            &&& begun.pending() == (PopAction::<T>::LoadDequeuePos { order: MemoryOrder::Relaxed })
            &&& positioned.accepts(RingReply::Word { word: sequence })
            &&& positioned.pending() == (PopAction::<T>::LoadSequence {
                index: pos & mask,
                order: MemoryOrder::Acquire,
            })
            &&& ahead > isize::MAX ==> looked.pending() == (PopAction::<T>::Return {
                result: Err(TryPopError::Empty),
            })
            &&& 0 < ahead <= isize::MAX ==> {
                &&& looked.pending() == PopAction::<T>::YieldNow
                &&& looked.accepts(RingReply::Done)
                &&& looked.next(RingReply::Done) == begun
            }
            &&& ahead == 0 ==> {
                let claimed = looked.next(RingReply::Exchanged { stored: true });
                let read = claimed.next(RingReply::Value { value });
                let freed = read.next(RingReply::Done);
                &&& looked.pending() == (PopAction::<T>::ExchangeDequeuePos {
                    current: pos,
                    new: pos.wrapping_add(1),
                    success: MemoryOrder::Acquire,
                    failure: MemoryOrder::Relaxed,
                })
                &&& looked.accepts(RingReply::Exchanged { stored: true })
                &&& looked.accepts(RingReply::Exchanged { stored: false })
                &&& looked.next(RingReply::Exchanged { stored: false }) == begun
                &&& claimed.pending() == (PopAction::<T>::ReadValue { index: pos & mask })
                &&& claimed.accepts(RingReply::Value { value })
                &&& read.pending() == (PopAction::<T>::StoreSequence {
                    index: pos & mask,
                    sequence: if mask == 0 {
                        own.wrapping_add(2)
                    } else {
                        pos.wrapping_add(mask).wrapping_add(1)
                    },
                    order: MemoryOrder::Release,
                })
                &&& read.accepts(RingReply::Done)
                &&& freed.pending() == (PopAction::Return { result: Ok(value) })
            }
        }),
{
    let own: usize = if mask == 0 {
        pos.wrapping_add(pos)
    } else {
        pos
    };
    words::lemma_wrapping_add(pos, pos);
    words::lemma_wrapping_add(pos, 1);
    words::lemma_wrapping_add(own, 1);
    words::lemma_wrapping_add(own, 2);
    words::lemma_wrapping_add(pos, mask);
    words::lemma_wrapping_add(pos.wrapping_add(mask), 1);
    words::lemma_wrapping_sub(sequence, own.wrapping_add(1));
    words::lemma_word_of_usize(pos);
    lemma_ready(pos as int, mask);
    lemma_ready(pos + mask + 1, mask);
    words::lemma_word_add(ready(pos as int, mask), 1);
    words::lemma_word_add(ready(pos as int, mask), 2);
    words::lemma_word_add(pos + mask, 1);
}

} // verus!
