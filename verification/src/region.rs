//! The contents of a shared region, and what it means that a region holds a queue.

use crate::protocol;
use crate::words;
use vstd::arithmetic::div_mod::*;
use vstd::arithmetic::power2::*;
use vstd::prelude::*;

verus! {

/// The words at the start of a region.
#[derive(Debug, Clone, Copy, PartialEq, Eq, Structural)]
pub struct ShmHeader {
    /// The size of an item in bytes.
    pub item_size: usize,
    /// The size of a slot in bytes.
    pub slot_size: usize,
    /// Where the slots start, in bytes from the start of the region.
    pub slots_offset: usize,
    /// The number of slots.
    pub capacity: usize,
    /// One less than the number of slots.
    pub mask: usize,
    /// The position of the next push.
    pub enqueue_pos: usize,
    /// The position of the next pop.
    pub dequeue_pos: usize,
}

/// One slot of a region: its sequence number, and the item that was last written to it.
#[derive(Debug, PartialEq, Eq)]
pub struct Slot<T> {
    pub sequence: usize,
    pub value: Option<T>,
}

/// The slot of a position.
pub open spec fn slot_at<T>(slots: Seq<Slot<T>>, pos: int, mask: usize) -> Slot<T> {
    slots[pos % (mask + 1)]
}

/// Whether there are `mask + 1` slots, a power of two.
pub open spec fn well_shaped<T>(slots: Seq<Slot<T>>, mask: usize) -> bool {
    &&& mask < usize::MAX
    &&& is_pow2(mask + 1)
    &&& slots.len() == mask + 1
}

/// Whether the slots hold `items` in the positions from `start` on, each announced by its sequence
/// number, and are free for the positions after those.
pub open spec fn holds<T>(slots: Seq<Slot<T>>, mask: usize, start: int, items: Seq<T>) -> bool {
    &&& well_shaped(slots, mask)
    &&& items.len() <= mask + 1
    &&& forall|pos: int| #![trigger slot_at(slots, pos, mask)]
        start <= pos < start + items.len() ==> {
            &&& slot_at(slots, pos, mask).sequence == words::word(protocol::ready(pos, mask) + 1)
            &&& slot_at(slots, pos, mask).value == Some(items[pos - start])
        }
    &&& forall|pos: int| #![trigger slot_at(slots, pos, mask)]
        start + items.len() <= pos < start + mask + 1 ==> slot_at(slots, pos, mask).sequence
            == words::word(protocol::ready(pos, mask))
}

/// The items that lie between the two positions, oldest first.
pub open spec fn items_between<T>(
    slots: Seq<Slot<T>>,
    mask: usize,
    dequeue_pos: usize,
    enqueue_pos: usize,
) -> Seq<T> {
    Seq::new(
        words::word(enqueue_pos - dequeue_pos) as nat,
        |i: int| slot_at(slots, dequeue_pos + i, mask).value->0,
    )
}

/// The word of a position names the slot of the position.
pub proof fn lemma_slot_index(pos: int, mask: usize)
    requires
        mask < usize::MAX,
        is_pow2(mask + 1),
    ensures
        protocol::slot_index(words::word(pos), mask) as int == pos % (mask + 1),
        0 <= pos % (mask + 1) < mask + 1,
{
    let capacity = (mask + 1) as usize;
    words::lemma_mask_is_mod(words::word(pos), capacity);
    words::lemma_word_mod(pos, capacity);
    lemma_mod_bound(pos, mask + 1);
}

/// The sequence numbers of a position can be taken from its word.
pub proof fn lemma_ready_word(pos: int, mask: usize)
    ensures
        words::word(protocol::ready(words::word(pos) as int, mask)) == words::word(
            protocol::ready(pos, mask),
        ),
        words::word(protocol::ready(words::word(pos) as int, mask) + 1) == words::word(
            protocol::ready(pos, mask) + 1,
        ),
        words::word(protocol::ready(words::word(pos) + mask + 1, mask)) == words::word(
            protocol::ready(pos + mask + 1, mask),
        ),
{
    let k = protocol::stride(mask);
    let w = words::word(pos) as int;
    words::lemma_word_mul(k, pos);
    words::lemma_word_add(k * w, 1);
    words::lemma_word_add(k * pos, 1);
    words::lemma_word_add(k * w, k * (mask + 1));
    words::lemma_word_add(k * pos, k * (mask + 1));
    assert(k * (w + mask + 1) == k * w + k * (mask + 1)) by (nonlinear_arith);
    assert(k * (pos + mask + 1) == k * pos + k * (mask + 1)) by (nonlinear_arith);
}

/// Two positions less than a lap apart have different slots, unless they are equal.
pub proof fn lemma_slots_distinct(a: int, b: int, capacity: int)
    requires
        capacity > 0,
        a % capacity == b % capacity,
        -capacity < a - b < capacity,
    ensures
        a == b,
{
    lemma_fundamental_div_mod(a, capacity);
    lemma_fundamental_div_mod(b, capacity);
    let q = a / capacity - b / capacity;
    assert(a - b == capacity * q) by (nonlinear_arith)
        requires
            a == capacity * (a / capacity) + a % capacity,
            b == capacity * (b / capacity) + b % capacity,
            a % capacity == b % capacity,
            q == a / capacity - b / capacity,
    ;
    assert(q == 0) by (nonlinear_arith)
        requires
            a - b == capacity * q,
            -capacity < a - b < capacity,
            capacity > 0,
    ;
}

/// What a region holds can be told from the word of the start position.
pub proof fn lemma_rebase<T>(slots: Seq<Slot<T>>, mask: usize, start: int, items: Seq<T>)
    requires
        well_shaped(slots, mask),
    ensures
        holds(slots, mask, start, items) <==> holds(
            slots,
            mask,
            words::word(start) as int,
            items,
        ),
{
    let base = words::word(start) as int;
    if holds(slots, mask, start, items) {
        assert forall|pos: int| #![trigger slot_at(slots, pos, mask)]
            base <= pos < base + mask + 1 implies {
            &&& pos < base + items.len() ==> slot_at(slots, pos, mask).sequence == words::word(
                protocol::ready(pos, mask) + 1,
            ) && slot_at(slots, pos, mask).value == Some(items[pos - base])
            &&& base + items.len() <= pos ==> slot_at(slots, pos, mask).sequence == words::word(
                protocol::ready(pos, mask),
            )
        } by {
            lemma_position_shift(start, pos - base, mask);
            assert(slot_at(slots, start + (pos - base), mask) == slot_at(slots, pos, mask));
        }
    }
    if holds(slots, mask, base, items) {
        assert forall|pos: int| #![trigger slot_at(slots, pos, mask)]
            start <= pos < start + mask + 1 implies {
            &&& pos < start + items.len() ==> slot_at(slots, pos, mask).sequence == words::word(
                protocol::ready(pos, mask) + 1,
            ) && slot_at(slots, pos, mask).value == Some(items[pos - start])
            &&& start + items.len() <= pos ==> slot_at(slots, pos, mask).sequence == words::word(
                protocol::ready(pos, mask),
            )
        } by {
            lemma_position_shift(start, pos - start, mask);
            assert(slot_at(slots, base + (pos - start), mask) == slot_at(slots, pos, mask));
        }
    }
}

/// A position counted from the word of the start has the slot and the sequence numbers of the one
/// counted from the start itself.
proof fn lemma_position_shift(start: int, i: int, mask: usize)
    requires
        mask < usize::MAX,
        is_pow2(mask + 1),
    ensures
        (words::word(start) + i) % (mask + 1) == (start + i) % (mask + 1),
        words::word(protocol::ready(words::word(start) + i, mask)) == words::word(
            protocol::ready(start + i, mask),
        ),
        words::word(protocol::ready(words::word(start) + i, mask) + 1) == words::word(
            protocol::ready(start + i, mask) + 1,
        ),
{
    let capacity = (mask + 1) as usize;
    words::lemma_word_add(start, i);
    words::lemma_word_mod(words::word(start) + i, capacity);
    words::lemma_word_mod(start + i, capacity);
    lemma_ready_word(words::word(start) + i, mask);
    lemma_ready_word(start + i, mask);
}

/// What lies between the two positions of a region that holds `items`.
pub proof fn lemma_items_between<T>(
    slots: Seq<Slot<T>>,
    mask: usize,
    dequeue_pos: usize,
    enqueue_pos: usize,
    items: Seq<T>,
)
    requires
        holds(slots, mask, dequeue_pos as int, items),
        enqueue_pos == words::word(dequeue_pos + items.len()),
    ensures
        items_between(slots, mask, dequeue_pos, enqueue_pos) == items,
{
    let start = dequeue_pos as int;
    let between = items_between(slots, mask, dequeue_pos, enqueue_pos);
    words::lemma_word_add(start + items.len(), -start);
    words::lemma_word_small(items.len() as int);
    assert forall|i: int| 0 <= i < items.len() implies between[i] == items[i] by {
        assert(slot_at(slots, start + i, mask).value == Some(items[i]));
    }
    assert(between =~= items);
}

} // verus!
