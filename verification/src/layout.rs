//! Sizes and offsets of the region that holds a queue.

use crate::words;
use vstd::arithmetic::div_mod::*;
use vstd::arithmetic::power2::*;
use vstd::prelude::*;

verus! {

/// Whether `n` is a power of two; zero is not.
pub fn is_power_of_two(n: usize) -> (result: bool)
    ensures
        result == is_pow2(n as int),
{
    proof {
        reveal(is_pow2);
    }
    if n == 0 {
        return false;
    }
    let mut rest: usize = n;
    while rest % 2 == 0
        invariant
            rest > 0,
            is_pow2(rest as int) == is_pow2(n as int),
        decreases rest,
    {
        proof {
            reveal(is_pow2);
        }
        rest = rest / 2;
    }
    rest == 1
}

/// The least multiple of `align` that is not below `value`.
pub open spec fn aligned_up(value: int, align: int) -> int {
    ((value + align - 1) / align) * align
}

/// Rounds `value` up to a multiple of `align`, a power of two. An `align` of zero leaves the value
/// as it is. For any other `align` the low bits that `align - 1` has set are cleared from
/// `value + align - 1`.
pub fn align_up(value: usize, align: usize) -> (result: usize)
    requires
        value + align <= usize::MAX,
    ensures
        align == 0 ==> result == value,
        align > 0 ==> result == ((value + align - 1) as usize) & !((align - 1) as usize),
        is_pow2(align as int) ==> {
            &&& result == aligned_up(value as int, align as int)
            &&& result % align == 0
            &&& value <= result < value + align
        },
{
    proof {
        reveal(is_pow2);
    }
    if align == 0 {
        value
    } else {
        let sum: usize = value + align - 1;
        let low: usize = align - 1;
        proof {
            if is_pow2(align as int) {
                lemma_clear_low_bits(sum, align);
                lemma_aligned_up(value as int, align as int);
            }
        }
        sum & !low
    }
}

/// Clearing the bits below a power of two subtracts the remainder.
proof fn lemma_clear_low_bits(x: usize, n: usize)
    requires
        is_pow2(n as int),
    ensures
        n > 0,
        x & !((n - 1) as usize) == x - x % n,
{
    words::lemma_mask_is_mod(x, n);
    let low = (n - 1) as usize;
    assert(x & !low == x - (x & low)) by (bit_vector);
}

/// Rounding up gives a multiple, at least the value and less than one alignment above it.
pub proof fn lemma_aligned_up(value: int, align: int)
    requires
        align > 0,
    ensures
        aligned_up(value, align) % align == 0,
        value <= aligned_up(value, align) < value + align,
        aligned_up(value, align) == value + align - 1 - (value + align - 1) % align,
{
    let sum = value + align - 1;
    lemma_fundamental_div_mod(sum, align);
    lemma_mod_multiples_basic(sum / align, align);
    assert((sum / align) * align == align * (sum / align)) by (nonlinear_arith);
}

/// The sizes, in bytes, of what a region is made of.
#[derive(Debug, Clone, Copy, PartialEq, Eq, Structural)]
pub struct RegionSizes {
    pub header_size: usize,
    pub item_size: usize,
    pub slot_size: usize,
    pub slot_align: usize,
}

impl RegionSizes {
    /// Whether these can be the sizes of types: alignments are powers of two, and the header and the
    /// padding after it fit in the address space.
    pub open spec fn valid(self) -> bool {
        &&& is_pow2(self.slot_align as int)
        &&& self.header_size + self.slot_align <= usize::MAX
    }

    /// Where the slots start: behind the header, aligned.
    pub open spec fn slots_offset(self) -> int {
        aligned_up(self.header_size as int, self.slot_align as int)
    }
}

/// Why the slots of a region do not fit in the address space.
#[derive(Debug, Clone, Copy, PartialEq, Eq, Structural)]
pub enum ExtentFault {
    /// The slots alone are too large.
    Slots,
    /// The slots fit, but not behind what comes before them.
    Region,
}

/// The size of a region whose slots start at `slots_offset`.
pub fn region_extent(slots_offset: usize, capacity: usize, slot_size: usize) -> (result: Result<
    usize,
    ExtentFault,
>)
    ensures
        result == Err::<usize, ExtentFault>(ExtentFault::Slots) <==> capacity * slot_size
            > usize::MAX,
        result == Err::<usize, ExtentFault>(ExtentFault::Region) <==> capacity * slot_size
            <= usize::MAX < slots_offset + capacity * slot_size,
        result is Ok <==> capacity * slot_size <= usize::MAX && slots_offset + capacity * slot_size
            <= usize::MAX,
        result matches Ok(total) ==> total == slots_offset + capacity * slot_size,
{
    match capacity.checked_mul(slot_size) {
        None => Err(ExtentFault::Slots),
        Some(slots) => match slots_offset.checked_add(slots) {
            None => Err(ExtentFault::Region),
            Some(total) => Ok(total),
        },
    }
}

/// The slots of a region lie behind the header, inside of the region, aligned, and each of them ends
/// before the next ones start.
pub proof fn law_slots_fit_in_the_region(sizes: RegionSizes, capacity: usize, i: int)
    requires
        sizes.valid(),
        sizes.slot_size % sizes.slot_align == 0,
        0 <= i < capacity,
    ensures
        ({
            let offset = sizes.slots_offset() + i * sizes.slot_size;
            &&& sizes.header_size <= offset
            &&& offset + sizes.slot_size <= sizes.slots_offset() + capacity * sizes.slot_size
            &&& offset % sizes.slot_align as int == 0
            &&& forall|j: int| i < j < capacity ==> offset + sizes.slot_size
                <= sizes.slots_offset() + #[trigger] (j * sizes.slot_size)
        }),
{
    let align = sizes.slot_align as int;
    let size = sizes.slot_size as int;
    reveal(is_pow2);
    lemma_aligned_up(sizes.header_size as int, align);
    assert(0 <= i * size && i * size + size <= capacity * size) by (nonlinear_arith)
        requires
            0 <= i < capacity,
            0 <= size,
    ;
    assert forall|j: int| i < j < capacity implies i * size + size <= #[trigger] (j
        * sizes.slot_size) by {
        assert(i * size + size <= j * size) by (nonlinear_arith)
            requires
                i < j,
                0 <= size,
        ;
    }
    lemma_fundamental_div_mod(size, align);
    let base = sizes.slots_offset();
    assert(i * size == align * (i * (size / align))) by (nonlinear_arith)
        requires
            size == align * (size / align),
    ;
    lemma_mod_multiples_vanish(i * (size / align), base, align);
}

/// The slots start at the first place behind the header that is aligned for them: not inside of the
/// header, at a multiple of the alignment, and less than one alignment behind the header. There is
/// only one such place.
pub proof fn law_slots_start_right_behind_the_header(sizes: RegionSizes, offset: int)
    requires
        is_pow2(sizes.slot_align as int),
        sizes.header_size + sizes.slot_align <= usize::MAX,
    ensures
        sizes.valid(),
        0 <= sizes.slots_offset() <= usize::MAX,
        offset == sizes.slots_offset() <==> {
            &&& sizes.header_size <= offset < sizes.header_size + sizes.slot_align
            &&& offset % sizes.slot_align as int == 0
        },
{
    let align = sizes.slot_align as int;
    let start = sizes.slots_offset();
    reveal(is_pow2);
    lemma_aligned_up(sizes.header_size as int, align);
    if offset % align == 0 && sizes.header_size <= offset < sizes.header_size + align {
        lemma_fundamental_div_mod(offset, align);
        lemma_fundamental_div_mod(start, align);
        let q = offset / align - start / align;
        assert(q == 0) by (nonlinear_arith)
            requires
                offset == align * (offset / align),
                start == align * (start / align),
                q == offset / align - start / align,
                -align < offset - start < align,
                align > 0,
        ;
    }
}

} // verus!
