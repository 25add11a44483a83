//! The early two-ended memory allocator.
//!
//! It serves a memory range from both ends before the real byte and page
//! allocators are ready: bytes are handed out forward from the start, pages
//! backward from the end.
//!
//! ```text
//! [ bytes-used | avail-area | pages-used ]
//! |            | -->    <-- |            |
//! start       b_pos        p_pos       end
//! ```
//!
//! `count` records the number of live byte allocations; when it drops back to
//! zero the whole byte area is released. The page area is never released.

use vstd::prelude::*;
use crate::bits::{
    align_down_spec, align_up_spec, is_power_of_two, lemma_align_down_pow2, lemma_align_up_pow2,
    sat_sub, usize_is_power_of_two, is_multiple_of, lemma_greatest_multiple_below, lemma_align_bounds,
};

verus! {

/// Errors of an allocation request.
#[derive(Debug, Clone, Copy, PartialEq, Eq, Structural)]
pub enum AllocError {
    /// Invalid size or alignment (for example, an unaligned base).
    InvalidParam,
    /// Added memory overlapped memory already managed.
    MemoryOverlap,
    /// Not enough memory left for the request.
    NoMemory,
    /// The memory to release was not allocated.
    NotAllocated,
}

/// The positions an [`EarlyAllocator`] keeps, as seen by its contracts.
pub struct EarlyState {
    pub start: usize,
    pub end: usize,
    pub b_pos: usize,
    pub p_pos: usize,
    pub count: usize,
}

impl EarlyState {
    /// The layout `start <= b_pos <= p_pos <= end`: the used byte area, the
    /// free area and the used page area follow each other in that order.
    pub open spec fn wf(self) -> bool {
        self.start <= self.b_pos <= self.p_pos <= self.end
    }
}

/// Early memory allocator: bytes forward from the start, pages backward from the end.
pub struct EarlyAllocator<const SIZE: usize> {
    start: usize,
    end: usize,
    b_pos: usize,
    p_pos: usize,
    count: usize,
}

impl<const SIZE: usize> View for EarlyAllocator<SIZE> {
    type V = EarlyState;

    closed spec fn view(&self) -> EarlyState {
        EarlyState {
            start: self.start,
            end: self.end,
            b_pos: self.b_pos,
            p_pos: self.p_pos,
            count: self.count,
        }
    }
}

/// Whether a page request of `num_pages` pages aligned to `align_pow2` is
/// well formed for page size `size`: at least one page, a power-of-two
/// alignment that is a multiple of the page size, and a byte size that fits
/// in a `usize`.
pub open spec fn page_request_valid(size: usize, num_pages: usize, align_pow2: usize) -> bool {
    &&& num_pages != 0
    &&& is_power_of_two(align_pow2 as int)
    &&& align_pow2 >= size
    &&& align_pow2 % size == 0
    &&& num_pages * size <= usize::MAX
}

/// Whether `c` is a place for `bytes` bytes aligned to `align` inside the
/// free page window `[lower, upper)`.
pub open spec fn page_slot_fits(c: int, bytes: int, align: int, lower: int, upper: int) -> bool {
    &&& c % align == 0
    &&& lower <= c
    &&& c + bytes <= upper
}

/// `c` is the highest `align`-aligned place for `bytes` bytes that ends at or
/// below `upper`.
pub open spec fn highest_slot(c: int, bytes: int, align: int, upper: int) -> bool {
    &&& c >= 0
    &&& c % align == 0
    &&& c + bytes <= upper
    &&& forall|d: int| 0 <= d && #[trigger] is_multiple_of(d, align) && d + bytes <= upper ==> d <= c
}

/// Where a page request of `bytes` bytes aligned to `align` lands in the
/// free page window `[lower, upper)`: the end of the window less the
/// request, rounded down to the alignment, unless that reaches below the
/// window (or the request does not fit at all), in which case nowhere.
pub open spec fn page_place(bytes: int, align: int, lower: int, upper: int) -> Option<int> {
    if upper - bytes < lower {
        None
    } else {
        let c = (upper - bytes) - (upper - bytes) % align;
        if c < lower {
            None
        } else {
            Some(c)
        }
    }
}

impl<const SIZE: usize> EarlyAllocator<SIZE> {
    /// Every allocator keeps the layout `start <= b_pos <= p_pos <= end`.
    #[verifier::type_invariant]
    closed spec fn layout_kept(self) -> bool {
        self@.wf()
    }

    /// The free page window starts here: `b_pos` rounded up to a page.
    pub open spec fn lower(self) -> usize {
        align_up_spec(self@.b_pos, SIZE)
    }

    /// The free page window ends here: `p_pos` rounded down to a page.
    pub open spec fn upper(self) -> usize {
        align_down_spec(self@.p_pos, SIZE)
    }

    /// An allocator that manages no memory yet.
    pub fn new() -> (r: Self)
        ensures
            r@ == (EarlyState { start: 0, end: 0, b_pos: 0, p_pos: 0, count: 0 }),
            r@.wf(),
    {
        Self { start: 0, end: 0, b_pos: 0, p_pos: 0, count: 0 }
    }

    /// The positions the allocator keeps, for callers that check a request
    /// before making it.
    pub fn state(&self) -> (r: EarlyState)
        ensures
            r == self@,
            r.wf(),
    {
        proof {
            use_type_invariant(self);
        }
        EarlyState {
            start: self.start,
            end: self.end,
            b_pos: self.b_pos,
            p_pos: self.p_pos,
            count: self.count,
        }
    }

    /// Clears the bits of `pos` below `align`; for a power-of-two `align` this
    /// rounds `pos` down to a multiple of `align`.
    pub fn align_down(pos: usize, align: usize) -> (r: usize)
        requires
            align >= 1,
        ensures
            r == align_down_spec(pos, align),
            is_power_of_two(align as int) ==> r == pos - pos % align,
    {
        proof {
            if is_power_of_two(align as int) {
                lemma_align_down_pow2(pos, align);
            }
        }
        pos & !(align - 1)
    }

    /// Rounds `pos` up with a mask; for a power-of-two `align` the result is
    /// the least multiple of `align` that is not below `pos`.
    pub fn align_up(pos: usize, align: usize) -> (r: usize)
        requires
            align >= 1,
            pos + align <= usize::MAX,
        ensures
            r == align_up_spec(pos, align),
            is_power_of_two(align as int) ==> r % align == 0 && pos <= r < pos + align,
    {
        proof {
            if is_power_of_two(align as int) {
                lemma_align_up_pow2(pos, align);
            }
        }
        (pos + align - 1) & !(align - 1)
    }

    /// The lowest address the page area may grow down to: `b_pos` rounded up to a page.
    pub fn page_lower_bound(&self) -> (r: usize)
        requires
            SIZE >= 1,
            self@.b_pos + SIZE <= usize::MAX,
        ensures
            r == align_up_spec(self@.b_pos, SIZE),
    {
        Self::align_up(self.b_pos, SIZE)
    }

    /// The highest page boundary below the page area: `p_pos` rounded down to a page.
    pub fn page_upper_bound(&self) -> (r: usize)
        requires
            SIZE >= 1,
        ensures
            r == align_down_spec(self@.p_pos, SIZE),
    {
        Self::align_down(self.p_pos, SIZE)
    }
}

impl<const SIZE: usize> EarlyAllocator<SIZE> {
    /// Takes over the range `[start, start + size)`: both areas become empty.
    pub fn init(&mut self, start: usize, size: usize)
        requires
            is_power_of_two(SIZE as int),
            start + size <= usize::MAX,
        ensures
            final(self)@ == (EarlyState {
                start: start,
                end: (start + size) as usize,
                b_pos: start,
                p_pos: (start + size) as usize,
                count: 0,
            }),
            final(self)@.wf(),
    {
        *self = Self { start: start, end: start + size, b_pos: start, p_pos: start + size, count: 0 };
    }

    /// Adds the range `[start, start + size)`. An empty range is accepted and
    /// changes nothing; an allocator without memory takes the range over as
    /// [`Self::init`] does; a range that starts exactly at `end` extends the
    /// allocator while no page has been handed out; anything else is refused
    /// with `InvalidParam`.
    pub fn add_memory(&mut self, start: usize, size: usize) -> (r: Result<(), AllocError>)
        requires
            size != 0 && old(self)@.start == old(self)@.end ==> is_power_of_two(SIZE as int)
                && start + size <= usize::MAX,
            size != 0 && old(self)@.start != old(self)@.end && start == old(self)@.end
                && old(self)@.p_pos == old(self)@.end ==> old(self)@.end + size <= usize::MAX,
        ensures
            size == 0 ==> r == Ok::<(), AllocError>(()) && final(self)@ == old(self)@,
            size != 0 && old(self)@.start == old(self)@.end ==> r == Ok::<(), AllocError>(())
                && final(self)@ == (EarlyState {
                start: start,
                end: (start + size) as usize,
                b_pos: start,
                p_pos: (start + size) as usize,
                count: 0,
            }),
            size != 0 && old(self)@.start != old(self)@.end && start == old(self)@.end
                && old(self)@.p_pos == old(self)@.end ==> r == Ok::<(), AllocError>(())
                && final(self)@ == (EarlyState {
                end: (old(self)@.end + size) as usize,
                p_pos: (old(self)@.end + size) as usize,
                ..old(self)@
            }),
            size != 0 && old(self)@.start != old(self)@.end && !(start == old(self)@.end
                && old(self)@.p_pos == old(self)@.end) ==> r == Err::<(), AllocError>(
                AllocError::InvalidParam,
            ) && final(self)@ == old(self)@,
            final(self)@.wf(),
    {
        proof {
            use_type_invariant(&*self);
        }
        if size == 0 {
            return Ok(());
        }
        if self.start == self.end {
            self.init(start, size);
            return Ok(());
        }
        if start == self.end && self.p_pos == self.end {
            self.end = self.end + size;
            self.p_pos = self.end;
            return Ok(());
        }
        Err(AllocError::InvalidParam)
    }

    /// Hands out `size` bytes aligned to `align` (a power of two, as the
    /// alignment of any memory layout is) from the front of the free area.
    /// The block starts at `b_pos` rounded up to `align`; `InvalidParam` when
    /// its end would not fit in a `usize`, `NoMemory` when it would run into
    /// the page area.
    pub fn alloc_bytes(&mut self, size: usize, align: usize) -> (r: Result<usize, AllocError>)
        requires
            is_power_of_two(align as int),
            old(self)@.b_pos + align <= usize::MAX,
            align_up_spec(old(self)@.b_pos, align) + size <= old(self)@.p_pos ==> old(self)@.count
                < usize::MAX,
        ensures
            ({
                let a = align_up_spec(old(self)@.b_pos, align);
                &&& a % align == 0
                &&& old(self)@.b_pos <= a < old(self)@.b_pos + align
                &&& a + size > usize::MAX ==> r == Err::<usize, AllocError>(AllocError::InvalidParam)
                    && final(self)@ == old(self)@
                &&& a + size <= usize::MAX && a + size > old(self)@.p_pos ==> r == Err::<
                    usize,
                    AllocError,
                >(AllocError::NoMemory) && final(self)@ == old(self)@
                &&& a + size <= old(self)@.p_pos ==> r == Ok::<usize, AllocError>(a)
                    && final(self)@ == (EarlyState {
                    b_pos: (a + size) as usize,
                    count: (old(self)@.count + 1) as usize,
                    ..old(self)@
                })
            }),
            final(self)@.wf(),
    {
        proof {
            use_type_invariant(&*self);
        }
        proof {
            lemma_align_up_pow2(self.b_pos, align);
        }
        let start = Self::align_up(self.b_pos, align);
        let end = match start.checked_add(size) {
            Some(e) => e,
            None => return Err(AllocError::InvalidParam),
        };
        if end > self.p_pos {
            return Err(AllocError::NoMemory);
        }
        self.b_pos = end;
        self.count = self.count + 1;
        Ok(start)
    }

    /// Releases one byte allocation. The position and layout are not
    /// consulted: the byte area is released as a whole once the last live
    /// allocation is gone. Nothing happens while no allocation is live.
    pub fn dealloc(&mut self, pos: usize, size: usize, align: usize)
        ensures
            old(self)@.count == 0 ==> final(self)@ == old(self)@,
            old(self)@.count == 1 ==> final(self)@ == (EarlyState {
                b_pos: old(self)@.start,
                count: 0,
                ..old(self)@
            }),
            old(self)@.count > 1 ==> final(self)@ == (EarlyState {
                count: (old(self)@.count - 1) as usize,
                ..old(self)@
            }),
            final(self)@.wf(),
    {
        proof {
            use_type_invariant(&*self);
        }
        if self.count == 0 {
            return;
        }
        self.count = self.count - 1;
        if self.count == 0 {
            self.b_pos = self.start;
        }
    }

    /// Hands out `num_pages` pages aligned to `align_pow2`, taken from the top
    /// of the free page window `[lower, upper)`: the result is the highest
    /// aligned place whose pages end at or below `upper`, provided it does
    /// not reach below `lower`. A malformed request is refused with
    /// `InvalidParam`; a request that no aligned place in the window can hold
    /// is refused with `NoMemory`.
    pub fn alloc_pages(&mut self, num_pages: usize, align_pow2: usize) -> (r: Result<usize, AllocError>)
        requires
            num_pages != 0 && is_power_of_two(align_pow2 as int) ==> SIZE >= 1,
            page_request_valid(SIZE, num_pages, align_pow2) ==> old(self)@.b_pos + SIZE <= usize::MAX
                && old(self).lower() + num_pages * SIZE <= usize::MAX,
        ensures
            !page_request_valid(SIZE, num_pages, align_pow2) ==> r == Err::<usize, AllocError>(
                AllocError::InvalidParam,
            ) && final(self)@ == old(self)@,
            page_request_valid(SIZE, num_pages, align_pow2) ==> (r is Ok <==> exists|c: int|
                #[trigger] page_slot_fits(
                    c,
                    num_pages * SIZE,
                    align_pow2 as int,
                    old(self).lower() as int,
                    old(self).upper() as int,
                )),
            page_request_valid(SIZE, num_pages, align_pow2) && r is Err ==> r == Err::<
                usize,
                AllocError,
            >(AllocError::NoMemory) && final(self)@ == old(self)@,
            r is Ok ==> highest_slot(
                r->Ok_0 as int,
                num_pages * SIZE,
                align_pow2 as int,
                old(self).upper() as int,
            ),
            r is Ok ==> old(self).lower() <= r->Ok_0,
            r is Ok ==> final(self)@ == (EarlyState { p_pos: r->Ok_0, ..old(self)@ }),
            page_request_valid(SIZE, num_pages, align_pow2) ==> match page_place(
                num_pages * SIZE,
                align_pow2 as int,
                old(self).lower() as int,
                old(self).upper() as int,
            ) {
                Some(c) => r == Ok::<usize, AllocError>(c as usize),
                None => r == Err::<usize, AllocError>(AllocError::NoMemory),
            },
            final(self)@.wf(),
    {
        proof {
            use_type_invariant(&*self);
        }
        if num_pages == 0 || !usize_is_power_of_two(align_pow2) || align_pow2 < SIZE || align_pow2
            % SIZE != 0 {
            return Err(AllocError::InvalidParam);
        }
        let size = match num_pages.checked_mul(SIZE) {
            Some(s) => s,
            None => return Err(AllocError::InvalidParam),
        };
        let lower = self.page_lower_bound();
        let upper = self.page_upper_bound();
        proof {
            lemma_align_bounds(self.b_pos, SIZE);
            lemma_align_bounds(self.p_pos, SIZE);
        }
        if upper < lower + size {
            assert forall|c: int| !page_slot_fits(c, size as int, align_pow2 as int, lower as int, upper as int) by {}
            return Err(AllocError::NoMemory);
        }
        let candidate = Self::align_down(upper - size, align_pow2);
        proof {
            lemma_align_down_pow2((upper - size) as usize, align_pow2);
            assert forall|d: int| 0 <= d && #[trigger] is_multiple_of(d, align_pow2 as int) && d + size <= upper
                implies d <= candidate by {
                lemma_greatest_multiple_below((upper - size) as int, align_pow2 as int, d);
            }
        }
        if candidate < lower {
            assert forall|c: int| !page_slot_fits(c, size as int, align_pow2 as int, lower as int, upper as int) by {
                if page_slot_fits(c, size as int, align_pow2 as int, lower as int, upper as int) {
                    assert(is_multiple_of(c, align_pow2 as int));
                }
            }
            return Err(AllocError::NoMemory);
        }
        assert(page_slot_fits(candidate as int, size as int, align_pow2 as int, lower as int, upper as int));
        assert(is_multiple_of(candidate as int, align_pow2 as int));
        assert(highest_slot(candidate as int, (num_pages * SIZE) as int, align_pow2 as int, upper as int));
        assert(page_slot_fits(
            candidate as int,
            num_pages * SIZE,
            align_pow2 as int,
            self.lower() as int,
            self.upper() as int,
        ));
        self.p_pos = candidate;
        Ok(candidate)
    }

    /// Hands out `num_pages` pages aligned to `align_pow2` at exactly `base`.
    /// The request is malformed (`InvalidParam`) as for [`Self::alloc_pages`]
    /// and also when `base` is not aligned; it succeeds only where `base` is
    /// the very place [`Self::alloc_pages`] would choose, otherwise it is
    /// refused with `NoMemory`.
    pub fn alloc_pages_at(&mut self, base: usize, num_pages: usize, align_pow2: usize) -> (r: Result<
        usize,
        AllocError,
    >)
        requires
            num_pages != 0 && is_power_of_two(align_pow2 as int) ==> SIZE >= 1,
            page_request_valid(SIZE, num_pages, align_pow2) && base % align_pow2 == 0 ==> old(
                self,
            )@.b_pos + SIZE <= usize::MAX,
        ensures
            !(page_request_valid(SIZE, num_pages, align_pow2) && base % align_pow2 == 0) ==> r == Err::<
                usize,
                AllocError,
            >(AllocError::InvalidParam) && final(self)@ == old(self)@,
            page_request_valid(SIZE, num_pages, align_pow2) && base % align_pow2 == 0 ==> ({
                let bytes = num_pages * SIZE;
                let lower = old(self).lower() as int;
                let upper = old(self).upper() as int;
                &&& (r is Ok <==> highest_slot(base as int, bytes, align_pow2 as int, upper) && lower
                    <= base)
                &&& r is Err ==> r == Err::<usize, AllocError>(AllocError::NoMemory) && final(self)@
                    == old(self)@
                &&& r is Ok ==> r == Ok::<usize, AllocError>(base) && final(self)@ == (EarlyState {
                    p_pos: base,
                    ..old(self)@
                })
            }),
            final(self)@.wf(),
    {
        proof {
            use_type_invariant(&*self);
        }
        if num_pages == 0 || !usize_is_power_of_two(align_pow2) || align_pow2 < SIZE || align_pow2
            % SIZE != 0 || base % align_pow2 != 0 {
            return Err(AllocError::InvalidParam);
        }
        let size = match num_pages.checked_mul(SIZE) {
            Some(s) => s,
            None => return Err(AllocError::InvalidParam),
        };
        let lower = self.page_lower_bound();
        let upper = self.page_upper_bound();
        proof {
            lemma_align_bounds(self.b_pos, SIZE);
            lemma_align_bounds(self.p_pos, SIZE);
        }
        let room = match upper.checked_sub(size) {
            Some(v) => v,
            None => return Err(AllocError::NoMemory),
        };
        let candidate = Self::align_down(room, align_pow2);
        proof {
            lemma_align_down_pow2(room, align_pow2);
            assert forall|d: int| 0 <= d && #[trigger] is_multiple_of(d, align_pow2 as int) && d + size <= upper
                implies d <= candidate by {
                lemma_greatest_multiple_below(room as int, align_pow2 as int, d);
            }
            assert(is_multiple_of(candidate as int, align_pow2 as int));
            assert(highest_slot(candidate as int, size as int, align_pow2 as int, upper as int));
            assert(is_multiple_of(base as int, align_pow2 as int));
        }
        if base != candidate || base < lower {
            return Err(AllocError::NoMemory);
        }
        self.p_pos = base;
        Ok(base)
    }

    /// Pages are never given back: releasing them changes nothing.
    pub fn dealloc_pages(&mut self, pos: usize, num_pages: usize)
        ensures
            final(self)@ == old(self)@,
            final(self)@.wf(),
    {
        proof {
            use_type_invariant(&*self);
        }
    }

    /// Whole pages between the start and the end.
    pub fn total_pages(&self) -> (r: usize)
        requires
            SIZE >= 1,
            self@.start + SIZE <= usize::MAX,
        ensures
            r == sat_sub(align_down_spec(self@.end, SIZE), align_up_spec(self@.start, SIZE)) / SIZE,
    {
        Self::align_down(self.end, SIZE).saturating_sub(Self::align_up(self.start, SIZE)) / SIZE
    }

    /// Whole pages of the page area.
    pub fn used_pages(&self) -> (r: usize)
        requires
            SIZE >= 1,
        ensures
            r == sat_sub(align_down_spec(self@.end, SIZE), align_down_spec(self@.p_pos, SIZE))
                / SIZE,
    {
        Self::align_down(self.end, SIZE).saturating_sub(Self::align_down(self.p_pos, SIZE)) / SIZE
    }

    /// Whole pages of the free page window.
    pub fn available_pages(&self) -> (r: usize)
        requires
            SIZE >= 1,
            self@.b_pos + SIZE <= usize::MAX,
        ensures
            r == sat_sub(self.upper(), self.lower()) / SIZE,
    {
        self.page_upper_bound().saturating_sub(self.page_lower_bound()) / SIZE
    }

    /// Bytes between the start and the page area.
    pub fn total_bytes(&self) -> (r: usize)
        ensures
            r == sat_sub(self@.p_pos, self@.start),
            self@.wf(),
    {
        proof {
            use_type_invariant(self);
        }
        self.p_pos.saturating_sub(self.start)
    }

    /// Bytes of the byte area.
    pub fn used_bytes(&self) -> (r: usize)
        ensures
            r == sat_sub(self@.b_pos, self@.start),
            self@.wf(),
    {
        proof {
            use_type_invariant(self);
        }
        self.b_pos.saturating_sub(self.start)
    }

    /// Bytes of the free area.
    pub fn available_bytes(&self) -> (r: usize)
        ensures
            r == sat_sub(self@.p_pos, self@.b_pos),
            self@.wf(),
    {
        proof {
            use_type_invariant(self);
        }
        self.p_pos.saturating_sub(self.b_pos)
    }
}

/// For a power-of-two page size the free page window is `b_pos` rounded up
/// and `p_pos` rounded down to whole pages, in plain arithmetic.
pub proof fn lemma_window_in_pages<const SIZE: usize>(a: &EarlyAllocator<SIZE>)
    requires
        is_power_of_two(SIZE as int),
        a@.b_pos + SIZE <= usize::MAX,
    ensures
        a.upper() == a@.p_pos - a@.p_pos % SIZE,
        a@.b_pos % SIZE == 0 ==> a.lower() == a@.b_pos,
        a@.b_pos % SIZE != 0 ==> a.lower() == a@.b_pos - a@.b_pos % SIZE + SIZE,
{
    lemma_align_down_pow2(a@.p_pos, SIZE);
    lemma_align_up_pow2(a@.b_pos, SIZE);
    let xu = (a@.b_pos + SIZE - 1) as usize;
    lemma_align_down_pow2(xu, SIZE);
    let x = xu as int;
    assert(SIZE > 0) by {
        let k = choose|k: nat| vstd::arithmetic::power2::pow2(k) == SIZE as int;
        vstd::arithmetic::power2::lemma_pow2_pos(k);
    }
    let b = a@.b_pos as int;
    let z = SIZE as int;
    assert(x - x % z == b - b % z + (if b % z == 0 { 0 } else { z })) by {
        vstd::arithmetic::div_mod::lemma_fundamental_div_mod(b, z);
        let q = b / z;
        let r = b % z;
        if r == 0 {
            assert(x == q * z + (z - 1));
            vstd::arithmetic::div_mod::lemma_fundamental_div_mod_converse(x, z, q, z - 1);
        } else {
            assert(x == (q + 1) * z + (r - 1)) by (nonlinear_arith)
                requires
                    x == b + z - 1,
                    b == z * q + r,
            ;
            vstd::arithmetic::div_mod::lemma_fundamental_div_mod_converse(x, z, q + 1, r - 1);
        }
    }
}

/// `[pos, pos + len)` lies in the used byte area of `s`.
pub open spec fn in_byte_area(s: EarlyState, pos: int, len: int) -> bool {
    s.start <= pos && 0 <= len && pos + len <= s.b_pos
}

/// `[pos, pos + len)` lies in the used page area of `s`.
pub open spec fn in_page_area(s: EarlyState, pos: int, len: int) -> bool {
    s.p_pos <= pos && 0 <= len && pos + len <= s.end
}

/// `[pos, pos + len)` is a live allocation of `s`: a byte block handed out
/// since the byte area was last released, or a page block.
pub open spec fn live_block(s: EarlyState, pos: int, len: int) -> bool {
    in_byte_area(s, pos, len) || in_page_area(s, pos, len)
}

/// Two blocks do not overlap.
pub open spec fn disjoint(p1: int, l1: int, p2: int, l2: int) -> bool {
    p1 + l1 <= p2 || p2 + l2 <= p1
}

/// Live allocations never overlap. In a well-formed state a byte block and
/// a page block are disjoint. A successful byte or page allocation from `s1`
/// to `s2` (as [`EarlyAllocator::alloc_bytes`] and
/// [`EarlyAllocator::alloc_pages`] describe it) keeps every block live in
/// `s1` live in `s2`, makes the new block live, and the new block overlaps
/// none of the blocks live before. So over any sequence of calls the blocks
/// handed out and still live are pairwise disjoint.
pub proof fn lemma_live_blocks_disjoint(
    s1: EarlyState,
    s2: EarlyState,
    new_pos: int,
    new_len: int,
    pos: int,
    len: int,
)
    requires
        s1.wf(),
        s2.wf(),
    ensures
        in_byte_area(s1, pos, len) && in_page_area(s1, new_pos, new_len) ==> disjoint(
            pos,
            len,
            new_pos,
            new_len,
        ),
        ({
            &&& s2.start == s1.start && s2.end == s1.end && s2.p_pos == s1.p_pos
            &&& s2.b_pos == new_pos + new_len
            &&& s1.b_pos <= new_pos
            &&& 0 <= new_len
        }) ==> live_block(s2, new_pos, new_len) && (live_block(s1, pos, len) ==> live_block(
            s2,
            pos,
            len,
        ) && disjoint(pos, len, new_pos, new_len)),
        ({
            &&& s2.start == s1.start && s2.end == s1.end && s2.b_pos == s1.b_pos
            &&& s2.p_pos == new_pos
            &&& new_pos + new_len <= s1.p_pos
            &&& 0 <= new_len
        }) ==> live_block(s2, new_pos, new_len) && (live_block(s1, pos, len) ==> live_block(
            s2,
            pos,
            len,
        ) && disjoint(pos, len, new_pos, new_len)),
{
}

/// Within a well-formed allocator the bytes up to the page area split into
/// the used byte area and the free area.
pub proof fn lemma_bytes_partition<const SIZE: usize>(a: &EarlyAllocator<SIZE>)
    requires
        a@.wf(),
    ensures
        sat_sub(a@.p_pos, a@.start) == sat_sub(a@.b_pos, a@.start) + sat_sub(a@.p_pos, a@.b_pos),
{
}

/// Pages placed in the free page window lie above every byte handed out and
/// below the pages handed out before: the two ends never overlap.
pub proof fn lemma_pages_clear_of_bytes<const SIZE: usize>(
    a: &EarlyAllocator<SIZE>,
    num_pages: usize,
    align_pow2: usize,
    c: int,
)
    requires
        SIZE >= 1,
        a@.b_pos + SIZE <= usize::MAX,
        page_slot_fits(c, num_pages * SIZE, align_pow2 as int, a.lower() as int, a.upper() as int),
    ensures
        a@.b_pos <= c,
        c + num_pages * SIZE <= a@.p_pos,
{
    lemma_align_bounds(a@.b_pos, SIZE);
    lemma_align_bounds(a@.p_pos, SIZE);
}

/// Placing pages at a fixed base agrees with placing them anywhere: for a
/// well-formed request, `alloc_pages_at(base, ..)` accepts exactly the base
/// that `alloc_pages(..)` would choose (its [`page_place`]), since the
/// highest aligned slot is unique, and an accepted base is a place that fits
/// in the window. Both then leave the same state, with the page area
/// starting at `base`.
pub proof fn lemma_pages_at_matches_pages<const SIZE: usize>(
    a: &EarlyAllocator<SIZE>,
    num_pages: usize,
    align_pow2: usize,
    base: int,
)
    requires
        page_request_valid(SIZE, num_pages, align_pow2),
    ensures
        forall|c: int|
            #[trigger] highest_slot(c, num_pages * SIZE, align_pow2 as int, a.upper() as int) ==> (
            highest_slot(base, num_pages * SIZE, align_pow2 as int, a.upper() as int) <==> c == base),
        highest_slot(base, num_pages * SIZE, align_pow2 as int, a.upper() as int) && a.lower() <= base
            ==> page_slot_fits(
            base,
            num_pages * SIZE,
            align_pow2 as int,
            a.lower() as int,
            a.upper() as int,
        ),
        base >= 0 ==> ((highest_slot(base, num_pages * SIZE, align_pow2 as int, a.upper() as int)
            && a.lower() <= base) <==> page_place(
            num_pages * SIZE,
            align_pow2 as int,
            a.lower() as int,
            a.upper() as int,
        ) == Some(base)),
{
    let bytes = num_pages * SIZE;
    let al = align_pow2 as int;
    let up = a.upper() as int;
    let lo = a.lower() as int;
    assert(al > 0) by {
        let k = choose|k: nat| vstd::arithmetic::power2::pow2(k) == al;
        vstd::arithmetic::power2::lemma_pow2_pos(k);
    }
    if base >= 0 && up - bytes >= lo && up - bytes >= 0 {
        let x = up - bytes;
        let c = x - x % al;
        assert(c % al == 0) by {
            vstd::arithmetic::div_mod::lemma_fundamental_div_mod(x, al);
            vstd::arithmetic::div_mod::lemma_mod_multiples_basic(x / al, al);
            vstd::arithmetic::mul::lemma_mul_is_commutative(x / al, al);
        }
        assert(0 <= x % al < al) by {
            vstd::arithmetic::div_mod::lemma_mod_bound(x, al);
        }
        if highest_slot(base, bytes, al, up) {
            lemma_greatest_multiple_below(x, al, base);
            if c >= 0 {
                assert(is_multiple_of(c, al));
            }
        }
        if page_place(bytes, al, lo, up) == Some(base) {
            assert forall|d: int| 0 <= d && #[trigger] is_multiple_of(d, al) && d + bytes <= up implies d
                <= base by {
                lemma_greatest_multiple_below(x, al, d);
            }
        }
    }
    assert forall|c: int| #[trigger] highest_slot(c, bytes, al, up) implies (highest_slot(base, bytes, al, up)
        <==> c == base) by {
        if highest_slot(base, bytes, al, up) {
            assert(is_multiple_of(c, al));
            assert(is_multiple_of(base, al));
        }
    }
}

} // verus!
