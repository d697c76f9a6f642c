//! The early allocator: byte and page allocation out of one contiguous range,
//! for use before the regular allocators can work.

use crate::align::{
    lemma_align_down, lemma_align_up, lemma_align_up_overflow, lemma_mask_rounds_down,
};
use crate::model::{law_page_run_is_placed, Arena, Op};
use vstd::arithmetic::power2::is_pow2;
use vstd::prelude::*;

verus! {

/// Why a request was turned down.
#[derive(Clone, Copy, Debug, PartialEq, Eq, Structural)]
pub enum AllocError {
    /// The request would make the byte zone and the page zone cross, or its
    /// extent does not fit in the address space.
    NoMemory,
    /// The arena does not offer the operation.
    Unsupported,
}

/// A double-ended bump allocator over one contiguous range.
///
/// Bytes are handed out upward from the low end and pages downward from the
/// high end. The byte zone is given back as a whole when its last allocation
/// is released; pages are never given back. `SIZE` is the page size in bytes.
///
/// The arena holds no lock. Every operation that changes it takes it by
/// `&mut`, so callers that share one arena have to put it behind a lock of
/// their own.
pub struct EarlyAllocator<const SIZE: usize> {
    start: usize,
    end: usize,
    byte_pos: usize,
    page_pos: usize,
    alloc_count: usize,
}

impl<const SIZE: usize> View for EarlyAllocator<SIZE> {
    type V = Arena;

    closed spec fn view(&self) -> Arena {
        Arena {
            start: self.start as int,
            end: self.end as int,
            byte_pos: self.byte_pos as int,
            page_pos: self.page_pos as int,
            live: self.alloc_count as nat,
        }
    }
}

impl<const SIZE: usize> EarlyAllocator<SIZE> {
    /// Holds of every arena at all times: the cursors are in order.
    #[verifier::type_invariant]
    spec fn inv(self) -> bool {
        self@.wf()
    }

    /// The size of a page in bytes.
    pub fn page_size() -> (n: usize)
        ensures
            n == SIZE,
    {
        SIZE
    }

    /// An arena over the empty range at address zero. Call [`Self::init`]
    /// before use.
    pub fn new() -> (arena: Self)
        ensures
            arena@ == Arena::fresh(0, 0),
            arena@.wf(),
    {
        Self { start: 0, end: 0, byte_pos: 0, page_pos: 0, alloc_count: 0 }
    }

    /// Takes over the range `[start, start + size)`, with nothing allocated.
    ///
    /// Whatever the arena held before is forgotten, so it must not be called
    /// while allocations made from the arena are still in use.
    pub fn init(&mut self, start: usize, size: usize)
        requires
            start + size <= usize::MAX,
        ensures
            final(self)@ == Arena::fresh(start as int, size as int),
            final(self)@.wf(),
    {
        let end: usize = start + size;
        *self = Self { start, end, byte_pos: start, page_pos: end, alloc_count: 0 };
    }

    /// Growing the arena by a further range is not offered: always fails with
    /// `Unsupported` and changes nothing.
    pub fn add_memory(&mut self, start: usize, size: usize) -> (res: Result<(), AllocError>)
        ensures
            res == Err::<(), AllocError>(AllocError::Unsupported),
            final(self)@ == old(self)@,
    {
        Err(AllocError::Unsupported)
    }

    /// Allocates `size` bytes at the lowest multiple of `align` at or above
    /// the byte cursor, and counts the allocation as live. The bytes are
    /// handed out as they are, not zeroed.
    ///
    /// Fails with `NoMemory`, changing nothing, if the allocation would end
    /// above the page cursor, which it does if its end does not fit in the
    /// address space.
    pub fn alloc_bytes(&mut self, size: usize, align: usize) -> (res: Result<usize, AllocError>)
        requires
            is_pow2(align as int),
            old(self)@.live < usize::MAX,
        ensures
            final(self)@.wf(),
            (match res {
                Ok(addr) => {
                    &&& old(self)@.bytes_fit(size as int, align as int)
                    &&& addr == old(self)@.byte_base(align as int)
                    &&& final(self)@ == old(self)@.with_bytes(size as int, align as int)
                    &&& addr as int % align as int == 0
                    &&& old(self)@.start <= old(self)@.byte_pos <= addr
                    &&& addr + size <= old(self)@.page_pos
                },
                Err(error) => {
                    &&& !old(self)@.bytes_fit(size as int, align as int)
                    &&& error == AllocError::NoMemory
                    &&& final(self)@ == old(self)@
                },
            }),
            final(self)@ == old(self)@.step(
                (Op::Alloc { size: size as int, align: align as int }),
                SIZE as int,
            ),
    {
        proof {
            use_type_invariant(&*self);
            lemma_align_up_overflow(self.byte_pos, align);
            lemma_align_up(self.byte_pos as int, align as int);
        }
        let mask: usize = align - 1;
        let bumped: usize = match self.byte_pos.checked_add(mask) {
            Some(bumped) => bumped,
            None => {
                return Err(AllocError::NoMemory);
            },
        };
        let aligned: usize = bumped & !mask;
        proof {
            lemma_mask_rounds_down(bumped, align);
        }
        let top: usize = match aligned.checked_add(size) {
            Some(top) => top,
            None => {
                return Err(AllocError::NoMemory);
            },
        };
        if top > self.page_pos {
            return Err(AllocError::NoMemory);
        }
        self.alloc_count += 1;
        self.byte_pos = top;
        Ok(aligned)
    }

    /// Releases one byte allocation.
    ///
    /// The arena keeps no record of single allocations, so `pos`, `size` and
    /// `align` are not looked at: the count of live allocations goes down by
    /// one, stopping at zero, and when it reaches zero the whole byte zone is
    /// given back at once.
    pub fn dealloc_bytes(&mut self, pos: usize, size: usize, align: usize)
        ensures
            final(self)@.wf(),
            final(self)@ == old(self)@.released(),
            final(self)@ == old(self)@.step(
                (Op::Dealloc { addr: pos as int, size: size as int, align: align as int }),
                SIZE as int,
            ),
    {
        proof {
            use_type_invariant(&*self);
        }
        if self.alloc_count > 1 {
            self.alloc_count -= 1;
        } else {
            self.byte_pos = self.start;
            self.alloc_count = 0;
        }
    }

    /// Byte allocations that have not been released yet.
    pub fn live_allocations(&self) -> (n: usize)
        ensures
            n == self@.live,
    {
        self.alloc_count
    }

    /// Bytes that the byte zone can grow to: from the start of the range to
    /// the page cursor.
    pub fn total_bytes(&self) -> (n: usize)
        ensures
            n == self@.total_bytes(),
    {
        proof {
            use_type_invariant(self);
        }
        self.page_pos - self.start
    }

    /// Bytes between the start of the range and the byte cursor.
    pub fn used_bytes(&self) -> (n: usize)
        ensures
            n == self@.used_bytes(),
    {
        proof {
            use_type_invariant(self);
        }
        self.byte_pos - self.start
    }

    /// Bytes between the two cursors.
    pub fn available_bytes(&self) -> (n: usize)
        ensures
            n == self@.available_bytes(),
    {
        proof {
            use_type_invariant(self);
        }
        self.page_pos - self.byte_pos
    }

    /// Allocates `num_pages` pages that end at the highest multiple of
    /// `align_pow2` at or below the page cursor, and returns their base, which
    /// is the new page cursor.
    ///
    /// The base is a multiple of `align_pow2` where the extent of the run is
    /// one, and a multiple of the page size where `align_pow2` is one.
    ///
    /// Fails with `NoMemory`, changing nothing, if the run would start below
    /// the byte cursor.
    pub fn alloc_pages(&mut self, num_pages: usize, align_pow2: usize) -> (res: Result<
        usize,
        AllocError,
    >)
        requires
            is_pow2(align_pow2 as int),
        ensures
            final(self)@.wf(),
            (match res {
                Ok(base) => {
                    &&& old(self)@.pages_fit(num_pages as int, align_pow2 as int, SIZE as int)
                    &&& base == old(self)@.page_base(
                        num_pages as int,
                        align_pow2 as int,
                        SIZE as int,
                    )
                    &&& final(self)@ == old(self)@.with_pages(
                        num_pages as int,
                        align_pow2 as int,
                        SIZE as int,
                    )
                    &&& old(self)@.byte_pos <= base
                    &&& base + num_pages * SIZE <= old(self)@.page_pos
                    &&& (base + num_pages * SIZE) % (align_pow2 as int) == 0
                    &&& (num_pages * SIZE) % (align_pow2 as int) == 0 ==> base as int % (
                    align_pow2 as int) == 0
                    &&& SIZE > 0 && align_pow2 as int % SIZE as int == 0 ==> base as int
                        % SIZE as int == 0
                },
                Err(error) => {
                    &&& !old(self)@.pages_fit(num_pages as int, align_pow2 as int, SIZE as int)
                    &&& error == AllocError::NoMemory
                    &&& final(self)@ == old(self)@
                },
            }),
            final(self)@ == old(self)@.step(
                (Op::AllocPages { num_pages: num_pages as int, align: align_pow2 as int }),
                SIZE as int,
            ),
    {
        proof {
            use_type_invariant(&*self);
            lemma_mask_rounds_down(self.page_pos, align_pow2);
            lemma_align_down(self.page_pos as int, align_pow2 as int);
            assert(0 <= num_pages * SIZE) by (nonlinear_arith);
        }
        let size: usize = match num_pages.checked_mul(SIZE) {
            Some(size) => size,
            None => {
                return Err(AllocError::NoMemory);
            },
        };
        let top: usize = self.page_pos & !(align_pow2 - 1);
        if top < size {
            return Err(AllocError::NoMemory);
        }
        let base: usize = top - size;
        if self.byte_pos > base {
            return Err(AllocError::NoMemory);
        }
        proof {
            law_page_run_is_placed(self@, num_pages as int, align_pow2 as int, SIZE as int);
        }
        self.page_pos = base;
        Ok(base)
    }

    /// Pages are never given back: always fails with `Unsupported` and
    /// changes nothing.
    pub fn dealloc_pages(&mut self, pos: usize, num_pages: usize) -> (res: Result<(), AllocError>)
        ensures
            res == Err::<(), AllocError>(AllocError::Unsupported),
            final(self)@ == old(self)@,
    {
        Err(AllocError::Unsupported)
    }

    /// Whole pages in the managed range.
    pub fn total_pages(&self) -> (n: usize)
        requires
            SIZE > 0,
        ensures
            n == self@.total_pages(SIZE as int),
    {
        proof {
            use_type_invariant(self);
        }
        (self.end - self.start) / SIZE
    }

    /// Whole pages between the page cursor and the end of the range.
    pub fn used_pages(&self) -> (n: usize)
        requires
            SIZE > 0,
        ensures
            n == self@.used_pages(SIZE as int),
    {
        proof {
            use_type_invariant(self);
        }
        (self.end - self.page_pos) / SIZE
    }

    /// Whole pages between the two cursors.
    pub fn available_pages(&self) -> (n: usize)
        requires
            SIZE > 0,
        ensures
            n == self@.available_pages(SIZE as int),
    {
        proof {
            use_type_invariant(self);
        }
        (self.page_pos - self.byte_pos) / SIZE
    }
}

} // verus!
