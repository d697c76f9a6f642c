//! The arena as a mathematical object: four addresses and a counter, and the
//! steps that move them.
//!
//! ```text
//! [ bytes-used | available | pages-used ]
//! start     byte_pos    page_pos      end
//! ```
//!
//! Byte allocations push `byte_pos` up, page allocations pull `page_pos` down,
//! and the two never cross.

use crate::align::{align_down, align_up, lemma_align_down, lemma_align_up};
use vstd::arithmetic::div_mod::{lemma_fundamental_div_mod, lemma_mod_multiples_basic};
use vstd::prelude::*;

verus! {

/// The abstract state of an arena.
pub struct Arena {
    /// First address of the managed range.
    pub start: int,
    /// One past the last address of the managed range.
    pub end: int,
    /// Next free byte of the zone that grows upward.
    pub byte_pos: int,
    /// Base of the lowest page run handed out so far.
    pub page_pos: int,
    /// Byte allocations that have not been released yet.
    pub live: nat,
}

/// One request made of an arena that has been set up.
pub enum Op {
    /// Allocate `size` bytes at a multiple of `align`.
    Alloc { size: int, align: int },
    /// Release one byte allocation. What is named is not looked at.
    Dealloc { addr: int, size: int, align: int },
    /// Allocate `num_pages` pages below a multiple of `align`.
    AllocPages { num_pages: int, align: int },
}

impl Op {
    /// The request has a positive alignment and a non-negative extent.
    pub open spec fn valid(self) -> bool {
        match self {
            Op::Alloc { size, align } => size >= 0 && align > 0,
            Op::Dealloc { .. } => true,
            Op::AllocPages { num_pages, align } => num_pages >= 0 && align > 0,
        }
    }
}

impl Arena {
    /// The cursors are in order, and with nothing live the byte zone is empty.
    pub open spec fn wf(self) -> bool {
        &&& self.start <= self.byte_pos <= self.page_pos <= self.end
        &&& self.live == 0 ==> self.byte_pos == self.start
    }

    /// The arena over `[start, start + size)` with nothing allocated.
    pub open spec fn fresh(start: int, size: int) -> Arena {
        Arena { start, end: start + size, byte_pos: start, page_pos: start + size, live: 0 }
    }

    /// What the byte zone can grow to: shrinks as pages are carved off.
    pub open spec fn total_bytes(self) -> int {
        self.page_pos - self.start
    }

    /// Extent of the byte zone.
    pub open spec fn used_bytes(self) -> int {
        self.byte_pos - self.start
    }

    /// Extent of the gap between the two zones.
    pub open spec fn available_bytes(self) -> int {
        self.page_pos - self.byte_pos
    }

    /// Whole pages in the managed range.
    pub open spec fn total_pages(self, page_size: int) -> int {
        (self.end - self.start) / page_size
    }

    /// Whole pages in the page zone.
    pub open spec fn used_pages(self, page_size: int) -> int {
        (self.end - self.page_pos) / page_size
    }

    /// Whole pages in the gap between the two zones.
    pub open spec fn available_pages(self, page_size: int) -> int {
        (self.page_pos - self.byte_pos) / page_size
    }

    /// Where a byte allocation with this alignment would start.
    pub open spec fn byte_base(self, align: int) -> int {
        align_up(self.byte_pos, align)
    }

    /// The byte allocation ends at or below the page zone.
    pub open spec fn bytes_fit(self, size: int, align: int) -> bool {
        self.byte_base(align) + size <= self.page_pos
    }

    /// The arena after a byte allocation that fits.
    pub open spec fn with_bytes(self, size: int, align: int) -> Arena {
        Arena { byte_pos: self.byte_base(align) + size, live: self.live + 1, ..self }
    }

    /// The arena after one release: the counter stops at zero, and on
    /// reaching zero the whole byte zone is given back.
    pub open spec fn released(self) -> Arena {
        let live: nat = if self.live > 0 {
            (self.live - 1) as nat
        } else {
            0
        };
        Arena { live, byte_pos: if live == 0 { self.start } else { self.byte_pos }, ..self }
    }

    /// Where a run of `num_pages` pages would start.
    pub open spec fn page_base(self, num_pages: int, align: int, page_size: int) -> int {
        align_down(self.page_pos, align) - num_pages * page_size
    }

    /// The page run starts at or above the byte zone.
    pub open spec fn pages_fit(self, num_pages: int, align: int, page_size: int) -> bool {
        self.byte_pos <= self.page_base(num_pages, align, page_size)
    }

    /// The arena after a page allocation that fits.
    pub open spec fn with_pages(self, num_pages: int, align: int, page_size: int) -> Arena {
        Arena { page_pos: self.page_base(num_pages, align, page_size), ..self }
    }

    /// Whether the arena grants the request.
    pub open spec fn grants(self, op: Op, page_size: int) -> bool {
        match op {
            Op::Alloc { size, align } => self.bytes_fit(size, align),
            Op::Dealloc { .. } => true,
            Op::AllocPages { num_pages, align } => self.pages_fit(num_pages, align, page_size),
        }
    }

    /// The arena after the request: unchanged where it is not granted.
    pub open spec fn step(self, op: Op, page_size: int) -> Arena {
        if !self.grants(op, page_size) {
            self
        } else {
            match op {
                Op::Alloc { size, align } => self.with_bytes(size, align),
                Op::Dealloc { .. } => self.released(),
                Op::AllocPages { num_pages, align } => self.with_pages(
                    num_pages,
                    align,
                    page_size,
                ),
            }
        }
    }

    /// The arena after the requests, first to last.
    pub open spec fn run(self, ops: Seq<Op>, page_size: int) -> Arena
        decreases ops.len(),
    {
        if ops.len() == 0 {
            self
        } else {
            self.run(ops.drop_last(), page_size).step(ops.last(), page_size)
        }
    }

    /// Every request is granted at the moment it is made.
    pub open spec fn grants_all(self, ops: Seq<Op>, page_size: int) -> bool {
        forall|i: int|
            0 <= i < ops.len() ==> #[trigger] self.run(ops.take(i), page_size).grants(
                ops[i],
                page_size,
            )
    }
}

/// Every request in the sequence is valid.
pub open spec fn all_valid(ops: Seq<Op>) -> bool {
    forall|i: int| 0 <= i < ops.len() ==> (#[trigger] ops[i]).valid()
}

/// Every request in the sequence is a byte allocation.
pub open spec fn all_allocs(ops: Seq<Op>) -> bool {
    forall|i: int| 0 <= i < ops.len() ==> (#[trigger] ops[i]) is Alloc
}

/// Every request in the sequence is a release.
pub open spec fn all_deallocs(ops: Seq<Op>) -> bool {
    forall|i: int| 0 <= i < ops.len() ==> (#[trigger] ops[i]) is Dealloc
}

/// One request leaves a well-formed arena well-formed and its range as it
/// was. The page cursor does not rise, and the byte cursor does not fall but
/// for a release, which leaves it or takes it back to the start.
pub proof fn lemma_step_keeps_order(a: Arena, op: Op, page_size: int)
    requires
        a.wf(),
        op.valid(),
        page_size >= 0,
    ensures
        a.step(op, page_size).wf(),
        a.step(op, page_size).start == a.start,
        a.step(op, page_size).end == a.end,
        a.step(op, page_size).page_pos <= a.page_pos,
        op is Dealloc || a.step(op, page_size).byte_pos >= a.byte_pos,
        op is Dealloc ==> a.step(op, page_size).byte_pos == a.byte_pos || a.step(
            op,
            page_size,
        ).byte_pos == a.start,
{
    match op {
        Op::Alloc { size, align } => {
            lemma_align_up(a.byte_pos, align);
        },
        Op::Dealloc { .. } => {},
        Op::AllocPages { num_pages, align } => {
            lemma_align_down(a.page_pos, align);
            assert(num_pages * page_size >= 0) by (nonlinear_arith)
                requires
                    num_pages >= 0,
                    page_size >= 0,
            ;
        },
    }
}

/// The cursors stay in order: whatever valid requests are made of a
/// well-formed arena, in whatever order, `start <= byte_pos <= page_pos <= end`
/// holds afterwards, the range is the same, and the page cursor has not risen.
pub proof fn law_cursors_stay_ordered(a: Arena, ops: Seq<Op>, page_size: int)
    requires
        a.wf(),
        all_valid(ops),
        page_size >= 0,
    ensures
        a.run(ops, page_size).wf(),
        a.run(ops, page_size).start == a.start,
        a.run(ops, page_size).end == a.end,
        a.run(ops, page_size).page_pos <= a.page_pos,
    decreases ops.len(),
{
    if ops.len() > 0 {
        law_cursors_stay_ordered(a, ops.drop_last(), page_size);
        lemma_step_keeps_order(a.run(ops.drop_last(), page_size), ops.last(), page_size);
    }
}

/// After setting up an arena over a range of non-negative size, any valid
/// requests leave the cursors in order inside that range.
pub proof fn law_cursors_ordered_after_init(start: int, size: int, ops: Seq<Op>, page_size: int)
    requires
        size >= 0,
        all_valid(ops),
        page_size >= 0,
    ensures
        ({
            let a = Arena::fresh(start, size).run(ops, page_size);
            start <= a.byte_pos <= a.page_pos <= start + size
        }),
{
    law_cursors_stay_ordered(Arena::fresh(start, size), ops, page_size);
}

/// Granted byte allocations are counted one by one.
pub proof fn lemma_allocs_are_counted(a: Arena, allocs: Seq<Op>, page_size: int)
    requires
        all_allocs(allocs),
        a.grants_all(allocs, page_size),
    ensures
        a.run(allocs, page_size).live == a.live + allocs.len(),
        a.run(allocs, page_size).start == a.start,
    decreases allocs.len(),
{
    if allocs.len() > 0 {
        let init = allocs.drop_last();
        assert(init =~= allocs.take(allocs.len() - 1));
        assert forall|i: int| 0 <= i < init.len() implies #[trigger] a.run(
            init.take(i),
            page_size,
        ).grants(init[i], page_size) by {
            assert(init.take(i) =~= allocs.take(i));
        }
        lemma_allocs_are_counted(a, init, page_size);
        assert(a.run(allocs.take(allocs.len() - 1), page_size).grants(
            allocs[allocs.len() - 1],
            page_size,
        ));
    }
}

/// Releases only count down: until the count reaches zero the byte cursor
/// stays where it is, and when it reaches zero the byte zone is empty.
pub proof fn lemma_releases_count_down(a: Arena, releases: Seq<Op>, page_size: int)
    requires
        all_deallocs(releases),
        releases.len() <= a.live,
    ensures
        a.run(releases, page_size).live == a.live - releases.len(),
        a.run(releases, page_size).start == a.start,
        releases.len() < a.live ==> a.run(releases, page_size).byte_pos == a.byte_pos,
        0 < releases.len() == a.live ==> a.run(releases, page_size).byte_pos == a.start,
    decreases releases.len(),
{
    if releases.len() > 0 {
        lemma_releases_count_down(a, releases.drop_last(), page_size);
    }
}

/// Bulk release: after `n` granted byte allocations on a fresh arena, fewer
/// than `n` releases leave the byte cursor where the last allocation put it,
/// and the `n`-th release, whatever the releases name and in whatever order
/// they come, empties the byte zone.
pub proof fn law_bulk_release(
    start: int,
    size: int,
    allocs: Seq<Op>,
    releases: Seq<Op>,
    page_size: int,
)
    requires
        all_allocs(allocs),
        Arena::fresh(start, size).grants_all(allocs, page_size),
        all_deallocs(releases),
        releases.len() <= allocs.len(),
    ensures
        ({
            let full = Arena::fresh(start, size).run(allocs, page_size);
            let after = full.run(releases, page_size);
            &&& full.live == allocs.len()
            &&& after.live == allocs.len() - releases.len()
            &&& releases.len() < allocs.len() ==> after.byte_pos == full.byte_pos
            &&& releases.len() == allocs.len() ==> after.byte_pos == start && after.used_bytes()
                == 0
        }),
{
    let fresh = Arena::fresh(start, size);
    lemma_allocs_are_counted(fresh, allocs, page_size);
    let full = fresh.run(allocs, page_size);
    lemma_releases_count_down(full, releases, page_size);
    if allocs.len() == 0 {
        assert(allocs =~= Seq::<Op>::empty());
        assert(releases =~= Seq::<Op>::empty());
    }
}

/// A granted page run lies between the byte cursor and the page cursor as
/// they were before, and ends at a multiple of the alignment. Where the
/// extent of the run is itself a multiple of the alignment, so is its base,
/// and where the alignment is a multiple of the page size, the base is one
/// too.
pub proof fn law_page_run_is_placed(a: Arena, num_pages: int, align: int, page_size: int)
    requires
        a.wf(),
        num_pages >= 0,
        align > 0,
        page_size >= 0,
        a.pages_fit(num_pages, align, page_size),
    ensures
        ({
            let base = a.page_base(num_pages, align, page_size);
            &&& a.byte_pos <= base <= base + num_pages * page_size <= a.page_pos
            &&& (base + num_pages * page_size) % align == 0
            &&& (num_pages * page_size) % align == 0 ==> base % align == 0
            &&& page_size > 0 && align % page_size == 0 ==> base % page_size == 0
        }),
{
    lemma_align_down(a.page_pos, align);
    assert(num_pages * page_size >= 0) by (nonlinear_arith)
        requires
            num_pages >= 0,
            page_size >= 0,
    ;
    let top = align_down(a.page_pos, align);
    lemma_sub_multiple(top, num_pages * page_size, align);
    if page_size > 0 && align % page_size == 0 {
        lemma_multiple_of_multiple(top, align, page_size);
        lemma_mod_multiples_basic(num_pages, page_size);
        lemma_sub_multiple(top, num_pages * page_size, page_size);
    }
}

/// A granted byte allocation starts at a multiple of the alignment, at or
/// above the start of the range, and ends at or below the page cursor.
pub proof fn law_byte_run_is_placed(a: Arena, size: int, align: int)
    requires
        a.wf(),
        size >= 0,
        align > 0,
        a.bytes_fit(size, align),
    ensures
        ({
            let base = a.byte_base(align);
            &&& base % align == 0
            &&& a.start <= a.byte_pos <= base <= base + size <= a.page_pos
            &&& base < a.byte_pos + align
        }),
{
    lemma_align_up(a.byte_pos, align);
}

/// Page runs never overlap: a page run granted after an earlier one, with
/// any valid requests in between, ends at or below the base of the earlier.
pub proof fn law_page_runs_disjoint(
    a: Arena,
    first_pages: int,
    first_align: int,
    between: Seq<Op>,
    next_pages: int,
    next_align: int,
    page_size: int,
)
    requires
        a.wf(),
        page_size >= 0,
        first_pages >= 0,
        first_align > 0,
        next_pages >= 0,
        next_align > 0,
        all_valid(between),
        a.pages_fit(first_pages, first_align, page_size),
        a.with_pages(first_pages, first_align, page_size).run(between, page_size).pages_fit(
            next_pages,
            next_align,
            page_size,
        ),
    ensures
        ({
            let first_base = a.page_base(first_pages, first_align, page_size);
            let b = a.with_pages(first_pages, first_align, page_size).run(between, page_size);
            let next_base = b.page_base(next_pages, next_align, page_size);
            &&& next_base + next_pages * page_size <= first_base
            &&& b.with_pages(next_pages, next_align, page_size).page_pos <= b.page_pos
                <= first_base <= a.page_pos
        }),
{
    let first = Op::AllocPages { num_pages: first_pages, align: first_align };
    lemma_step_keeps_order(a, first, page_size);
    let a1 = a.with_pages(first_pages, first_align, page_size);
    assert(a1 == a.step(first, page_size));
    law_cursors_stay_ordered(a1, between, page_size);
    let b = a1.run(between, page_size);
    law_page_run_is_placed(b, next_pages, next_align, page_size);
}

/// A request that is not granted changes nothing.
pub proof fn law_refusal_changes_nothing(a: Arena, op: Op, page_size: int)
    requires
        !a.grants(op, page_size),
    ensures
        a.step(op, page_size) == a,
{
}

/// A multiple of a multiple of `unit` is a multiple of `unit`.
pub proof fn lemma_multiple_of_multiple(x: int, align: int, unit: int)
    requires
        align > 0,
        unit > 0,
        x % align == 0,
        align % unit == 0,
    ensures
        x % unit == 0,
{
    lemma_fundamental_div_mod(x, align);
    lemma_fundamental_div_mod(align, unit);
    let q = (align / unit) * (x / align);
    assert(x == q * unit) by (nonlinear_arith)
        requires
            x == align * (x / align),
            align == unit * (align / unit),
            q == (align / unit) * (x / align),
    ;
    lemma_mod_multiples_basic(q, unit);
}

/// Taking a multiple of `align` away from a multiple of `align` leaves one.
pub proof fn lemma_sub_multiple(top: int, size: int, align: int)
    requires
        align > 0,
        top % align == 0,
    ensures
        size % align == 0 ==> (top - size) % align == 0,
{
    if size % align == 0 {
        lemma_fundamental_div_mod(top, align);
        lemma_fundamental_div_mod(size, align);
        let q = top / align - size / align;
        assert(top - size == q * align) by (nonlinear_arith)
            requires
                top == align * (top / align),
                size == align * (size / align),
                q == top / align - size / align,
        ;
        lemma_mod_multiples_basic(q, align);
    }
}

} // verus!
