//! The bump policy: a cursor that only moves forward, and a count of what is lent
//! out. Nothing is reclaimed one by one; when the count falls back to zero the
//! cursor returns to the start of the region.

use vstd::prelude::*;
use core::ops::Range;
use crate::{AllocError, Alloqator, Layout, align_up_spec, block, checked_align_up};
use crate::bits;

verus! {

/// A linear allocator over `[heap_start, heap_end)`.
#[derive(Debug)]
pub struct Alloq {
    pub heap_start: usize,
    /// Number of allocations lent out, and the first address not yet lent out.
    pub iter: (usize, usize),
    pub heap_end: usize,
}

impl Alloq {
    /// Number of allocations that have not been handed back.
    pub open spec fn live(&self) -> int {
        self.iter.0 as int
    }

    /// The cursor: every address below it, from the start of the region, is spoken for.
    pub open spec fn top(&self) -> int {
        self.iter.1 as int
    }

    /// Where the next block for `layout` would begin.
    pub open spec fn place(&self, layout: Layout) -> int {
        align_up_spec(self.top(), layout.align as int)
    }

    /// The request's end, as a number, is an address.
    pub open spec fn fits_word(&self, layout: Layout) -> bool {
        layout.valid() && self.place(layout) + layout.size <= usize::MAX
    }

    /// The state that `allocate` leaves.
    pub open spec fn after_allocate(self, layout: Layout) -> Alloq {
        if self.accepts(layout) {
            Alloq {
                heap_start: self.heap_start,
                iter: ((self.live() + 1) as usize, (self.place(layout) + layout.size) as usize),
                heap_end: self.heap_end,
            }
        } else {
            self
        }
    }

    /// The state that `deallocate` leaves.
    pub open spec fn after_deallocate(self) -> Alloq {
        if self.live() == 0 {
            self
        } else if self.live() == 1 {
            self.emptied()
        } else {
            Alloq {
                heap_start: self.heap_start,
                iter: ((self.live() - 1) as usize, self.iter.1),
                heap_end: self.heap_end,
            }
        }
    }

    /// The state that `reset` leaves.
    pub open spec fn emptied(self) -> Alloq {
        Alloq { heap_start: self.heap_start, iter: (0, self.heap_start), heap_end: self.heap_end }
    }

    /// Which of the requests `layouts`, made one after another from this state on,
    /// succeed.
    pub open spec fn decisions(self, layouts: Seq<Layout>) -> Seq<bool>
        decreases layouts.len(),
    {
        if layouts.len() == 0 {
            Seq::empty()
        } else {
            seq![self.accepts(layouts[0])] + self.after_allocate(layouts[0]).decisions(
                layouts.skip(1),
            )
        }
    }

    /// Resetting twice is resetting once.
    pub proof fn lemma_reset_idempotent(self)
        ensures
            self.emptied().emptied() == self.emptied(),
    {
    }

    /// A fresh allocator and one that was reset decide alike on every sequence of
    /// requests, and place the blocks alike.
    pub proof fn lemma_empty_state_parity(fresh: Alloq, used: Alloq, layouts: Seq<Layout>)
        requires
            fresh.pristine(),
            fresh.heap_start == used.heap_start,
            fresh.heap_end == used.heap_end,
        ensures
            fresh == used.emptied(),
            fresh.decisions(layouts) == used.emptied().decisions(layouts),
    {
    }

    /// A request never moves the cursor down, and a request that is served serves
    /// a block that begins at or behind the cursor.
    pub proof fn lemma_cursor_rises(self, layout: Layout)
        requires
            self.inv(),
        ensures
            self.top() <= self.after_allocate(layout).top(),
            self.accepts(layout) ==> self.top() <= self.place(layout) <= self.after_allocate(
                layout,
            ).top(),
    {
        if layout.valid() {
            bits::lemma_pow2_positive(layout.align);
            bits::lemma_align_up_bounds(self.top(), layout.align as int);
        }
    }

    /// With nothing lent out, the next block begins at the start of the region,
    /// rounded up to the alignment.
    pub proof fn lemma_reclaimed(self, layout: Layout)
        requires
            self.inv(),
            self.live() == 0,
        ensures
            self.place(layout) == align_up_spec(self.start(), layout.align as int),
    {
    }
}

impl Alloqator for Alloq {
    open spec fn inv(&self) -> bool {
        &&& 0 < self.heap_start <= self.iter.1 <= self.heap_end
        &&& self.iter.0 == 0 ==> self.iter.1 == self.heap_start
    }

    open spec fn start(&self) -> int {
        self.heap_start as int
    }

    open spec fn end(&self) -> int {
        self.heap_end as int
    }

    open spec fn occupied(&self) -> Set<int> {
        block(self.start(), self.top() - self.start())
    }

    open spec fn pristine(&self) -> bool {
        self.iter.0 == 0 && self.iter.1 == self.heap_start
    }

    open spec fn accepts(&self, layout: Layout) -> bool {
        &&& layout.valid()
        &&& self.place(layout) + layout.size <= self.heap_end
        &&& self.live() < usize::MAX
    }

    open spec fn hosts(heap_range: Range<usize>) -> bool {
        0 < heap_range.start <= heap_range.end
    }

    open spec fn serves(&self, after: &Self, layout: Layout, r: Result<usize, AllocError>) -> bool {
        &&& *after == self.after_allocate(layout)
        &&& r == if self.accepts(layout) {
            Ok::<usize, AllocError>(self.place(layout) as usize)
        } else if self.fits_word(layout) {
            Err::<usize, AllocError>(AllocError::OutOfMemory)
        } else {
            Err::<usize, AllocError>(AllocError::InvalidLayout)
        }
    }

    open spec fn can_free(&self, ptr: usize, layout: Layout) -> bool {
        self.live() > 0
    }

    open spec fn hands_back(&self, after: &Self, ptr: usize, layout: Layout) -> bool {
        *after == self.after_deallocate()
    }

    open spec fn meta_size() -> nat {
        0
    }

    open spec fn meta_align() -> nat {
        1
    }

    fn metadata_size() -> (r: usize) {
        0
    }

    fn metadata_align() -> (r: usize) {
        1
    }

    fn new(heap_range: Range<usize>) -> (r: Result<Self, AllocError>)
        ensures
            r is Err <==> heap_range.start == 0 || heap_range.end < heap_range.start,
    {
        assert(Self::hosts(heap_range) <==> 0 < heap_range.start <= heap_range.end);
        if heap_range.start == 0 || heap_range.end < heap_range.start {
            return Err(AllocError::InvalidHeap);
        }
        Ok(
            Alloq {
                heap_start: heap_range.start,
                iter: (0, heap_range.start),
                heap_end: heap_range.end,
            },
        )
    }

    /// The block begins at the cursor rounded up to the alignment, and the cursor
    /// moves to the block's end.
    fn allocate(&mut self, layout: Layout) -> (r: Result<usize, AllocError>)
        ensures
            match r {
                Ok(p) => p == old(self).place(layout),
                Err(e) => e == if old(self).fits_word(layout) {
                    AllocError::OutOfMemory
                } else {
                    AllocError::InvalidLayout
                },
            },
            *final(self) == old(self).after_allocate(layout),
    {
        let start: usize = match checked_align_up(self.iter.1, layout.align) {
            Some(p) => p,
            None => {
                return Err(AllocError::InvalidLayout);
            },
        };
        proof {
            bits::lemma_pow2_positive(layout.align);
            bits::lemma_align_up_bounds(self.iter.1 as int, layout.align as int);
        }
        if layout.size > usize::MAX - start {
            return Err(AllocError::InvalidLayout);
        }
        let end: usize = start + layout.size;
        if end > self.heap_end || self.iter.0 == usize::MAX {
            return Err(AllocError::OutOfMemory);
        }
        self.iter = (self.iter.0 + 1, end);
        Ok(start)
    }

    /// Counts one allocation less, whichever it was; with none lent out there is
    /// nothing to hand back.
    fn deallocate(&mut self, ptr: usize, layout: Layout) -> (r: Result<(), AllocError>)
        ensures
            r is Err <==> old(self).live() == 0,
            *final(self) == old(self).after_deallocate(),
    {
        assert(self.can_free(ptr, layout) <==> self.live() > 0);
        if self.iter.0 == 0 {
            return Err(AllocError::InvalidFree);
        }
        let live: usize = self.iter.0 - 1;
        if live == 0 {
            self.iter = (0, self.heap_start);
        } else {
            self.iter = (live, self.iter.1);
        }
        Ok(())
    }

    fn reset(&mut self)
        ensures
            *final(self) == old(self).emptied(),
    {
        self.iter = (0, self.heap_start);
    }

    fn heap_start(&self) -> (r: usize) {
        self.heap_start
    }

    fn heap_end(&self) -> (r: usize) {
        self.heap_end
    }
}

} // verus!
