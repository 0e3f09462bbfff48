//! The two-ended policy: one cursor climbs from the start of the region, the other
//! descends from its end, and nothing is ever handed back one by one.

use vstd::prelude::*;
use core::ops::Range;
use crate::{
    AllocError, Alloqator, Layout, align_down, align_down_spec, align_up_spec, block,
    checked_align_up, is_power_of_two,
};
use crate::bits;

verus! {

/// A two-ended allocator over `[heap_start, heap_end)`.
#[derive(Debug)]
pub struct Alloq {
    pub heap_start: usize,
    pub heap_end: usize,
    /// The left cursor and the right cursor: what lies between them is free.
    pub end: (usize, usize),
}

impl Alloq {
    /// The left cursor.
    pub open spec fn left(&self) -> int {
        self.end.0 as int
    }

    /// The right cursor.
    pub open spec fn right(&self) -> int {
        self.end.1 as int
    }

    /// Where a block taken from the right would begin.
    pub open spec fn place_right(&self, layout: Layout) -> int {
        align_down_spec(self.right() - layout.size, layout.align as int)
    }

    /// Where a block taken from the left would begin.
    pub open spec fn place_left(&self, layout: Layout) -> int {
        align_up_spec(self.left(), layout.align as int)
    }

    /// A request from the left succeeds.
    pub open spec fn accepts_left(&self, layout: Layout) -> bool {
        layout.valid() && self.place_left(layout) + layout.size <= self.right()
    }

    /// The state that a request from the right leaves.
    pub open spec fn after_allocate(self, layout: Layout) -> Alloq {
        if self.accepts(layout) {
            Alloq {
                heap_start: self.heap_start,
                heap_end: self.heap_end,
                end: (self.end.0, self.place_right(layout) as usize),
            }
        } else {
            self
        }
    }

    /// The state that a request from the left leaves.
    pub open spec fn after_allocate_left(self, layout: Layout) -> Alloq {
        if self.accepts_left(layout) {
            Alloq {
                heap_start: self.heap_start,
                heap_end: self.heap_end,
                end: ((self.place_left(layout) + layout.size) as usize, self.end.1),
            }
        } else {
            self
        }
    }

    /// The state that `reset` leaves.
    pub open spec fn emptied(self) -> Alloq {
        Alloq {
            heap_start: self.heap_start,
            heap_end: self.heap_end,
            end: (self.heap_start, self.heap_end),
        }
    }

    /// Which of the requests `layouts`, made one after another from this state on,
    /// succeed.
    pub open spec fn decisions(self, layouts: Seq<Layout>) -> Seq<bool>
        decreases layouts.len(),
    {
        if layouts.len() == 0 {
            Seq::empty()
        } else {
            seq![self.accepts(layouts[0])] + self.after_allocate(layouts[0]).decisions(
                layouts.skip(1),
            )
        }
    }

    /// Resetting twice is resetting once.
    pub proof fn lemma_reset_idempotent(self)
        ensures
            self.emptied().emptied() == self.emptied(),
    {
    }

    /// A fresh allocator and one that was reset decide alike on every sequence of
    /// requests.
    pub proof fn lemma_empty_state_parity(fresh: Alloq, used: Alloq, layouts: Seq<Layout>)
        requires
            fresh.pristine(),
            fresh.heap_start == used.heap_start,
            fresh.heap_end == used.heap_end,
        ensures
            fresh == used.emptied(),
            fresh.decisions(layouts) == used.emptied().decisions(layouts),
    {
    }

    /// Takes the block from the right end of what is free: the right cursor moves
    /// down by the size and then to a multiple of the alignment.
    pub fn r_alloc(&mut self, layout: Layout) -> (r: Result<usize, AllocError>)
        requires
            old(self).inv(),
        ensures
            final(self).inv(),
            r is Ok <==> old(self).accepts(layout),
            match r {
                Ok(p) => p == old(self).place_right(layout),
                Err(e) => e == if layout.valid() {
                    AllocError::OutOfMemory
                } else {
                    AllocError::InvalidLayout
                },
            },
            *final(self) == old(self).after_allocate(layout),
    {
        if !is_power_of_two(layout.align) {
            return Err(AllocError::InvalidLayout);
        }
        proof {
            bits::lemma_pow2_positive(layout.align);
            bits::lemma_align_down_bounds(self.right() - layout.size, layout.align as int);
        }
        if layout.size > self.end.1 {
            return Err(AllocError::OutOfMemory);
        }
        let ptr: usize = align_down(self.end.1 - layout.size, layout.align);
        if ptr < self.end.0 {
            return Err(AllocError::OutOfMemory);
        }
        self.end = (self.end.0, ptr);
        Ok(ptr)
    }

    /// Takes the block from the left end of what is free: it begins at the left
    /// cursor rounded up to the alignment, and the cursor moves to its end.
    pub fn l_alloc(&mut self, layout: Layout) -> (r: Result<usize, AllocError>)
        requires
            old(self).inv(),
        ensures
            final(self).inv(),
            r is Ok <==> old(self).accepts_left(layout),
            match r {
                Ok(p) => {
                    &&& p == old(self).place_left(layout)
                    &&& p as int % layout.align as int == 0
                    &&& old(self).left() <= p
                    &&& p + layout.size <= old(self).right()
                },
                Err(e) => e == if layout.valid() {
                    AllocError::OutOfMemory
                } else {
                    AllocError::InvalidLayout
                },
            },
            *final(self) == old(self).after_allocate_left(layout),
    {
        let ptr: usize = match checked_align_up(self.end.0, layout.align) {
            Some(p) => p,
            None => {
                if is_power_of_two(layout.align) {
                    proof {
                        bits::lemma_pow2_positive(layout.align);
                    }
                    return Err(AllocError::OutOfMemory);
                }
                return Err(AllocError::InvalidLayout);
            },
        };
        proof {
            bits::lemma_pow2_positive(layout.align);
            bits::lemma_align_up_bounds(self.left(), layout.align as int);
        }
        if ptr > self.end.1 || layout.size > self.end.1 - ptr {
            return Err(AllocError::OutOfMemory);
        }
        self.end = (ptr + layout.size, self.end.1);
        Ok(ptr)
    }
}

impl Alloqator for Alloq {
    open spec fn inv(&self) -> bool {
        0 < self.heap_start <= self.end.0 <= self.end.1 <= self.heap_end
    }

    open spec fn start(&self) -> int {
        self.heap_start as int
    }

    open spec fn end(&self) -> int {
        self.heap_end as int
    }

    open spec fn occupied(&self) -> Set<int> {
        block(self.start(), self.left() - self.start()) + block(
            self.right(),
            self.end() - self.right(),
        )
    }

    open spec fn pristine(&self) -> bool {
        self.end.0 == self.heap_start && self.end.1 == self.heap_end
    }

    open spec fn accepts(&self, layout: Layout) -> bool {
        layout.valid() && self.left() <= self.place_right(layout)
    }

    open spec fn hosts(heap_range: Range<usize>) -> bool {
        0 < heap_range.start <= heap_range.end
    }

    open spec fn serves(&self, after: &Self, layout: Layout, r: Result<usize, AllocError>) -> bool {
        &&& *after == self.after_allocate(layout)
        &&& r == if self.accepts(layout) {
            Ok::<usize, AllocError>(self.place_right(layout) as usize)
        } else if layout.valid() {
            Err::<usize, AllocError>(AllocError::OutOfMemory)
        } else {
            Err::<usize, AllocError>(AllocError::InvalidLayout)
        }
    }

    open spec fn can_free(&self, ptr: usize, layout: Layout) -> bool {
        true
    }

    open spec fn hands_back(&self, after: &Self, ptr: usize, layout: Layout) -> bool {
        *after == *self
    }

    open spec fn meta_size() -> nat {
        0
    }

    open spec fn meta_align() -> nat {
        1
    }

    fn metadata_size() -> (r: usize) {
        0
    }

    fn metadata_align() -> (r: usize) {
        1
    }

    fn new(heap_range: Range<usize>) -> (r: Result<Self, AllocError>)
        ensures
            r is Err <==> heap_range.start == 0 || heap_range.end < heap_range.start,
    {
        assert(Self::hosts(heap_range) <==> 0 < heap_range.start <= heap_range.end);
        if heap_range.start == 0 || heap_range.end < heap_range.start {
            return Err(AllocError::InvalidHeap);
        }
        Ok(
            Alloq {
                heap_start: heap_range.start,
                heap_end: heap_range.end,
                end: (heap_range.start, heap_range.end),
            },
        )
    }

    /// Requests are served from the right.
    fn allocate(&mut self, layout: Layout) -> (r: Result<usize, AllocError>)
        ensures
            match r {
                Ok(p) => p == old(self).place_right(layout),
                Err(e) => e == if layout.valid() {
                    AllocError::OutOfMemory
                } else {
                    AllocError::InvalidLayout
                },
            },
            *final(self) == old(self).after_allocate(layout),
    {
        proof {
            if layout.valid() {
                bits::lemma_pow2_positive(layout.align);
                bits::lemma_align_down_bounds(self.right() - layout.size, layout.align as int);
            }
        }
        self.r_alloc(layout)
    }

    /// Nothing is taken back before the next reset.
    fn deallocate(&mut self, ptr: usize, layout: Layout) -> (r: Result<(), AllocError>)
        ensures
            r is Ok,
            *final(self) == *old(self),
    {
        assert(self.can_free(ptr, layout));
        Ok(())
    }

    fn reset(&mut self)
        ensures
            *final(self) == old(self).emptied(),
    {
        self.end = (self.heap_start, self.heap_end);
    }

    fn heap_start(&self) -> (r: usize) {
        self.heap_start
    }

    fn heap_end(&self) -> (r: usize) {
        self.heap_end
    }
}

} // verus!

