//! The bump policy with deallocation: behind every block lies a record that says
//! where the block begins and where the record before it lies. Handing a block back
//! marks its record; marked records at the top of the stack are taken off at once,
//! the others when the top reaches them.

use vstd::prelude::*;
use core::ops::Range;
use crate::{AllocError, Alloqator, Layout, align_up_spec, block, checked_align_up};
use crate::bits;
use crate::store::Store;

verus! {

/// Bytes that a record takes in the region.
pub const META_SIZE: usize = 16;

/// Alignment of a record in the region.
pub const META_ALIGN: usize = 8;

/// The record behind a block.
#[derive(Clone, Copy, Debug)]
pub struct AlloqMetaData {
    /// First address of the block; `None` once the block was handed back.
    pub start: Option<usize>,
    /// Address of the record before this one, zero for the first.
    pub last_meta: usize,
}

/// Address of the record behind the block `[ptr, ptr + size)`.
pub open spec fn meta_addr(ptr: int, size: int) -> int {
    align_up_spec(ptr + size, META_ALIGN as int)
}

proof fn lemma_meta_align()
    ensures
        vstd::arithmetic::power2::is_pow2(META_ALIGN as int),
{
    bits::lemma_single_bit(META_ALIGN);
    assert(8usize & 7usize == 0) by (bit_vector);
}

impl AlloqMetaData {
    /// The record of a block that begins at `start`; the null address stands for
    /// no block.
    pub fn new(start: usize, last_meta: usize) -> (m: Self)
        ensures
            m.last_meta == last_meta,
            m.start == if start == 0 {
                None::<usize>
            } else {
                Some(start)
            },
    {
        AlloqMetaData { start: if start == 0 { None } else { Some(start) }, last_meta }
    }

    /// Writes the record behind its block, at the block's end rounded up to the
    /// record alignment, and returns that address.
    pub fn write_meta(&self, records: &mut Store<AlloqMetaData>, layout: Layout) -> (addr: usize)
        requires
            self.start is Some,
            meta_addr(self.start->0 as int, layout.size as int) <= usize::MAX,
        ensures
            addr == meta_addr(self.start->0 as int, layout.size as int),
            final(records)@ == old(records)@.insert(addr, *self),
    {
        proof {
            lemma_meta_align();
            bits::lemma_align_up_bounds(self.start->0 + layout.size, META_ALIGN as int);
        }
        let start: usize = match self.start {
            Some(p) => p,
            None => 0,
        };
        let addr: usize = match checked_align_up(start + layout.size, META_ALIGN) {
            Some(a) => a,
            None => 0,
        };
        records.write(addr, *self);
        addr
    }

    /// Address of the record behind the block `[ptr, ptr + layout.size)`; `None`
    /// where no address is left for it.
    pub fn from_alloc_ptr(ptr: usize, layout: Layout) -> (r: Option<usize>)
        ensures
            r == if meta_addr(ptr as int, layout.size as int) <= usize::MAX {
                Some(meta_addr(ptr as int, layout.size as int) as usize)
            } else {
                None::<usize>
            },
    {
        proof {
            lemma_meta_align();
            bits::lemma_align_up_bounds(ptr + layout.size, META_ALIGN as int);
        }
        if layout.size > usize::MAX - ptr {
            return None;
        }
        checked_align_up(ptr + layout.size, META_ALIGN)
    }
}

/// A record as the contracts see it.
pub struct Slot {
    /// Where the record lies.
    pub addr: int,
    /// Where its block begins; `None` once the block was handed back.
    pub start: Option<int>,
    /// Where the record before it lies; zero for the bottom record.
    pub below: int,
}

/// The allocator as the contracts see it: the region and the records in it, from
/// the padding record at the bottom to the most recent one.
pub struct Stack {
    pub start: int,
    pub end: int,
    pub slots: Seq<Slot>,
}

/// Takes the marked records off the top. The bottom record always stays.
pub open spec fn unwound(slots: Seq<Slot>) -> Seq<Slot>
    decreases slots.len(),
{
    if slots.len() > 1 && slots.last().start is None {
        unwound(slots.drop_last())
    } else {
        slots
    }
}

impl Stack {
    /// Where the padding record of a region lies.
    pub open spec fn pad(start: int) -> int {
        align_up_spec(start, META_ALIGN as int)
    }

    /// The records lie in the region one above the other, each block between its
    /// record and the one before, and the top record is in use unless it is the
    /// padding record.
    pub open spec fn wf(self) -> bool {
        &&& 0 < self.start <= self.end <= usize::MAX
        &&& self.slots.len() >= 1
        &&& self.slots[0] == Self::bottom(self.start)
        &&& forall|i: int|
            0 <= i < self.slots.len() ==> {
                &&& self.start <= (#[trigger] self.slots[i]).addr
                &&& self.slots[i].addr + META_SIZE <= self.end
            }
        &&& forall|i: int, j: int|
            0 <= i < j < self.slots.len() ==> (#[trigger] self.slots[i]).addr + META_SIZE <= (
            #[trigger] self.slots[j]).addr
        &&& forall|i: int, j: int|
            0 <= i && j == i + 1 && j < self.slots.len() ==> {
                &&& (#[trigger] self.slots[j]).below == (#[trigger] self.slots[i]).addr
                &&& self.slots[j].start matches Some(p) ==> self.slots[i].addr + META_SIZE <= p
                    <= self.slots[j].addr
            }
    }

    /// The padding record of a region that begins at `start`.
    pub open spec fn bottom(start: int) -> Slot {
        Slot { addr: Self::pad(start), start: None, below: 0 }
    }

    /// The top record is in use, unless it is the padding record.
    pub open spec fn settled(self) -> bool {
        self.slots.len() > 1 ==> self.slots.last().start is Some
    }

    /// Address of the most recent record.
    pub open spec fn top(self) -> int {
        self.slots.last().addr
    }

    /// Where the next block for `layout` would begin.
    pub open spec fn place(self, layout: Layout) -> int {
        align_up_spec(self.top() + META_SIZE, layout.align as int)
    }

    /// The request's end, as a number, is an address.
    pub open spec fn fits_word(self, layout: Layout) -> bool {
        layout.valid() && self.place(layout) + layout.size <= usize::MAX
    }

    /// The block and the record behind it fit below the end of the region.
    pub open spec fn accepts(self, layout: Layout) -> bool {
        &&& layout.valid()
        &&& meta_addr(self.place(layout), layout.size as int) + META_SIZE <= self.end
    }

    /// The state that `allocate` leaves.
    pub open spec fn after_allocate(self, layout: Layout) -> Stack {
        if self.accepts(layout) {
            Stack {
                slots: self.slots.push(
                    Slot {
                        addr: meta_addr(self.place(layout), layout.size as int),
                        start: Some(self.place(layout)),
                        below: self.top(),
                    },
                ),
                ..self
            }
        } else {
            self
        }
    }

    /// The record at index `i` is the one of the block `[ptr, ptr + size)`, and the
    /// block is in use.
    pub open spec fn is_record_of(self, i: int, ptr: int, size: int) -> bool {
        &&& 1 <= i < self.slots.len()
        &&& self.slots[i].addr == meta_addr(ptr, size)
        &&& self.slots[i].start == Some(ptr)
    }

    /// The block `[ptr, ptr + size)` is in use.
    pub open spec fn holds(self, ptr: int, size: int) -> bool {
        exists|i: int| self.is_record_of(i, ptr, size)
    }

    /// The state that `deallocate` leaves.
    pub open spec fn after_deallocate(self, ptr: int, size: int) -> Stack {
        if self.holds(ptr, size) {
            let i = choose|i: int| self.is_record_of(i, ptr, size);
            Stack {
                slots: unwound(self.slots.update(i, Slot { start: None, ..self.slots[i] })),
                ..self
            }
        } else {
            self
        }
    }

    /// The state that `reset` leaves.
    pub open spec fn emptied(self) -> Stack {
        Stack { slots: seq![Self::bottom(self.start)], ..self }
    }

    /// Which of the requests `layouts`, made one after another from this state on,
    /// succeed.
    pub open spec fn decisions(self, layouts: Seq<Layout>) -> Seq<bool>
        decreases layouts.len(),
    {
        if layouts.len() == 0 {
            Seq::empty()
        } else {
            seq![self.accepts(layouts[0])] + self.after_allocate(layouts[0]).decisions(
                layouts.skip(1),
            )
        }
    }

    /// Resetting twice is resetting once.
    pub proof fn lemma_reset_idempotent(self)
        ensures
            self.emptied().emptied() == self.emptied(),
    {
    }

    /// Any two allocators in the state that construction leaves, over the same
    /// region, are in the same state, and so decide alike on every sequence of
    /// requests.
    pub proof fn lemma_empty_state_parity(fresh: Stack, used: Stack, layouts: Seq<Layout>)
        requires
            fresh == fresh.emptied(),
            fresh.start == used.start,
            fresh.end == used.end,
        ensures
            fresh == used.emptied(),
            fresh.decisions(layouts) == used.emptied().decisions(layouts),
    {
    }

    /// Where every record above the bottom is marked, only the bottom record stays.
    pub proof fn lemma_unwound_all(slots: Seq<Slot>)
        requires
            slots.len() >= 1,
            forall|i: int| 1 <= i < slots.len() ==> (#[trigger] slots[i]).start is None,
        ensures
            unwound(slots) == slots.take(1),
        decreases slots.len(),
    {
        if slots.len() > 1 {
            let rest = slots.drop_last();
            assert forall|i: int| 1 <= i < rest.len() implies (#[trigger] rest[i]).start is None by {
                assert(rest[i] == slots[i]);
            }
            Self::lemma_unwound_all(rest);
            assert(rest.take(1) == slots.take(1));
        } else {
            assert(slots.take(1) == slots);
        }
    }

    /// Handing back the last block in use, whichever it is and in whatever order
    /// the others went, leaves the allocator as construction left it.
    pub proof fn lemma_reclaimed(self, ptr: int, size: int)
        requires
            self.wf(),
            self.holds(ptr, size),
            forall|i: int|
                1 <= i < self.slots.len() && !self.is_record_of(i, ptr, size) ==> (
                #[trigger] self.slots[i]).start is None,
        ensures
            self.after_deallocate(ptr, size) == self.emptied(),
            self.after_deallocate(ptr, size).top() == Self::pad(self.start),
    {
        let i = choose|i: int| self.is_record_of(i, ptr, size);
        let marked = self.slots.update(i, Slot { start: None, ..self.slots[i] });
        assert forall|j: int| 1 <= j < marked.len() implies (#[trigger] marked[j]).start is None by {
            if j != i {
                assert(marked[j] == self.slots[j]);
                if self.is_record_of(j, ptr, size) {
                    Self::lemma_addresses_increase(self, i, j);
                }
            }
        }
        Self::lemma_unwound_all(marked);
        assert(marked.take(1) =~= seq![self.slots[0]]);
    }

    /// Records further up lie at higher addresses.
    pub proof fn lemma_addresses_increase(self, i: int, j: int)
        requires
            self.wf(),
            0 <= i < self.slots.len(),
            0 <= j < self.slots.len(),
            i != j,
        ensures
            self.slots[i].addr != self.slots[j].addr,
            i < j ==> self.slots[i].addr + META_SIZE <= self.slots[j].addr,
            j < i ==> self.slots[j].addr + META_SIZE <= self.slots[i].addr,
    {
    }
}

impl Stack {
    /// A stack without its topmost records is a stack.
    pub proof fn lemma_prefix_wf(self, whole: Stack)
        requires
            whole.wf(),
            self.start == whole.start,
            self.end == whole.end,
            1 <= self.slots.len() <= whole.slots.len(),
            self.slots == whole.slots.take(self.slots.len() as int),
        ensures
            self.wf(),
    {
        assert forall|i: int| 0 <= i < self.slots.len() implies self.slots[i]
            == whole.slots[i] by {}
        assert forall|i: int, j: int| 0 <= i < j < self.slots.len() implies (
        #[trigger] self.slots[i]).addr + META_SIZE <= (#[trigger] self.slots[j]).addr by {
            assert(whole.slots[i].addr + META_SIZE <= whole.slots[j].addr);
        }
        assert forall|i: int, j: int| 0 <= i && j == i + 1 && j < self.slots.len() implies {
            &&& (#[trigger] self.slots[j]).below == (#[trigger] self.slots[i]).addr
            &&& self.slots[j].start matches Some(p) ==> self.slots[i].addr + META_SIZE <= p
                <= self.slots[j].addr
        } by {
            assert(whole.slots[j].below == whole.slots[i].addr);
        }
    }

    /// A stack with a new record above its top, and the record's block between
    /// the two, is a stack.
    #[verifier::rlimit(40)]
    pub proof fn lemma_push_wf(self, slot: Slot)
        requires
            self.wf(),
            slot.below == self.top(),
            slot.start matches Some(p) && self.top() + META_SIZE <= p <= slot.addr,
            slot.addr + META_SIZE <= self.end,
        ensures
            (Stack { slots: self.slots.push(slot), ..self }).wf(),
            (Stack { slots: self.slots.push(slot), ..self }).settled(),
    {
        let after = self.slots.push(slot);
        let n = self.slots.len() as int;
        assert forall|i: int| 0 <= i < n implies after[i] == self.slots[i] by {}
        assert forall|i: int|
            0 <= i < after.len() implies {
            &&& self.start <= (#[trigger] after[i]).addr
            &&& after[i].addr + META_SIZE <= self.end
        } by {
            if i < n {
                assert(self.start <= self.slots[i].addr);
            } else {
                assert(self.start <= self.slots[n - 1].addr);
            }
        }
        assert forall|i: int, j: int| 0 <= i < j < after.len() implies (#[trigger] after[i]).addr
            + META_SIZE <= (#[trigger] after[j]).addr by {
            if j < n {
                assert(self.slots[i].addr + META_SIZE <= self.slots[j].addr);
            } else if i < n - 1 {
                assert(self.slots[i].addr + META_SIZE <= self.slots[n - 1].addr);
            }
        }
        assert forall|i: int, j: int| 0 <= i && j == i + 1 && j < after.len() implies {
            &&& (#[trigger] after[j]).below == (#[trigger] after[i]).addr
            &&& after[j].start matches Some(p) ==> after[i].addr + META_SIZE <= p <= after[j].addr
        } by {
            if j < n {
                assert(self.slots[j].below == self.slots[i].addr);
            }
        }
    }

    /// Marking a record leaves a stack.
    #[verifier::rlimit(40)]
    pub proof fn lemma_mark_wf(self, k: int)
        requires
            self.wf(),
            1 <= k < self.slots.len(),
        ensures
            (Stack { slots: self.slots.update(k, Slot { start: None, ..self.slots[k] }), ..self }).wf(),
    {
        let after = self.slots.update(k, Slot { start: None, ..self.slots[k] });
        assert forall|i: int| 0 <= i < after.len() implies (#[trigger] after[i]).addr
            == self.slots[i].addr && after[i].below == self.slots[i].below by {}
        assert forall|i: int|
            0 <= i < after.len() implies {
            &&& self.start <= (#[trigger] after[i]).addr
            &&& after[i].addr + META_SIZE <= self.end
        } by {
            assert(self.start <= self.slots[i].addr);
        }
        assert forall|i: int, j: int| 0 <= i < j < after.len() implies (#[trigger] after[i]).addr
            + META_SIZE <= (#[trigger] after[j]).addr by {
            assert(self.slots[i].addr + META_SIZE <= self.slots[j].addr);
        }
        assert forall|i: int, j: int| 0 <= i && j == i + 1 && j < after.len() implies {
            &&& (#[trigger] after[j]).below == (#[trigger] after[i]).addr
            &&& after[j].start matches Some(p) ==> after[i].addr + META_SIZE <= p <= after[j].addr
        } by {
            assert(self.slots[j].below == self.slots[i].addr);
        }
    }
}

/// What the store holds for a record.
pub open spec fn stored(slot: Slot) -> AlloqMetaData {
    AlloqMetaData {
        start: match slot.start {
            Some(p) => Some(p as usize),
            None => None,
        },
        last_meta: slot.below as usize,
    }
}

/// The store holds exactly the records `slots`.
pub open spec fn mirrored(slots: Seq<Slot>, records: Map<usize, AlloqMetaData>) -> bool {
    &&& forall|i: int|
        0 <= i < slots.len() ==> {
            &&& records.contains_key((#[trigger] slots[i]).addr as usize)
            &&& records[slots[i].addr as usize] == stored(slots[i])
        }
    &&& forall|a: usize|
        records.contains_key(a) ==> exists|i: int|
            0 <= i < slots.len() && (#[trigger] slots[i]).addr == a
}

#[verifier::rlimit(40)]
proof fn lemma_push_mirrored(v: Stack, records: Map<usize, AlloqMetaData>, slot: Slot)
    requires
        v.wf(),
        mirrored(v.slots, records),
        v.top() + META_SIZE <= slot.addr <= usize::MAX,
    ensures
        mirrored(v.slots.push(slot), records.insert(slot.addr as usize, stored(slot))),
{
    let after = v.slots.push(slot);
    let n = v.slots.len() as int;
    let recs = records.insert(slot.addr as usize, stored(slot));
    assert forall|i: int| 0 <= i < after.len() implies {
        &&& recs.contains_key((#[trigger] after[i]).addr as usize)
        &&& recs[after[i].addr as usize] == stored(after[i])
    } by {
        if i < n {
            assert(after[i] == v.slots[i]);
            if i < n - 1 {
                assert(v.slots[i].addr + META_SIZE <= v.slots[n - 1].addr);
            }
            assert(v.start <= v.slots[i].addr);
        }
    }
    assert forall|a: usize| recs.contains_key(a) implies exists|i: int|
        0 <= i < after.len() && (#[trigger] after[i]).addr == a by {
        if a == slot.addr as usize {
            assert(after[n].addr == a);
        } else {
            let i = choose|i: int| 0 <= i < n && (#[trigger] v.slots[i]).addr == a;
            assert(after[i].addr == a);
        }
    }
}

#[verifier::rlimit(40)]
proof fn lemma_mark_mirrored(v: Stack, records: Map<usize, AlloqMetaData>, k: int)
    requires
        v.wf(),
        mirrored(v.slots, records),
        1 <= k < v.slots.len(),
    ensures
        mirrored(
            v.slots.update(k, Slot { start: None, ..v.slots[k] }),
            records.insert(
                v.slots[k].addr as usize,
                AlloqMetaData { start: None, last_meta: records[v.slots[k].addr as usize].last_meta },
            ),
        ),
{
    let marked = Slot { start: None, ..v.slots[k] };
    let after = v.slots.update(k, marked);
    let recs = records.insert(
        v.slots[k].addr as usize,
        AlloqMetaData { start: None, last_meta: records[v.slots[k].addr as usize].last_meta },
    );
    assert(records[v.slots[k].addr as usize] == stored(v.slots[k]));
    assert forall|i: int| 0 <= i < after.len() implies {
        &&& recs.contains_key((#[trigger] after[i]).addr as usize)
        &&& recs[after[i].addr as usize] == stored(after[i])
    } by {
        assert(v.start <= v.slots[i].addr);
        assert(v.start <= v.slots[k].addr);
        if i != k {
            v.lemma_addresses_increase(i, k);
            assert(after[i] == v.slots[i]);
        }
    }
    assert forall|a: usize| recs.contains_key(a) implies exists|i: int|
        0 <= i < after.len() && (#[trigger] after[i]).addr == a by {
        if a == v.slots[k].addr as usize {
            assert(v.start <= v.slots[k].addr);
            assert(after[k].addr == a);
        } else {
            let i = choose|i: int| 0 <= i < v.slots.len() && (#[trigger] v.slots[i]).addr == a;
            assert(after[i].addr == a);
        }
    }
}

#[verifier::rlimit(40)]
proof fn lemma_pop_mirrored(v: Stack, records: Map<usize, AlloqMetaData>)
    requires
        v.wf(),
        mirrored(v.slots, records),
        v.slots.len() > 1,
    ensures
        mirrored(v.slots.drop_last(), records.remove(v.top() as usize)),
{
    let rest = v.slots.drop_last();
    let n = v.slots.len() as int;
    let recs = records.remove(v.top() as usize);
    assert forall|i: int| 0 <= i < rest.len() implies {
        &&& recs.contains_key((#[trigger] rest[i]).addr as usize)
        &&& recs[rest[i].addr as usize] == stored(rest[i])
    } by {
        assert(rest[i] == v.slots[i]);
        assert(v.slots[i].addr + META_SIZE <= v.slots[n - 1].addr);
        assert(v.start <= v.slots[i].addr);
    }
    assert forall|a: usize| recs.contains_key(a) implies exists|i: int|
        0 <= i < rest.len() && (#[trigger] rest[i]).addr == a by {
        let i = choose|i: int| 0 <= i < n && (#[trigger] v.slots[i]).addr == a;
        assert(v.start <= v.slots[n - 1].addr);
        assert(rest[i].addr == a);
    }
}

/// A stack allocator over `[heap_start, heap_end)`.
pub struct Alloq {
    pub heap_start: usize,
    pub heap_end: usize,
    /// Address of the most recent record.
    pub last_meta: usize,
    /// The records in the region.
    pub records: Store<AlloqMetaData>,
    /// The records from the bottom up.
    pub slots: Ghost<Seq<Slot>>,
}

impl View for Alloq {
    type V = Stack;

    open spec fn view(&self) -> Stack {
        Stack { start: self.heap_start as int, end: self.heap_end as int, slots: self.slots@ }
    }
}

impl Alloq {
    /// The store holds exactly the records of the stack, and the most recent one is
    /// the top of the stack.
    pub open spec fn mirrors(&self) -> bool {
        &&& self@.wf()
        &&& self.last_meta == self@.top()
        &&& mirrored(self.slots@, self.records@)
    }

    /// Writes the padding record of the region into an empty store and returns its
    /// address; `None` where the region has no room for it.
    pub fn pad_alloc(heap_range: Range<usize>, records: &mut Store<AlloqMetaData>) -> (r: Option<
        usize,
    >)
        requires
            old(records)@ == Map::<usize, AlloqMetaData>::empty(),
            heap_range.start <= heap_range.end,
        ensures
            r is Some <==> Stack::pad(heap_range.start as int) + META_SIZE <= heap_range.end,
            r matches Some(a) ==> a == Stack::pad(heap_range.start as int) && final(records)@
                == Map::<usize, AlloqMetaData>::empty().insert(
                a,
                AlloqMetaData { start: None, last_meta: 0 },
            ),
            r is None ==> final(records)@ == old(records)@,
    {
        proof {
            lemma_meta_align();
            bits::lemma_align_up_bounds(heap_range.start as int, META_ALIGN as int);
        }
        let addr: usize = match checked_align_up(heap_range.start, META_ALIGN) {
            Some(a) => a,
            None => {
                return None;
            },
        };
        if addr > heap_range.end || heap_range.end - addr < META_SIZE {
            return None;
        }
        records.write(addr, AlloqMetaData::new(0, 0));
        Some(addr)
    }
}

impl Alloqator for Alloq {
    open spec fn inv(&self) -> bool {
        self.mirrors() && self@.settled()
    }

    open spec fn start(&self) -> int {
        self.heap_start as int
    }

    open spec fn end(&self) -> int {
        self.heap_end as int
    }

    open spec fn occupied(&self) -> Set<int> {
        block(self.start(), self@.top() + META_SIZE - self.start())
    }

    open spec fn pristine(&self) -> bool {
        self@ == self@.emptied()
    }

    open spec fn accepts(&self, layout: Layout) -> bool {
        self@.accepts(layout)
    }

    open spec fn hosts(heap_range: Range<usize>) -> bool {
        &&& 0 < heap_range.start <= heap_range.end
        &&& Stack::pad(heap_range.start as int) + META_SIZE <= heap_range.end
    }

    open spec fn serves(&self, after: &Self, layout: Layout, r: Result<usize, AllocError>) -> bool {
        &&& after@ == self@.after_allocate(layout)
        &&& r == if self@.accepts(layout) {
            Ok::<usize, AllocError>(self@.place(layout) as usize)
        } else if self@.fits_word(layout) {
            Err::<usize, AllocError>(AllocError::OutOfMemory)
        } else {
            Err::<usize, AllocError>(AllocError::InvalidLayout)
        }
    }

    open spec fn can_free(&self, ptr: usize, layout: Layout) -> bool {
        self@.holds(ptr as int, layout.size as int)
    }

    open spec fn hands_back(&self, after: &Self, ptr: usize, layout: Layout) -> bool {
        after@ == self@.after_deallocate(ptr as int, layout.size as int)
    }

    open spec fn meta_size() -> nat {
        META_SIZE as nat
    }

    open spec fn meta_align() -> nat {
        META_ALIGN as nat
    }

    fn metadata_size() -> (r: usize) {
        META_SIZE
    }

    fn metadata_align() -> (r: usize) {
        META_ALIGN
    }

    /// Fails where the region begins at the null address, ends before it begins, or
    /// has no room for the padding record.
    fn new(heap_range: Range<usize>) -> (r: Result<Self, AllocError>)
        ensures
            r is Err <==> heap_range.start == 0 || heap_range.end < heap_range.start || Stack::pad(
                heap_range.start as int,
            ) + META_SIZE > heap_range.end,
    {
        assert(Self::hosts(heap_range) <==> 0 < heap_range.start <= heap_range.end && Stack::pad(
            heap_range.start as int,
        ) + META_SIZE <= heap_range.end);
        if heap_range.start == 0 || heap_range.end < heap_range.start {
            return Err(AllocError::InvalidHeap);
        }
        let mut records: Store<AlloqMetaData> = Store::new();
        let pad: usize = match Self::pad_alloc(
            Range { start: heap_range.start, end: heap_range.end },
            &mut records,
        ) {
            Some(a) => a,
            None => {
                return Err(AllocError::InvalidHeap);
            },
        };
        proof {
            lemma_meta_align();
            bits::lemma_align_up_bounds(heap_range.start as int, META_ALIGN as int);
        }
        let a = Alloq {
            heap_start: heap_range.start,
            heap_end: heap_range.end,
            last_meta: pad,
            records,
            slots: Ghost(Seq::empty().push(Stack::bottom(heap_range.start as int))),
        };
        proof {
            assert(a@.slots =~= a@.emptied().slots);
            assert(a@.slots[0] == Stack::bottom(a@.start));
        }
        Ok(a)
    }

    /// The block begins behind the most recent record, rounded up to the alignment;
    /// its own record follows it and becomes the most recent one.
    #[verifier::rlimit(40)]
    fn allocate(&mut self, layout: Layout) -> (r: Result<usize, AllocError>)
        ensures
            match r {
                Ok(p) => p == old(self)@.place(layout),
                Err(e) => e == if old(self)@.fits_word(layout) {
                    AllocError::OutOfMemory
                } else {
                    AllocError::InvalidLayout
                },
            },
            final(self)@ == old(self)@.after_allocate(layout),
    {
        proof {
            lemma_meta_align();
            let n = self.slots@.len() as int;
            assert(self.slots@[n - 1].addr + META_SIZE <= self.heap_end);
            assert(self.heap_start <= self.slots@[n - 1].addr);
        }
        let end: usize = self.last_meta + META_SIZE;
        let ptr: usize = match checked_align_up(end, layout.align) {
            Some(p) => p,
            None => {
                proof {
                    if layout.valid() {
                        bits::lemma_pow2_positive(layout.align);
                        bits::lemma_align_up_bounds(
                            self@.place(layout) + layout.size,
                            META_ALIGN as int,
                        );
                    }
                }
                return Err(AllocError::InvalidLayout);
            },
        };
        proof {
            bits::lemma_pow2_positive(layout.align);
            bits::lemma_align_up_bounds(end as int, layout.align as int);
            bits::lemma_align_up_bounds(ptr + layout.size, META_ALIGN as int);
        }
        if layout.size > usize::MAX - ptr {
            return Err(AllocError::InvalidLayout);
        }
        let new_meta: usize = match checked_align_up(ptr + layout.size, META_ALIGN) {
            Some(a) => a,
            None => {
                return Err(AllocError::OutOfMemory);
            },
        };
        if new_meta > self.heap_end - META_SIZE {
            return Err(AllocError::OutOfMemory);
        }
        let ghost slot = Slot {
            addr: new_meta as int,
            start: Some(ptr as int),
            below: self.last_meta as int,
        };
        proof {
            self@.lemma_push_wf(slot);
            lemma_push_mirrored(self@, self.records@, slot);
        }
        let written: usize = AlloqMetaData::new(ptr, self.last_meta).write_meta(
            &mut self.records,
            layout,
        );
        self.last_meta = written;
        self.slots = Ghost(self.slots@.push(slot));
        proof {
            assert(self.slots@.last() == slot);
            assert(old(self).occupied().subset_of(self.occupied()));
        }
        Ok(ptr)
    }

    /// Marks the record of the block, then takes marked records off the top. An
    /// address whose record is missing or already marked is refused.
    #[verifier::rlimit(40)]
    fn deallocate(&mut self, ptr: usize, layout: Layout) -> (r: Result<(), AllocError>)
        ensures
            r is Ok <==> old(self)@.holds(ptr as int, layout.size as int),
            final(self)@ == old(self)@.after_deallocate(ptr as int, layout.size as int),
    {
        assert(self.can_free(ptr, layout) <==> self@.holds(ptr as int, layout.size as int));
        let addr: usize = match AlloqMetaData::from_alloc_ptr(ptr, layout) {
            Some(a) => a,
            None => {
                proof {
                    assert forall|i: int| !self@.is_record_of(i, ptr as int, layout.size as int) by {
                        if 0 <= i < self.slots@.len() {
                            assert(self.slots@[i].addr + META_SIZE <= self.heap_end);
                        }
                    }
                }
                return Err(AllocError::InvalidFree);
            },
        };
        let rec: AlloqMetaData = match self.records.read(addr) {
            Some(rec) => rec,
            None => {
                proof {
                    assert forall|i: int| !self@.is_record_of(i, ptr as int, layout.size as int) by {
                        if 0 <= i < self.slots@.len() {
                            assert(self.slots@[i].addr + META_SIZE <= self.heap_end);
                            assert(self.heap_start <= self.slots@[i].addr);
                            assert(self.records@.contains_key(self.slots@[i].addr as usize));
                        }
                    }
                }
                return Err(AllocError::InvalidFree);
            },
        };
        let matches: bool = match rec.start {
            Some(p) => p == ptr,
            None => false,
        };
        assert(self.records@.contains_key(addr));
        let ghost k = choose|i: int|
            0 <= i < self.slots@.len() && (#[trigger] self.slots@[i]).addr == addr;
        proof {
            assert(self.records@[self.slots@[k].addr as usize] == stored(self.slots@[k]));
            if k >= 1 {
                assert(self.slots@[k].below == self.slots@[k - 1].addr);
                assert(self.heap_start <= self.slots@[k - 1].addr);
                assert(self.slots@[k].addr + META_SIZE <= self.heap_end);
            }
            assert forall|i: int| self@.is_record_of(i, ptr as int, layout.size as int) implies i
                == k by {
                if i != k {
                    self@.lemma_addresses_increase(i, k);
                }
            }
            if matches {
                assert(self.slots@[0] == Stack::bottom(self@.start));
                assert(self@.is_record_of(k, ptr as int, layout.size as int));
            }
        }
        if !matches {
            proof {
                assert forall|i: int| !self@.is_record_of(i, ptr as int, layout.size as int) by {
                    if self@.is_record_of(i, ptr as int, layout.size as int) {
                        assert(i == k);
                        assert(self.slots@[k].start == Some(ptr as int));
                    }
                }
            }
            return Err(AllocError::InvalidFree);
        }
        let ghost marked = self.slots@.update(k, Slot { start: None, ..self.slots@[k] });
        proof {
            self@.lemma_mark_wf(k);
            lemma_mark_mirrored(self@, self.records@, k);
            let i = choose|i: int| self@.is_record_of(i, ptr as int, layout.size as int);
            assert(i == k);
        }
        self.records.write(addr, AlloqMetaData { start: None, last_meta: rec.last_meta });
        self.slots = Ghost(marked);
        loop
            invariant
                self.mirrors(),
                self.heap_start == old(self).heap_start,
                self.heap_end == old(self).heap_end,
                unwound(self.slots@) == unwound(marked),
                self.slots@.len() <= marked.len(),
                self@.top() <= old(self)@.top(),
            ensures
                self.mirrors(),
                self@.settled(),
                self.heap_start == old(self).heap_start,
                self.heap_end == old(self).heap_end,
                self.slots@ == unwound(marked),
                self@.top() <= old(self)@.top(),
            decreases self.slots@.len(),
        {
            let ghost cur = self@;
            let ghost n = cur.slots.len() as int;
            let top: AlloqMetaData = match self.records.read(self.last_meta) {
                Some(t) => t,
                None => AlloqMetaData { start: None, last_meta: 0 },
            };
            proof {
                assert(self.records@.contains_key(cur.slots[n - 1].addr as usize));
                assert(top == stored(cur.slots[n - 1]));
                assert(cur.slots[0] == Stack::bottom(cur.start));
                if n > 1 {
                    assert(cur.slots[n - 1].below == cur.slots[n - 2].addr);
                    assert(cur.start <= cur.slots[n - 2].addr);
                    assert(cur.slots[n - 2].addr + META_SIZE <= cur.slots[n - 1].addr);
                }
            }
            if top.start.is_some() || top.last_meta == 0 {
                break ;
            }
            proof {
                let rest = Stack { slots: cur.slots.drop_last(), ..cur };
                rest.lemma_prefix_wf(cur);
                lemma_pop_mirrored(cur, self.records@);
            }
            self.records.erase(self.last_meta);
            self.last_meta = top.last_meta;
            self.slots = Ghost(cur.slots.drop_last());
        }
        Ok(())
    }

    fn reset(&mut self)
        ensures
            final(self)@ == old(self)@.emptied(),
    {
        proof {
            lemma_meta_align();
            bits::lemma_align_up_bounds(self.heap_start as int, META_ALIGN as int);
            assert(self.slots@[0] == Stack::bottom(self@.start));
            assert(self.slots@[0].addr + META_SIZE <= self.heap_end);
        }
        self.records.clear();
        let pad: usize = match Self::pad_alloc(
            Range { start: self.heap_start, end: self.heap_end },
            &mut self.records,
        ) {
            Some(a) => a,
            None => self.heap_start,
        };
        self.last_meta = pad;
        self.slots = Ghost(Seq::empty().push(Stack::bottom(self.heap_start as int)));
        proof {
            assert(self@.slots =~= old(self)@.emptied().slots);
            assert(self@.slots[0] == Stack::bottom(self@.start));
        }
    }

    fn heap_start(&self) -> (r: usize) {
        self.heap_start
    }

    fn heap_end(&self) -> (r: usize) {
        self.heap_end
    }
}

} // verus!
