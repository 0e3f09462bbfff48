//! The free-list policies: every block in use is an extent of the region that
//! begins with a record and ends with the block. The records form a doubly linked
//! list in address order, anchored by an empty extent at the start of the region.
//! A request is placed in the gap behind one of the records; first-fit and best-fit
//! differ in which gap they pick.

use vstd::prelude::*;
use core::marker::PhantomData;
use core::ops::Range;
use crate::{AllocError, Alloqator, Layout, align_up_spec, block, checked_align_up};
use crate::bits;
use crate::store::Store;

pub mod best;
pub mod first;

verus! {

/// Bytes that a record takes in the region.
pub const META_SIZE: usize = 24;

/// Alignment of a record in the region.
pub const META_ALIGN: usize = 8;

/// The record at the head of an extent.
#[derive(Clone, Copy, Debug)]
pub struct AlloqMetaData {
    /// First address past the extent's block.
    pub end: usize,
    /// Address of the next record, zero for the last.
    pub next: usize,
    /// Address of the record before, zero for the first.
    pub back: usize,
}

proof fn lemma_meta_align()
    ensures
        vstd::arithmetic::power2::is_pow2(META_ALIGN as int),
{
    bits::lemma_single_bit(META_ALIGN);
    assert(8usize & 7usize == 0) by (bit_vector);
}

/// Where the record of an extent lies that begins in a gap starting at `from`.
pub open spec fn meta_in(from: int) -> int {
    align_up_spec(from, META_ALIGN as int)
}

/// Where the block of an extent begins that is placed in a gap starting at `from`.
pub open spec fn user_in(from: int, layout: Layout) -> int {
    align_up_spec(meta_in(from) + META_SIZE, layout.align as int)
}

/// Where an extent ends that is placed in a gap starting at `from`.
pub open spec fn end_in(from: int, layout: Layout) -> int {
    user_in(from, layout) + layout.size
}

/// The parts of an extent lie one behind the other.
pub proof fn lemma_extent_order(from: int, layout: Layout)
    requires
        layout.valid(),
    ensures
        from <= meta_in(from) < from + META_ALIGN,
        meta_in(from) % (META_ALIGN as int) == 0,
        meta_in(from) + META_SIZE <= user_in(from, layout) < meta_in(from) + META_SIZE
            + layout.align,
        user_in(from, layout) % (layout.align as int) == 0,
        user_in(from, layout) <= end_in(from, layout),
{
    lemma_meta_align();
    bits::lemma_pow2_positive(layout.align);
    bits::lemma_align_up_bounds(from, META_ALIGN as int);
    bits::lemma_align_up_bounds(meta_in(from) + META_SIZE, layout.align as int);
}

/// Walks a list of records from one of them to the last.
pub struct AlloqMetaDataIter(pub usize);

impl AlloqMetaDataIter {
    /// The address of the record the walk stands at, and a step to the one after
    /// it; `None` behind the last record, or where no record lies at the address.
    pub fn next(&mut self, table: &Store<AlloqMetaData>) -> (r: Option<usize>)
        ensures
            r == if old(self).0 != 0 && table@.contains_key(old(self).0) {
                Some(old(self).0)
            } else {
                None::<usize>
            },
            r is Some ==> final(self).0 == table@[old(self).0].next,
            r is None ==> final(self).0 == old(self).0,
    {
        let at: usize = self.0;
        if at == 0 {
            return None;
        }
        match table.read(at) {
            Some(rec) => {
                self.0 = rec.next;
                Some(at)
            },
            None => None,
        }
    }
}

impl AlloqMetaData {
    /// Where an extent for `layout` ends that is placed in a gap starting at `ptr`;
    /// `None` where the alignment is no power of two or the end is no address.
    pub fn end_of_allocation(ptr: usize, layout: Layout) -> (r: Option<usize>)
        ensures
            r is Some <==> layout.valid() && end_in(ptr as int, layout) <= usize::MAX,
            r matches Some(e) ==> e == end_in(ptr as int, layout),
    {
        proof {
            lemma_meta_align();
            bits::lemma_align_up_bounds(ptr as int, META_ALIGN as int);
            if layout.valid() {
                lemma_extent_order(ptr as int, layout);
            }
        }
        let align: usize = match checked_align_up(ptr, META_ALIGN) {
            Some(a) => a,
            None => {
                return None;
            },
        };
        if align > usize::MAX - META_SIZE {
            return None;
        }
        let obj_align: usize = match checked_align_up(align + META_SIZE, layout.align) {
            Some(a) => a,
            None => {
                return None;
            },
        };
        if layout.size > usize::MAX - obj_align {
            return None;
        }
        Some(obj_align + layout.size)
    }

    /// Puts the record at `ptr` and returns that address.
    pub fn write(&self, table: &mut Store<AlloqMetaData>, ptr: usize) -> (at: usize)
        ensures
            at == ptr,
            final(table)@ == old(table)@.insert(ptr, *self),
    {
        table.write(ptr, *self);
        ptr
    }

    /// Makes the record at `next` the successor of the one at `back`.
    pub fn connect_unchecked(table: &mut Store<AlloqMetaData>, back: usize, next: usize)
        requires
            old(table)@.contains_key(back),
            old(table)@.contains_key(next),
            back != next,
        ensures
            final(table)@ == old(table)@.insert(
                back,
                AlloqMetaData { next, ..old(table)@[back] },
            ).insert(next, AlloqMetaData { back, ..old(table)@[next] }),
    {
        if let Some(b) = table.read(back) {
            table.write(back, AlloqMetaData { end: b.end, next, back: b.back });
        }
        if let Some(n) = table.read(next) {
            table.write(next, AlloqMetaData { end: n.end, next: n.next, back });
        }
    }

    /// Takes the record at `at` out of its list: its neighbours are joined and its
    /// own links are cleared.
    pub fn disconnect(table: &mut Store<AlloqMetaData>, at: usize)
        requires
            old(table)@.contains_key(at),
        ensures
            final(table)@ == unlinked(old(table)@, at),
    {
        let rec: AlloqMetaData = match table.read(at) {
            Some(r) => r,
            None => AlloqMetaData { end: 0, next: 0, back: 0 },
        };
        if rec.back != 0 {
            if let Some(b) = table.read(rec.back) {
                table.write(rec.back, AlloqMetaData { end: b.end, next: rec.next, back: b.back });
            }
        }
        if rec.next != 0 {
            if let Some(n) = table.read(rec.next) {
                table.write(rec.next, AlloqMetaData { end: n.end, next: n.next, back: rec.back });
            }
        }
        if let Some(own) = table.read(at) {
            table.write(at, AlloqMetaData { end: own.end, next: 0, back: 0 });
        }
    }

    /// A walk over the list that begins at the record at `at`.
    pub fn iter(at: usize) -> (it: AlloqMetaDataIter)
        ensures
            it.0 == at,
    {
        AlloqMetaDataIter(at)
    }
}

/// The store after the record at `at` has left its list.
pub open spec fn unlinked(table: Map<usize, AlloqMetaData>, at: usize) -> Map<usize, AlloqMetaData> {
    let rec = table[at];
    let t1 = if rec.back != 0 && table.contains_key(rec.back) {
        table.insert(rec.back, AlloqMetaData { next: rec.next, ..table[rec.back] })
    } else {
        table
    };
    let t2 = if rec.next != 0 && t1.contains_key(rec.next) {
        t1.insert(rec.next, AlloqMetaData { back: rec.back, ..t1[rec.next] })
    } else {
        t1
    };
    t2.insert(at, AlloqMetaData { end: t2[at].end, next: 0, back: 0 })
}

/// An extent as the contracts see it.
pub struct Extent {
    /// Where its record lies.
    pub meta: int,
    /// First address past its block.
    pub end: int,
}

/// The allocator as the contracts see it: the region and the extents in it, in
/// list order. The first is the anchor, which holds no block.
pub struct Extents {
    pub start: int,
    pub end: int,
    pub list: Seq<Extent>,
}

impl Extents {
    /// The anchor of a region that begins at `start`.
    pub open spec fn anchor(start: int) -> Extent {
        Extent { meta: meta_in(start), end: meta_in(start) + META_SIZE }
    }

    /// The extents lie in the region in list order, none reaching into the next.
    pub open spec fn wf(self) -> bool {
        &&& 0 < self.start <= self.end <= usize::MAX
        &&& self.list.len() >= 1
        &&& self.list[0] == Self::anchor(self.start)
        &&& forall|i: int|
            0 <= i < self.list.len() ==> {
                &&& self.start <= (#[trigger] self.list[i]).meta
                &&& self.list[i].meta + META_SIZE <= self.list[i].end <= self.end
            }
        &&& forall|i: int, j: int|
            0 <= i < j < self.list.len() ==> (#[trigger] self.list[i]).end <= (
            #[trigger] self.list[j]).meta
    }

    /// Where the gap behind the extent at index `i` ends: at the next record, or at
    /// the end of the region.
    pub open spec fn limit(self, i: int) -> int {
        if i + 1 < self.list.len() {
            self.list[i + 1].meta
        } else {
            self.end
        }
    }

    /// The gap behind the extent at index `i` has room for an extent for `layout`.
    pub open spec fn admits(self, i: int, layout: Layout) -> bool {
        layout.valid() && end_in(self.list[i].end, layout) <= self.limit(i)
    }

    /// What is left of the gap behind the extent at index `i` once an extent for
    /// `layout` is placed in it.
    pub open spec fn slack(self, i: int, layout: Layout) -> int {
        self.limit(i) - end_in(self.list[i].end, layout)
    }

    /// Some gap has room for an extent for `layout`.
    pub open spec fn admits_any(self, layout: Layout) -> bool {
        exists|i: int| 0 <= i < self.list.len() && self.admits(i, layout)
    }

    /// The extent for `layout` placed behind the extent at index `i`.
    pub open spec fn placed(self, i: int, layout: Layout) -> Extent {
        Extent { meta: meta_in(self.list[i].end), end: end_in(self.list[i].end, layout) }
    }

    /// The state with an extent for `layout` placed behind the extent at index `i`.
    pub open spec fn after_insert(self, i: int, layout: Layout) -> Extents {
        Extents { list: self.list.insert(i + 1, self.placed(i, layout)), ..self }
    }

    /// The extent at index `k` holds a block that ends at `ptr_end`.
    pub open spec fn ends_at(self, k: int, ptr_end: int) -> bool {
        1 <= k < self.list.len() && self.list[k].end == ptr_end
    }

    /// Some block in use ends at `ptr_end`.
    pub open spec fn holds(self, ptr_end: int) -> bool {
        exists|k: int| self.ends_at(k, ptr_end)
    }

    /// The state without the extent whose block ends at `ptr_end`.
    pub open spec fn after_remove(self, ptr_end: int) -> Extents {
        if self.holds(ptr_end) {
            Extents { list: self.list.remove(choose|k: int| self.ends_at(k, ptr_end)), ..self }
        } else {
            self
        }
    }

    /// A record of the list lies at `meta`.
    pub open spec fn has(self, meta: int) -> bool {
        exists|i: int| 0 <= i < self.list.len() && (#[trigger] self.list[i]).meta == meta
    }

    /// Index of the extent whose record lies at `meta`.
    pub open spec fn index_of(self, meta: int) -> int {
        choose|i: int| 0 <= i < self.list.len() && (#[trigger] self.list[i]).meta == meta
    }

    /// Index of the first extent, from index `from` on, whose gap admits `layout`;
    /// the length of the list where there is none.
    pub open spec fn first_from(self, layout: Layout, from: int) -> int
        decreases self.list.len() - from,
    {
        if from >= self.list.len() {
            self.list.len() as int
        } else if self.admits(from, layout) {
            from
        } else {
            self.first_from(layout, from + 1)
        }
    }

    /// Index of the extent, among the first `n`, whose gap admits `layout` and
    /// leaves the least slack, the earliest of them where several do; `-1` where
    /// there is none.
    pub open spec fn best_upto(self, layout: Layout, n: int) -> int
        decreases n,
    {
        if n <= 0 {
            -1
        } else {
            let b = self.best_upto(layout, n - 1);
            if self.admits(n - 1, layout) && (b < 0 || self.slack(n - 1, layout) < self.slack(
                b,
                layout,
            )) {
                n - 1
            } else {
                b
            }
        }
    }

    /// `first_from` finds an admitting gap where there is one at or behind `from`,
    /// and none lies between `from` and what it finds.
    pub proof fn lemma_first_from(self, layout: Layout, from: int)
        requires
            0 <= from <= self.list.len(),
        ensures
            from <= self.first_from(layout, from) <= self.list.len(),
            self.first_from(layout, from) < self.list.len() ==> self.admits(
                self.first_from(layout, from),
                layout,
            ),
            forall|j: int| from <= j < self.first_from(layout, from) ==> !self.admits(j, layout),
        decreases self.list.len() - from,
    {
        if from < self.list.len() && !self.admits(from, layout) {
            self.lemma_first_from(layout, from + 1);
        }
    }

    /// `best_upto` finds an admitting gap where there is one among the first `n`,
    /// and none of them leaves less slack, nor the same slack earlier.
    pub proof fn lemma_best_upto(self, layout: Layout, n: int)
        requires
            0 <= n <= self.list.len(),
        ensures
            -1 <= self.best_upto(layout, n) < n,
            self.best_upto(layout, n) >= 0 ==> self.admits(self.best_upto(layout, n), layout),
            forall|j: int|
                0 <= j < n && self.admits(j, layout) ==> {
                    let b = self.best_upto(layout, n);
                    &&& b >= 0
                    &&& self.slack(b, layout) <= self.slack(j, layout)
                    &&& self.slack(b, layout) == self.slack(j, layout) ==> b <= j
                },
        decreases n,
    {
        if n > 0 {
            self.lemma_best_upto(layout, n - 1);
        }
    }

    /// Best-fit never leaves more slack than first-fit does in the same state.
    pub proof fn lemma_best_fit_gap(self, layout: Layout)
        requires
            self.admits_any(layout),
        ensures
            self.slack(BestFit::choice(self, layout), layout) <= self.slack(
                FirstFit::choice(self, layout),
                layout,
            ),
    {
        self.lemma_first_from(layout, 0);
        self.lemma_best_upto(layout, self.list.len() as int);
    }

    /// No two extents have their record at the same address, so a record's address
    /// tells its index.
    pub proof fn lemma_index_of(self, i: int)
        requires
            self.wf(),
            0 <= i < self.list.len(),
        ensures
            self.has(self.list[i].meta),
            self.index_of(self.list[i].meta) == i,
    {
        let j = self.index_of(self.list[i].meta);
        if i != j {
            self.lemma_distinct(i, j);
        }
    }

    /// No two extents end at the same address, so a block's end tells its extent.
    pub proof fn lemma_ends_at(self, k: int, ptr_end: int)
        requires
            self.wf(),
            self.ends_at(k, ptr_end),
        ensures
            self.holds(ptr_end),
            (choose|j: int| self.ends_at(j, ptr_end)) == k,
    {
        let j = choose|j: int| self.ends_at(j, ptr_end);
        if j != k {
            self.lemma_distinct(j, k);
        }
    }

    /// Which of the requests `layouts`, made one after another from this state on
    /// and each placed behind the extent that `pick` names, succeed.
    pub open spec fn decisions(
        self,
        pick: spec_fn(Extents, Layout) -> int,
        layouts: Seq<Layout>,
    ) -> Seq<bool>
        decreases layouts.len(),
    {
        if layouts.len() == 0 {
            Seq::empty()
        } else {
            let next = if self.admits_any(layouts[0]) {
                self.after_insert(pick(self, layouts[0]), layouts[0])
            } else {
                self
            };
            seq![self.admits_any(layouts[0])] + next.decisions(pick, layouts.skip(1))
        }
    }

    /// Resetting twice is resetting once.
    pub proof fn lemma_reset_idempotent(self)
        ensures
            self.emptied().emptied() == self.emptied(),
    {
    }

    /// Any allocator in the state that construction leaves is in the state that a
    /// reset leaves over the same region, and so decides alike on every sequence of
    /// requests.
    pub proof fn lemma_empty_state_parity(
        fresh: Extents,
        used: Extents,
        pick: spec_fn(Extents, Layout) -> int,
        layouts: Seq<Layout>,
    )
        requires
            fresh == fresh.emptied(),
            fresh.start == used.start,
            fresh.end == used.end,
        ensures
            fresh == used.emptied(),
            fresh.decisions(pick, layouts) == used.emptied().decisions(pick, layouts),
    {
    }

    /// The state that `reset` leaves.
    pub open spec fn emptied(self) -> Extents {
        Extents { list: seq![Self::anchor(self.start)], ..self }
    }

    /// The addresses that belong to an extent.
    pub open spec fn occupied(self) -> Set<int> {
        Set::new(
            |a: int|
                exists|i: int|
                    0 <= i < self.list.len() && (#[trigger] self.list[i]).meta <= a
                        < self.list[i].end,
        )
    }

    /// Extents further down the list lie at higher addresses, so no two share an
    /// address or an end.
    pub proof fn lemma_distinct(self, i: int, j: int)
        requires
            self.wf(),
            0 <= i < self.list.len(),
            0 <= j < self.list.len(),
            i != j,
        ensures
            self.list[i].meta != self.list[j].meta,
            self.list[i].end != self.list[j].end,
            i < j ==> self.list[i].meta + META_SIZE <= self.list[j].meta,
    {
        assert(self.list[i].meta + META_SIZE <= self.list[i].end);
        assert(self.list[j].meta + META_SIZE <= self.list[j].end);
    }

    /// Placing an extent in a gap that admits it leaves the extents in order.
    #[verifier::rlimit(40)]
    pub proof fn lemma_insert_wf(self, i: int, layout: Layout)
        requires
            self.wf(),
            0 <= i < self.list.len(),
            self.admits(i, layout),
        ensures
            self.after_insert(i, layout).wf(),
    {
        let e = self.placed(i, layout);
        let after = self.list.insert(i + 1, e);
        lemma_extent_order(self.list[i].end, layout);
        assert(self.start <= self.list[i].meta);
        assert(self.list[i].meta + META_SIZE <= self.list[i].end);
        if i + 1 < self.list.len() {
            assert(self.list[i + 1].meta + META_SIZE <= self.list[i + 1].end <= self.end);
        }
        assert forall|j: int| 0 <= j < after.len() implies {
            &&& self.start <= (#[trigger] after[j]).meta
            &&& after[j].meta + META_SIZE <= after[j].end <= self.end
        } by {
            if j <= i {
                assert(after[j] == self.list[j]);
                assert(self.start <= self.list[j].meta);
            } else if j > i + 1 {
                assert(after[j] == self.list[j - 1]);
                assert(self.start <= self.list[j - 1].meta);
            }
        }
        assert forall|a: int, b: int| 0 <= a < b < after.len() implies (#[trigger] after[a]).end <= (
        #[trigger] after[b]).meta by {
            let x = if a <= i {
                a
            } else {
                a - 1
            };
            let y = if b <= i {
                b
            } else {
                b - 1
            };
            if a != i + 1 && b != i + 1 {
                assert(after[a] == self.list[x]);
                assert(after[b] == self.list[y]);
                assert(self.list[x].end <= self.list[y].meta);
            } else if b == i + 1 {
                assert(after[a] == self.list[a]);
                if a < i {
                    assert(self.list[a].end <= self.list[i].meta);
                }
            } else {
                assert(after[b] == self.list[b - 1]);
                if b - 1 > i + 1 {
                    assert(self.list[i + 1].end <= self.list[b - 1].meta);
                }
            }
        }
        assert(after[0] == self.list[0]);
    }

    /// Taking an extent out leaves the extents in order.
    #[verifier::rlimit(40)]
    pub proof fn lemma_remove_wf(self, k: int)
        requires
            self.wf(),
            1 <= k < self.list.len(),
        ensures
            (Extents { list: self.list.remove(k), ..self }).wf(),
    {
        let after = self.list.remove(k);
        assert forall|j: int| 0 <= j < after.len() implies {
            &&& self.start <= (#[trigger] after[j]).meta
            &&& after[j].meta + META_SIZE <= after[j].end <= self.end
        } by {
            if j < k {
                assert(after[j] == self.list[j]);
                assert(self.start <= self.list[j].meta);
            } else {
                assert(after[j] == self.list[j + 1]);
                assert(self.start <= self.list[j + 1].meta);
            }
        }
        assert forall|a: int, b: int| 0 <= a < b < after.len() implies (#[trigger] after[a]).end <= (
        #[trigger] after[b]).meta by {
            let x = if a < k {
                a
            } else {
                a + 1
            };
            let y = if b < k {
                b
            } else {
                b + 1
            };
            assert(after[a] == self.list[x]);
            assert(after[b] == self.list[y]);
            assert(self.list[x].end <= self.list[y].meta);
        }
        assert(after[0] == self.list[0]);
    }

    /// A block placed in a gap lies in the region, touches no extent that was there
    /// before, and belongs to an extent afterwards.
    #[verifier::rlimit(40)]
    pub proof fn lemma_insert_grants(self, i: int, layout: Layout)
        requires
            self.wf(),
            0 <= i < self.list.len(),
            self.admits(i, layout),
        ensures
            crate::grants(
                self.occupied(),
                self.after_insert(i, layout).occupied(),
                user_in(self.list[i].end, layout),
                layout.size as int,
            ),
            self.start <= user_in(self.list[i].end, layout),
            end_in(self.list[i].end, layout) <= self.end,
            user_in(self.list[i].end, layout) > 0,
    {
        let e = self.placed(i, layout);
        let after = self.after_insert(i, layout);
        let p = user_in(self.list[i].end, layout);
        lemma_extent_order(self.list[i].end, layout);
        assert(self.start <= self.list[i].meta);
        assert(self.list[i].meta + META_SIZE <= self.list[i].end);
        if i + 1 < self.list.len() {
            assert(self.list[i + 1].meta + META_SIZE <= self.list[i + 1].end <= self.end);
        }
        assert forall|a: int| block(p, layout.size as int).contains(a) implies !self.occupied().contains(
            a,
        ) && after.occupied().contains(a) by {
            assert forall|j: int| 0 <= j < self.list.len() implies !((#[trigger] self.list[j]).meta
                <= a < self.list[j].end) by {
                if j < i {
                    assert(self.list[j].end <= self.list[i].meta);
                } else if j > i + 1 {
                    assert(self.list[i + 1].end <= self.list[j].meta);
                }
            }
            assert(after.list[i + 1] == e);
            assert(after.list[i + 1].meta <= a < after.list[i + 1].end);
        }
        assert forall|a: int| self.occupied().contains(a) implies after.occupied().contains(a) by {
            let j = choose|j: int|
                0 <= j < self.list.len() && (#[trigger] self.list[j]).meta <= a < self.list[j].end;
            let t = if j <= i {
                j
            } else {
                j + 1
            };
            assert(after.list[t] == self.list[j]);
            assert(after.list[t].meta <= a < after.list[t].end);
        }
    }

    /// Taking an extent out adds no address to those in use.
    pub proof fn lemma_remove_shrinks(self, k: int)
        requires
            self.wf(),
            1 <= k < self.list.len(),
        ensures
            (Extents { list: self.list.remove(k), ..self }).occupied().subset_of(self.occupied()),
    {
        let after = Extents { list: self.list.remove(k), ..self };
        assert forall|a: int| after.occupied().contains(a) implies self.occupied().contains(a) by {
            let j = choose|j: int|
                0 <= j < after.list.len() && (#[trigger] after.list[j]).meta <= a
                    < after.list[j].end;
            let t = if j < k {
                j
            } else {
                j + 1
            };
            assert(after.list[j] == self.list[t]);
            assert(self.list[t].meta <= a < self.list[t].end);
        }
    }
}

/// What the store holds for the extent at index `i` of `list`.
pub open spec fn record_at(list: Seq<Extent>, i: int) -> AlloqMetaData {
    AlloqMetaData {
        end: list[i].end as usize,
        next: if i + 1 < list.len() {
            list[i + 1].meta as usize
        } else {
            0
        },
        back: if i > 0 {
            list[i - 1].meta as usize
        } else {
            0
        },
    }
}

/// The store holds the record of the extent at index `i` of `list`.
pub open spec fn keeps(list: Seq<Extent>, table: Map<usize, AlloqMetaData>, i: int) -> bool {
    &&& table.contains_key(list[i].meta as usize)
    &&& table[list[i].meta as usize] == record_at(list, i)
}

/// The store holds exactly the records of the extents `list`, linked in list order.
pub open spec fn mirrored(list: Seq<Extent>, table: Map<usize, AlloqMetaData>) -> bool {
    &&& forall|i: int| 0 <= i < list.len() ==> #[trigger] keeps(list, table, i)
    &&& forall|a: usize|
        table.contains_key(a) ==> exists|i: int|
            0 <= i < list.len() && (#[trigger] list[i]).meta == a
}

/// The store after a record that ends at `end` was written at `at` and linked in
/// behind the record at `back`.
pub open spec fn spliced(table: Map<usize, AlloqMetaData>, back: usize, at: usize, end: usize) -> Map<
    usize,
    AlloqMetaData,
> {
    let nx = table[back].next;
    let t0 = table.insert(at, AlloqMetaData { end, next: 0, back });
    let t1 = if nx != 0 {
        t0.insert(at, AlloqMetaData { next: nx, ..t0[at] }).insert(
            nx,
            AlloqMetaData { back: at, ..t0[nx] },
        )
    } else {
        t0
    };
    t1.insert(back, AlloqMetaData { next: at, ..t1[back] }).insert(
        at,
        AlloqMetaData { back, ..t1[at] },
    )
}

#[verifier::rlimit(40)]
proof fn lemma_insert_mirrored(v: Extents, table: Map<usize, AlloqMetaData>, i: int, e: Extent)
    requires
        v.wf(),
        mirrored(v.list, table),
        0 <= i < v.list.len(),
        v.list[i].end <= e.meta,
        e.meta + META_SIZE <= e.end <= v.limit(i),
    ensures
        mirrored(
            v.list.insert(i + 1, e),
            spliced(table, v.list[i].meta as usize, e.meta as usize, e.end as usize),
        ),
{
    let after = v.list.insert(i + 1, e);
    let n = v.list.len() as int;
    let back = v.list[i].meta as usize;
    let at = e.meta as usize;
    let t = spliced(table, back, at, e.end as usize);
    let nx = table[back].next;
    assert(keeps(v.list, table, i));
    assert(v.start <= v.list[i].meta && v.list[i].meta + META_SIZE <= v.list[i].end <= v.end);
    assert(back != at);
    if i + 1 < n {
        assert(keeps(v.list, table, i + 1));
        assert(v.start <= v.list[i + 1].meta && v.list[i + 1].meta + META_SIZE <= v.list[i
            + 1].end <= v.end);
        assert(nx == v.list[i + 1].meta as usize);
        assert(nx != at && nx != back && nx != 0);
    } else {
        assert(nx == 0);
    }
    assert(after[i] == v.list[i]);
    assert(after[i + 1] == e);
    assert(keeps(after, t, i)) by {
        if i > 0 {
            assert(after[i - 1] == v.list[i - 1]);
        }
    }
    assert(keeps(after, t, i + 1)) by {
        if i + 1 < n {
            assert(after[i + 2] == v.list[i + 1]);
        }
    }
    if i + 1 < n {
        assert(keeps(after, t, i + 2)) by {
            assert(after[i + 2] == v.list[i + 1]);
            if i + 2 < n {
                assert(after[i + 3] == v.list[i + 2]);
            }
        }
    }
    assert forall|j: int| 0 <= j < after.len() implies #[trigger] keeps(after, t, j) by {
        if j < i || j > i + 2 {
            let x = if j < i {
                j
            } else {
                j - 1
            };
            assert(after[j] == v.list[x]);
            assert(keeps(v.list, table, x));
            assert(v.start <= v.list[x].meta && v.list[x].meta + META_SIZE <= v.list[x].end
                <= v.end);
            let key = v.list[x].meta as usize;
            if x < i {
                assert(v.list[x].end <= v.list[i].meta);
            } else {
                assert(v.list[i].end <= v.list[x].meta);
                assert(v.list[i + 1].end <= v.list[x].meta);
            }
            assert(key != at && key != back && key != nx);
            assert(t[key] == table[key]);
            if x > 0 {
                assert(after[j - 1] == v.list[x - 1]);
            }
            if x + 1 < n {
                assert(after[j + 1] == v.list[x + 1]);
            }
        }
    }
    assert forall|a: usize| t.contains_key(a) implies exists|j: int|
        0 <= j < after.len() && (#[trigger] after[j]).meta == a by {
        if a == at {
            assert(after[i + 1].meta == a);
        } else {
            assert(table.contains_key(a));
            let x = choose|x: int| 0 <= x < n && (#[trigger] v.list[x]).meta == a;
            let j = if x <= i {
                x
            } else {
                x + 1
            };
            assert(after[j] == v.list[x]);
        }
    }
}

#[verifier::rlimit(40)]
proof fn lemma_remove_mirrored(v: Extents, table: Map<usize, AlloqMetaData>, k: int)
    requires
        v.wf(),
        mirrored(v.list, table),
        1 <= k < v.list.len(),
    ensures
        mirrored(
            v.list.remove(k),
            unlinked(table, v.list[k].meta as usize).remove(v.list[k].meta as usize),
        ),
{
    let after = v.list.remove(k);
    let n = v.list.len() as int;
    let at = v.list[k].meta as usize;
    let t = unlinked(table, at).remove(at);
    assert(keeps(v.list, table, k));
    assert(keeps(v.list, table, k - 1));
    assert(v.start <= v.list[k].meta && v.list[k].meta + META_SIZE <= v.list[k].end <= v.end);
    assert(v.start <= v.list[k - 1].meta && v.list[k - 1].meta + META_SIZE <= v.list[k - 1].end
        <= v.end);
    v.lemma_distinct(k - 1, k);
    if k + 1 < n {
        assert(keeps(v.list, table, k + 1));
        assert(v.start <= v.list[k + 1].meta && v.list[k + 1].meta + META_SIZE <= v.list[k
            + 1].end <= v.end);
        v.lemma_distinct(k, k + 1);
        v.lemma_distinct(k - 1, k + 1);
    }
    assert forall|j: int| 0 <= j < after.len() implies #[trigger] keeps(after, t, j) by {
        let x = if j < k {
            j
        } else {
            j + 1
        };
        assert(after[j] == v.list[x]);
        assert(keeps(v.list, table, x));
        assert(v.start <= v.list[x].meta && v.list[x].meta + META_SIZE <= v.list[x].end <= v.end);
        v.lemma_distinct(x, k);
        if x != k - 1 {
            v.lemma_distinct(x, k - 1);
        }
        if k + 1 < n && x != k + 1 {
            v.lemma_distinct(x, k + 1);
        }
        if j > 0 {
            assert(after[j - 1] == v.list[if j - 1 < k {
                j - 1
            } else {
                j
            }]);
        }
        if j + 1 < after.len() {
            assert(after[j + 1] == v.list[if j + 1 < k {
                j + 1
            } else {
                j + 2
            }]);
        }
    }
    assert forall|a: usize| t.contains_key(a) implies exists|j: int|
        0 <= j < after.len() && (#[trigger] after[j]).meta == a by {
        assert(table.contains_key(a));
        let x = choose|x: int| 0 <= x < n && (#[trigger] v.list[x]).meta == a;
        let j = if x < k {
            x
        } else {
            x - 1
        };
        assert(after[j] == v.list[x]);
    }
}

/// The records of a region: the list of extents and the store that holds it.
pub struct Records {
    pub heap_start: usize,
    pub heap_end: usize,
    /// Address of the anchor.
    pub first: usize,
    /// Address of the last record of the list.
    pub last: usize,
    /// The records in the region.
    pub table: Store<AlloqMetaData>,
    /// The extents in list order.
    pub list: Ghost<Seq<Extent>>,
}

impl View for Records {
    type V = Extents;

    open spec fn view(&self) -> Extents {
        Extents { start: self.heap_start as int, end: self.heap_end as int, list: self.list@ }
    }
}

impl Records {
    /// The store holds exactly the extents, linked in list order between `first`
    /// and `last`.
    pub open spec fn inv(&self) -> bool {
        &&& self@.wf()
        &&& self.first == self.list@[0].meta
        &&& self.last == self.list@.last().meta
        &&& mirrored(self.list@, self.table@)
    }

    /// The records of a region that holds nothing but its anchor; `None` where the
    /// region has no room for the anchor.
    pub fn new(heap_range: Range<usize>) -> (r: Option<Records>)
        requires
            0 < heap_range.start <= heap_range.end,
        ensures
            r is Some <==> meta_in(heap_range.start as int) + META_SIZE <= heap_range.end,
            r matches Some(rec) ==> {
                &&& rec.inv()
                &&& rec@.start == heap_range.start
                &&& rec@.end == heap_range.end
                &&& rec@ == rec@.emptied()
            },
    {
        proof {
            lemma_meta_align();
            bits::lemma_align_up_bounds(heap_range.start as int, META_ALIGN as int);
        }
        let at: usize = match checked_align_up(heap_range.start, META_ALIGN) {
            Some(a) => a,
            None => {
                return None;
            },
        };
        if at > heap_range.end || heap_range.end - at < META_SIZE {
            return None;
        }
        let mut table: Store<AlloqMetaData> = Store::new();
        let anchor = AlloqMetaData { end: at + META_SIZE, next: 0, back: 0 };
        let first: usize = anchor.write(&mut table, at);
        let rec = Records {
            heap_start: heap_range.start,
            heap_end: heap_range.end,
            first,
            last: first,
            table,
            list: Ghost(Seq::empty().push(Extents::anchor(heap_range.start as int))),
        };
        proof {
            assert(rec@.list =~= rec@.emptied().list);
            assert(rec@.list[0] == Extents::anchor(rec@.start));
            assert(keeps(rec.list@, rec.table@, 0));
        }
        Some(rec)
    }

    /// The extent at index `k` leaves the list and the store.
    #[verifier::rlimit(40)]
    fn unlink(&mut self, at: usize, Ghost(k): Ghost<int>)
        requires
            old(self).inv(),
            1 <= k < old(self).list@.len(),
            at == old(self).list@[k].meta,
        ensures
            final(self).inv(),
            final(self)@ == (Extents { list: old(self)@.list.remove(k), ..old(self)@ }),
    {
        proof {
            let v = self@;
            assert(keeps(v.list, self.table@, k));
            assert(keeps(v.list, self.table@, k - 1));
            assert(v.start <= v.list[k].meta && v.list[k].meta + META_SIZE <= v.list[k].end);
            v.lemma_remove_wf(k);
            lemma_remove_mirrored(v, self.table@, k);
        }
        let back: usize = match self.table.read(at) {
            Some(rec) => rec.back,
            None => 0,
        };
        AlloqMetaData::disconnect(&mut self.table, at);
        self.table.erase(at);
        if at == self.last {
            self.last = back;
        }
        proof {
            let v = old(self)@;
            if k + 1 < v.list.len() {
                v.lemma_distinct(k, v.list.len() - 1);
                assert(v.start <= v.list.last().meta);
                assert(v.list.last().meta + META_SIZE <= v.list.last().end);
            }
        }
        self.list = Ghost(self.list@.remove(k));
    }
}

impl AlloqMetaData {
    /// Places an extent for `layout` in the gap behind the record at `list`, which
    /// must be a record of the list, and links its record in there. Returns the new
    /// record and its address, or `OutOfMemory` where the gap has no room.
    #[verifier::rlimit(40)]
    pub fn allocate(records: &mut Records, list: usize, layout: Layout) -> (r: Result<
        (AlloqMetaData, usize),
        AllocError,
    >)
        requires
            old(records).inv(),
            layout.valid(),
            old(records)@.has(list as int),
        ensures
            final(records).inv(),
            r is Ok <==> old(records)@.admits(old(records)@.index_of(list as int), layout),
            match r {
                Ok((rec, at)) => {
                    &&& final(records)@ == old(records)@.after_insert(
                        old(records)@.index_of(list as int),
                        layout,
                    )
                    &&& at == old(records)@.placed(old(records)@.index_of(list as int), layout).meta
                    &&& rec.end == old(records)@.placed(
                        old(records)@.index_of(list as int),
                        layout,
                    ).end
                },
                Err(e) => e == AllocError::OutOfMemory && *final(records) == *old(records),
            },
    {
        let ghost v = records@;
        let ghost i = v.index_of(list as int);
        proof {
            assert(keeps(v.list, records.table@, i));
            assert(v.start <= v.list[i].meta && v.list[i].meta + META_SIZE <= v.list[i].end
                <= v.end);
            if i + 1 < v.list.len() {
                assert(keeps(v.list, records.table@, i + 1));
                assert(v.start <= v.list[i + 1].meta && v.list[i + 1].meta + META_SIZE
                    <= v.list[i + 1].end <= v.end);
            }
            lemma_extent_order(v.list[i].end, layout);
            lemma_meta_align();
        }
        let back: AlloqMetaData = match records.table.read(list) {
            Some(b) => b,
            None => AlloqMetaData { end: 0, next: 0, back: 0 },
        };
        let range_end: usize = if back.next == 0 {
            records.heap_end
        } else {
            back.next
        };
        let end: usize = match Self::end_of_allocation(back.end, layout) {
            Some(e) => e,
            None => {
                return Err(AllocError::OutOfMemory);
            },
        };
        if end > range_end {
            return Err(AllocError::OutOfMemory);
        }
        let aligned_meta: usize = match checked_align_up(back.end, META_ALIGN) {
            Some(a) => a,
            None => 0,
        };
        proof {
            v.lemma_insert_wf(i, layout);
            lemma_insert_mirrored(v, records.table@, i, v.placed(i, layout));
        }
        let s = AlloqMetaData { end, next: 0, back: list };
        let s_ptr: usize = s.write(&mut records.table, aligned_meta);
        if back.next != 0 {
            Self::connect_unchecked(&mut records.table, s_ptr, back.next);
        }
        Self::connect_unchecked(&mut records.table, list, s_ptr);
        if back.next == 0 {
            records.last = s_ptr;
        }
        records.list = Ghost(v.list.insert(i + 1, v.placed(i, layout)));
        proof {
            let after = records.list@;
            assert(after[0] == v.list[0]);
            if i + 1 < v.list.len() {
                assert(after.last() == v.list.last());
            } else {
                assert(after.last() == v.placed(i, layout));
            }
        }
        Ok((s, s_ptr))
    }
}

/// How a gap is picked for a request.
pub trait AllocMethod: Sized {
    /// Index of the extent behind which a request is placed that some gap admits.
    spec fn choice(v: Extents, layout: Layout) -> int;

    /// Address of the record behind which to place an extent for `layout`: the
    /// record that `choice` names where some gap admits the extent, the last record
    /// of the list where none does.
    fn fit(records: &Records, layout: Layout) -> (back: usize)
        requires
            records.inv(),
        ensures
            records@.has(back as int),
            records@.admits_any(layout) ==> {
                &&& records@.index_of(back as int) == Self::choice(records@, layout)
                &&& records@.admits(Self::choice(records@, layout), layout)
            },
            !records@.admits_any(layout) ==> back == records.last,
    ;

    /// Takes the extent out whose block ends at `ptr + layout.size`. An address that
    /// matches no extent is refused, and the list stays as it is.
    #[verifier::rlimit(40)]
    fn remove(records: &mut Records, ptr: usize, layout: Layout) -> (r: Result<(), AllocError>)
        requires
            old(records).inv(),
        ensures
            final(records).inv(),
            r is Ok <==> old(records)@.holds(ptr + layout.size),
            r matches Err(e) ==> e == AllocError::InvalidFree,
            final(records)@ == old(records)@.after_remove(ptr + layout.size),
    {
        let ghost v = records@;
        proof {
            assert forall|k: int| 0 <= k < v.list.len() implies (#[trigger] v.list[k]).end
                <= usize::MAX by {}
        }
        if layout.size > usize::MAX - ptr {
            return Err(AllocError::InvalidFree);
        }
        let ptr_end: usize = ptr + layout.size;
        let tail: AlloqMetaData = match records.table.read(records.last) {
            Some(t) => t,
            None => AlloqMetaData { end: 0, next: 0, back: 0 },
        };
        proof {
            assert(keeps(v.list, records.table@, v.list.len() - 1));
            assert(keeps(v.list, records.table@, 0));
            if v.list.len() > 1 {
                v.lemma_distinct(0, v.list.len() - 1);
            }
            assert(v.start <= v.list[0].meta);
            assert(v.start <= v.list.last().meta && v.list.last().meta + META_SIZE
                <= v.list.last().end <= v.end);
        }
        if records.last != records.first && tail.end == ptr_end {
            proof {
                v.lemma_ends_at(v.list.len() - 1, ptr_end as int);
            }
            let last: usize = records.last;
            records.unlink(last, Ghost(v.list.len() - 1));
            return Ok(());
        }
        let anchor: AlloqMetaData = match records.table.read(records.first) {
            Some(a) => a,
            None => AlloqMetaData { end: 0, next: 0, back: 0 },
        };
        let mut it = AlloqMetaData::iter(anchor.next);
        let ghost mut k: int = 1;
        loop
            invariant
                records.inv(),
                *records == *old(records),
                v == records@,
                ptr_end == ptr + layout.size,
                1 <= k <= v.list.len(),
                it.0 == if k < v.list.len() {
                    v.list[k].meta as usize
                } else {
                    0
                },
                forall|j: int| 1 <= j < k ==> !v.ends_at(j, ptr_end as int),
            decreases v.list.len() - k,
        {
            proof {
                if k < v.list.len() {
                    assert(keeps(v.list, records.table@, k));
                    assert(v.start <= v.list[k].meta && v.list[k].meta + META_SIZE
                        <= v.list[k].end <= v.end);
                    if k + 1 < v.list.len() {
                        assert(v.start <= v.list[k + 1].meta);
                    }
                }
            }
            let at: usize = match it.next(&records.table) {
                Some(at) => at,
                None => {
                    proof {
                        assert forall|j: int| !v.ends_at(j, ptr_end as int) by {}
                    }
                    return Err(AllocError::InvalidFree);
                },
            };
            let node: AlloqMetaData = match records.table.read(at) {
                Some(n) => n,
                None => AlloqMetaData { end: 0, next: 0, back: 0 },
            };
            if node.end == ptr_end {
                proof {
                    v.lemma_ends_at(k, ptr_end as int);
                }
                records.unlink(at, Ghost(k));
                return Ok(());
            }
            proof {
                k = k + 1;
            }
        }
    }
}

/// Picks the first gap that has room.
pub struct FirstFit;

impl AllocMethod for FirstFit {
    open spec fn choice(v: Extents, layout: Layout) -> int {
        v.first_from(layout, 0)
    }

    #[verifier::rlimit(40)]
    fn fit(records: &Records, layout: Layout) -> (back: usize) {
        let ghost v = records@;
        let mut cur: usize = records.first;
        let ghost mut i: int = 0;
        proof {
            v.lemma_first_from(layout, 0);
        }
        loop
            invariant
                records.inv(),
                v == records@,
                0 <= i < v.list.len(),
                cur == v.list[i].meta,
                forall|j: int| 0 <= j < i ==> !v.admits(j, layout),
                v.first_from(layout, 0) == v.first_from(layout, i),
            decreases v.list.len() - i,
        {
            proof {
                assert(keeps(v.list, records.table@, i));
                assert(v.start <= v.list[i].meta && v.list[i].meta + META_SIZE <= v.list[i].end
                    <= v.end);
                if i + 1 < v.list.len() {
                    assert(v.start <= v.list[i + 1].meta && v.list[i + 1].meta + META_SIZE
                        <= v.list[i + 1].end <= v.end);
                }
                v.lemma_index_of(i);
            }
            let node: AlloqMetaData = match records.table.read(cur) {
                Some(n) => n,
                None => AlloqMetaData { end: 0, next: 0, back: 0 },
            };
            let limit: usize = if node.next == 0 {
                records.heap_end
            } else {
                node.next
            };
            let obj_end: Option<usize> = AlloqMetaData::end_of_allocation(node.end, layout);
            let fits: bool = match obj_end {
                Some(e) => e <= limit,
                None => false,
            };
            assert(fits == v.admits(i, layout));
            if fits {
                return cur;
            }
            if node.next == 0 {
                proof {
                    assert forall|j: int| 0 <= j < v.list.len() implies !v.admits(j, layout) by {}
                }
                return cur;
            }
            cur = node.next;
            proof {
                i = i + 1;
            }
        }
    }
}

/// Picks the gap that is left with the least room, the first of them where several
/// are.
pub struct BestFit;

impl AllocMethod for BestFit {
    open spec fn choice(v: Extents, layout: Layout) -> int {
        v.best_upto(layout, v.list.len() as int)
    }

    #[verifier::rlimit(40)]
    fn fit(records: &Records, layout: Layout) -> (back: usize) {
        let ghost v = records@;
        let mut cur: usize = records.first;
        let mut best: usize = 0;
        let mut dispersion: usize = usize::MAX;
        let mut found: bool = false;
        let ghost mut i: int = 0;
        loop
            invariant_except_break
                0 <= i < v.list.len(),
                cur == v.list[i].meta,
                found == (v.best_upto(layout, i) >= 0),
                found ==> {
                    &&& v.best_upto(layout, i) < i
                    &&& best == v.list[v.best_upto(layout, i)].meta
                    &&& dispersion == v.slack(v.best_upto(layout, i), layout)
                },
            invariant
                records.inv(),
                v == records@,
            ensures
                found == (v.best_upto(layout, v.list.len() as int) >= 0),
                found ==> {
                    &&& v.best_upto(layout, v.list.len() as int) < v.list.len()
                    &&& best == v.list[v.best_upto(layout, v.list.len() as int)].meta
                },
            decreases v.list.len() - i,
        {
            proof {
                assert(keeps(v.list, records.table@, i));
                assert(v.start <= v.list[i].meta && v.list[i].meta + META_SIZE <= v.list[i].end
                    <= v.end);
                if i + 1 < v.list.len() {
                    assert(v.start <= v.list[i + 1].meta && v.list[i + 1].meta + META_SIZE
                        <= v.list[i + 1].end <= v.end);
                }
                v.lemma_best_upto(layout, i);
            }
            let node: AlloqMetaData = match records.table.read(cur) {
                Some(n) => n,
                None => AlloqMetaData { end: 0, next: 0, back: 0 },
            };
            let limit: usize = if node.next == 0 {
                records.heap_end
            } else {
                node.next
            };
            match AlloqMetaData::end_of_allocation(node.end, layout) {
                Some(obj_end) => {
                    if obj_end <= limit {
                        let disp: usize = limit - obj_end;
                        if !found || disp < dispersion {
                            best = cur;
                            dispersion = disp;
                            found = true;
                        }
                    }
                },
                None => {},
            }
            proof {
                v.lemma_best_upto(layout, i + 1);
            }
            if node.next == 0 {
                break ;
            }
            cur = node.next;
            proof {
                i = i + 1;
            }
        }
        proof {
            let n = v.list.len() as int;
            v.lemma_best_upto(layout, n);
            if found {
                v.lemma_index_of(v.best_upto(layout, n));
            } else {
                v.lemma_index_of(n - 1);
            }
        }
        if found {
            best
        } else {
            records.last
        }
    }
}

/// A free-list allocator that picks its gaps as `A` says.
pub struct Alloq<A: AllocMethod> {
    /// The region and the records in it.
    pub first: Records,
    pub _marker: PhantomData<A>,
}

impl<A: AllocMethod> View for Alloq<A> {
    type V = Extents;

    open spec fn view(&self) -> Extents {
        self.first@
    }
}

impl<A: AllocMethod> Alloqator for Alloq<A> {
    open spec fn inv(&self) -> bool {
        self.first.inv()
    }

    open spec fn start(&self) -> int {
        self.first.heap_start as int
    }

    open spec fn end(&self) -> int {
        self.first.heap_end as int
    }

    open spec fn occupied(&self) -> Set<int> {
        self@.occupied()
    }

    open spec fn pristine(&self) -> bool {
        self@ == self@.emptied()
    }

    open spec fn accepts(&self, layout: Layout) -> bool {
        self@.admits_any(layout)
    }

    open spec fn hosts(heap_range: Range<usize>) -> bool {
        &&& 0 < heap_range.start <= heap_range.end
        &&& meta_in(heap_range.start as int) + META_SIZE <= heap_range.end
    }

    open spec fn serves(&self, after: &Self, layout: Layout, r: Result<usize, AllocError>) -> bool {
        &&& after@ == if self@.admits_any(layout) {
            self@.after_insert(A::choice(self@, layout), layout)
        } else {
            self@
        }
        &&& r == if self@.admits_any(layout) {
            Ok::<usize, AllocError>(
                user_in(self@.list[A::choice(self@, layout)].end, layout) as usize,
            )
        } else if layout.valid() {
            Err::<usize, AllocError>(AllocError::OutOfMemory)
        } else {
            Err::<usize, AllocError>(AllocError::InvalidLayout)
        }
    }

    open spec fn can_free(&self, ptr: usize, layout: Layout) -> bool {
        self@.holds(ptr + layout.size)
    }

    open spec fn hands_back(&self, after: &Self, ptr: usize, layout: Layout) -> bool {
        after@ == self@.after_remove(ptr + layout.size)
    }

    open spec fn meta_size() -> nat {
        META_SIZE as nat
    }

    open spec fn meta_align() -> nat {
        META_ALIGN as nat
    }

    fn metadata_size() -> (r: usize) {
        META_SIZE
    }

    fn metadata_align() -> (r: usize) {
        META_ALIGN
    }

    /// Fails where the region begins at the null address, ends before it begins, or
    /// has no room for the anchor.
    fn new(heap_range: Range<usize>) -> (r: Result<Self, AllocError>)
        ensures
            r is Err <==> heap_range.start == 0 || heap_range.end < heap_range.start || meta_in(
                heap_range.start as int,
            ) + META_SIZE > heap_range.end,
    {
        assert(Self::hosts(heap_range) <==> 0 < heap_range.start <= heap_range.end && meta_in(
            heap_range.start as int,
        ) + META_SIZE <= heap_range.end);
        if heap_range.start == 0 || heap_range.end < heap_range.start {
            return Err(AllocError::InvalidHeap);
        }
        match Records::new(heap_range) {
            Some(first) => Ok(Alloq { first, _marker: PhantomData }),
            None => Err(AllocError::InvalidHeap),
        }
    }

    /// Places an extent for `layout` in the gap that `A` picks and returns the
    /// address of its block.
    #[verifier::rlimit(40)]
    fn allocate(&mut self, layout: Layout) -> (r: Result<usize, AllocError>)
        ensures
            match r {
                Ok(p) => {
                    &&& p == user_in(old(self)@.list[A::choice(old(self)@, layout)].end, layout)
                    &&& final(self)@ == old(self)@.after_insert(A::choice(old(self)@, layout), layout)
                },
                Err(e) => {
                    &&& final(self)@ == old(self)@
                    &&& e == if layout.valid() {
                        AllocError::OutOfMemory
                    } else {
                        AllocError::InvalidLayout
                    }
                },
            },
    {
        if !crate::is_power_of_two(layout.align) {
            return Err(AllocError::InvalidLayout);
        }
        let ghost v = self@;
        let back: usize = A::fit(&self.first, layout);
        proof {
            let i = v.index_of(back as int);
            if v.admits_any(layout) {
                v.lemma_insert_grants(i, layout);
                lemma_extent_order(v.list[i].end, layout);
            } else {
                v.lemma_index_of(v.list.len() - 1);
            }
        }
        match AlloqMetaData::allocate(&mut self.first, back, layout) {
            Ok((rec, at)) => Ok(rec.end - layout.size),
            Err(e) => Err(e),
        }
    }

    /// Takes back the block that ends at `ptr + layout.size`. An address that
    /// matches no block in use is refused.
    fn deallocate(&mut self, ptr: usize, layout: Layout) -> (r: Result<(), AllocError>)
        ensures
            r is Ok <==> old(self)@.holds(ptr + layout.size),
            final(self)@ == old(self)@.after_remove(ptr + layout.size),
    {
        proof {
            assert(self.can_free(ptr, layout) <==> self@.holds(ptr + layout.size));
            let v = self@;
            let ptr_end = ptr + layout.size;
            if v.holds(ptr_end) {
                v.lemma_remove_shrinks(choose|k: int| v.ends_at(k, ptr_end));
            }
        }
        A::remove(&mut self.first, ptr, layout)
    }

    fn reset(&mut self)
        ensures
            final(self)@ == old(self)@.emptied(),
    {
        proof {
            let v = self@;
            assert(v.list[0] == Extents::anchor(v.start));
            assert(v.list[0].meta + META_SIZE <= v.list[0].end <= v.end);
        }
        let fresh = Records::new(Range { start: self.first.heap_start, end: self.first.heap_end });
        match fresh {
            Some(rec) => {
                self.first = rec;
            },
            None => {},
        }
    }

    fn heap_start(&self) -> (r: usize) {
        self.first.heap_start
    }

    fn heap_end(&self) -> (r: usize) {
        self.first.heap_end
    }
}

} // verus!
