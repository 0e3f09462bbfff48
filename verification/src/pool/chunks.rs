//! The pool as the contracts see it: the state of every chunk, the free list, and
//! what each operation makes of them.

use vstd::prelude::*;
use vstd::arithmetic::power2::is_pow2;
use crate::pool::chain::{lent, sorted};
use crate::pool::{RawChunk, RAW_CHUNK_ALIGN, RAW_CHUNK_SIZE};
use crate::{AllocError, Layout, align_down_spec, align_up_spec, block, grants};

verus! {

/// What a chunk is used for.
pub enum ChunkState {
    /// The chunk is free.
    Free,
    /// The chunk belongs to a run that is lent out: the chunks from number `head`
    /// on, `len` of them, for a block that begins at `addr`.
    Used { head: int, len: int, addr: int },
}

/// The pool as the contracts see it.
pub struct Chunks {
    /// First address of the region, where chunk 0 begins.
    pub start: int,
    /// First address past the region.
    pub end: int,
    /// Size of a chunk.
    pub chunk_size: int,
    /// The state of every chunk that has a descriptor, by its number.
    pub chunks: Seq<ChunkState>,
    /// The addresses of the free descriptors, in the order of the free list.
    pub free: Seq<usize>,
}

impl Chunks {
    /// Address of the descriptor of chunk 0: the highest place for a descriptor
    /// in the region.
    pub open spec fn top(self) -> int {
        crate::align_down_spec(self.end - RAW_CHUNK_SIZE, RAW_CHUNK_ALIGN as int)
    }

    /// Number of chunks that have a descriptor.
    pub open spec fn count(self) -> int {
        self.chunks.len() as int
    }

    /// Address of the descriptor of chunk `i`.
    pub open spec fn desc(self, i: int) -> int {
        self.top() - RAW_CHUNK_SIZE * i
    }

    /// First address of chunk `i`.
    pub open spec fn chunk(self, i: int) -> int {
        self.start + i * self.chunk_size
    }

    /// Number of the chunk whose descriptor lies at `a`.
    pub open spec fn index(self, a: int) -> int {
        (self.top() - a) / (RAW_CHUNK_SIZE as int)
    }

    /// A descriptor lies at `a`.
    pub open spec fn is_desc(self, a: int) -> bool {
        &&& a <= self.top()
        &&& (self.top() - a) % (RAW_CHUNK_SIZE as int) == 0
        &&& self.index(a) < self.count()
    }

    /// The descriptor of chunk `i` is in the free list.
    pub open spec fn listed(self, i: int) -> bool {
        self.free.contains(self.desc(i) as usize)
    }

    /// The region has room for one more chunk and its descriptor.
    pub open spec fn can_grow(self) -> bool {
        self.chunk(self.count() + 1) < self.desc(self.count())
    }

    /// The chunks lie below the descriptors, every chunk is free or part of one
    /// run, the free list holds exactly the free chunks, and it is never empty.
    pub open spec fn wf(self) -> bool {
        &&& self.chunk_size > RAW_CHUNK_SIZE
        &&& 0 < self.start
        &&& self.top() + RAW_CHUNK_SIZE <= self.end <= usize::MAX
        &&& self.count() >= 1
        &&& self.chunk(self.count()) < self.desc(self.count() - 1)
        &&& self.free.len() >= 1
        &&& self.free.no_duplicates()
        &&& forall|k: int|
            0 <= k < self.free.len() ==> self.is_desc(#[trigger] self.free[k] as int)
                && self.chunks[self.index(self.free[k] as int)] is Free
        &&& forall|i: int| 0 <= i < self.count() && self.chunks[i] is Free ==> #[trigger] self.listed(i)
        &&& forall|i: int|
            0 <= i < self.count() ==> (#[trigger] self.chunks[i] matches ChunkState::Used {
                head,
                len,
                addr,
            } ==> 0 <= head <= i < head + len <= self.count() && 0 < addr <= usize::MAX)
        &&& forall|i: int, j: int|
            0 <= i < self.count() && (#[trigger] self.chunks[i] matches ChunkState::Used {
                head,
                len,
                addr,
            } && head <= j < head + len) ==> #[trigger] self.chunks[j] == self.chunks[i]
    }

    /// The addresses of the chunks that are lent out.
    pub open spec fn occupied(self) -> Set<int> {
        Set::new(
            |a: int|
                exists|i: int|
                    0 <= i < self.count() && (#[trigger] self.chunks[i]) is Used && self.chunk(i)
                        <= a < self.chunk(i + 1),
        )
    }

    /// What the store holds for the free descriptor at index `k` of the free list.
    pub open spec fn free_node(self, k: int) -> RawChunk {
        RawChunk {
            addr: 0,
            chunk: self.chunk(self.index(self.free[k] as int)) as usize,
            next: if k + 1 < self.free.len() {
                self.free[k + 1]
            } else {
                0
            },
            back: if k > 0 {
                self.free[k - 1]
            } else {
                0
            },
        }
    }

    /// What the store holds for the descriptor of chunk `i`, which is lent out.
    pub open spec fn used_node(self, i: int) -> RawChunk {
        let head = self.chunks[i]->head;
        let len = self.chunks[i]->len;
        RawChunk {
            addr: if i == head {
                self.chunks[i]->addr as usize
            } else {
                0
            },
            chunk: self.chunk(i) as usize,
            next: if i + 1 < head + len {
                self.desc(i + 1) as usize
            } else {
                0
            },
            back: if i > head {
                self.desc(i - 1) as usize
            } else {
                0
            },
        }
    }

    /// The store holds the descriptor at index `k` of the free list as it should.
    pub open spec fn free_ok(self, table: Map<usize, RawChunk>, k: int) -> bool {
        table[self.free[k]] == self.free_node(k)
    }

    /// The store holds the descriptor of chunk `i`, which is lent out, as it should.
    pub open spec fn used_ok(self, table: Map<usize, RawChunk>, i: int) -> bool {
        table[self.desc(i) as usize] == self.used_node(i)
    }

    /// The store holds exactly the descriptors of the chunks, linked as the free
    /// list and the runs say.
    pub open spec fn mirrors(self, table: Map<usize, RawChunk>) -> bool {
        &&& forall|a: usize| #[trigger] table.contains_key(a) <==> self.is_desc(a as int)
        &&& forall|k: int| 0 <= k < self.free.len() ==> #[trigger] self.free_ok(table, k)
        &&& forall|i: int|
            0 <= i < self.count() && self.chunks[i] is Used ==> #[trigger] self.used_ok(table, i)
    }

    /// The state with one more chunk, which is free and the last of the free list.
    pub open spec fn grown(self) -> Chunks {
        Chunks {
            chunks: self.chunks.push(ChunkState::Free),
            free: self.free.push(self.desc(self.count()) as usize),
            ..self
        }
    }

    /// The state that construction leaves: chunk 0 has a descriptor and is free.
    pub open spec fn emptied(self) -> Chunks {
        Chunks { chunks: seq![ChunkState::Free], free: seq![self.top() as usize], ..self }
    }

    /// A region of this size has room for chunk 0 and its descriptor.
    pub open spec fn habitable(self) -> bool {
        &&& 0 < self.start <= self.end <= usize::MAX
        &&& self.chunk_size > RAW_CHUNK_SIZE
        &&& self.end >= RAW_CHUNK_SIZE
        &&& self.start + self.chunk_size < self.top()
    }

    /// The state after the last chunk of the free list was lent out alone, for a
    /// block that begins at `p`.
    pub open spec fn popped(self, p: int) -> Chunks {
        let i = self.index(self.free.last() as int);
        Chunks {
            chunks: self.chunks.update(i, ChunkState::Used { head: i, len: 1, addr: p }),
            free: self.free.drop_last(),
            ..self
        }
    }

    /// The descriptors of the run that begins with chunk `i`, in the order of the
    /// chunks.
    pub open spec fn run(self, i: int) -> Seq<usize> {
        Seq::new(self.chunks[i]->len as nat, |t: int| self.desc(i + t) as usize)
    }

    /// The state after the run that begins with chunk `i` was handed back: its
    /// chunks are free and stand at the end of the free list, in their order.
    pub open spec fn released(self, i: int) -> Chunks {
        let len = self.chunks[i]->len;
        Chunks {
            chunks: Seq::new(
                self.chunks.len(),
                |j: int|
                    if i <= j < i + len {
                        ChunkState::Free
                    } else {
                        self.chunks[j]
                    },
            ),
            free: self.free + self.run(i),
            ..self
        }
    }

    /// Chunk `i` is the first of a run that is lent out.
    pub open spec fn is_head(self, i: int) -> bool {
        0 <= i < self.count() && self.chunks[i] is Used && self.chunks[i]->head == i
    }

    /// The state with the free list sorted into the order of its chunks.
    pub open spec fn ordered(self) -> Chunks {
        Chunks { free: sorted(self.free), ..self }
    }

    /// The state in which the free list has a chunk to lend: where it holds a
    /// single chunk, the chunk behind the last one is added.
    pub open spec fn primed(self) -> Chunks {
        if self.free.len() == 1 {
            self.grown()
        } else {
            self
        }
    }

    /// What lending out one chunk, for a block at its first multiple of `align`,
    /// leaves and gives: the descriptor of the chunk, or the reason why none was
    /// lent.
    pub open spec fn lent_one(self, align: int) -> (Chunks, Result<usize, AllocError>) {
        if !vstd::arithmetic::power2::is_pow2(align) {
            (self, Err(AllocError::InvalidLayout))
        } else if self.free.len() == 1 && !self.can_grow() {
            (self, Err(AllocError::OutOfMemory))
        } else {
            let pre = self.primed();
            let p = crate::align_up_spec(pre.chunk(pre.index(pre.free.last() as int)), align);
            if p > usize::MAX {
                (pre, Err(AllocError::InvalidLayout))
            } else {
                (pre.popped(p), Ok(pre.free.last()))
            }
        }
    }

    /// The free descriptors at the indices `j` and `j + 1` of the free list
    /// describe neighbouring chunks, the lower one first.
    pub open spec fn adjacent(self, j: int) -> bool {
        self.free[j] == self.free[j + 1] + RAW_CHUNK_SIZE
    }

    /// The free descriptors from index `a` to index `b` of the free list describe
    /// a run of neighbouring chunks, in their order.
    pub open spec fn contiguous(self, a: int, b: int) -> bool {
        forall|j: int| a <= j < b ==> #[trigger] self.adjacent(j)
    }

    /// A block for `layout` that begins at the first multiple of its alignment in
    /// the chunk at index `a` of the free list ends within the chunk at index `b`.
    pub open spec fn span_fits(self, a: int, b: int, layout: crate::Layout) -> bool {
        crate::align_up_spec(self.chunk(self.index(self.free[a] as int)), layout.align as int)
            + layout.size <= self.chunk(self.index(self.free[b] as int)) + self.chunk_size
    }

    /// The run that a walk from index `k` of the free list towards its beginning
    /// finds first to hold `layout`, where the free chunks from index `k` to index
    /// `t` are the run that the walk is in. A run ends where the next free chunk is
    /// no neighbour, and the walk goes on with a run of that chunk alone.
    pub open spec fn search(self, layout: crate::Layout, k: int, t: int) -> Option<(int, int)>
        decreases k,
    {
        if self.span_fits(k, t, layout) {
            Some((k, t))
        } else if k <= 0 {
            None
        } else if self.adjacent(k - 1) {
            self.search(layout, k - 1, t)
        } else {
            self.search(layout, k - 1, k - 1)
        }
    }

    /// Index in the free list of the last descriptor of the run of neighbouring
    /// chunks that the descriptor at index `j` belongs to.
    pub open spec fn top_of(self, j: int) -> int
        decreases self.free.len() - j,
    {
        if j + 1 < self.free.len() && self.adjacent(j) {
            self.top_of(j + 1)
        } else {
            j
        }
    }

    /// The run that a walk over the whole free list, from its end, finds first to
    /// hold `layout`.
    pub open spec fn found(self, layout: crate::Layout) -> Option<(int, int)> {
        self.search(layout, self.free.len() - 1, self.free.len() - 1)
    }

    /// The state after the free chunks from index `a` to index `b` of the free
    /// list were lent out as one run, for a block that begins at `p`.
    pub open spec fn taken(self, a: int, b: int, p: int) -> Chunks {
        let h = self.index(self.free[a] as int);
        let len = b - a + 1;
        Chunks {
            chunks: Seq::new(
                self.chunks.len(),
                |j: int|
                    if h <= j < h + len {
                        ChunkState::Used { head: h, len, addr: p }
                    } else {
                        self.chunks[j]
                    },
            ),
            free: self.free.take(a) + self.free.skip(b + 1),
            ..self
        }
    }

    /// The store after the free chunks from index `a` to index `b` of the free
    /// list were cut out of it and the block address `p` was written to the first.
    pub open spec fn taken_store(self, table: Map<usize, RawChunk>, a: int, b: int, p: int) -> Map<
        usize,
        RawChunk,
    > {
        lent(table, self.free[a], self.free[b], p as usize)
    }

    /// The chunk number that the descriptor at index `k` of the free list has where
    /// the descriptors from index `a` on describe neighbouring chunks.
    pub open spec fn run_index(self, a: int, k: int) -> int {
        self.index(self.free[a] as int) + (k - a)
    }

    /// The descriptor at index `k` of the free list is the one that its place in
    /// the run from index `a` to index `b` tells, if it is in the run, and the one
    /// of a chunk outside the run if it is not.
    pub open spec fn placed(self, a: int, b: int, k: int) -> bool {
        if a <= k <= b {
            &&& self.free[k] == self.desc(self.run_index(a, k))
            &&& 0 <= self.run_index(a, k) < self.count()
            &&& self.index(self.free[k] as int) == self.run_index(a, k)
        } else {
            &&& !(self.run_index(a, a) <= self.index(self.free[k] as int) < self.run_index(a, b + 1))
            &&& 0 <= self.index(self.free[k] as int) < self.count()
            &&& self.free[k] == self.desc(self.index(self.free[k] as int))
        }
    }

    /// Index in the free list before a run of `len` descriptors was cut out at
    /// index `a`, of the descriptor that stands at index `k` afterwards.
    pub open spec fn origin(a: int, len: int, k: int) -> int {
        if k < a {
            k
        } else {
            k + len
        }
    }

    /// What lending out a run for `layout` leaves and gives: the descriptor of the
    /// first chunk of the run that a walk over the free list finds first, after as
    /// many chunks were added behind the last one as it takes for the walk to find
    /// a run, and one more where the run is the whole free list; or `OutOfMemory`
    /// where the region has no room for them.
    pub open spec fn multi(self, layout: crate::Layout) -> (Chunks, Result<usize, AllocError>)
        decreases self.top() - self.start - self.count(),
    {
        match self.found(layout) {
            Some((a, b)) => {
                let p = crate::align_up_spec(
                    self.chunk(self.index(self.free[a] as int)),
                    layout.align as int,
                );
                if a == 0 && b == self.free.len() - 1 {
                    if self.can_grow() {
                        (self.grown().taken(a, b, p), Ok(self.free[a]))
                    } else {
                        (self, Err(AllocError::OutOfMemory))
                    }
                } else {
                    (self.taken(a, b, p), Ok(self.free[a]))
                }
            },
            None => {
                if self.can_grow() && self.chunk_size >= 1 {
                    proof {
                        assert((self.count() + 1) * self.chunk_size >= self.count() + 1)
                            by (nonlinear_arith)
                            requires
                                self.chunk_size >= 1,
                                self.count() + 1 >= 0,
                        ;
                    }
                    self.grown().multi(layout)
                } else {
                    (self, Err(AllocError::OutOfMemory))
                }
            },
        }
    }

    /// The addresses of the chunks from number `h` on, `len` of them.
    pub open spec fn span(self, h: int, len: int) -> Set<int> {
        crate::block(self.chunk(h), len * self.chunk_size)
    }

    /// What a run that was lent out is: `d` is the address of the descriptor of
    /// its first chunk, and its block, for `layout`, begins at the first multiple of
    /// the alignment in that chunk, ends within the last chunk of the run, and was
    /// in no chunk that was lent out in the state `before`.
    pub open spec fn lends(self, before: Chunks, d: usize, layout: Layout) -> bool {
        let h = self.index(d as int);
        &&& self.is_desc(d as int)
        &&& self.is_head(h)
        &&& self.chunks[h]->addr == align_up_spec(self.chunk(h), layout.align as int)
        &&& self.chunk(h) <= self.chunks[h]->addr
        &&& self.chunks[h]->addr + layout.size <= self.chunk(h + self.chunks[h]->len)
        &&& h + self.chunks[h]->len <= self.count()
        &&& grants(before.occupied(), self.occupied(), self.chunks[h]->addr, layout.size as int)
    }

    /// What a request for `layout` leaves and gives: the address of the block, or
    /// the reason why there is none. The last chunk of the free list is lent out
    /// alone where the block fits into it; else a run of neighbouring free chunks
    /// is, found in the free list once it is sorted.
    pub open spec fn lend(self, layout: Layout) -> (Chunks, Result<usize, AllocError>) {
        let one = self.lent_one(layout.align as int);
        match one.1 {
            Err(e) => (one.0, Err(e)),
            Ok(d) => {
                let i = one.0.index(d as int);
                let p = one.0.chunks[i]->addr;
                if p + layout.size <= one.0.chunk(i + 1) {
                    (one.0, Ok(p as usize))
                } else {
                    let many = self.primed().ordered().multi(layout);
                    match many.1 {
                        Err(e) => (many.0, Err(e)),
                        Ok(d) => (many.0, Ok(many.0.chunks[many.0.index(d as int)]->addr as usize)),
                    }
                }
            },
        }
    }

    /// Which of the requests `layouts`, made one after another from this state on,
    /// succeed.
    pub open spec fn decisions(self, layouts: Seq<Layout>) -> Seq<bool>
        decreases layouts.len(),
    {
        if layouts.len() == 0 {
            Seq::empty()
        } else {
            seq![self.lend(layouts[0]).1 is Ok] + self.lend(layouts[0]).0.decisions(
                layouts.skip(1),
            )
        }
    }
}
} // verus!
