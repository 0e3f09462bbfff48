//! What holds of the pool as the contracts see it: every operation leaves the
//! chunks, the free list and the store in order, and a block that is lent out was
//! free before.

use vstd::prelude::*;
use crate::pool::chain::{
    descending, joined, lemma_lent_at, lemma_raw_align, lemma_sorted, linked, node_ok, relinks,
    reversed, sorted, unlinked,
};
use crate::pool::chunks::{ChunkState, Chunks};
use crate::pool::{RawChunk, RAW_CHUNK_ALIGN, RAW_CHUNK_SIZE};
use crate::{AllocError, Layout, align_up_spec, block, grants};
use crate::bits;

verus! {

impl Chunks {
    /// Chunks with higher numbers lie at higher addresses, a whole chunk apart.
    pub proof fn lemma_chunk_order(self, i: int, j: int)
        requires
            self.chunk_size > 0,
            i < j,
        ensures
            self.chunk(i) + self.chunk_size <= self.chunk(j),
            self.chunk(i + 1) == self.chunk(i) + self.chunk_size,
    {
        assert(i * self.chunk_size + self.chunk_size <= j * self.chunk_size) by (nonlinear_arith)
            requires
                i < j,
                self.chunk_size > 0,
        ;
        assert((i + 1) * self.chunk_size == i * self.chunk_size + self.chunk_size)
            by (nonlinear_arith);
    }

    /// The descriptor of every chunk lies at an address, above all chunks, and its
    /// address tells the chunk's number.
    pub proof fn lemma_desc(self, i: int)
        requires
            self.wf(),
            0 <= i < self.count(),
        ensures
            self.chunk(self.count()) < self.desc(i) <= self.top(),
            0 < self.desc(i) <= usize::MAX,
            self.is_desc(self.desc(i)),
            self.index(self.desc(i)) == i,
            0 < self.chunk(i) < self.chunk(i + 1) <= self.chunk(self.count()),
            self.chunk(i + 1) == self.chunk(i) + self.chunk_size,
    {
        if i + 1 < self.count() {
            self.lemma_chunk_order(i + 1, self.count());
        }
        self.lemma_chunk_order(i, i + 1);
        if i > 0 {
            self.lemma_chunk_order(0, i);
        }
        assert(self.chunk(0) == self.start);
    }

    /// The address of a descriptor tells the chunk's number, and the number the
    /// address.
    pub proof fn lemma_index(self, a: int)
        requires
            self.wf(),
            self.is_desc(a),
        ensures
            0 <= self.index(a) < self.count(),
            self.desc(self.index(a)) == a,
    {
    }

    /// Every descriptor in the store names the chunk that its address stands for,
    /// and a descriptor with a block address is the head of a run.
    #[verifier::rlimit(40)]
    pub proof fn lemma_fields(self, table: Map<usize, RawChunk>, a: usize)
        requires
            self.wf(),
            self.mirrors(table),
            table.contains_key(a),
        ensures
            table[a].chunk == self.chunk(self.index(a as int)),
            a != 0,
            table[a].addr != 0 ==> (self.chunks[self.index(a as int)] matches ChunkState::Used {
                head,
                len,
                addr,
            } && head == self.index(a as int) && addr == table[a].addr),
            self.chunks[self.index(a as int)] is Used && self.chunks[self.index(a as int)]->head
                == self.index(a as int) ==> table[a].addr == self.chunks[self.index(
                a as int,
            )]->addr,
    {
        let i = self.index(a as int);
        self.lemma_index(a as int);
        self.lemma_desc(i);
        if self.chunks[i] is Free {
            assert(self.listed(i));
            let k = choose|k: int| 0 <= k < self.free.len() && self.free[k] == self.desc(i) as usize;
            assert(self.free_ok(table, k));
        } else {
            assert(self.used_ok(table, i));
        }
    }

    /// The free descriptors form a list in the store.
    pub proof fn lemma_free_linked(self, table: Map<usize, RawChunk>)
        requires
            self.wf(),
            self.mirrors(table),
        ensures
            linked(table, self.free),
    {
        assert forall|k: int| 0 <= k < self.free.len() implies #[trigger] node_ok(
            table,
            self.free,
            k,
        ) by {
            assert(self.free_ok(table, k));
            assert(self.is_desc(self.free[k] as int));
            self.lemma_index(self.free[k] as int);
            self.lemma_desc(self.index(self.free[k] as int));
        }
    }

    /// The descriptors lie in the store in the reverse order of their chunks.
    #[verifier::rlimit(40)]
    pub proof fn lemma_reversed(self, table: Map<usize, RawChunk>)
        requires
            self.wf(),
            self.mirrors(table),
        ensures
            reversed(table),
    {
        assert forall|a: usize, b: usize| #[trigger]
            table.contains_key(a) && #[trigger] table.contains_key(b) implies ((table[a].chunk
            > table[b].chunk) <==> a < b) by {
            self.lemma_fields(table, a);
            self.lemma_fields(table, b);
            let i = self.index(a as int);
            let j = self.index(b as int);
            self.lemma_index(a as int);
            self.lemma_index(b as int);
            self.lemma_desc(i);
            self.lemma_desc(j);
            if i < j {
                self.lemma_chunk_order(i, j);
            } else if j < i {
                self.lemma_chunk_order(j, i);
            }
        }
    }

    /// One more chunk leaves the chunks and the free list in order, and lends
    /// nothing out.
    #[verifier::rlimit(40)]
    pub proof fn lemma_grown_wf(self)
        requires
            self.wf(),
            self.can_grow(),
        ensures
            self.grown().wf(),
            self.grown().occupied() == self.occupied(),
            self.grown().count() == self.count() + 1,
    {
        let n = self.count();
        let m = self.free.len() as int;
        let a = self.desc(n) as usize;
        let g = self.grown();
        self.lemma_desc(n - 1);
        self.lemma_chunk_order(n, n + 1);
        self.lemma_chunk_order(n - 1, n);
        assert(g.top() == self.top());
        assert forall|k: int| 0 <= k < g.free.len() implies g.is_desc(#[trigger] g.free[k] as int)
            && g.chunks[g.index(g.free[k] as int)] is Free by {
            if k < m {
                assert(g.free[k] == self.free[k]);
                assert(self.is_desc(self.free[k] as int));
                self.lemma_index(self.free[k] as int);
            }
        }
        assert forall|i: int, j: int| 0 <= i < g.free.len() && 0 <= j < g.free.len() && i
            != j implies g.free[i] != g.free[j] by {
            if i < m {
                assert(self.is_desc(self.free[i] as int));
                self.lemma_index(self.free[i] as int);
            }
            if j < m {
                assert(self.is_desc(self.free[j] as int));
                self.lemma_index(self.free[j] as int);
            }
        }
        assert forall|i: int| 0 <= i < g.count() && g.chunks[i] is Free implies #[trigger] g.listed(
            i,
        ) by {
            if i < n {
                assert(self.chunks[i] is Free);
                assert(self.listed(i));
                let k = choose|k: int| 0 <= k < m && self.free[k] == self.desc(i) as usize;
                assert(g.free[k] == self.desc(i) as usize);
            } else {
                assert(g.free[m] == a);
            }
        }
        assert forall|i: int|
            0 <= i < g.count() implies (#[trigger] g.chunks[i] matches ChunkState::Used {
            head,
            len,
            addr,
        } ==> 0 <= head <= i < head + len <= g.count() && 0 < addr <= usize::MAX) by {
            if i < n {
                assert(g.chunks[i] == self.chunks[i]);
            }
        }
        assert forall|i: int, j: int|
            0 <= i < g.count() && (#[trigger] g.chunks[i] matches ChunkState::Used {
                head,
                len,
                addr,
            } && head <= j < head + len) implies #[trigger] g.chunks[j] == g.chunks[i] by {
            assert(g.chunks[i] == self.chunks[i]);
            assert(self.chunks[j] == self.chunks[i]);
        }
        assert(g.occupied() =~= self.occupied()) by {
            assert forall|x: int| g.occupied().contains(x) <==> self.occupied().contains(x) by {
                if g.occupied().contains(x) {
                    let i = choose|i: int|
                        0 <= i < g.count() && (#[trigger] g.chunks[i]) is Used && g.chunk(i) <= x
                            < g.chunk(i + 1);
                    assert(self.chunks[i] is Used);
                }
                if self.occupied().contains(x) {
                    let i = choose|i: int|
                        0 <= i < self.count() && (#[trigger] self.chunks[i]) is Used && self.chunk(
                            i,
                        ) <= x < self.chunk(i + 1);
                    assert(g.chunks[i] is Used);
                }
            }
        }
    }

    /// Giving the next chunk a descriptor and linking it in behind the free list
    /// leaves a pool.
    #[verifier::rlimit(40)]
    pub proof fn lemma_grown(self, table: Map<usize, RawChunk>)
        requires
            self.wf(),
            self.mirrors(table),
            self.can_grow(),
        ensures
            self.grown().wf(),
            self.grown().mirrors(
                joined(
                    table.insert(
                        self.desc(self.count()) as usize,
                        RawChunk {
                            addr: 0,
                            chunk: self.chunk(self.count()) as usize,
                            next: 0,
                            back: 0,
                        },
                    ),
                    self.free.last(),
                    self.desc(self.count()) as usize,
                ),
            ),
            0 < self.desc(self.count()) <= usize::MAX,
            0 < self.chunk(self.count()) <= usize::MAX,
            self.grown().occupied() == self.occupied(),
    {
        let n = self.count();
        let m = self.free.len() as int;
        let a = self.desc(n) as usize;
        let fresh = RawChunk { addr: 0, chunk: self.chunk(n) as usize, next: 0, back: 0 };
        let tail = self.free.last();
        let after = joined(table.insert(a, fresh), tail, a);
        let g = self.grown();
        self.lemma_desc(n - 1);
        self.lemma_chunk_order(n, n + 1);
        self.lemma_chunk_order(n - 1, n);
        assert(self.is_desc(self.free[m - 1] as int));
        self.lemma_index(tail as int);
        assert(tail != a);
        assert(g.top() == self.top());
        assert forall|k: int| 0 <= k < g.free.len() implies g.is_desc(#[trigger] g.free[k] as int)
            && g.chunks[g.index(g.free[k] as int)] is Free by {
            if k < m {
                assert(g.free[k] == self.free[k]);
                assert(self.is_desc(self.free[k] as int));
                self.lemma_index(self.free[k] as int);
            }
        }
        assert forall|i: int, j: int| 0 <= i < g.free.len() && 0 <= j < g.free.len() && i
            != j implies g.free[i] != g.free[j] by {
            if i < m {
                assert(self.is_desc(self.free[i] as int));
                self.lemma_index(self.free[i] as int);
            }
            if j < m {
                assert(self.is_desc(self.free[j] as int));
                self.lemma_index(self.free[j] as int);
            }
        }
        assert forall|i: int| 0 <= i < g.count() && g.chunks[i] is Free implies #[trigger] g.listed(
            i,
        ) by {
            if i < n {
                assert(self.chunks[i] is Free);
                assert(self.listed(i));
                let k = choose|k: int| 0 <= k < m && self.free[k] == self.desc(i) as usize;
                assert(g.free[k] == self.desc(i) as usize);
            } else {
                assert(g.free[m] == a);
            }
        }
        assert forall|i: int|
            0 <= i < g.count() implies (#[trigger] g.chunks[i] matches ChunkState::Used {
            head,
            len,
            addr,
        } ==> 0 <= head <= i < head + len <= g.count() && 0 < addr <= usize::MAX) by {
            if i < n {
                assert(g.chunks[i] == self.chunks[i]);
            }
        }
        assert forall|i: int, j: int|
            0 <= i < g.count() && (#[trigger] g.chunks[i] matches ChunkState::Used {
                head,
                len,
                addr,
            } && head <= j < head + len) implies #[trigger] g.chunks[j] == g.chunks[i] by {
            assert(g.chunks[i] == self.chunks[i]);
            assert(self.chunks[j] == self.chunks[i]);
        }
        assert(g.wf());
        assert forall|x: usize| #[trigger] after.contains_key(x) <==> g.is_desc(x as int) by {
            if x != a {
                assert(table.contains_key(x) <==> self.is_desc(x as int));
            }
        }
        assert forall|k: int| 0 <= k < g.free.len() implies #[trigger] g.free_ok(after, k) by {
            if k < m {
                assert(self.free_ok(table, k));
                assert(g.free[k] == self.free[k]);
                assert(self.is_desc(self.free[k] as int));
                self.lemma_index(self.free[k] as int);
                if k + 1 < m {
                    assert(g.free[k + 1] == self.free[k + 1]);
                    assert(self.free[k] != tail);
                }
                if k > 0 {
                    assert(g.free[k - 1] == self.free[k - 1]);
                }
            } else {
                assert(g.free[m - 1] == tail);
            }
        }
        assert forall|i: int| 0 <= i < g.count() && g.chunks[i] is Used implies #[trigger] g.used_ok(
            after,
            i,
        ) by {
            assert(g.chunks[i] == self.chunks[i]);
            assert(self.used_ok(table, i));
            self.lemma_desc(i);
            assert(self.chunks[self.index(tail as int)] is Free);
        }
        assert(g.occupied() =~= self.occupied()) by {
            assert forall|x: int| g.occupied().contains(x) <==> self.occupied().contains(x) by {
                if g.occupied().contains(x) {
                    let i = choose|i: int|
                        0 <= i < g.count() && (#[trigger] g.chunks[i]) is Used && g.chunk(i) <= x
                            < g.chunk(i + 1);
                    assert(self.chunks[i] is Used);
                }
                if self.occupied().contains(x) {
                    let i = choose|i: int|
                        0 <= i < self.count() && (#[trigger] self.chunks[i]) is Used && self.chunk(
                            i,
                        ) <= x < self.chunk(i + 1);
                    assert(g.chunks[i] is Used);
                }
            }
        }
    }

    /// A region with room for chunk 0 and its descriptor makes a pool.
    #[verifier::rlimit(40)]
    pub proof fn lemma_emptied(self)
        requires
            self.habitable(),
        ensures
            self.emptied().wf(),
            self.emptied().mirrors(
                Map::<usize, RawChunk>::empty().insert(
                    self.top() as usize,
                    RawChunk { addr: 0, chunk: self.start as usize, next: 0, back: 0 },
                ),
            ),
            0 < self.top() <= usize::MAX,
    {
        let e = self.emptied();
        let table = Map::<usize, RawChunk>::empty().insert(
            self.top() as usize,
            RawChunk { addr: 0, chunk: self.start as usize, next: 0, back: 0 },
        );
        lemma_raw_align();
        crate::bits::lemma_align_down_bounds(self.end - RAW_CHUNK_SIZE, RAW_CHUNK_ALIGN as int);
        assert(e.top() == self.top());
        assert(e.chunk(1) == self.start + self.chunk_size) by (nonlinear_arith)
            requires
                e.chunk(1) == self.start + 1 * self.chunk_size,
        ;
        assert(e.chunk(0) == self.start);
        assert(e.free[0] == self.top() as usize);
        assert forall|i: int| 0 <= i < e.count() && e.chunks[i] is Free implies #[trigger] e.listed(
            i,
        ) by {
            assert(e.free[0] == e.desc(0) as usize);
        }
        assert(e.wf());
        assert forall|a: usize| #[trigger] table.contains_key(a) <==> e.is_desc(a as int) by {}
        assert forall|k: int| 0 <= k < e.free.len() implies #[trigger] e.free_ok(table, k) by {}
    }

    /// Two free descriptors at different places of the free list describe
    /// different chunks.
    pub proof fn lemma_free_distinct(self, j: int, k: int)
        requires
            self.wf(),
            0 <= j < self.free.len(),
            0 <= k < self.free.len(),
            j != k,
        ensures
            self.index(self.free[j] as int) != self.index(self.free[k] as int),
            0 <= self.index(self.free[j] as int) < self.count(),
    {
        assert(self.is_desc(self.free[j] as int));
        assert(self.is_desc(self.free[k] as int));
        self.lemma_index(self.free[j] as int);
        self.lemma_index(self.free[k] as int);
    }

    /// Lending out the last chunk of a free list that holds another leaves a pool.
    #[verifier::rlimit(40)]
    pub proof fn lemma_popped(self, table: Map<usize, RawChunk>, p: int)
        requires
            self.wf(),
            self.mirrors(table),
            self.free.len() >= 2,
            0 < p <= usize::MAX,
        ensures
            self.popped(p).wf(),
            self.popped(p).mirrors(
                unlinked(table, self.free.last()).insert(
                    self.free.last(),
                    RawChunk {
                        addr: p as usize,
                        chunk: table[self.free.last()].chunk,
                        next: 0,
                        back: 0,
                    },
                ),
            ),
            table.contains_key(self.free.last()),
            table[self.free.last()].back == self.free[self.free.len() - 2],
            table[self.free.last()].chunk == self.chunk(self.index(self.free.last() as int)),
    {
        let m = self.free.len() as int;
        let tail = self.free.last();
        let i = self.index(tail as int);
        let g = self.popped(p);
        let after = unlinked(table, tail).insert(
            tail,
            RawChunk { addr: p as usize, chunk: table[tail].chunk, next: 0, back: 0 },
        );
        assert(self.free_ok(table, m - 1));
        assert(self.free_ok(table, m - 2));
        assert(self.is_desc(self.free[m - 1] as int));
        assert(self.is_desc(self.free[m - 2] as int));
        self.lemma_index(tail as int);
        self.lemma_desc(i);
        self.lemma_free_distinct(m - 2, m - 1);
        self.lemma_free_linked(table);
        assert(node_ok(table, self.free, m - 1));
        assert(node_ok(table, self.free, m - 2));
        assert(g.top() == self.top());
        assert forall|k: int| 0 <= k < g.free.len() implies g.is_desc(#[trigger] g.free[k] as int)
            && g.chunks[g.index(g.free[k] as int)] is Free by {
            assert(g.free[k] == self.free[k]);
            assert(self.is_desc(self.free[k] as int));
            self.lemma_free_distinct(k, m - 1);
        }
        assert forall|j: int| 0 <= j < g.count() && g.chunks[j] is Free implies #[trigger] g.listed(
            j,
        ) by {
            assert(self.chunks[j] is Free);
            assert(self.listed(j));
            let k = choose|k: int| 0 <= k < m && self.free[k] == self.desc(j) as usize;
            self.lemma_desc(j);
            assert(k != m - 1);
            assert(g.free[k] == self.desc(j) as usize);
        }
        assert forall|a: int, b: int|
            0 <= a < g.count() && (#[trigger] g.chunks[a] matches ChunkState::Used {
                head,
                len,
                addr,
            } && head <= b < head + len) implies #[trigger] g.chunks[b] == g.chunks[a] by {
            if a != i {
                assert(g.chunks[a] == self.chunks[a]);
                assert(self.chunks[b] == self.chunks[a]);
            }
        }
        assert forall|j: int|
            0 <= j < g.count() implies (#[trigger] g.chunks[j] matches ChunkState::Used {
            head,
            len,
            addr,
        } ==> 0 <= head <= j < head + len <= g.count() && 0 < addr <= usize::MAX) by {
            if j != i {
                assert(g.chunks[j] == self.chunks[j]);
            }
        }
        assert(g.wf());
        assert forall|x: usize| #[trigger] after.contains_key(x) <==> g.is_desc(x as int) by {
            assert(table.contains_key(x) <==> self.is_desc(x as int));
        }
        assert forall|k: int| 0 <= k < g.free.len() implies #[trigger] g.free_ok(after, k) by {
            assert(self.free_ok(table, k));
            assert(g.free[k] == self.free[k]);
            assert(self.free[k] != tail);
            if k + 1 < m - 1 {
                assert(g.free[k + 1] == self.free[k + 1]);
                assert(self.free[k] != self.free[m - 2]);
            }
            if k > 0 {
                assert(g.free[k - 1] == self.free[k - 1]);
            }
        }
        assert forall|j: int| 0 <= j < g.count() && g.chunks[j] is Used implies #[trigger] g.used_ok(
            after,
            j,
        ) by {
            if j != i {
                assert(g.chunks[j] == self.chunks[j]);
                assert(self.used_ok(table, j));
                self.lemma_desc(j);
                assert(self.chunks[self.index(self.free[m - 2] as int)] is Free);
                self.lemma_index(self.free[m - 2] as int);
            }
        }
    }

    /// The descriptors of a run that is lent out form a list in the store.
    #[verifier::rlimit(40)]
    pub proof fn lemma_run_linked(self, table: Map<usize, RawChunk>, i: int)
        requires
            self.wf(),
            self.mirrors(table),
            self.is_head(i),
        ensures
            linked(table, self.run(i)),
            self.run(i).len() >= 1,
            self.run(i)[0] == self.desc(i) as usize,
            self.run(i).last() == self.desc(i + self.chunks[i]->len - 1) as usize,
    {
        let run = self.run(i);
        let len = self.chunks[i]->len;
        assert forall|t: int| 0 <= t < run.len() implies #[trigger] node_ok(table, run, t) by {
            assert(self.chunks[i + t] == self.chunks[i]);
            assert(self.used_ok(table, i + t));
            self.lemma_desc(i + t);
        }
        assert forall|a: int, b: int| 0 <= a < run.len() && 0 <= b < run.len() && a != b implies run[a]
            != run[b] by {
            self.lemma_desc(i + a);
            self.lemma_desc(i + b);
        }
    }

    /// Handing a run back leaves a pool, and adds no address to those in use.
    #[verifier::rlimit(40)]
    pub proof fn lemma_released(self, table: Map<usize, RawChunk>, i: int)
        requires
            self.wf(),
            self.mirrors(table),
            self.is_head(i),
        ensures
            self.released(i).wf(),
            self.released(i).mirrors(
                joined(
                    table.insert(
                        self.desc(i) as usize,
                        RawChunk { addr: 0, ..table[self.desc(i) as usize] },
                    ),
                    self.free.last(),
                    self.desc(i) as usize,
                ),
            ),
            self.released(i).occupied().subset_of(self.occupied()),
            table.contains_key(self.desc(i) as usize),
            table.contains_key(self.free.last()),
    {
        let m = self.free.len() as int;
        let n = self.count();
        let len = self.chunks[i]->len;
        let run = self.run(i);
        let raw = self.desc(i) as usize;
        let tail = self.free.last();
        let g = self.released(i);
        let t1 = table.insert(raw, RawChunk { addr: 0, ..table[raw] });
        let after = joined(t1, tail, raw);
        self.lemma_desc(i);
        assert(self.is_desc(self.free[m - 1] as int));
        self.lemma_index(tail as int);
        assert(self.free_ok(table, m - 1));
        assert(self.used_ok(table, i));
        assert(tail != raw);
        assert(g.top() == self.top());
        assert forall|k: int| 0 <= k < g.free.len() implies g.is_desc(#[trigger] g.free[k] as int)
            && g.chunks[g.index(g.free[k] as int)] is Free by {
            if k < m {
                assert(g.free[k] == self.free[k]);
                assert(self.is_desc(self.free[k] as int));
                self.lemma_index(self.free[k] as int);
            } else {
                assert(g.free[k] == run[k - m]);
                self.lemma_desc(i + (k - m));
            }
        }
        assert forall|a: int, b: int| 0 <= a < g.free.len() && 0 <= b < g.free.len() && a
            != b implies g.free[a] != g.free[b] by {
            if a < m {
                assert(self.is_desc(self.free[a] as int));
                self.lemma_index(self.free[a] as int);
                assert(self.chunks[self.index(self.free[a] as int)] is Free);
            } else {
                self.lemma_desc(i + (a - m));
                assert(self.chunks[i + (a - m)] == self.chunks[i]);
            }
            if b < m {
                assert(self.is_desc(self.free[b] as int));
                self.lemma_index(self.free[b] as int);
                assert(self.chunks[self.index(self.free[b] as int)] is Free);
            } else {
                self.lemma_desc(i + (b - m));
                assert(self.chunks[i + (b - m)] == self.chunks[i]);
            }
        }
        assert forall|j: int| 0 <= j < g.count() && g.chunks[j] is Free implies #[trigger] g.listed(
            j,
        ) by {
            if i <= j < i + len {
                assert(g.free[m + (j - i)] == run[j - i]);
            } else {
                assert(self.chunks[j] is Free);
                assert(self.listed(j));
                let k = choose|k: int| 0 <= k < m && self.free[k] == self.desc(j) as usize;
                assert(g.free[k] == self.free[k]);
            }
        }
        assert forall|j: int|
            0 <= j < g.count() implies (#[trigger] g.chunks[j] matches ChunkState::Used {
            head,
            len,
            addr,
        } ==> 0 <= head <= j < head + len <= g.count() && 0 < addr <= usize::MAX) by {
            if !(i <= j < i + len) {
                assert(g.chunks[j] == self.chunks[j]);
            }
        }
        assert forall|a: int, b: int|
            0 <= a < g.count() && (#[trigger] g.chunks[a] matches ChunkState::Used {
                head,
                len,
                addr,
            } && head <= b < head + len) implies #[trigger] g.chunks[b] == g.chunks[a] by {
            assert(g.chunks[a] == self.chunks[a]);
            assert(self.chunks[b] == self.chunks[a]);
            if i <= b < i + len {
                assert(self.chunks[b] == self.chunks[i]);
                assert(self.chunks[a]->head == i);
            }
        }
        assert(g.wf());
        assert forall|x: usize| #[trigger] after.contains_key(x) <==> g.is_desc(x as int) by {
            assert(table.contains_key(x) <==> self.is_desc(x as int));
        }
        assert forall|k: int| 0 <= k < g.free.len() implies #[trigger] g.free_ok(after, k) by {
            if k < m {
                assert(self.free_ok(table, k));
                assert(g.free[k] == self.free[k]);
                assert(self.is_desc(self.free[k] as int));
                self.lemma_index(self.free[k] as int);
                assert(self.free[k] != raw);
                if k + 1 < m {
                    assert(g.free[k + 1] == self.free[k + 1]);
                    assert(self.free[k] != tail);
                } else {
                    assert(g.free[m] == run[0]);
                }
                if k > 0 {
                    assert(g.free[k - 1] == self.free[k - 1]);
                }
            } else {
                let t = k - m;
                assert(g.free[k] == run[t]);
                assert(self.chunks[i + t] == self.chunks[i]);
                assert(self.used_ok(table, i + t));
                self.lemma_desc(i + t);
                assert(run[t] != tail);
                if t + 1 < len {
                    assert(g.free[k + 1] == run[t + 1]);
                }
                if t > 0 {
                    assert(g.free[k - 1] == run[t - 1]);
                    self.lemma_desc(i + t - 1);
                } else {
                    assert(g.free[k - 1] == tail);
                }
            }
        }
        assert forall|j: int| 0 <= j < g.count() && g.chunks[j] is Used implies #[trigger] g.used_ok(
            after,
            j,
        ) by {
            assert(g.chunks[j] == self.chunks[j]);
            assert(self.used_ok(table, j));
            self.lemma_desc(j);
        }
        assert forall|x: int| g.occupied().contains(x) implies self.occupied().contains(x) by {
            let j = choose|j: int|
                0 <= j < g.count() && (#[trigger] g.chunks[j]) is Used && g.chunk(j) <= x < g.chunk(
                    j + 1,
                );
            assert(self.chunks[j] is Used);
        }
    }

    /// Sorting the free list leaves the chunks and the free list in order, and the
    /// free chunks in theirs.
    #[verifier::rlimit(40)]
    pub proof fn lemma_ordered_wf(self)
        requires
            self.wf(),
        ensures
            self.ordered().wf(),
            descending(self.ordered().free),
            self.ordered().occupied() == self.occupied(),
    {
        let g = self.ordered();
        let s = sorted(self.free);
        lemma_sorted(self.free);
        assert(g.top() == self.top());
        assert forall|a: int, b: int| 0 <= a < s.len() && 0 <= b < s.len() && a != b implies s[a]
            != s[b] by {
            if a < b {
                assert(s[a] > s[b]);
            } else {
                assert(s[b] > s[a]);
            }
        }
        assert forall|k: int| 0 <= k < g.free.len() implies g.is_desc(#[trigger] g.free[k] as int)
            && g.chunks[g.index(g.free[k] as int)] is Free by {
            assert(s.contains(s[k]));
            let j = choose|j: int| 0 <= j < self.free.len() && self.free[j] == s[k];
            assert(self.is_desc(self.free[j] as int));
        }
        assert forall|i: int| 0 <= i < g.count() && g.chunks[i] is Free implies #[trigger] g.listed(
            i,
        ) by {
            assert(self.listed(i));
        }
        assert(g.occupied() =~= self.occupied());
    }

    /// Sorting the free list leaves a pool, with the free chunks in their order.
    #[verifier::rlimit(40)]
    pub proof fn lemma_ordered(self, table: Map<usize, RawChunk>, after: Map<usize, RawChunk>)
        requires
            self.wf(),
            self.mirrors(table),
            linked(after, sorted(self.free)),
            relinks(table, after, self.free),
        ensures
            self.ordered().wf(),
            self.ordered().mirrors(after),
            descending(self.ordered().free),
            self.ordered().occupied() == self.occupied(),
    {
        let g = self.ordered();
        let s = sorted(self.free);
        lemma_sorted(self.free);
        assert(g.top() == self.top());
        assert forall|a: int, b: int| 0 <= a < s.len() && 0 <= b < s.len() && a != b implies s[a]
            != s[b] by {
            if a < b {
                assert(s[a] > s[b]);
            } else {
                assert(s[b] > s[a]);
            }
        }
        assert forall|k: int| 0 <= k < g.free.len() implies g.is_desc(#[trigger] g.free[k] as int)
            && g.chunks[g.index(g.free[k] as int)] is Free by {
            assert(s.contains(s[k]));
            let j = choose|j: int| 0 <= j < self.free.len() && self.free[j] == s[k];
            assert(self.is_desc(self.free[j] as int));
        }
        assert forall|i: int| 0 <= i < g.count() && g.chunks[i] is Free implies #[trigger] g.listed(
            i,
        ) by {
            assert(self.listed(i));
        }
        assert(g.wf());
        assert forall|x: usize| #[trigger] after.contains_key(x) <==> g.is_desc(x as int) by {
            assert(table.contains_key(x) <==> self.is_desc(x as int));
        }
        assert forall|k: int| 0 <= k < g.free.len() implies #[trigger] g.free_ok(after, k) by {
            assert(node_ok(after, s, k));
            assert(s.contains(s[k]));
            let j = choose|j: int| 0 <= j < self.free.len() && self.free[j] == s[k];
            assert(self.free_ok(table, j));
            assert(after.contains_key(s[k]));
        }
        assert forall|i: int| 0 <= i < g.count() && g.chunks[i] is Used implies #[trigger] g.used_ok(
            after,
            i,
        ) by {
            assert(self.used_ok(table, i));
            self.lemma_desc(i);
            let x = self.desc(i) as usize;
            if self.free.contains(x) {
                let j = choose|j: int| 0 <= j < self.free.len() && self.free[j] == x;
                assert(self.is_desc(self.free[j] as int));
            }
            assert(after.contains_key(x));
        }
        assert(g.occupied() =~= self.occupied());
    }

    /// What a walk finds is a run of neighbouring free chunks that holds the
    /// layout.
    pub proof fn lemma_search(self, layout: crate::Layout, k: int, t: int)
        requires
            0 <= k <= t < self.free.len(),
            self.contiguous(k, t),
        ensures
            self.search(layout, k, t) matches Some((a, b)) ==> 0 <= a <= b < self.free.len()
                && self.contiguous(a, b) && self.span_fits(a, b, layout) && a <= k,
        decreases k,
    {
        if self.span_fits(k, t, layout) {
        } else if k <= 0 {
        } else if self.adjacent(k - 1) {
            self.lemma_search(layout, k - 1, t);
        } else {
            self.lemma_search(layout, k - 1, k - 1);
        }
    }

    /// A walk that stands at index `k`, in a run that ends at index `t`, finds the
    /// highest index at or below `k` from which the free chunks up to the end of
    /// their run hold `layout`, together with that end; it finds nothing where there
    /// is no such index.
    pub proof fn lemma_search_highest(self, layout: Layout, k: int, t: int)
        requires
            0 <= k <= t < self.free.len(),
            t == self.top_of(k),
        ensures
            match self.search(layout, k, t) {
                Some((a, b)) => {
                    &&& 0 <= a <= k
                    &&& b == self.top_of(a)
                    &&& self.span_fits(a, b, layout)
                    &&& forall|j: int| a < j <= k ==> !self.span_fits(j, #[trigger] self.top_of(j), layout)
                },
                None => forall|j: int|
                    0 <= j <= k ==> !self.span_fits(j, #[trigger] self.top_of(j), layout),
            },
        decreases k,
    {
        if self.span_fits(k, t, layout) {
        } else if k <= 0 {
        } else if self.adjacent(k - 1) {
            self.lemma_search_highest(layout, k - 1, t);
        } else {
            self.lemma_search_highest(layout, k - 1, k - 1);
        }
    }

    /// The run that is found for `layout` is the highest in the free list that
    /// holds it, and as short as can be: it begins at the highest index from which
    /// the free chunks up to the end of their run hold the layout.
    pub proof fn lemma_found_highest(self, layout: Layout)
        requires
            self.free.len() >= 1,
        ensures
            match self.found(layout) {
                Some((a, b)) => {
                    &&& 0 <= a < self.free.len()
                    &&& b == self.top_of(a)
                    &&& self.span_fits(a, b, layout)
                    &&& forall|j: int|
                        a < j < self.free.len() ==> !self.span_fits(
                            j,
                            #[trigger] self.top_of(j),
                            layout,
                        )
                },
                None => forall|j: int|
                    0 <= j < self.free.len() ==> !self.span_fits(
                        j,
                        #[trigger] self.top_of(j),
                        layout,
                    ),
            },
    {
        self.lemma_search_highest(layout, self.free.len() - 1, self.free.len() - 1);
    }

    /// In a run of neighbouring free chunks the numbers of the chunks rise by one.
    pub proof fn lemma_contiguous(self, a: int, b: int, t: int)
        requires
            self.wf(),
            0 <= a <= b < self.free.len(),
            self.contiguous(a, b),
            0 <= t <= b - a,
        ensures
            self.index(self.free[a + t] as int) == self.index(self.free[a] as int) + t,
            self.free[a + t] == self.desc(self.index(self.free[a] as int) + t),
            0 <= self.index(self.free[a] as int),
            self.index(self.free[a] as int) + t < self.count(),
        decreases t,
    {
        assert(self.is_desc(self.free[a] as int));
        assert(self.is_desc(self.free[a + t] as int));
        self.lemma_index(self.free[a] as int);
        self.lemma_index(self.free[a + t] as int);
        if t > 0 {
            self.lemma_contiguous(a, b, t - 1);
            assert(self.adjacent(a + t - 1));
        }
    }

    /// In a run of neighbouring free chunks every descriptor is the one of the
    /// chunk that its place in the run tells, and no other free descriptor is.
    pub proof fn lemma_run_facts(self, a: int, b: int)
        requires
            self.wf(),
            0 <= a <= b < self.free.len(),
            self.contiguous(a, b),
        ensures
            forall|k: int| 0 <= k < self.free.len() ==> #[trigger] self.placed(a, b, k),
    {
        let h = self.index(self.free[a] as int);
        assert forall|k: int| 0 <= k < self.free.len() implies #[trigger] self.placed(a, b, k) by {
            if a <= k <= b {
                self.lemma_contiguous(a, b, k - a);
                assert(self.free[a + (k - a)] == self.free[k]);
            } else {
                assert(self.is_desc(self.free[k] as int));
                self.lemma_index(self.free[k] as int);
                let x = self.index(self.free[k] as int);
                if h <= x < h + (b - a + 1) {
                    self.lemma_contiguous(a, b, x - h);
                    assert(self.free[k] == self.free[a + (x - h)]);
                }
            }
        }
    }

    /// Lending out a run of neighbouring free chunks that is not the whole free
    /// list leaves the chunks and the free list in order.
    #[verifier::rlimit(40)]
    pub proof fn lemma_taken_wf(self, a: int, b: int, p: int)
        requires
            self.wf(),
            0 <= a <= b < self.free.len(),
            self.contiguous(a, b),
            !(a == 0 && b == self.free.len() - 1),
            0 < p <= usize::MAX,
        ensures
            self.taken(a, b, p).wf(),
            self.taken(a, b, p).free.last() == if b == self.free.len() - 1 {
                self.free[a - 1]
            } else {
                self.free.last()
            },
    {
        let m = self.free.len() as int;
        let h = self.index(self.free[a] as int);
        let len = b - a + 1;
        let g = self.taken(a, b, p);
        self.lemma_run_facts(a, b);
        assert(g.top() == self.top());
        assert forall|k: int| 0 <= k < g.free.len() implies g.is_desc(#[trigger] g.free[k] as int)
            && g.chunks[g.index(g.free[k] as int)] is Free by {
            let o = Self::origin(a, len, k);
            assert(g.free[k] == self.free[o]);
            assert(self.is_desc(self.free[o] as int));
            assert(self.placed(a, b, o));
        }
        assert forall|x: int, y: int| 0 <= x < g.free.len() && 0 <= y < g.free.len() && x
            != y implies g.free[x] != g.free[y] by {
            assert(g.free[x] == self.free[Self::origin(a, len, x)]);
            assert(g.free[y] == self.free[Self::origin(a, len, y)]);
        }
        assert forall|j: int| 0 <= j < g.count() && g.chunks[j] is Free implies #[trigger] g.listed(
            j,
        ) by {
            assert(self.chunks[j] is Free);
            assert(self.listed(j));
            let k = choose|k: int| 0 <= k < m && self.free[k] == self.desc(j) as usize;
            self.lemma_desc(j);
            assert(self.placed(a, b, k));
            let n = if k < a {
                k
            } else {
                k - len
            };
            assert(g.free[n] == self.free[k]);
        }
        assert forall|j: int|
            0 <= j < g.count() implies (#[trigger] g.chunks[j] matches ChunkState::Used {
            head,
            len,
            addr,
        } ==> 0 <= head <= j < head + len <= g.count() && 0 < addr <= usize::MAX) by {
            if h <= j < h + len {
                assert(self.placed(a, b, b));
            } else {
                assert(g.chunks[j] == self.chunks[j]);
            }
        }
        assert forall|x: int, y: int|
            0 <= x < g.count() && (#[trigger] g.chunks[x] matches ChunkState::Used {
                head,
                len,
                addr,
            } && head <= y < head + len) implies #[trigger] g.chunks[y] == g.chunks[x] by {
            if !(h <= x < h + len) {
                assert(g.chunks[x] == self.chunks[x]);
                assert(self.chunks[y] == self.chunks[x]);
                if h <= y < h + len {
                    let k = a + (y - h);
                    assert(self.placed(a, b, k));
                    assert(self.is_desc(self.free[k] as int));
                    assert(self.chunks[self.index(self.free[k] as int)] is Free);
                }
            }
        }
        if b == m - 1 {
            assert(g.free[a - 1] == self.free[a - 1]);
            assert(g.free.len() == a);
        } else {
            assert(g.free[g.free.len() - 1] == self.free[m - 1]);
        }
    }

    /// After a run was cut out of the free list, the store holds the descriptor
    /// at index `k` of the rest of the free list as it should.
    #[verifier::rlimit(40)]
    pub proof fn lemma_taken_free_at(self, table: Map<usize, RawChunk>, a: int, b: int, p: int, k: int)
        requires
            self.wf(),
            self.mirrors(table),
            0 <= a <= b < self.free.len(),
            !(a == 0 && b == self.free.len() - 1),
            0 <= k < self.taken(a, b, p).free.len(),
        ensures
            self.taken(a, b, p).free_ok(self.taken_store(table, a, b, p), k),
    {
        let m = self.free.len() as int;
        let len = b - a + 1;
        let start = self.free[a];
        let last = self.free[b];
        let g = self.taken(a, b, p);
        let o = Self::origin(a, len, k);
        self.lemma_ends(table, a, b);
        assert(g.top() == self.top());
        assert(g.free[k] == self.free[o]);
        assert(self.free_ok(table, o));
        lemma_lent_at(table, start, last, p as usize, self.free[o]);
        assert(self.free[o] != start && self.free[o] != last);
        if k > 0 {
            assert(g.free[k - 1] == self.free[Self::origin(a, len, k - 1)]);
        }
        if k + 1 < g.free.len() {
            assert(g.free[k + 1] == self.free[Self::origin(a, len, k + 1)]);
        }
        if a > 0 && o != a - 1 {
            assert(self.free[o] != self.free[a - 1]);
        }
        if b + 1 < m && o != b + 1 {
            assert(self.free[o] != self.free[b + 1]);
        }
    }

    /// The links of the descriptors at the ends of a part of the free list, and of
    /// their neighbours, are as `lemma_lent_at` asks.
    pub proof fn lemma_ends(self, table: Map<usize, RawChunk>, a: int, b: int)
        requires
            self.wf(),
            self.mirrors(table),
            0 <= a <= b < self.free.len(),
        ensures
            table.contains_key(self.free[a]),
            table.contains_key(self.free[b]),
            table[self.free[a]].back == (if a > 0 {
                self.free[a - 1]
            } else {
                0
            }),
            table[self.free[b]].next == (if b + 1 < self.free.len() {
                self.free[b + 1]
            } else {
                0
            }),
            table[self.free[a]].back != 0 ==> table.contains_key(table[self.free[a]].back),
            table[self.free[b]].next != 0 ==> table.contains_key(table[self.free[b]].next),
            table[self.free[a]].back != self.free[a] && table[self.free[a]].back != self.free[b],
            table[self.free[b]].next != self.free[a] && table[self.free[b]].next != self.free[b],
            table[self.free[a]].back != table[self.free[b]].next || table[self.free[a]].back == 0,
    {
        self.lemma_free_linked(table);
        assert(node_ok(table, self.free, a));
        assert(node_ok(table, self.free, b));
        if a > 0 {
            assert(node_ok(table, self.free, a - 1));
        }
        if b + 1 < self.free.len() {
            assert(node_ok(table, self.free, b + 1));
        }
    }

    /// After a run was cut out of the free list, the store holds the descriptor of
    /// chunk `j` of the run as it should.
    #[verifier::rlimit(40)]
    pub proof fn lemma_taken_run_at(self, table: Map<usize, RawChunk>, a: int, b: int, p: int, j: int)
        requires
            self.wf(),
            self.mirrors(table),
            0 <= a <= b < self.free.len(),
            self.contiguous(a, b),
            0 < p <= usize::MAX,
            self.index(self.free[a] as int) <= j < self.index(self.free[a] as int) + (b - a + 1),
        ensures
            self.taken(a, b, p).used_ok(self.taken_store(table, a, b, p), j),
    {
        let h = self.index(self.free[a] as int);
        let start = self.free[a];
        let last = self.free[b];
        let g = self.taken(a, b, p);
        let k = a + (j - h);
        self.lemma_ends(table, a, b);
        self.lemma_run_facts(a, b);
        assert(g.top() == self.top());
        assert(self.placed(a, b, k));
        assert(self.placed(a, b, a));
        assert(self.placed(a, b, b));
        assert(self.free_ok(table, k));
        lemma_lent_at(table, start, last, p as usize, self.free[k]);
        if k > a {
            assert(self.placed(a, b, k - 1));
        }
        if k < b {
            assert(self.placed(a, b, k + 1));
        }
        if a > 0 {
            assert(self.free[k] != self.free[a - 1]);
        }
        if b + 1 < self.free.len() {
            assert(self.free[k] != self.free[b + 1]);
        }
    }

    /// After a run was cut out of the free list, the store holds the descriptor of
    /// chunk `j`, which was lent out before, as it should.
    #[verifier::rlimit(40)]
    pub proof fn lemma_taken_rest_at(self, table: Map<usize, RawChunk>, a: int, b: int, p: int, j: int)
        requires
            self.wf(),
            self.mirrors(table),
            0 <= a <= b < self.free.len(),
            0 <= j < self.count(),
            self.chunks[j] is Used,
            !(self.index(self.free[a] as int) <= j < self.index(self.free[a] as int) + (b - a + 1)),
        ensures
            self.taken(a, b, p).used_ok(self.taken_store(table, a, b, p), j),
    {
        let start = self.free[a];
        let last = self.free[b];
        let g = self.taken(a, b, p);
        let x = self.desc(j) as usize;
        self.lemma_ends(table, a, b);
        assert(g.top() == self.top());
        self.lemma_desc(j);
        assert(g.chunks[j] == self.chunks[j]);
        assert(self.used_ok(table, j));
        lemma_lent_at(table, start, last, p as usize, x);
        assert forall|k: int| 0 <= k < self.free.len() implies self.free[k] != x by {
            assert(self.is_desc(self.free[k] as int));
            assert(self.chunks[self.index(self.free[k] as int)] is Free);
        }
    }

    /// After a run was cut out of the free list, the store holds the descriptor of
    /// chunk `j`, which is lent out, as it should.
    pub proof fn lemma_taken_used_at(self, table: Map<usize, RawChunk>, a: int, b: int, p: int, j: int)
        requires
            self.wf(),
            self.mirrors(table),
            0 <= a <= b < self.free.len(),
            self.contiguous(a, b),
            0 < p <= usize::MAX,
            0 <= j < self.count(),
            self.taken(a, b, p).chunks[j] is Used,
        ensures
            self.taken(a, b, p).used_ok(self.taken_store(table, a, b, p), j),
    {
        let h = self.index(self.free[a] as int);
        if h <= j < h + (b - a + 1) {
            self.lemma_taken_run_at(table, a, b, p, j);
        } else {
            assert(self.taken(a, b, p).chunks[j] == self.chunks[j]);
            self.lemma_taken_rest_at(table, a, b, p, j);
        }
    }

    /// Lending out a run of neighbouring free chunks that is not the whole free
    /// list leaves a pool.
    pub proof fn lemma_taken(self, table: Map<usize, RawChunk>, a: int, b: int, p: int)
        requires
            self.wf(),
            self.mirrors(table),
            0 <= a <= b < self.free.len(),
            self.contiguous(a, b),
            !(a == 0 && b == self.free.len() - 1),
            0 < p <= usize::MAX,
        ensures
            self.taken(a, b, p).wf(),
            self.taken(a, b, p).mirrors(self.taken_store(table, a, b, p)),
            table.contains_key(self.free[a]),
            table.contains_key(self.free[b]),
            self.taken(a, b, p).free.last() == if b == self.free.len() - 1 {
                self.free[a - 1]
            } else {
                self.free.last()
            },
    {
        let g = self.taken(a, b, p);
        let after = self.taken_store(table, a, b, p);
        self.lemma_taken_wf(a, b, p);
        assert forall|k: int| 0 <= k < g.free.len() implies #[trigger] g.free_ok(after, k) by {
            self.lemma_taken_free_at(table, a, b, p, k);
        }
        assert forall|j: int| 0 <= j < g.count() && g.chunks[j] is Used implies #[trigger] g.used_ok(
            after,
            j,
        ) by {
            self.lemma_taken_used_at(table, a, b, p, j);
        }
        assert(self.is_desc(self.free[a] as int));
        assert(self.is_desc(self.free[b] as int));
        assert(g.top() == self.top());
        self.lemma_ends(table, a, b);
        lemma_lent_at(table, self.free[a], self.free[b], p as usize, 0);
        assert forall|x: usize| #[trigger] after.contains_key(x) <==> g.is_desc(x as int) by {
            assert(table.contains_key(x) <==> self.is_desc(x as int));
        }
    }

    /// Of two chunks, the second begins where the first ends exactly when it is
    /// the next one.
    pub proof fn lemma_neighbours(self, i: int, j: int)
        requires
            self.chunk_size > 0,
        ensures
            self.chunk(i) + self.chunk_size == self.chunk(j) <==> j == i + 1,
    {
        if j <= i {
            if j < i {
                self.lemma_chunk_order(j, i);
            }
        } else if j > i + 1 {
            self.lemma_chunk_order(i + 1, j);
            self.lemma_chunk_order(i, i + 1);
        } else {
            self.lemma_chunk_order(i, j);
        }
    }

    /// Every address of a span of chunks lies in one of the chunks.
    pub proof fn lemma_span_chunk(self, h: int, len: int, x: int) -> (j: int)
        requires
            self.chunk_size > 0,
            len >= 0,
            self.span(h, len).contains(x),
        ensures
            h <= j < h + len,
            self.chunk(j) <= x < self.chunk(j + 1),
        decreases len,
    {
        assert(self.chunk(h + len) == self.chunk(h) + len * self.chunk_size) by (nonlinear_arith)
            requires
                self.chunk(h + len) == self.start + (h + len) * self.chunk_size,
                self.chunk(h) == self.start + h * self.chunk_size,
        ;
        if len == 0 {
            assert(0 * self.chunk_size == 0) by (nonlinear_arith);
            assert(false);
            h
        } else {
            self.lemma_chunk_order(h + len - 1, h + len);
            if x >= self.chunk(h + len - 1) {
                h + len - 1
            } else {
                assert(self.chunk(h + len - 1) == self.chunk(h) + (len - 1) * self.chunk_size)
                    by (nonlinear_arith)
                    requires
                        self.chunk(h + len - 1) == self.start + (h + len - 1) * self.chunk_size,
                        self.chunk(h) == self.start + h * self.chunk_size,
                ;
                self.lemma_span_chunk(h, len - 1, x)
            }
        }
    }

    /// An address of a chunk that is free, or has no descriptor yet, is not in
    /// use.
    pub proof fn lemma_free_unoccupied(self, i: int, x: int)
        requires
            self.chunk_size > 0,
            self.chunk(i) <= x < self.chunk(i + 1),
            !(0 <= i < self.count() && self.chunks[i] is Used),
        ensures
            !self.occupied().contains(x),
    {
        if self.occupied().contains(x) {
            let j = choose|j: int|
                0 <= j < self.count() && (#[trigger] self.chunks[j]) is Used && self.chunk(j) <= x
                    < self.chunk(j + 1);
            if j < i {
                self.lemma_chunk_order(j, i);
                self.lemma_chunk_order(j, j + 1);
            } else if i < j {
                self.lemma_chunk_order(i, j);
                self.lemma_chunk_order(i, i + 1);
            }
        }
    }

    /// Lending out chunks that were free takes the addresses of these chunks into
    /// use and gives none up: `after` is the state in which the chunks from
    /// number `h` on, `len` of them, are lent out and all others are as in `self`.
    #[verifier::rlimit(40)]
    pub proof fn lemma_lend_grants(self, after: Chunks, h: int, len: int, p: int, size: int)
        requires
            self.chunk_size > 0,
            after.start == self.start,
            after.chunk_size == self.chunk_size,
            after.count() == self.count(),
            0 <= h,
            0 <= len,
            h + len <= self.count(),
            forall|j: int| h <= j < h + len ==> (#[trigger] self.chunks[j]) is Free,
            forall|j: int| h <= j < h + len ==> (#[trigger] after.chunks[j]) is Used,
            forall|j: int|
                0 <= j < self.count() && !(h <= j < h + len) ==> (#[trigger] after.chunks[j])
                    == self.chunks[j],
            self.chunk(h) <= p,
            0 <= size,
            p + size <= self.chunk(h + len),
        ensures
            crate::grants(self.occupied(), after.occupied(), p, size),
    {
        assert(self.chunk(h + len) == self.chunk(h) + len * self.chunk_size) by (nonlinear_arith)
            requires
                self.chunk(h + len) == self.start + (h + len) * self.chunk_size,
                self.chunk(h) == self.start + h * self.chunk_size,
        ;
        assert forall|x: int| crate::block(p, size).contains(x) implies !self.occupied().contains(x)
            && after.occupied().contains(x) by {
            assert(self.span(h, len).contains(x));
            let j = self.lemma_span_chunk(h, len, x);
            assert(self.chunks[j] is Free);
            self.lemma_free_unoccupied(j, x);
            assert(after.chunks[j] is Used);
            assert(after.chunk(j) == self.chunk(j) && after.chunk(j + 1) == self.chunk(j + 1));
        }
        assert forall|x: int| self.occupied().contains(x) implies after.occupied().contains(x) by {
            let j = choose|j: int|
                0 <= j < self.count() && (#[trigger] self.chunks[j]) is Used && self.chunk(j) <= x
                    < self.chunk(j + 1);
            assert(after.chunks[j] == self.chunks[j]);
            assert(after.chunk(j) == self.chunk(j) && after.chunk(j + 1) == self.chunk(j + 1));
        }
    }

    /// Lending out a run takes a block into use that was free, and failing to
    /// lends nothing out.
    #[verifier::rlimit(40)]
    pub proof fn lemma_multi(self, layout: Layout)
        requires
            self.wf(),
            layout.valid(),
        ensures
            self.multi(layout).0.wf(),
            self.multi(layout).0.start == self.start,
            self.multi(layout).0.end == self.end,
            self.multi(layout).0.chunk_size == self.chunk_size,
            match self.multi(layout).1 {
                Ok(d) => self.multi(layout).0.lends(self, d, layout),
                Err(e) => e == AllocError::OutOfMemory && self.multi(layout).0.occupied()
                    == self.occupied(),
            },
        decreases self.top() - self.start - self.count(),
    {
        let m = self.free.len() as int;
        self.lemma_search(layout, m - 1, m - 1);
        match self.found(layout) {
            Some((a, b)) => {
                let whole = a == 0 && b == m - 1;
                if !whole || self.can_grow() {
                    let u = if whole {
                        self.grown()
                    } else {
                        self
                    };
                    if whole {
                        self.lemma_grown_wf();
                        assert forall|j: int| a <= j < b implies #[trigger] u.adjacent(j) by {
                            assert(self.adjacent(j));
                        }
                    }
                    assert(u.top() == self.top());
                    assert(u.free[a] == self.free[a] && u.free[b] == self.free[b]);
                    let h = u.index(u.free[a] as int);
                    let len = b - a + 1;
                    let p = align_up_spec(u.chunk(h), layout.align as int);
                    let w = u.taken(a, b, p);
                    assert(w.top() == u.top());
                    u.lemma_run_facts(a, b);
                    assert(u.placed(a, b, a));
                    assert(u.placed(a, b, b));
                    u.lemma_desc(h);
                    u.lemma_desc(h + (b - a));
                    bits::lemma_pow2_positive(layout.align);
                    bits::lemma_align_up_bounds(u.chunk(h), layout.align as int);
                    assert(u.span_fits(a, b, layout));
                    u.lemma_taken_wf(a, b, p);
                    assert forall|j: int| h <= j < h + len implies (#[trigger] u.chunks[j]) is Free by {
                        let k = a + (j - h);
                        assert(u.placed(a, b, k));
                        assert(u.is_desc(u.free[k] as int));
                        assert(u.chunks[u.index(u.free[k] as int)] is Free);
                    }
                    u.lemma_lend_grants(w, h, len, p, layout.size as int);
                    assert(w.is_desc(u.free[a] as int));
                }
            },
            None => {
                if self.can_grow() {
                    self.lemma_grown_wf();
                    assert((self.count() + 1) * self.chunk_size >= self.count() + 1)
                        by (nonlinear_arith)
                        requires
                            self.chunk_size >= 1,
                            self.count() + 1 >= 0,
                    ;
                    assert(self.grown().top() == self.top());
                    self.grown().lemma_multi(layout);
                }
            },
        }
    }

    /// Lending out the last chunk of the free list for a block that lies in it
    /// takes the block into use, which was free.
    pub proof fn lemma_popped_grants(self, p: int, size: int)
        requires
            self.wf(),
            self.free.len() >= 2,
            0 < p <= usize::MAX,
            0 <= size,
            self.chunk(self.index(self.free.last() as int)) <= p,
            p + size <= self.chunk(self.index(self.free.last() as int) + 1),
        ensures
            grants(self.occupied(), self.popped(p).occupied(), p, size),
    {
        let i = self.index(self.free.last() as int);
        assert(self.is_desc(self.free[self.free.len() - 1] as int));
        self.lemma_index(self.free.last() as int);
        assert(self.popped(p).top() == self.top());
        self.lemma_lend_grants(self.popped(p), i, 1, p, size);
    }

    /// Handing back the chunk that was lent out last, alone, leaves the free list
    /// as it was before.
    pub proof fn lemma_pop_release(self, p: int)
        requires
            self.wf(),
            self.free.len() >= 2,
        ensures
            self.popped(p).released(self.index(self.free.last() as int)) == self,
    {
        let i = self.index(self.free.last() as int);
        let g = self.popped(p);
        let r = g.released(i);
        assert(self.is_desc(self.free[self.free.len() - 1] as int));
        self.lemma_index(self.free.last() as int);
        assert(g.top() == self.top());
        assert(g.run(i) =~= seq![self.free.last()]);
        assert(r.free =~= self.free);
        assert(r.chunks =~= self.chunks);
    }

    /// A block that the pool lends out is not the null address, begins at a
    /// multiple of its alignment, lies in the region below the descriptors and was
    /// free before; a request that fails lends nothing out.
    #[verifier::rlimit(40)]
    pub proof fn lemma_lend(self, layout: Layout)
        requires
            self.wf(),
        ensures
            self.lend(layout).0.start == self.start,
            self.lend(layout).0.end == self.end,
            self.lend(layout).0.chunk_size == self.chunk_size,
            match self.lend(layout).1 {
                Ok(p) => {
                    &&& p != 0
                    &&& p as int % layout.align as int == 0
                    &&& self.start <= p
                    &&& p + layout.size <= self.top()
                    &&& grants(
                        self.occupied(),
                        self.lend(layout).0.occupied(),
                        p as int,
                        layout.size as int,
                    )
                },
                Err(e) => {
                    &&& self.lend(layout).0.occupied() == self.occupied()
                    &&& e == if layout.valid() && self.lent_one(layout.align as int).1 is Ok {
                        AllocError::OutOfMemory
                    } else {
                        self.lent_one(layout.align as int).1->Err_0
                    }
                    &&& e == AllocError::InvalidLayout || e == AllocError::OutOfMemory
                    &&& !layout.valid() ==> e == AllocError::InvalidLayout
                },
            },
    {
        let one = self.lent_one(layout.align as int);
        if self.free.len() == 1 && self.can_grow() {
            self.lemma_grown_wf();
        }
        if one.1 is Ok {
            let pre = self.primed();
            let d = pre.free.last();
            let i = pre.index(d as int);
            assert(pre.top() == self.top());
            assert(pre.is_desc(pre.free[pre.free.len() - 1] as int));
            pre.lemma_index(d as int);
            pre.lemma_desc(i);
            pre.lemma_desc(0);
            if i > 0 {
                pre.lemma_chunk_order(0, i);
            }
            let p = align_up_spec(pre.chunk(i), layout.align as int);
            bits::lemma_pow2_positive(layout.align);
            bits::lemma_align_up_bounds(pre.chunk(i), layout.align as int);
            assert(one.0 == pre.popped(p));
            assert(one.0.top() == pre.top());
            assert(one.0.chunks[i]->addr == p);
            if p + layout.size <= one.0.chunk(i + 1) {
                pre.lemma_popped_grants(p, layout.size as int);
            } else {
                let o = pre.ordered();
                pre.lemma_ordered_wf();
                assert(o.top() == pre.top());
                o.lemma_multi(layout);
                let many = o.multi(layout);
                assert(many.0.top() == o.top());
                if many.1 is Ok {
                    let w = many.0;
                    let h = w.index(many.1->Ok_0 as int);
                    w.lemma_desc(h);
                    w.lemma_desc(0);
                    if h > 0 {
                        w.lemma_chunk_order(0, h);
                    }
                    w.lemma_desc(h + w.chunks[h]->len - 1);
                    bits::lemma_align_up_bounds(w.chunk(h), layout.align as int);
                }
            }
        }
    }

    /// Resetting twice is resetting once.
    pub proof fn lemma_reset_idempotent(self)
        ensures
            self.emptied().emptied() == self.emptied(),
    {
        assert(self.emptied().top() == self.top());
    }

    /// Any pool in the state that construction leaves is in the state that a reset
    /// leaves over the same region with the same chunk size, and so decides alike on
    /// every sequence of requests.
    pub proof fn lemma_empty_state_parity(fresh: Chunks, used: Chunks, layouts: Seq<Layout>)
        requires
            fresh == fresh.emptied(),
            fresh.start == used.start,
            fresh.end == used.end,
            fresh.chunk_size == used.chunk_size,
        ensures
            fresh == used.emptied(),
            fresh.decisions(layouts) == used.emptied().decisions(layouts),
    {
        assert(fresh.top() == used.top());
    }
}
} // verus!
