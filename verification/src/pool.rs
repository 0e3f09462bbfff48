//! The pool policy: the region is cut into chunks of one size, counted from its
//! start, and every chunk has a descriptor in an array that grows downward from the
//! end of the region. The descriptors of the chunks that are free form a doubly
//! linked list; a request takes one chunk off its tail or, where one chunk is not
//! enough, a run of neighbouring free chunks, whose descriptors stay linked to one
//! another while the run is lent out.

use vstd::prelude::*;
use core::ops::Range;
use vstd::arithmetic::power2::is_pow2;
use crate::store::Store;
use crate::{AllocError, Alloqator, Layout, align_down_spec, align_up_spec};
use crate::bits;
use crate::pool::chain::{
    below, joined, lemma_detach_last, lemma_linked_frame, lemma_merge_advance, lemma_merge_peek,
    lemma_merged_descending, lemma_merged_elems, lemma_merged_len, lemma_raw_align, lemma_relinks_trans, lemma_sorted,
    lent, linked, merge_inv, merged, merging, node_ok, relinks, reversed, sliced, sorted,
    unlinked, descending, ends_list, in_list, list_of, lemma_list_unique,
};
use crate::pool::chunks::Chunks;

pub mod chain;
pub mod chunks;
pub mod proofs;

verus! {

/// Size of a chunk where none is asked for.
pub const DEFAULT_CHUNK_SIZE: usize = 64;

/// Alignment of the pool where none is asked for.
pub const DEFAULT_ALIGNMENT: usize = 2;

/// Bytes that a descriptor takes in the region.
pub const RAW_CHUNK_SIZE: usize = 32;

/// Alignment of a descriptor in the region.
pub const RAW_CHUNK_ALIGN: usize = 8;

/// The descriptor of a chunk.
#[derive(Clone, Copy, Debug)]
pub struct RawChunk {
    /// First address of the block lent out from this chunk on; zero where none is.
    pub addr: usize,
    /// First address of the chunk.
    pub chunk: usize,
    /// In the free list, the next free descriptor; in a run that is lent out, the
    /// descriptor of the next chunk of the run. Zero for the last.
    pub next: usize,
    /// The descriptor before this one in its list, zero for the first.
    pub back: usize,
}

/// Walks a list of descriptors towards its end.
pub struct RawChunkIter(pub usize);

impl RawChunkIter {
    /// The address the walk stands at, and a step to the descriptor after it;
    /// `None` behind the last, or where no descriptor lies at the address.
    pub fn next(&mut self, table: &Store<RawChunk>) -> (r: Option<usize>)
        ensures
            r == if old(self).0 != 0 && table@.contains_key(old(self).0) {
                Some(old(self).0)
            } else {
                None::<usize>
            },
            r is Some ==> final(self).0 == table@[old(self).0].next,
            r is None ==> final(self).0 == old(self).0,
    {
        let at: usize = self.0;
        if at == 0 {
            return None;
        }
        match table.read(at) {
            Some(c) => {
                self.0 = c.next;
                Some(at)
            },
            None => None,
        }
    }
}

/// Walks a list of descriptors towards its beginning.
pub struct RawChunkBackIter(pub usize);

impl RawChunkBackIter {
    /// The address the walk stands at, and a step to the descriptor before it;
    /// `None` before the first, or where no descriptor lies at the address.
    pub fn next(&mut self, table: &Store<RawChunk>) -> (r: Option<usize>)
        ensures
            r == if old(self).0 != 0 && table@.contains_key(old(self).0) {
                Some(old(self).0)
            } else {
                None::<usize>
            },
            r is Some ==> final(self).0 == table@[old(self).0].back,
            r is None ==> final(self).0 == old(self).0,
    {
        let at: usize = self.0;
        if at == 0 {
            return None;
        }
        match table.read(at) {
            Some(c) => {
                self.0 = c.back;
                Some(at)
            },
            None => None,
        }
    }
}

impl RawChunk {
    /// The descriptor of the chunk at `bind`, with a block that begins at `bind`
    /// rounded up to `align`.
    pub fn new(bind: usize, align: usize) -> (c: RawChunk)
        requires
            vstd::arithmetic::power2::is_pow2(align as int),
            crate::align_up_spec(bind as int, align as int) <= usize::MAX,
        ensures
            c == (RawChunk {
                addr: crate::align_up_spec(bind as int, align as int) as usize,
                chunk: bind,
                next: 0,
                back: 0,
            }),
    {
        let addr: usize = match crate::checked_align_up(bind, align) {
            Some(a) => a,
            None => 0,
        };
        proof {
            crate::bits::lemma_pow2_positive(align);
            crate::bits::lemma_align_up_bounds(bind as int, align as int);
        }
        RawChunk { addr, chunk: bind, next: 0, back: 0 }
    }

    /// The descriptor with `next` as its successor.
    pub fn next(self, next: usize) -> (c: RawChunk)
        ensures
            c == (RawChunk { next, ..self }),
    {
        RawChunk { addr: self.addr, chunk: self.chunk, next, back: self.back }
    }

    /// The descriptor with `back` as its predecessor.
    pub fn back(self, back: usize) -> (c: RawChunk)
        ensures
            c == (RawChunk { back, ..self }),
    {
        RawChunk { addr: self.addr, chunk: self.chunk, next: self.next, back }
    }

    /// Takes the descriptor at `at` out of its list: its neighbours are joined and
    /// its own links are cleared.
    pub fn disconnect(table: &mut Store<RawChunk>, at: usize)
        requires
            old(table)@.contains_key(at),
        ensures
            final(table)@ == unlinked(old(table)@, at),
    {
        let own: RawChunk = match table.read(at) {
            Some(c) => c,
            None => RawChunk { addr: 0, chunk: 0, next: 0, back: 0 },
        };
        if own.back != 0 {
            if let Some(b) = table.read(own.back) {
                table.write(own.back, b.next(own.next));
            }
        }
        if own.next != 0 {
            if let Some(n) = table.read(own.next) {
                table.write(own.next, n.back(own.back));
            }
        }
        if let Some(c) = table.read(at) {
            table.write(at, c.next(0).back(0));
        }
    }

    /// Makes the descriptor at `next` the successor of the one at `back`; the one
    /// must have no successor yet and the other no predecessor.
    pub fn connect(table: &mut Store<RawChunk>, back: usize, next: usize)
        requires
            old(table)@.contains_key(back),
            old(table)@.contains_key(next),
            old(table)@[back].next == 0,
            old(table)@[next].back == 0,
        ensures
            final(table)@ == joined(old(table)@, back, next),
    {
        Self::connect_unchecked(table, back, next);
    }

    /// Makes the descriptor at `next` the successor of the one at `back`, whatever
    /// their links were.
    pub fn connect_unchecked(table: &mut Store<RawChunk>, back: usize, next: usize)
        requires
            old(table)@.contains_key(back),
            old(table)@.contains_key(next),
        ensures
            final(table)@ == joined(old(table)@, back, next),
    {
        if let Some(b) = table.read(back) {
            table.write(back, b.next(next));
        }
        if let Some(n) = table.read(next) {
            table.write(next, n.back(back));
        }
    }

    /// Cuts the part of a list from the descriptor at `start` to the one at `last`
    /// out of it and joins what was before with what was behind.
    pub fn slice_until(table: &mut Store<RawChunk>, start: usize, last: usize)
        requires
            old(table)@.contains_key(start),
            old(table)@.contains_key(last),
        ensures
            final(table)@ == sliced(old(table)@, start, last),
    {
        let back: usize = match table.read(start) {
            Some(c) => c.back,
            None => 0,
        };
        let next: usize = match table.read(last) {
            Some(c) => c.next,
            None => 0,
        };
        if next != 0 {
            if let Some(n) = table.read(next) {
                table.write(next, n.back(back));
            }
        }
        if back != 0 {
            if let Some(b) = table.read(back) {
                table.write(back, b.next(next));
            }
        }
        if let Some(s) = table.read(start) {
            table.write(start, s.back(0));
        }
        if let Some(l) = table.read(last) {
            table.write(last, l.next(0));
        }
    }

    /// A walk towards the end of the list that begins at the descriptor at `at`.
    pub fn iter(at: usize) -> (it: RawChunkIter)
        ensures
            it.0 == at,
    {
        RawChunkIter(at)
    }

    /// A walk towards the beginning of the list that begins at the descriptor at
    /// `at`.
    pub fn back_iter(at: usize) -> (it: RawChunkBackIter)
        ensures
            it.0 == at,
    {
        RawChunkBackIter(at)
    }

    /// Address of the first descriptor of the list that the descriptor at `at`
    /// belongs to.
    pub fn first(table: &Store<RawChunk>, at: usize) -> (r: usize)
        requires
            in_list(table@, at),
        ensures
            r == list_of(table@, at)[0],
    {
        Self::first_of(table, at, Ghost(list_of(table@, at)))
    }

    /// Address of the last descriptor of the list that the descriptor at `at`
    /// belongs to.
    pub fn last(table: &Store<RawChunk>, at: usize) -> (r: usize)
        requires
            in_list(table@, at),
        ensures
            r == list_of(table@, at).last(),
    {
        Self::last_of(table, at, Ghost(list_of(table@, at)))
    }

    /// `first`, for the list `nodes`.
    fn first_of(table: &Store<RawChunk>, at: usize, Ghost(nodes): Ghost<Seq<usize>>) -> (r: usize)
        requires
            linked(table@, nodes),
            nodes.contains(at),
        ensures
            r == nodes[0],
    {
        let ghost mut k: int = choose|k: int| 0 <= k < nodes.len() && nodes[k] == at;
        let mut it = Self::back_iter(at);
        let mut r: usize = at;
        loop
            invariant_except_break
                it.0 == r,
            invariant
                linked(table@, nodes),
                0 <= k < nodes.len(),
                r == nodes[k],
            ensures
                r == nodes[0],
            decreases k,
        {
            proof {
                assert(node_ok(table@, nodes, k));
                if k > 0 {
                    assert(node_ok(table@, nodes, k - 1));
                }
            }
            let _ = it.next(table);
            if it.0 == 0 {
                break ;
            }
            proof {
                k = k - 1;
            }
            r = it.0;
        }
        r
    }

    /// `last`, for the list `nodes`.
    fn last_of(table: &Store<RawChunk>, at: usize, Ghost(nodes): Ghost<Seq<usize>>) -> (r: usize)
        requires
            linked(table@, nodes),
            nodes.contains(at),
        ensures
            r == nodes.last(),
    {
        let ghost mut k: int = choose|k: int| 0 <= k < nodes.len() && nodes[k] == at;
        let mut it = Self::iter(at);
        let mut r: usize = at;
        loop
            invariant_except_break
                it.0 == r,
            invariant
                linked(table@, nodes),
                0 <= k < nodes.len(),
                r == nodes[k],
            ensures
                r == nodes.last(),
            decreases nodes.len() - k,
        {
            proof {
                assert(node_ok(table@, nodes, k));
                if k + 1 < nodes.len() {
                    assert(node_ok(table@, nodes, k + 1));
                }
            }
            let _ = it.next(table);
            if it.0 == 0 {
                break ;
            }
            proof {
                k = k + 1;
            }
            r = it.0;
        }
        r
    }
}

impl RawChunk {
    /// Merges the list that ends with the descriptor at `l` and the list that ends
    /// with the one at `r` into one list, and returns the address of its last
    /// descriptor. Where both lists were in the order of their chunks, so is the
    /// merged list.
    pub fn merge(table: &mut Store<RawChunk>, l: usize, r: usize) -> (end: usize)
        requires
            ends_list(old(table)@, l),
            ends_list(old(table)@, r),
            merging(
                old(table)@,
                list_of(old(table)@, l),
                list_of(old(table)@, r),
                Seq::empty(),
            ),
            reversed(old(table)@),
        ensures
            ends_list(final(table)@, end),
            list_of(final(table)@, end) == merged(list_of(old(table)@, l), list_of(old(table)@, r)),
            relinks(
                old(table)@,
                final(table)@,
                list_of(old(table)@, l) + list_of(old(table)@, r),
            ),
            descending(list_of(old(table)@, l)) && descending(list_of(old(table)@, r))
                ==> descending(list_of(final(table)@, end)),
    {
        let ghost ls = list_of(table@, l);
        let ghost rs = list_of(table@, r);
        let end = Self::merge_lists(table, l, r, Ghost(ls), Ghost(rs));
        proof {
            lemma_list_unique(table@, merged(ls, rs), end);
        }
        end
    }

    /// `merge`, for the lists `ls` and `rs`.
    #[verifier::rlimit(40)]
    fn merge_lists(
        table: &mut Store<RawChunk>,
        l: usize,
        r: usize,
        Ghost(ls): Ghost<Seq<usize>>,
        Ghost(rs): Ghost<Seq<usize>>,
    ) -> (end: usize)
        requires
            merging(old(table)@, ls, rs, Seq::empty()),
            ls.len() >= 1,
            rs.len() >= 1,
            ls.last() == l,
            rs.last() == r,
            reversed(old(table)@),
        ensures
            linked(final(table)@, merged(ls, rs)),
            merged(ls, rs).len() == ls.len() + rs.len(),
            end == merged(ls, rs).last(),
            relinks(old(table)@, final(table)@, ls + rs),
            descending(ls) && descending(rs) ==> descending(merged(ls, rs)),
    {
        let ghost t0 = table@;
        proof {
            if descending(ls) && descending(rs) {
                lemma_merged_descending(ls, rs);
            }
        }
        let mut lit: usize = l;
        let mut rit: usize = r;
        let mut start: usize = 0;
        let mut end: usize = 0;
        let ghost mut a: int = ls.len() as int;
        let ghost mut b: int = rs.len() as int;
        let ghost mut out: Seq<usize> = Seq::empty();
        proof {
            assert(ls.take(a) =~= ls);
            assert(rs.take(b) =~= rs);
            assert(merged(ls, rs) + out =~= merged(ls, rs));
            lemma_merged_len(ls, rs);
            assert(table@.dom() =~= t0.dom());
        }
        while lit != 0 || rit != 0
            invariant
                merge_inv(t0, table@, ls, rs, a, b, out),
                lit == if a > 0 {
                    ls[a - 1]
                } else {
                    0
                },
                rit == if b > 0 {
                    rs[b - 1]
                } else {
                    0
                },
                out.len() > 0 ==> start == out[0] && end == out.last(),
                out.len() == 0 ==> start == 0,
            decreases a + b,
        {
            proof {
                lemma_merge_peek(t0, table@, ls, rs, a, b, out);
            }
            let take_left: bool = if rit == 0 {
                true
            } else if lit == 0 {
                false
            } else {
                let lc: usize = match table.read(lit) {
                    Some(c) => c.chunk,
                    None => 0,
                };
                let rc: usize = match table.read(rit) {
                    Some(c) => c.chunk,
                    None => 0,
                };
                lc > rc
            };
            let node: usize = if take_left {
                lit
            } else {
                rit
            };
            let back: usize = match table.read(node) {
                Some(c) => c.back,
                None => 0,
            };
            proof {
                lemma_merge_advance(t0, table@, ls, rs, a, b, out, take_left);
            }
            Self::disconnect(table, node);
            if start == 0 {
                start = node;
                end = node;
            } else {
                Self::connect_unchecked(table, node, start);
                start = node;
            }
            if take_left {
                lit = back;
            } else {
                rit = back;
            }
            proof {
                let grown = seq![node] + out;
                assert(grown[0] == node);
                if out.len() > 0 {
                    assert(grown.last() == out.last());
                }
                out = grown;
                if take_left {
                    a = a - 1;
                } else {
                    b = b - 1;
                }
            }
        }
        proof {
            lemma_merge_peek(t0, table@, ls, rs, a, b, out);
            assert(ls.take(0) =~= Seq::<usize>::empty());
            assert(rs.take(0) =~= Seq::<usize>::empty());
            assert(merged(Seq::<usize>::empty(), Seq::<usize>::empty()) =~= Seq::<usize>::empty());
            assert(merged(ls, rs) =~= out);
        }
        end
    }
}

impl RawChunk {
    /// Sorts the list that ends with the descriptor at `at` into the order of its
    /// chunks, and returns the address of the last descriptor of the sorted list.
    pub fn sort(table: &mut Store<RawChunk>, at: usize) -> (end: usize)
        requires
            ends_list(old(table)@, at),
            reversed(old(table)@),
        ensures
            ends_list(final(table)@, end),
            list_of(final(table)@, end) == sorted(list_of(old(table)@, at)),
            descending(list_of(final(table)@, end)),
            forall|x: usize|
                list_of(old(table)@, at).contains(x) <==> list_of(final(table)@, end).contains(x),
            relinks(old(table)@, final(table)@, list_of(old(table)@, at)),
    {
        let ghost xs = list_of(table@, at);
        let end = Self::sort_list(table, at, Ghost(xs));
        proof {
            lemma_list_unique(table@, sorted(xs), end);
        }
        end
    }

    /// `sort`, for the list `xs`.
    #[verifier::rlimit(40)]
    fn sort_list(table: &mut Store<RawChunk>, at: usize, Ghost(xs): Ghost<Seq<usize>>) -> (end: usize)
        requires
            linked(old(table)@, xs),
            xs.len() >= 1,
            xs.last() == at,
            reversed(old(table)@),
        ensures
            linked(final(table)@, sorted(xs)),
            sorted(xs).len() == xs.len(),
            descending(sorted(xs)),
            forall|x: usize| xs.contains(x) <==> sorted(xs).contains(x),
            end == sorted(xs).last(),
            relinks(old(table)@, final(table)@, xs),
        decreases xs.len(),
    {
        let ghost t0 = table@;
        let ghost n = xs.len() as int;
        proof {
            lemma_sorted(xs);
            assert(node_ok(t0, xs, n - 1));
            if n > 1 {
                assert(node_ok(t0, xs, n - 2));
            }
            if n > 2 {
                assert(node_ok(t0, xs, n - 3));
            }
        }
        let r: usize = at;
        let l: usize = match table.read(r) {
            Some(c) => c.back,
            None => 0,
        };
        if l == 0 {
            return at;
        }
        let next: usize = match table.read(l) {
            Some(c) => c.back,
            None => 0,
        };
        let ghost ls = seq![l];
        let ghost rs = seq![r];
        let ghost rest = xs.take(n - 2);
        proof {
            lemma_detach_last(t0, xs);
            let t1 = unlinked(t0, r);
            assert(xs.drop_last().drop_last() =~= rest);
            assert(xs.drop_last().last() == l);
            lemma_detach_last(t1, xs.drop_last());
            let t2 = unlinked(t1, l);
            assert(node_ok(t1, rs, 0));
            assert(t2[r] == t1[r]);
            assert(node_ok(t2, rs, 0));
            assert(node_ok(t2, ls, 0));
            assert(rs[0] == r && ls[0] == l);
            assert(xs[n - 2] != xs[n - 1]);
            assert(merging(t2, ls, rs, Seq::empty()));
            assert forall|k: int| 0 <= k < xs.drop_last().len() implies xs.contains(
                #[trigger] xs.drop_last()[k],
            ) by {
                assert(xs[k] == xs.drop_last()[k]);
            }
            lemma_relinks_trans(t0, t1, t2, xs.drop_last(), xs);
        }
        Self::disconnect(table, r);
        Self::disconnect(table, l);
        let ghost t2 = table@;
        let merged_end: usize = Self::merge_lists(table, l, r, Ghost(ls), Ghost(rs));
        let ghost pair = merged(ls, rs);
        let ghost t3 = table@;
        proof {
            lemma_merged_elems(ls, rs);
            assert forall|k: int| 0 <= k < (ls + rs).len() implies xs.contains(
                #[trigger] (ls + rs)[k],
            ) by {
                if k == 0 {
                    assert(xs[n - 2] == (ls + rs)[k]);
                } else {
                    assert(xs[n - 1] == (ls + rs)[k]);
                }
            }
            lemma_relinks_trans(t0, t2, t3, ls + rs, xs);
            assert forall|k: int| 0 <= k < rest.len() implies t3.contains_key(#[trigger] rest[k])
                && t3[rest[k]] == t2[rest[k]] by {
                assert(node_ok(t2, rest, k));
                assert(rest[k] == xs[k]);
                if (ls + rs).contains(rest[k]) {
                    let i = choose|i: int| 0 <= i < 2 && (ls + rs)[i] == rest[k];
                    assert(xs[k] != xs[n - 2] && xs[k] != xs[n - 1]);
                }
            }
            lemma_linked_frame(t2, t3, rest);
        }
        if next == 0 {
            proof {
                assert(n == 2) by {
                    if n > 2 {
                        assert(node_ok(t0, xs, n - 3));
                    }
                }
            }
            return merged_end;
        }
        proof {
            assert(n > 2);
            assert(rest.last() == xs[n - 3]);
        }
        let f: usize = Self::sort_list(table, next, Ghost(rest));
        let ghost t4 = table@;
        let ghost s = sorted(rest);
        proof {
            lemma_sorted(rest);
            assert forall|k: int| 0 <= k < rest.len() implies xs.contains(#[trigger] rest[k]) by {
                assert(xs[k] == rest[k]);
            }
            lemma_relinks_trans(t0, t3, t4, rest, xs);
            assert forall|k: int| 0 <= k < pair.len() implies t4.contains_key(#[trigger] pair[k])
                && t4[pair[k]] == t3[pair[k]] by {
                assert(node_ok(t3, pair, k));
                assert(pair.contains(pair[k]));
                if rest.contains(pair[k]) {
                    let i = choose|i: int| 0 <= i < rest.len() && rest[i] == pair[k];
                    assert(xs[i] != xs[n - 2] && xs[i] != xs[n - 1]);
                    assert(ls[0] == l && rs[0] == r);
                }
            }
            lemma_linked_frame(t3, t4, pair);
            assert forall|i: int, j: int| 0 <= i < pair.len() && 0 <= j < s.len() implies pair[i]
                != s[j] by {
                assert(pair.contains(pair[i]));
                assert(s.contains(s[j]));
                let k = choose|k: int| 0 <= k < rest.len() && rest[k] == s[j];
                assert(xs[k] != xs[n - 2] && xs[k] != xs[n - 1]);
                assert(ls[0] == l && rs[0] == r);
            }
            lemma_merged_len(ls, rs);
            assert(merging(t4, pair, s, Seq::empty()));
        }
        let end: usize = Self::merge_lists(table, merged_end, f, Ghost(pair), Ghost(s));
        proof {
            assert forall|k: int| 0 <= k < (pair + s).len() implies xs.contains(
                #[trigger] (pair + s)[k],
            ) by {
                let y = (pair + s)[k];
                if k < pair.len() {
                    assert(pair.contains(pair[k]));
                    assert(ls[0] == l && rs[0] == r);
                    assert(y == xs[n - 2] || y == xs[n - 1]);
                } else {
                    assert(s.contains(s[k - pair.len()]));
                    let i = choose|i: int| 0 <= i < rest.len() && rest[i] == y;
                    assert(xs[i] == y);
                }
            }
            lemma_relinks_trans(t0, t4, table@, pair + s, xs);
        }
        end
    }
}

impl RawChunk {
    /// The descriptor of the free chunk at `bind`.
    pub fn vacant(bind: usize) -> (c: RawChunk)
        ensures
            c == (RawChunk { addr: 0, chunk: bind, next: 0, back: 0 }),
    {
        RawChunk { addr: 0, chunk: bind, next: 0, back: 0 }
    }

    /// Writes the descriptor below the lowest descriptor so far, which lies at
    /// `end`, and moves `end` there. Nothing is written where the chunk it
    /// describes would reach up to the place of the descriptor.
    pub fn allocate(&self, table: &mut Store<RawChunk>, end: &mut usize, chunk_size: usize) -> (r:
        Option<usize>)
        ensures
            r is Some <==> *old(end) >= RAW_CHUNK_SIZE && self.chunk + chunk_size < below(
                *old(end) as int,
            ),
            r matches Some(a) ==> {
                &&& a == below(*old(end) as int)
                &&& *final(end) == a
                &&& final(table)@ == old(table)@.insert(a, *self)
            },
            r is None ==> *final(end) == *old(end) && final(table)@ == old(table)@,
    {
        if *end < RAW_CHUNK_SIZE {
            return None;
        }
        proof {
            lemma_raw_align();
            crate::bits::lemma_align_down_bounds(*end - RAW_CHUNK_SIZE, RAW_CHUNK_ALIGN as int);
        }
        let aligned: usize = crate::align_down(*end - RAW_CHUNK_SIZE, RAW_CHUNK_ALIGN);
        if chunk_size > aligned || self.chunk >= aligned - chunk_size {
            return None;
        }
        table.write(aligned, *self);
        *end = aligned;
        Some(aligned)
    }

    /// Gives the chunk behind the last one a descriptor, below the lowest
    /// descriptor so far, which lies at `list_end`, and makes it the successor of
    /// the descriptor at `at`. Returns its address, or `None` where the region has
    /// no room for the chunk and its descriptor.
    pub fn alloc_next(
        table: &mut Store<RawChunk>,
        at: usize,
        list_end: &mut usize,
        chunk_size: usize,
    ) -> (r: Option<usize>)
        requires
            old(table)@.contains_key(at),
            old(table)@.contains_key(*old(list_end)),
        ensures
            r is Some <==> *old(list_end) >= RAW_CHUNK_SIZE && old(table)@[*old(list_end)].chunk + 2
                * chunk_size < below(*old(list_end) as int),
            r matches Some(a) ==> {
                &&& a == below(*old(list_end) as int)
                &&& *final(list_end) == a
                &&& final(table)@ == joined(
                    old(table)@.insert(
                        a,
                        RawChunk {
                            addr: 0,
                            chunk: (old(table)@[*old(list_end)].chunk + chunk_size) as usize,
                            next: 0,
                            back: 0,
                        },
                    ),
                    at,
                    a,
                )
            },
            r is None ==> *final(list_end) == *old(list_end) && final(table)@ == old(table)@,
    {
        let last_chunk: usize = match table.read(*list_end) {
            Some(c) => c.chunk,
            None => 0,
        };
        proof {
            lemma_raw_align();
            if *list_end >= RAW_CHUNK_SIZE {
                crate::bits::lemma_align_down_bounds(
                    *list_end - RAW_CHUNK_SIZE,
                    RAW_CHUNK_ALIGN as int,
                );
            }
        }
        if chunk_size > usize::MAX - last_chunk {
            return None;
        }
        let addr: usize = last_chunk + chunk_size;
        match Self::vacant(addr).allocate(table, list_end, chunk_size) {
            Some(next) => {
                Self::connect_unchecked(table, at, next);
                Some(next)
            },
            None => None,
        }
    }
}

/// The lists and cursors of a pool.
pub struct Pool {
    /// Address of the last descriptor of the free list.
    pub free_last: usize,
    /// Address of the lowest descriptor.
    pub list_end: usize,
    /// The descriptors in the region.
    pub table: Store<RawChunk>,
    /// The chunks and the free list.
    pub model: Ghost<Chunks>,
}

impl View for Pool {
    type V = Chunks;

    open spec fn view(&self) -> Chunks {
        self.model@
    }
}

impl Pool {
    /// The store holds the descriptors as the chunks and the free list say, and the
    /// cursors stand at the end of the free list and at the lowest descriptor.
    pub open spec fn inv(&self) -> bool {
        &&& self@.wf()
        &&& self@.mirrors(self.table@)
        &&& self.free_last == self@.free.last()
        &&& self.list_end == self@.desc(self@.count() - 1)
    }

    /// The pool of a region in which nothing is lent out: chunk 0 has its
    /// descriptor, at the highest place for one, and is free. `None` where the
    /// region has no room for the two.
    pub fn new(heap_start: usize, heap_end: usize, chunk_size: usize) -> (r: Option<Pool>)
        requires
            0 < heap_start <= heap_end,
            chunk_size > RAW_CHUNK_SIZE,
        ensures
            r is Some <==> (Chunks {
                start: heap_start as int,
                end: heap_end as int,
                chunk_size: chunk_size as int,
                chunks: Seq::empty(),
                free: Seq::empty(),
            }).habitable(),
            r matches Some(pool) ==> {
                &&& pool.inv()
                &&& pool@.start == heap_start
                &&& pool@.end == heap_end
                &&& pool@.chunk_size == chunk_size
                &&& pool@ == pool@.emptied()
            },
    {
        let ghost shape = Chunks {
            start: heap_start as int,
            end: heap_end as int,
            chunk_size: chunk_size as int,
            chunks: Seq::empty(),
            free: Seq::empty(),
        };
        let mut table: Store<RawChunk> = Store::new();
        let mut end: usize = heap_end;
        let free_last: usize = match RawChunk::vacant(heap_start).allocate(
            &mut table,
            &mut end,
            chunk_size,
        ) {
            Some(a) => a,
            None => {
                return None;
            },
        };
        proof {
            shape.lemma_emptied();
        }
        let pool = Pool { free_last, list_end: end, table, model: Ghost(shape.emptied()) };
        proof {
            assert(pool@.emptied() =~= pool@) by {
                assert(pool@.top() == shape.top());
            }
        }
        Some(pool)
    }

    /// Gives the chunk behind the last one a descriptor and puts it at the end of the
    /// free list. Tells whether the region had room for it; where it had none,
    /// nothing changes.
    #[verifier::rlimit(40)]
    pub fn grow(&mut self, chunk_size: usize) -> (ok: bool)
        requires
            old(self).inv(),
            chunk_size == old(self)@.chunk_size,
        ensures
            final(self).inv(),
            ok == old(self)@.can_grow(),
            final(self)@ == if ok {
                old(self)@.grown()
            } else {
                old(self)@
            },
    {
        let ghost v = self@;
        proof {
            let n = v.count();
            v.lemma_desc(n - 1);
            v.lemma_fields(self.table@, self.list_end);
            v.lemma_chunk_order(n - 1, n);
            v.lemma_chunk_order(n, n + 1);
            lemma_raw_align();
            crate::bits::lemma_align_down_bounds(self.list_end - RAW_CHUNK_SIZE, RAW_CHUNK_ALIGN as int);
            crate::bits::lemma_align_down_bounds(v.end - RAW_CHUNK_SIZE, RAW_CHUNK_ALIGN as int);
            assert(v.is_desc(v.free[v.free.len() - 1] as int));
            if v.can_grow() {
                v.lemma_grown(self.table@);
            }
            if self.list_end >= RAW_CHUNK_SIZE {
                assert(below(self.list_end as int) == v.desc(n)) by {
                    let x = self.list_end - RAW_CHUNK_SIZE;
                    assert(x % (RAW_CHUNK_ALIGN as int) == 0);
                    crate::bits::lemma_align_up_exact(x, RAW_CHUNK_ALIGN as int);
                    crate::bits::lemma_align_down_bounds(x, RAW_CHUNK_ALIGN as int);
                }
            }
        }
        let free_last: usize = self.free_last;
        match RawChunk::alloc_next(&mut self.table, free_last, &mut self.list_end, chunk_size) {
            Some(next) => {
                self.free_last = next;
                proof {
                    self.model@ = v.grown();
                }
                true
            },
            None => false,
        }
    }
}

impl Pool {
    /// The free list has a single chunk.
    fn is_single(&self) -> (b: bool)
        requires
            self.inv(),
        ensures
            b == (self@.free.len() == 1),
    {
        proof {
            let v = self@;
            v.lemma_free_linked(self.table@);
            assert(node_ok(self.table@, v.free, v.free.len() - 1));
            if v.free.len() > 1 {
                assert(node_ok(self.table@, v.free, v.free.len() - 2));
            }
        }
        match self.table.read(self.free_last) {
            Some(c) => c.back == 0,
            None => true,
        }
    }

    /// Lends out one chunk, for a block at its first multiple of `align`: the last
    /// of the free list, after the chunk behind the last one was added to the free
    /// list where it held a single chunk. Returns the address of the chunk's
    /// descriptor.
    #[verifier::rlimit(40)]
    pub fn get_free_chunk(&mut self, chunk_size: usize, align: usize) -> (r: Result<
        usize,
        AllocError,
    >)
        requires
            old(self).inv(),
            chunk_size == old(self)@.chunk_size,
        ensures
            final(self).inv(),
            r == old(self)@.lent_one(align as int).1,
            final(self)@ == old(self)@.lent_one(align as int).0,
    {
        if !crate::is_power_of_two(align) {
            return Err(AllocError::InvalidLayout);
        }
        if self.is_single() {
            if !self.grow(chunk_size) {
                return Err(AllocError::OutOfMemory);
            }
        }
        let ghost v = self@;
        let tail: usize = self.free_last;
        proof {
            assert(v == old(self)@.primed());
            v.lemma_fields(self.table@, tail);
            let i = v.index(tail as int);
            assert(v.is_desc(v.free[v.free.len() - 1] as int));
            v.lemma_index(tail as int);
            v.lemma_desc(i);
            crate::bits::lemma_pow2_positive(align);
            crate::bits::lemma_align_up_bounds(v.chunk(i), align as int);
        }
        let c: RawChunk = match self.table.read(tail) {
            Some(c) => c,
            None => RawChunk::vacant(0),
        };
        let addr: usize = match crate::checked_align_up(c.chunk, align) {
            Some(a) => a,
            None => {
                return Err(AllocError::InvalidLayout);
            },
        };
        proof {
            v.lemma_popped(self.table@, addr as int);
        }
        RawChunk::disconnect(&mut self.table, tail);
        self.table.write(tail, RawChunk::new(c.chunk, align));
        self.free_last = c.back;
        proof {
            self.model@ = v.popped(addr as int);
            assert(self@.free.last() == v.free[v.free.len() - 2]);
        }
        Ok(tail)
    }

    /// Takes back the run whose first descriptor lies at `raw_chunk`: its
    /// descriptors go to the end of the free list, in the order of their chunks.
    #[verifier::rlimit(40)]
    pub fn remove_used(&mut self, raw_chunk: usize)
        requires
            old(self).inv(),
            old(self)@.is_desc(raw_chunk as int),
            old(self)@.is_head(old(self)@.index(raw_chunk as int)),
        ensures
            final(self).inv(),
            final(self)@ == old(self)@.released(old(self)@.index(raw_chunk as int)),
    {
        let ghost v = self@;
        let ghost i = v.index(raw_chunk as int);
        proof {
            v.lemma_index(raw_chunk as int);
            v.lemma_run_linked(self.table@, i);
            v.lemma_released(self.table@, i);
            assert(v.run(i).contains(raw_chunk)) by {
                assert(v.run(i)[0] == raw_chunk);
            }
            v.lemma_desc(i + v.chunks[i]->len - 1);
        }
        let last: usize = RawChunk::last_of(&self.table, raw_chunk, Ghost(v.run(i)));
        if let Some(c) = self.table.read(raw_chunk) {
            self.table.write(raw_chunk, RawChunk { addr: 0, chunk: c.chunk, next: c.next, back: c.back });
        }
        let free_last: usize = self.free_last;
        RawChunk::connect_unchecked(&mut self.table, free_last, raw_chunk);
        self.free_last = last;
        proof {
            self.model@ = v.released(i);
            assert(self@.free.last() == v.run(i).last());
        }
    }

    /// Sorts the free list into the order of its chunks.
    pub fn sort_free(&mut self)
        requires
            old(self).inv(),
        ensures
            final(self).inv(),
            final(self)@ == old(self)@.ordered(),
            descending(final(self)@.free),
    {
        let ghost v = self@;
        let ghost t0 = self.table@;
        proof {
            v.lemma_free_linked(t0);
            v.lemma_reversed(t0);
        }
        let free_last: usize = self.free_last;
        self.free_last = RawChunk::sort_list(&mut self.table, free_last, Ghost(v.free));
        proof {
            v.lemma_ordered(t0, self.table@);
            self.model@ = v.ordered();
        }
    }
}

impl Pool {
    /// Walks the free list from its end towards its beginning for the first run of
    /// neighbouring free chunks that holds `layout`, and returns the addresses of
    /// the run's first and last descriptor.
    #[verifier::rlimit(40)]
    pub fn find_run(&self, chunk_size: usize, layout: crate::Layout) -> (r: Option<(usize, usize)>)
        requires
            self.inv(),
            chunk_size == self@.chunk_size,
            layout.valid(),
        ensures
            r == match self@.found(layout) {
                Some((a, b)) => Some((self@.free[a], self@.free[b])),
                None => None::<(usize, usize)>,
            },
    {
        let ghost v = self@;
        let ghost m = v.free.len() as int;
        let mut cur: usize = self.free_last;
        let mut last: usize = self.free_last;
        let ghost mut k: int = m - 1;
        let ghost mut t: int = m - 1;
        proof {
            v.lemma_fields(self.table@, self.free_last);
            assert(v.is_desc(v.free[m - 1] as int));
            v.lemma_index(v.free[m - 1] as int);
            v.lemma_desc(v.index(v.free[m - 1] as int));
        }
        let mut last_end: usize = match self.table.read(last) {
            Some(c) => c.chunk + chunk_size,
            None => 0,
        };
        loop
            invariant
                self.inv(),
                v == self@,
                m == v.free.len(),
                chunk_size == v.chunk_size,
                layout.valid(),
                0 <= k <= t < m,
                cur == v.free[k],
                last == v.free[t],
                v.contiguous(k, t),
                v.found(layout) == v.search(layout, k, t),
                last_end == v.chunk(v.index(v.free[t] as int)) + v.chunk_size,
            decreases k,
        {
            proof {
                v.lemma_free_linked(self.table@);
                assert(node_ok(self.table@, v.free, k));
                v.lemma_fields(self.table@, cur);
                assert(v.is_desc(v.free[k] as int));
                v.lemma_index(v.free[k] as int);
                v.lemma_desc(v.index(v.free[k] as int));
                crate::bits::lemma_pow2_positive(layout.align);
                crate::bits::lemma_align_up_bounds(
                    v.chunk(v.index(v.free[k] as int)),
                    layout.align as int,
                );
                if k > 0 {
                    assert(node_ok(self.table@, v.free, k - 1));
                    v.lemma_fields(self.table@, v.free[k - 1]);
                    assert(v.is_desc(v.free[k - 1] as int));
                    v.lemma_index(v.free[k - 1] as int);
                    v.lemma_desc(v.index(v.free[k - 1] as int));
                    v.lemma_neighbours(v.index(v.free[k - 1] as int), v.index(v.free[k] as int));
                }
            }
            let c: RawChunk = match self.table.read(cur) {
                Some(c) => c,
                None => RawChunk::vacant(0),
            };
            let fits: bool = match crate::checked_align_up(c.chunk, layout.align) {
                Some(aligned) => layout.size <= last_end && aligned <= last_end - layout.size,
                None => false,
            };
            assert(fits == v.span_fits(k, t, layout));
            if fits {
                return Some((cur, last));
            }
            if c.back == 0 {
                return None;
            }
            let prev: RawChunk = match self.table.read(c.back) {
                Some(c) => c,
                None => RawChunk::vacant(0),
            };
            let neighbours: bool = prev.chunk + chunk_size == c.chunk;
            assert(neighbours == v.adjacent(k - 1));
            cur = c.back;
            if !neighbours {
                last = cur;
                last_end = prev.chunk + chunk_size;
            }
            proof {
                if neighbours {
                    assert forall|j: int| k - 1 <= j < t implies #[trigger] v.adjacent(j) by {
                        if j >= k {
                            assert(v.adjacent(j));
                        }
                    }
                } else {
                    t = k - 1;
                }
                k = k - 1;
            }
        }
    }

    /// Lends out a run of neighbouring free chunks that holds `layout`: the first
    /// that a walk over the free list finds, from its end, after as many chunks were
    /// added behind the last one as it takes. Returns the address of the descriptor
    /// of the run's first chunk, to which the address of the block is written.
    #[verifier::rlimit(40)]
    pub fn get_free_chunk_chain_ordered(
        &mut self,
        chunk_size: usize,
        _chunk_align: usize,
        layout: crate::Layout,
    ) -> (r: Result<usize, AllocError>)
        requires
            old(self).inv(),
            chunk_size == old(self)@.chunk_size,
            layout.valid(),
        ensures
            final(self).inv(),
            final(self)@ == old(self)@.multi(layout).0,
            r == old(self)@.multi(layout).1,
    {
        loop
            invariant
                self.inv(),
                chunk_size == self@.chunk_size,
                layout.valid(),
                self@.multi(layout) == old(self)@.multi(layout),
            decreases self@.top() - self@.start - self@.count(),
        {
            let ghost v = self@;
            proof {
                assert((v.count() + 1) * v.chunk_size >= v.count() + 1) by (nonlinear_arith)
                    requires
                        v.chunk_size >= 1,
                        v.count() + 1 >= 0,
                ;
                v.lemma_search(layout, v.free.len() - 1, v.free.len() - 1);
            }
            match self.find_run(chunk_size, layout) {
                Some((start, last)) => {
                    let ghost a = v.found(layout).unwrap().0;
                    let ghost b = v.found(layout).unwrap().1;
                    proof {
                        v.lemma_free_linked(self.table@);
                        assert(node_ok(self.table@, v.free, a));
                        assert(node_ok(self.table@, v.free, b));
                        if a > 0 {
                            assert(node_ok(self.table@, v.free, a - 1));
                        }
                    }
                    let head: RawChunk = match self.table.read(start) {
                        Some(c) => c,
                        None => RawChunk::vacant(0),
                    };
                    if head.back == 0 && last == self.free_last {
                        if !self.grow(chunk_size) {
                            return Err(AllocError::OutOfMemory);
                        }
                    }
                    let ghost w = self@;
                    proof {
                        if a == 0 && b == v.free.len() - 1 {
                            assert(w == v.grown());
                            assert forall|j: int| a <= j < b implies #[trigger] w.adjacent(j) by {
                                assert(v.adjacent(j));
                            }
                        } else {
                            assert(w == v);
                            if b == v.free.len() - 1 {
                                assert(a > 0);
                            } else {
                                assert(v.free[b] != v.free[v.free.len() - 1]);
                            }
                        }
                        assert(w.top() == v.top());
                        assert(w.free[a] == v.free[a] && w.free[b] == v.free[b]);
                        assert(v.span_fits(a, b, layout));
                        assert(w.is_desc(w.free[a] as int));
                        w.lemma_index(w.free[a] as int);
                        w.lemma_desc(w.index(w.free[a] as int));
                        assert(v.is_desc(v.free[b] as int));
                        v.lemma_index(v.free[b] as int);
                        v.lemma_desc(v.index(v.free[b] as int));
                        w.lemma_fields(self.table@, start);
                        crate::bits::lemma_pow2_positive(layout.align);
                        crate::bits::lemma_align_up_bounds(
                            w.chunk(w.index(w.free[a] as int)),
                            layout.align as int,
                        );
                        assert(w.top() == v.top());
                    }
                    let c: RawChunk = match self.table.read(start) {
                        Some(c) => c,
                        None => RawChunk::vacant(0),
                    };
                    let p: usize = match crate::checked_align_up(c.chunk, layout.align) {
                        Some(p) => p,
                        None => 0,
                    };
                    proof {
                        w.lemma_taken(self.table@, a, b, p as int);
                        w.lemma_free_linked(self.table@);
                        assert(node_ok(self.table@, w.free, a));
                        assert(node_ok(self.table@, w.free, w.free.len() - 1));
                    }
                    RawChunk::slice_until(&mut self.table, start, last);
                    if let Some(s) = self.table.read(start) {
                        self.table.write(
                            start,
                            RawChunk { addr: p, chunk: s.chunk, next: s.next, back: s.back },
                        );
                    }
                    if last == self.free_last {
                        self.free_last = c.back;
                    }
                    proof {
                        self.model@ = w.taken(a, b, p as int);
                        if b != w.free.len() - 1 {
                            assert(w.free[b] != w.free[w.free.len() - 1]);
                        }
                    }
                    return Ok(start);
                },
                None => {
                    if !self.grow(chunk_size) {
                        return Err(AllocError::OutOfMemory);
                    }
                },
            }
        }
    }
}

/// A pool allocator over `[heap_start, heap_end)`.
pub struct Alloq {
    pub heap_start: usize,
    pub heap_end: usize,
    /// Size of a chunk.
    pub chunk_size: usize,
    /// The alignment that the chunks are taken to have when a block is found
    /// again by its address.
    pub align: usize,
    /// The lists and cursors.
    pub pooler: Pool,
}

impl View for Alloq {
    type V = Chunks;

    open spec fn view(&self) -> Chunks {
        self.pooler@
    }
}

impl Alloq {
    /// Number of the chunk in which the pool looks for the descriptor of a block
    /// that begins at `ptr`.
    pub open spec fn locate(&self, ptr: int) -> int {
        (align_down_spec(ptr, self.align as int) - align_up_spec(
            self.heap_start as int,
            self.align as int,
        )) / (self.chunk_size as int)
    }

    /// A block that begins at `ptr` is lent out, and the pool finds its
    /// descriptor.
    pub open spec fn owns(&self, ptr: int) -> bool {
        &&& ptr != 0
        &&& align_down_spec(ptr, self.align as int) >= align_up_spec(
            self.heap_start as int,
            self.align as int,
        )
        &&& self@.is_head(self.locate(ptr))
        &&& self@.chunks[self.locate(ptr)]->addr == ptr
    }

    /// A pool over `heap_range` with chunks of `chunk_size` bytes. Fails where the
    /// region begins at the null address or ends before it begins, where a chunk is
    /// no larger than a descriptor, where `align` is no power of two, or where the
    /// region has no room for chunk 0 and its descriptor.
    pub fn with_chunk_size(heap_range: Range<usize>, chunk_size: usize, align: usize) -> (r: Result<
        Alloq,
        AllocError,
    >)
        ensures
            match r {
                Ok(a) => {
                    &&& a.inv()
                    &&& a.pristine()
                    &&& a.heap_start == heap_range.start
                    &&& a.heap_end == heap_range.end
                    &&& a.chunk_size == chunk_size
                    &&& a.align == align
                },
                Err(e) => e == AllocError::InvalidHeap,
            },
            r is Ok <==> is_pow2(align as int) && (Chunks {
                start: heap_range.start as int,
                end: heap_range.end as int,
                chunk_size: chunk_size as int,
                chunks: Seq::empty(),
                free: Seq::empty(),
            }).habitable(),
    {
        if heap_range.start == 0 || heap_range.end < heap_range.start || chunk_size
            <= RAW_CHUNK_SIZE || !crate::is_power_of_two(align) {
            return Err(AllocError::InvalidHeap);
        }
        match Pool::new(heap_range.start, heap_range.end, chunk_size) {
            Some(pooler) => Ok(
                Alloq {
                    heap_start: heap_range.start,
                    heap_end: heap_range.end,
                    chunk_size,
                    align,
                    pooler,
                },
            ),
            None => Err(AllocError::InvalidHeap),
        }
    }

    /// Address of the descriptor of the block that begins at `ptr`: the descriptor
    /// of the chunk that the address falls into, if it says that a block begins
    /// there. `None` for an address at which no block that is lent out begins.
    #[verifier::rlimit(40)]
    pub fn get_raw_chunk_from(&self, ptr: usize, _layout: Layout) -> (r: Option<usize>)
        requires
            self.inv(),
        ensures
            r is Some <==> self.owns(ptr as int),
            r matches Some(d) ==> d == self@.desc(self.locate(ptr as int)),
    {
        let ghost v = self@;
        proof {
            bits::lemma_pow2_positive(self.align);
            bits::lemma_align_down_bounds(ptr as int, self.align as int);
            bits::lemma_align_up_bounds(self.heap_start as int, self.align as int);
            lemma_raw_align();
            bits::lemma_align_down_bounds(v.end - RAW_CHUNK_SIZE, RAW_CHUNK_ALIGN as int);
            v.lemma_desc(0);
        }
        let chunk: usize = crate::align_down(ptr, self.align);
        let first_chunk: usize = match crate::checked_align_up(self.heap_start, self.align) {
            Some(c) => c,
            None => {
                return None;
            },
        };
        if ptr == 0 || chunk < first_chunk {
            return None;
        }
        let chunk_idx: usize = (chunk - first_chunk) / self.chunk_size;
        let first_raw: usize = crate::align_down(self.heap_end - RAW_CHUNK_SIZE, RAW_CHUNK_ALIGN);
        if chunk_idx > first_raw / RAW_CHUNK_SIZE {
            proof {
                if self.locate(ptr as int) < v.count() {
                    v.lemma_desc(self.locate(ptr as int));
                }
            }
            return None;
        }
        let raw: usize = first_raw - chunk_idx * RAW_CHUNK_SIZE;
        proof {
            assert(chunk_idx == self.locate(ptr as int));
            assert(raw == v.desc(chunk_idx as int));
            if chunk_idx < v.count() {
                v.lemma_desc(chunk_idx as int);
            }
            if self.pooler.table@.contains_key(raw) {
                v.lemma_fields(self.pooler.table@, raw);
                v.lemma_index(raw as int);
            }
        }
        match self.pooler.table.read(raw) {
            Some(c) => {
                if c.addr == ptr {
                    Some(raw)
                } else {
                    None
                }
            },
            None => None,
        }
    }

    /// Serves a request: see `Chunks::lend`.
    #[verifier::rlimit(40)]
    fn lend(&mut self, layout: Layout) -> (r: Result<usize, AllocError>)
        requires
            old(self).pooler.inv(),
            old(self).chunk_size == old(self)@.chunk_size,
        ensures
            final(self).pooler.inv(),
            final(self)@ == old(self)@.lend(layout).0,
            r == old(self)@.lend(layout).1,
            final(self).heap_start == old(self).heap_start,
            final(self).heap_end == old(self).heap_end,
            final(self).chunk_size == old(self).chunk_size,
            final(self).align == old(self).align,
    {
        let ghost v = self@;
        let chunk_size: usize = self.chunk_size;
        let chunk: usize = match self.pooler.get_free_chunk(chunk_size, layout.align) {
            Ok(c) => c,
            Err(e) => {
                return Err(e);
            },
        };
        let ghost pre = v.primed();
        let ghost i = pre.index(chunk as int);
        proof {
            if v.free.len() == 1 {
                v.lemma_grown_wf();
            }
            assert(pre.is_desc(pre.free[pre.free.len() - 1] as int));
            pre.lemma_index(chunk as int);
            pre.lemma_desc(i);
            assert(self@.top() == pre.top());
            self@.lemma_fields(self.pooler.table@, chunk);
            bits::lemma_pow2_positive(layout.align);
            bits::lemma_align_up_bounds(pre.chunk(i), layout.align as int);
        }
        let c: RawChunk = match self.pooler.table.read(chunk) {
            Some(c) => c,
            None => RawChunk::vacant(0),
        };
        let fits: bool = layout.size <= chunk_size && c.addr - c.chunk <= chunk_size - layout.size;
        if fits {
            return Ok(c.addr);
        }
        self.pooler.remove_used(chunk);
        proof {
            pre.lemma_pop_release(c.addr as int);
        }
        self.pooler.sort_free();
        let ghost o = self@;
        proof {
            o.lemma_multi(layout);
            assert(o.multi(layout).0.top() == o.top());
        }
        let align: usize = self.align;
        match self.pooler.get_free_chunk_chain_ordered(chunk_size, align, layout) {
            Ok(head) => {
                proof {
                    let w = self@;
                    w.lemma_fields(self.pooler.table@, head);
                }
                match self.pooler.table.read(head) {
                    Some(c) => Ok(c.addr),
                    None => Err(AllocError::OutOfMemory),
                }
            },
            Err(e) => Err(e),
        }
    }

    /// A block that begins in a chunk and not behind it is found again in that
    /// chunk, where the region and the chunks are aligned to the pool's alignment.
    #[verifier::rlimit(40)]
    pub proof fn lemma_round_trip(&self, i: int, ptr: int)
        requires
            self.inv(),
            self.heap_start as int % self.align as int == 0,
            self.chunk_size as int % self.align as int == 0,
            0 <= i,
            self@.chunk(i) <= ptr < self@.chunk(i + 1),
        ensures
            self.locate(ptr) == i,
            align_down_spec(ptr, self.align as int) >= align_up_spec(
                self.heap_start as int,
                self.align as int,
            ),
            self@.is_head(i) && self@.chunks[i]->addr == ptr ==> self.owns(ptr),
    {
        let v = self@;
        let a = self.align as int;
        let cs = self.chunk_size as int;
        bits::lemma_pow2_positive(self.align);
        bits::lemma_align_up_exact(self.heap_start as int, a);
        bits::lemma_align_down_bounds(ptr, a);
        v.lemma_chunk_order(i, i + 1);
        // every chunk begins at a multiple of the alignment
        vstd::arithmetic::div_mod::lemma_fundamental_div_mod(cs, a);
        vstd::arithmetic::div_mod::lemma_fundamental_div_mod(self.heap_start as int, a);
        let qs = (self.heap_start as int) / a;
        let qc = cs / a;
        assert(v.chunk(i) == a * (qs + i * qc)) by (nonlinear_arith)
            requires
                v.chunk(i) == self.heap_start + i * cs,
                self.heap_start == a * qs,
                cs == a * qc,
        ;
        vstd::arithmetic::div_mod::lemma_mod_multiples_basic(qs + i * qc, a);
        assert(a * (qs + i * qc) == (qs + i * qc) * a) by (nonlinear_arith);
        bits::lemma_align_down_greatest(ptr, a, v.chunk(i));
        let off = align_down_spec(ptr, a) - self.heap_start;
        assert(i * cs <= off < i * cs + cs);
        assert(off / cs == i) by (nonlinear_arith)
            requires
                i * cs <= off < i * cs + cs,
                cs > 0,
        ;
    }
}

impl Alloqator for Alloq {
    open spec fn inv(&self) -> bool {
        &&& self.pooler.inv()
        &&& self@.start == self.heap_start
        &&& self@.end == self.heap_end
        &&& self@.chunk_size == self.chunk_size
        &&& is_pow2(self.align as int)
    }

    open spec fn start(&self) -> int {
        self.heap_start as int
    }

    open spec fn end(&self) -> int {
        self.heap_end as int
    }

    open spec fn occupied(&self) -> Set<int> {
        self@.occupied()
    }

    open spec fn pristine(&self) -> bool {
        self@ == self@.emptied()
    }

    open spec fn accepts(&self, layout: Layout) -> bool {
        self@.lend(layout).1 is Ok
    }

    open spec fn hosts(heap_range: Range<usize>) -> bool {
        (Chunks {
            start: heap_range.start as int,
            end: heap_range.end as int,
            chunk_size: DEFAULT_CHUNK_SIZE as int,
            chunks: Seq::empty(),
            free: Seq::empty(),
        }).habitable()
    }

    open spec fn serves(&self, after: &Self, layout: Layout, r: Result<usize, AllocError>) -> bool {
        &&& after@ == self@.lend(layout).0
        &&& r == self@.lend(layout).1
        &&& after.heap_start == self.heap_start
        &&& after.heap_end == self.heap_end
        &&& after.chunk_size == self.chunk_size
        &&& after.align == self.align
    }

    open spec fn can_free(&self, ptr: usize, layout: Layout) -> bool {
        self.owns(ptr as int)
    }

    open spec fn hands_back(&self, after: &Self, ptr: usize, layout: Layout) -> bool {
        &&& after@ == if self.owns(ptr as int) {
            self@.released(self.locate(ptr as int))
        } else {
            self@
        }
        &&& after.heap_start == self.heap_start
        &&& after.heap_end == self.heap_end
        &&& after.chunk_size == self.chunk_size
        &&& after.align == self.align
    }

    open spec fn meta_size() -> nat {
        RAW_CHUNK_SIZE as nat
    }

    open spec fn meta_align() -> nat {
        RAW_CHUNK_ALIGN as nat
    }

    fn metadata_size() -> (r: usize) {
        RAW_CHUNK_SIZE
    }

    fn metadata_align() -> (r: usize) {
        RAW_CHUNK_ALIGN
    }

    /// A pool with chunks of the default size and alignment.
    fn new(heap_range: Range<usize>) -> (r: Result<Self, AllocError>)
        ensures
            r is Ok <==> (Chunks {
                start: heap_range.start as int,
                end: heap_range.end as int,
                chunk_size: DEFAULT_CHUNK_SIZE as int,
                chunks: Seq::empty(),
                free: Seq::empty(),
            }).habitable(),
            r matches Ok(a) ==> a.chunk_size == DEFAULT_CHUNK_SIZE && a.align == DEFAULT_ALIGNMENT,
    {
        assert(Self::hosts(heap_range) <==> (Chunks {
            start: heap_range.start as int,
            end: heap_range.end as int,
            chunk_size: DEFAULT_CHUNK_SIZE as int,
            chunks: Seq::empty(),
            free: Seq::empty(),
        }).habitable());
        proof {
            bits::lemma_single_bit(DEFAULT_ALIGNMENT);
            assert(2usize & 1usize == 0) by (bit_vector);
        }
        Self::with_chunk_size(heap_range, DEFAULT_CHUNK_SIZE, DEFAULT_ALIGNMENT)
    }

    /// Lends out the last chunk of the free list where the block fits into it, and
    /// else a run of neighbouring free chunks.
    fn allocate(&mut self, layout: Layout) -> (r: Result<usize, AllocError>)
        ensures
            final(self)@ == old(self)@.lend(layout).0,
            r == old(self)@.lend(layout).1,
            final(self).heap_start == old(self).heap_start,
            final(self).heap_end == old(self).heap_end,
            final(self).chunk_size == old(self).chunk_size,
            final(self).align == old(self).align,
    {
        proof {
            let v = self@;
            v.lemma_lend(layout);
            lemma_raw_align();
            bits::lemma_align_down_bounds(v.end - RAW_CHUNK_SIZE, RAW_CHUNK_ALIGN as int);
        }
        self.lend(layout)
    }

    /// Takes back the block that begins at `ptr`: the chunks of its run go to the
    /// end of the free list. An address at which no block that is lent out begins
    /// is refused.
    fn deallocate(&mut self, ptr: usize, layout: Layout) -> (r: Result<(), AllocError>)
        ensures
            r is Ok <==> old(self).owns(ptr as int),
            final(self)@ == if old(self).owns(ptr as int) {
                old(self)@.released(old(self).locate(ptr as int))
            } else {
                old(self)@
            },
            final(self).heap_start == old(self).heap_start,
            final(self).heap_end == old(self).heap_end,
            final(self).chunk_size == old(self).chunk_size,
            final(self).align == old(self).align,
    {
        assert(self.can_free(ptr, layout) <==> self.owns(ptr as int));
        match self.get_raw_chunk_from(ptr, layout) {
            Some(raw) => {
                proof {
                    let v = self@;
                    let i = self.locate(ptr as int);
                    v.lemma_desc(i);
                    v.lemma_released(self.pooler.table@, i);
                    assert(v.released(i).top() == v.top());
                }
                self.pooler.remove_used(raw);
                Ok(())
            },
            None => Err(AllocError::InvalidFree),
        }
    }

    fn reset(&mut self)
        ensures
            final(self)@ == old(self)@.emptied(),
            final(self).heap_start == old(self).heap_start,
            final(self).heap_end == old(self).heap_end,
            final(self).chunk_size == old(self).chunk_size,
            final(self).align == old(self).align,
    {
        proof {
            let v = self@;
            v.lemma_desc(0);
            v.lemma_desc(v.count() - 1);
            if v.count() > 1 {
                v.lemma_chunk_order(1, v.count());
            }
            let shape = Chunks {
                start: self.heap_start as int,
                end: self.heap_end as int,
                chunk_size: self.chunk_size as int,
                chunks: Seq::empty(),
                free: Seq::empty(),
            };
            assert(shape.top() == v.top());
            assert(v.chunk(1) == v.start + v.chunk_size) by (nonlinear_arith)
                requires
                    v.chunk(1) == v.start + 1 * v.chunk_size,
            ;
        }
        match Pool::new(self.heap_start, self.heap_end, self.chunk_size) {
            Some(pooler) => {
                self.pooler = pooler;
            },
            None => {},
        }
        proof {
            assert(self@.top() == old(self)@.top());
            assert(self@ =~= old(self)@.emptied());
        }
    }

    fn heap_start(&self) -> (r: usize) {
        self.heap_start
    }

    fn heap_end(&self) -> (r: usize) {
        self.heap_end
    }
}
} // verus!
