//! Lists of descriptors in a store: what it means for descriptors to form a list,
//! what the store looks like after a list was changed, and what merging and sorting
//! make of lists.

use vstd::prelude::*;
use crate::align_down_spec;
use crate::pool::{RawChunk, RAW_CHUNK_ALIGN, RAW_CHUNK_SIZE};

verus! {

/// The descriptor at index `k` of `nodes` is in the store and points to its
/// neighbours in `nodes`.
pub open spec fn node_ok(table: Map<usize, RawChunk>, nodes: Seq<usize>, k: int) -> bool {
    &&& nodes[k] != 0
    &&& table.contains_key(nodes[k])
    &&& table[nodes[k]].next == if k + 1 < nodes.len() {
        nodes[k + 1]
    } else {
        0
    }
    &&& table[nodes[k]].back == if k > 0 {
        nodes[k - 1]
    } else {
        0
    }
}

/// The descriptors at the addresses `nodes` form a list, in that order, that
/// begins and ends with them.
pub open spec fn linked(table: Map<usize, RawChunk>, nodes: Seq<usize>) -> bool {
    &&& nodes.no_duplicates()
    &&& forall|k: int| 0 <= k < nodes.len() ==> #[trigger] node_ok(table, nodes, k)
}

/// The store after the descriptor at `at` has left its list.
pub open spec fn unlinked(table: Map<usize, RawChunk>, at: usize) -> Map<usize, RawChunk> {
    let own = table[at];
    let t1 = if own.back != 0 && table.contains_key(own.back) {
        table.insert(own.back, RawChunk { next: own.next, ..table[own.back] })
    } else {
        table
    };
    let t2 = if own.next != 0 && t1.contains_key(own.next) {
        t1.insert(own.next, RawChunk { back: own.back, ..t1[own.next] })
    } else {
        t1
    };
    t2.insert(at, RawChunk { next: 0, back: 0, ..t2[at] })
}

/// The store after the descriptor at `next` was made the successor of the one at
/// `back`.
pub open spec fn joined(table: Map<usize, RawChunk>, back: usize, next: usize) -> Map<
    usize,
    RawChunk,
> {
    let t1 = table.insert(back, RawChunk { next, ..table[back] });
    t1.insert(next, RawChunk { back, ..t1[next] })
}

/// The store after the part of a list from the descriptor at `start` to the one
/// at `last` was cut out and the rest joined.
pub open spec fn sliced(table: Map<usize, RawChunk>, start: usize, last: usize) -> Map<
    usize,
    RawChunk,
> {
    let back = table[start].back;
    let next = table[last].next;
    let t1 = if next != 0 && table.contains_key(next) {
        table.insert(next, RawChunk { back, ..table[next] })
    } else {
        table
    };
    let t2 = if back != 0 && t1.contains_key(back) {
        t1.insert(back, RawChunk { next, ..t1[back] })
    } else {
        t1
    };
    let t3 = t2.insert(start, RawChunk { back: 0, ..t2[start] });
    t3.insert(last, RawChunk { next: 0, ..t3[last] })
}

/// The store after the part of a list from the descriptor at `start` to the one
/// at `last` was cut out and the block address `p` was written to the first.
pub open spec fn lent(table: Map<usize, RawChunk>, start: usize, last: usize, p: usize) -> Map<
    usize,
    RawChunk,
> {
    let s1 = sliced(table, start, last);
    s1.insert(start, RawChunk { addr: p, ..s1[start] })
}

/// What the store holds at `x` after a part of a list was cut out of it.
pub proof fn lemma_lent_at(table: Map<usize, RawChunk>, start: usize, last: usize, p: usize, x: usize)
    requires
        table.contains_key(start),
        table.contains_key(last),
        table[start].back != 0 ==> table.contains_key(table[start].back),
        table[last].next != 0 ==> table.contains_key(table[last].next),
        table[start].back != start && table[start].back != last,
        table[last].next != start && table[last].next != last,
        table[start].back != table[last].next || table[start].back == 0,
    ensures
        lent(table, start, last, p).dom() == table.dom(),
        lent(table, start, last, p)[x] == if x == start {
            RawChunk {
                addr: p,
                chunk: table[start].chunk,
                next: if start == last {
                    0
                } else {
                    table[start].next
                },
                back: 0,
            }
        } else if x == last {
            RawChunk { next: 0, ..table[last] }
        } else if x == table[start].back && x != 0 {
            RawChunk { next: table[last].next, ..table[x] }
        } else if x == table[last].next && x != 0 {
            RawChunk { back: table[start].back, ..table[x] }
        } else {
            table[x]
        },
{
    assert(lent(table, start, last, p).dom() =~= table.dom());
}

/// The lists `l` and `r` taken apart from their ends and put together into one:
/// of the two last descriptors, the one at the lower address goes last.
pub open spec fn merged(l: Seq<usize>, r: Seq<usize>) -> Seq<usize>
    decreases l.len() + r.len(),
{
    if l.len() == 0 && r.len() == 0 {
        Seq::empty()
    } else if r.len() == 0 || (l.len() > 0 && l.last() < r.last()) {
        merged(l.drop_last(), r).push(l.last())
    } else {
        merged(l, r.drop_last()).push(r.last())
    }
}

/// The list `x` sorted by merging: its last two descriptors are merged first, and
/// then with the sorted rest.
pub open spec fn sorted(x: Seq<usize>) -> Seq<usize>
    decreases x.len(),
{
    if x.len() <= 1 {
        x
    } else {
        let pair = merged(seq![x[x.len() - 2]], seq![x[x.len() - 1]]);
        if x.len() == 2 {
            pair
        } else {
            merged(pair, sorted(x.take(x.len() - 2)))
        }
    }
}

/// The addresses fall from the first to the last: the chunks rise.
pub open spec fn descending(x: Seq<usize>) -> bool {
    forall|i: int, j: int| 0 <= i < j < x.len() ==> x[i] > x[j]
}

/// The descriptors lie in the store in the reverse order of their chunks.
pub open spec fn reversed(table: Map<usize, RawChunk>) -> bool {
    forall|a: usize, b: usize|
        #[trigger] table.contains_key(a) && #[trigger] table.contains_key(b) ==> ((table[a].chunk
            > table[b].chunk) <==> a < b)
}

/// The store `after` differs from `before` in nothing but the links of the
/// descriptors `nodes`.
pub open spec fn relinks(
    before: Map<usize, RawChunk>,
    after: Map<usize, RawChunk>,
    nodes: Seq<usize>,
) -> bool {
    &&& after.dom() == before.dom()
    &&& forall|a: usize| #[trigger]
        after.contains_key(a) ==> after[a].chunk == before[a].chunk && after[a].addr
            == before[a].addr
    &&& forall|a: usize| #[trigger] after.contains_key(a) && !nodes.contains(a) ==> after[a] == before[a]
}

/// A list stays a list where none of its descriptors changes.
pub proof fn lemma_linked_frame(before: Map<usize, RawChunk>, after: Map<usize, RawChunk>, nodes: Seq<usize>)
    requires
        linked(before, nodes),
        forall|k: int|
            0 <= k < nodes.len() ==> after.contains_key(#[trigger] nodes[k]) && after[nodes[k]]
                == before[nodes[k]],
    ensures
        linked(after, nodes),
{
    assert forall|k: int| 0 <= k < nodes.len() implies #[trigger] node_ok(after, nodes, k) by {
        assert(node_ok(before, nodes, k));
        assert(after[nodes[k]] == before[nodes[k]]);
    }
}

/// Taking the last descriptor out of a list leaves the list without it, and the
/// descriptor as a list of its own.
#[verifier::rlimit(40)]
pub proof fn lemma_detach_last(table: Map<usize, RawChunk>, nodes: Seq<usize>)
    requires
        linked(table, nodes),
        nodes.len() >= 1,
    ensures
        linked(unlinked(table, nodes.last()), nodes.drop_last()),
        linked(unlinked(table, nodes.last()), seq![nodes.last()]),
        relinks(table, unlinked(table, nodes.last()), nodes),
{
    let n = nodes.len() as int;
    let x = nodes.last();
    let after = unlinked(table, x);
    let rest = nodes.drop_last();
    assert(node_ok(table, nodes, n - 1));
    if n > 1 {
        assert(node_ok(table, nodes, n - 2));
    }
    assert forall|k: int| 0 <= k < rest.len() implies #[trigger] node_ok(after, rest, k) by {
        assert(node_ok(table, nodes, k));
        assert(rest[k] == nodes[k]);
        assert(nodes[k] != x);
        if k + 1 < rest.len() {
            assert(rest[k + 1] == nodes[k + 1]);
        }
        if k > 0 {
            assert(rest[k - 1] == nodes[k - 1]);
        }
        if k < n - 2 {
            assert(nodes[k] != nodes[n - 2]);
        }
    }
    assert(node_ok(after, seq![x], 0));
    assert(after.dom() =~= table.dom());
    assert forall|a: usize| #[trigger] after.contains_key(a) && !nodes.contains(a) implies after[a]
        == table[a] by {
        assert(a != x);
        if n > 1 {
            assert(nodes.contains(nodes[n - 2]));
        }
    }
}

/// Putting a single descriptor in front of a list makes a list.
#[verifier::rlimit(40)]
pub proof fn lemma_prepend(table: Map<usize, RawChunk>, x: usize, out: Seq<usize>)
    requires
        linked(table, seq![x]),
        linked(table, out),
        out.len() >= 1,
        !out.contains(x),
    ensures
        linked(joined(table, x, out[0]), seq![x] + out),
        relinks(table, joined(table, x, out[0]), seq![x, out[0]]),
{
    let after = joined(table, x, out[0]);
    let all = seq![x] + out;
    assert(node_ok(table, seq![x], 0));
    assert(node_ok(table, out, 0));
    assert forall|k: int| 0 <= k < all.len() implies #[trigger] node_ok(after, all, k) by {
        if k == 0 {
            assert(all[1] == out[0]);
        } else {
            assert(node_ok(table, out, k - 1));
            assert(all[k] == out[k - 1]);
            assert(out.contains(out[k - 1]));
            if k > 1 {
                assert(all[k - 1] == out[k - 2]);
                assert(out[k - 1] != out[0]);
            }
            if k + 1 < all.len() {
                assert(all[k + 1] == out[k]);
            }
        }
    }
    assert forall|i: int, j: int| 0 <= i < all.len() && 0 <= j < all.len() && i != j implies all[i]
        != all[j] by {
        if i > 0 {
            assert(out.contains(out[i - 1]));
        }
        if j > 0 {
            assert(out.contains(out[j - 1]));
        }
    }
    assert(after.dom() =~= table.dom());
    assert(seq![x, out[0]].contains(x)) by {
        assert(seq![x, out[0]][0] == x);
    }
    assert(seq![x, out[0]].contains(out[0])) by {
        assert(seq![x, out[0]][1] == out[0]);
    }
}

/// What holds while two lists are merged: `l` and `r` are what is left of them,
/// `out` is what was put together so far, and `table` is the store.
pub open spec fn merging(
    table: Map<usize, RawChunk>,
    l: Seq<usize>,
    r: Seq<usize>,
    out: Seq<usize>,
) -> bool {
    &&& linked(table, l)
    &&& linked(table, r)
    &&& linked(table, out)
    &&& forall|i: int, j: int| 0 <= i < l.len() && 0 <= j < r.len() ==> l[i] != r[j]
    &&& forall|i: int, j: int| 0 <= i < l.len() && 0 <= j < out.len() ==> l[i] != out[j]
    &&& forall|i: int, j: int| 0 <= i < r.len() && 0 <= j < out.len() ==> r[i] != out[j]
}

/// One step of a merge that takes the last descriptor of `l`.
#[verifier::rlimit(40)]
pub proof fn lemma_merge_step(
    table: Map<usize, RawChunk>,
    l: Seq<usize>,
    r: Seq<usize>,
    out: Seq<usize>,
)
    requires
        merging(table, l, r, out),
        l.len() >= 1,
    ensures
        ({
            let x = l.last();
            let t1 = unlinked(table, x);
            let t2 = if out.len() > 0 {
                joined(t1, x, out[0])
            } else {
                t1
            };
            &&& merging(t2, l.drop_last(), r, seq![x] + out)
            &&& t1.contains_key(x)
            &&& out.len() > 0 ==> t1.contains_key(out[0])
            &&& relinks(table, t2, l + out)
        }),
{
    let x = l.last();
    let rest = l.drop_last();
    let t1 = unlinked(table, x);
    lemma_detach_last(table, l);
    assert(node_ok(t1, seq![x], 0));
    assert forall|k: int| 0 <= k < r.len() implies t1.contains_key(#[trigger] r[k]) && t1[r[k]]
        == table[r[k]] by {
        assert(node_ok(table, r, k));
        if l.contains(r[k]) {
            let i = choose|i: int| 0 <= i < l.len() && l[i] == r[k];
            assert(false);
        }
    }
    lemma_linked_frame(table, t1, r);
    assert forall|k: int| 0 <= k < out.len() implies t1.contains_key(#[trigger] out[k]) && t1[out[k]]
        == table[out[k]] by {
        assert(node_ok(table, out, k));
        if l.contains(out[k]) {
            let i = choose|i: int| 0 <= i < l.len() && l[i] == out[k];
            assert(false);
        }
    }
    lemma_linked_frame(table, t1, out);
    let all = seq![x] + out;
    if out.len() > 0 {
        let t2 = joined(t1, x, out[0]);
        if out.contains(x) {
            let j = choose|j: int| 0 <= j < out.len() && out[j] == x;
            assert(l[l.len() - 1] != out[j]);
        }
        lemma_prepend(t1, x, out);
        assert forall|k: int| 0 <= k < rest.len() implies t2.contains_key(#[trigger] rest[k])
            && t2[rest[k]] == t1[rest[k]] by {
            assert(node_ok(t1, rest, k));
            assert(rest[k] == l[k]);
            assert(l[k] != out[0]);
        }
        lemma_linked_frame(t1, t2, rest);
        assert forall|k: int| 0 <= k < r.len() implies t2.contains_key(#[trigger] r[k]) && t2[r[k]]
            == t1[r[k]] by {
            assert(node_ok(t1, r, k));
            assert(l[l.len() - 1] != r[k]);
            assert(r[k] != out[0]);
        }
        lemma_linked_frame(t1, t2, r);
        assert forall|a: usize| #[trigger] t2.contains_key(a) && !(l + out).contains(a) implies t2[a]
            == table[a] by {
            assert((l + out)[l.len() - 1] == x);
            assert((l + out)[l.len() as int] == out[0]);
            if l.contains(a) {
                let i = choose|i: int| 0 <= i < l.len() && l[i] == a;
                assert((l + out)[i] == a);
            }
            assert(seq![x, out[0]] =~= seq![x].push(out[0]));
            if seq![x, out[0]].contains(a) {
                let i = choose|i: int| 0 <= i < 2 && seq![x, out[0]][i] == a;
                assert(a == x || a == out[0]);
            }
        }
    } else {
        assert(all =~= seq![x]);
        assert forall|a: usize| #[trigger] t1.contains_key(a) && !(l + out).contains(a) implies t1[a]
            == table[a] by {
            if l.contains(a) {
                let i = choose|i: int| 0 <= i < l.len() && l[i] == a;
                assert((l + out)[i] == a);
            }
        }
    }
    assert forall|i: int, j: int| 0 <= i < rest.len() && 0 <= j < all.len() implies rest[i]
        != all[j] by {
        assert(rest[i] == l[i]);
        if j > 0 {
            assert(all[j] == out[j - 1]);
        }
    }
    assert forall|i: int, j: int| 0 <= i < r.len() && 0 <= j < all.len() implies r[i] != all[j] by {
        if j > 0 {
            assert(all[j] == out[j - 1]);
        } else {
            assert(l[l.len() - 1] != r[i]);
        }
    }
    assert forall|i: int, j: int| 0 <= i < rest.len() && 0 <= j < r.len() implies rest[i]
        != r[j] by {
        assert(rest[i] == l[i]);
    }
}

/// Merging loses no descriptor and adds none.
pub proof fn lemma_merged_len(l: Seq<usize>, r: Seq<usize>)
    ensures
        merged(l, r).len() == l.len() + r.len(),
    decreases l.len() + r.len(),
{
    if l.len() == 0 && r.len() == 0 {
    } else if r.len() == 0 || (l.len() > 0 && l.last() < r.last()) {
        lemma_merged_len(l.drop_last(), r);
    } else {
        lemma_merged_len(l, r.drop_last());
    }
}

/// Changing links twice, each time of descriptors among `nodes`, is changing links
/// of descriptors among `nodes`.
pub proof fn lemma_relinks_trans(
    t0: Map<usize, RawChunk>,
    t1: Map<usize, RawChunk>,
    t2: Map<usize, RawChunk>,
    part: Seq<usize>,
    nodes: Seq<usize>,
)
    requires
        relinks(t0, t1, nodes),
        relinks(t1, t2, part),
        forall|k: int| 0 <= k < part.len() ==> nodes.contains(#[trigger] part[k]),
    ensures
        relinks(t0, t2, nodes),
{
    assert forall|a: usize| #[trigger] t2.contains_key(a) && !nodes.contains(a) implies t2[a]
        == t0[a] by {
        assert(t1.contains_key(a));
        if part.contains(a) {
            let k = choose|k: int| 0 <= k < part.len() && part[k] == a;
            assert(nodes.contains(part[k]));
        }
    }
    assert forall|a: usize| #[trigger] t2.contains_key(a) implies t2[a].chunk == t0[a].chunk
        && t2[a].addr == t0[a].addr by {
        assert(t1.contains_key(a));
    }
}

/// What holds in the middle of merging `ls` and `rs`: the first `a` descriptors of
/// the one and the first `b` of the other are still to come, `out` is what was put
/// together of the others, `before` was the store at the beginning and `table` is
/// the store now.
pub open spec fn merge_inv(
    before: Map<usize, RawChunk>,
    table: Map<usize, RawChunk>,
    ls: Seq<usize>,
    rs: Seq<usize>,
    a: int,
    b: int,
    out: Seq<usize>,
) -> bool {
    &&& 0 <= a <= ls.len()
    &&& 0 <= b <= rs.len()
    &&& merging(table, ls.take(a), rs.take(b), out)
    &&& merged(ls, rs) == merged(ls.take(a), rs.take(b)) + out
    &&& forall|k: int| 0 <= k < out.len() ==> (ls + rs).contains(#[trigger] out[k])
    &&& relinks(before, table, ls + rs)
    &&& reversed(before)
}

/// The descriptor that a merge takes next lies in the store, and so does its
/// predecessor, which is the one before it in its list.
pub proof fn lemma_merge_peek(
    before: Map<usize, RawChunk>,
    table: Map<usize, RawChunk>,
    ls: Seq<usize>,
    rs: Seq<usize>,
    a: int,
    b: int,
    out: Seq<usize>,
)
    requires
        merge_inv(before, table, ls, rs, a, b, out),
    ensures
        a > 0 ==> ls[a - 1] != 0 && table.contains_key(ls[a - 1]) && table[ls[a - 1]].back == (
        if a > 1 {
            ls[a - 2]
        } else {
            0
        }),
        b > 0 ==> rs[b - 1] != 0 && table.contains_key(rs[b - 1]) && table[rs[b - 1]].back == (
        if b > 1 {
            rs[b - 2]
        } else {
            0
        }),
        a > 0 && b > 0 ==> (table[ls[a - 1]].chunk > table[rs[b - 1]].chunk <==> ls[a - 1]
            < rs[b - 1]),
        out.len() > 0 ==> out[0] != 0 && table.contains_key(out[0]),
{
    let all = ls + rs;
    if a > 0 {
        assert(node_ok(table, ls.take(a), a - 1));
        assert(all[a - 1] == ls[a - 1]);
    }
    if b > 0 {
        assert(node_ok(table, rs.take(b), b - 1));
        assert(all[ls.len() + b - 1] == rs[b - 1]);
    }
    if out.len() > 0 {
        assert(node_ok(table, out, 0));
    }
}

/// A step of a merge keeps what holds in the middle of it.
#[verifier::rlimit(40)]
pub proof fn lemma_merge_advance(
    before: Map<usize, RawChunk>,
    table: Map<usize, RawChunk>,
    ls: Seq<usize>,
    rs: Seq<usize>,
    a: int,
    b: int,
    out: Seq<usize>,
    left: bool,
)
    requires
        merge_inv(before, table, ls, rs, a, b, out),
        left ==> a > 0 && (b == 0 || ls[a - 1] < rs[b - 1]),
        !left ==> b > 0 && (a == 0 || !(ls[a - 1] < rs[b - 1])),
    ensures
        ({
            let x = if left {
                ls[a - 1]
            } else {
                rs[b - 1]
            };
            let t1 = unlinked(table, x);
            let t2 = if out.len() > 0 {
                joined(t1, x, out[0])
            } else {
                t1
            };
            &&& merge_inv(
                before,
                t2,
                ls,
                rs,
                if left {
                    a - 1
                } else {
                    a
                },
                if left {
                    b
                } else {
                    b - 1
                },
                seq![x] + out,
            )
            &&& t1.contains_key(x)
            &&& out.len() > 0 ==> t1.contains_key(out[0])
        }),
{
    let all = ls + rs;
    let lcur = ls.take(a);
    let rcur = rs.take(b);
    let x = if left {
        ls[a - 1]
    } else {
        rs[b - 1]
    };
    let t1 = unlinked(table, x);
    let t2 = if out.len() > 0 {
        joined(t1, x, out[0])
    } else {
        t1
    };
    let grown = seq![x] + out;
    let part = if left {
        lcur + out
    } else {
        rcur + out
    };
    if left {
        lemma_merge_step(table, lcur, rcur, out);
        assert(lcur.drop_last() =~= ls.take(a - 1));
        assert(merged(lcur, rcur) == merged(lcur.drop_last(), rcur).push(lcur.last()));
        assert(merged(ls, rs) =~= merged(ls.take(a - 1), rcur) + grown);
    } else {
        lemma_merge_step(table, rcur, lcur, out);
        assert(rcur.drop_last() =~= rs.take(b - 1));
        assert(merged(lcur, rcur) == merged(lcur, rcur.drop_last()).push(rcur.last()));
        assert(merged(ls, rs) =~= merged(lcur, rs.take(b - 1)) + grown);
    }
    assert forall|k: int| 0 <= k < part.len() implies all.contains(#[trigger] part[k]) by {
        if left {
            if k < lcur.len() {
                assert(all[k] == part[k]);
            } else {
                assert(part[k] == out[k - lcur.len()]);
            }
        } else {
            if k < rcur.len() {
                assert(all[ls.len() + k] == part[k]);
            } else {
                assert(part[k] == out[k - rcur.len()]);
            }
        }
    }
    lemma_relinks_trans(before, table, t2, part, all);
    assert forall|k: int| 0 <= k < grown.len() implies all.contains(#[trigger] grown[k]) by {
        if k > 0 {
            assert(grown[k] == out[k - 1]);
        } else if left {
            assert(all[a - 1] == x);
        } else {
            assert(all[ls.len() + b - 1] == x);
        }
    }
}

/// A merged list holds the descriptors of the two lists and no other.
pub proof fn lemma_merged_elems(l: Seq<usize>, r: Seq<usize>)
    ensures
        forall|x: usize| #[trigger] merged(l, r).contains(x) ==> l.contains(x) || r.contains(x),
        forall|x: usize| #[trigger] l.contains(x) ==> merged(l, r).contains(x),
        forall|x: usize| #[trigger] r.contains(x) ==> merged(l, r).contains(x),
    decreases l.len() + r.len(),
{
    let m = merged(l, r);
    if l.len() == 0 && r.len() == 0 {
    } else if r.len() == 0 || (l.len() > 0 && l.last() < r.last()) {
        let rest = merged(l.drop_last(), r);
        lemma_merged_elems(l.drop_last(), r);
        assert forall|x: usize| m.contains(x) <==> l.contains(x) || r.contains(x) by {
            lemma_push_contains(rest, l.last(), x);
            lemma_push_contains(l.drop_last(), l.last(), x);
            assert(l.drop_last().push(l.last()) =~= l);
        }
    } else {
        let rest = merged(l, r.drop_last());
        lemma_merged_elems(l, r.drop_last());
        assert forall|x: usize| m.contains(x) <==> l.contains(x) || r.contains(x) by {
            lemma_push_contains(rest, r.last(), x);
            lemma_push_contains(r.drop_last(), r.last(), x);
            assert(r.drop_last().push(r.last()) =~= r);
        }
    }
}

/// A list of one descriptor holds that descriptor and no other.
pub proof fn lemma_single_contains(a: usize, y: usize)
    ensures
        seq![a].contains(y) <==> y == a,
{
    if y == a {
        assert(seq![a][0] == y);
    }
}

/// What a list holds after one more descriptor was put behind it.
pub proof fn lemma_push_contains(s: Seq<usize>, last: usize, x: usize)
    ensures
        s.push(last).contains(x) <==> s.contains(x) || x == last,
{
    let p = s.push(last);
    if s.contains(x) {
        let i = choose|i: int| 0 <= i < s.len() && s[i] == x;
        assert(p[i] == x);
    }
    if x == last {
        assert(p[s.len() as int] == x);
    }
    if p.contains(x) {
        let i = choose|i: int| 0 <= i < p.len() && p[i] == x;
        if i < s.len() {
            assert(s[i] == x);
        }
    }
}

/// Merging two lists in the order of their chunks, with no descriptor in both,
/// gives a list in the order of its chunks.
#[verifier::rlimit(40)]
pub proof fn lemma_merged_descending(l: Seq<usize>, r: Seq<usize>)
    requires
        descending(l),
        descending(r),
        forall|i: int, j: int| 0 <= i < l.len() && 0 <= j < r.len() ==> l[i] != r[j],
    ensures
        descending(merged(l, r)),
    decreases l.len() + r.len(),
{
    let m = merged(l, r);
    if l.len() == 0 && r.len() == 0 {
    } else {
        let left = r.len() == 0 || (l.len() > 0 && l.last() < r.last());
        let l2 = if left {
            l.drop_last()
        } else {
            l
        };
        let r2 = if left {
            r
        } else {
            r.drop_last()
        };
        let x = if left {
            l.last()
        } else {
            r.last()
        };
        let rest = merged(l2, r2);
        lemma_merged_descending(l2, r2);
        lemma_merged_elems(l2, r2);
        lemma_merged_len(l2, r2);
        assert(m == rest.push(x));
        assert forall|i: int, j: int| 0 <= i < j < m.len() implies m[i] > m[j] by {
            if j < rest.len() {
                assert(m[i] == rest[i] && m[j] == rest[j]);
            } else {
                assert(m[i] == rest[i]);
                assert(rest.contains(rest[i]));
                let y = rest[i];
                if l2.contains(y) {
                    let k = choose|k: int| 0 <= k < l2.len() && l2[k] == y;
                    if left {
                        assert(l[k] > l[l.len() - 1]);
                    } else {
                        assert(l[k] != r[r.len() - 1]);
                        assert(l[k] >= l[l.len() - 1]);
                    }
                } else {
                    let k = choose|k: int| 0 <= k < r2.len() && r2[k] == y;
                    if left {
                        assert(r[k] >= r[r.len() - 1]);
                    } else {
                        assert(r[k] > r[r.len() - 1]);
                    }
                }
            }
        }
    }
}

/// A sorted list holds the descriptors of the list and no other, as many as the
/// list had, and where no descriptor stood twice in the list, it is in the order
/// of its chunks.
#[verifier::rlimit(40)]
pub proof fn lemma_sorted(x: Seq<usize>)
    ensures
        sorted(x).len() == x.len(),
        forall|y: usize| #[trigger] sorted(x).contains(y) ==> x.contains(y),
        forall|y: usize| #[trigger] x.contains(y) ==> sorted(x).contains(y),
        x.no_duplicates() ==> descending(sorted(x)),
    decreases x.len(),
{
    if x.len() >= 2 {
        let n = x.len() as int;
        let l = seq![x[n - 2]];
        let r = seq![x[n - 1]];
        let pair = merged(l, r);
        let rest = x.take(n - 2);
        lemma_merged_len(l, r);
        lemma_merged_elems(l, r);
        assert forall|y: usize| pair.contains(y) <==> (y == x[n - 2] || y == x[n - 1]) by {
            lemma_single_contains(x[n - 2], y);
            lemma_single_contains(x[n - 1], y);
        }
        if x.no_duplicates() {
            lemma_merged_descending(l, r);
        }
        if n == 2 {
            assert forall|y: usize| pair.contains(y) <==> x.contains(y) by {
                assert(x[0] == x[n - 2] && x[1] == x[n - 1]);
            }
        } else {
            let s = sorted(rest);
            lemma_sorted(rest);
            lemma_merged_len(pair, s);
            lemma_merged_elems(pair, s);
            assert forall|y: usize| #[trigger] merged(pair, s).contains(y) implies x.contains(y) by {
                if pair.contains(y) {
                    assert(y == x[n - 2] || y == x[n - 1]);
                } else {
                    assert(s.contains(y));
                    assert(rest.contains(y));
                    let i = choose|i: int| 0 <= i < rest.len() && rest[i] == y;
                    assert(x[i] == y);
                }
            }
            assert forall|y: usize| #[trigger] x.contains(y) implies merged(pair, s).contains(y) by {
                let i = choose|i: int| 0 <= i < n && x[i] == y;
                if i < n - 2 {
                    assert(rest[i] == y);
                    assert(rest.contains(y));
                    assert(s.contains(y));
                } else {
                    assert(pair.contains(y));
                }
            }
            if x.no_duplicates() {
                assert(rest.no_duplicates());
                assert forall|i: int, j: int| 0 <= i < pair.len() && 0 <= j < s.len() implies pair[i]
                    != s[j] by {
                    assert(pair.contains(pair[i]));
                    assert(s.contains(s[j]));
                    let k = choose|k: int| 0 <= k < rest.len() && rest[k] == s[j];
                    assert(x[k] == s[j]);
                }
                lemma_merged_descending(pair, s);
            }
        }
    }
}

pub proof fn lemma_raw_align()
    ensures
        vstd::arithmetic::power2::is_pow2(RAW_CHUNK_ALIGN as int),
{
    crate::bits::lemma_single_bit(RAW_CHUNK_ALIGN);
    assert(8usize & 7usize == 0) by (bit_vector);
}

/// Where a descriptor is put that goes below the address `end`.
pub open spec fn below(end: int) -> int {
    crate::align_down_spec(end - RAW_CHUNK_SIZE, RAW_CHUNK_ALIGN as int)
}
/// The descriptor at `at` belongs to a list in the store.
pub open spec fn in_list(table: Map<usize, RawChunk>, at: usize) -> bool {
    exists|nodes: Seq<usize>| linked(table, nodes) && nodes.contains(at)
}

/// The list in the store that the descriptor at `at` belongs to.
pub open spec fn list_of(table: Map<usize, RawChunk>, at: usize) -> Seq<usize> {
    choose|nodes: Seq<usize>| linked(table, nodes) && nodes.contains(at)
}

/// The descriptor at `at` is the last of a list in the store.
pub open spec fn ends_list(table: Map<usize, RawChunk>, at: usize) -> bool {
    in_list(table, at) && list_of(table, at).last() == at
}

/// Two lists in one store that share a descriptor share all that comes before
/// it, and it stands at the same index in both.
pub proof fn lemma_same_before(
    table: Map<usize, RawChunk>,
    a: Seq<usize>,
    b: Seq<usize>,
    i: int,
    j: int,
)
    requires
        linked(table, a),
        linked(table, b),
        0 <= i < a.len(),
        0 <= j < b.len(),
        a[i] == b[j],
    ensures
        i == j,
        forall|k: int| 0 <= k <= i ==> a[k] == b[k],
    decreases i,
{
    assert(node_ok(table, a, i));
    assert(node_ok(table, b, j));
    if i > 0 {
        assert(node_ok(table, a, i - 1));
        if j == 0 {
            assert(false);
        }
        lemma_same_before(table, a, b, i - 1, j - 1);
    } else if j > 0 {
        assert(node_ok(table, b, j - 1));
        assert(false);
    }
}

/// Two lists in one store that share a descriptor share all that comes behind
/// it, and end together.
pub proof fn lemma_same_behind(
    table: Map<usize, RawChunk>,
    a: Seq<usize>,
    b: Seq<usize>,
    i: int,
)
    requires
        linked(table, a),
        linked(table, b),
        0 <= i < a.len(),
        i < b.len(),
        a[i] == b[i],
    ensures
        a.len() == b.len(),
        forall|k: int| i <= k < a.len() ==> a[k] == b[k],
    decreases a.len() - i,
{
    assert(node_ok(table, a, i));
    assert(node_ok(table, b, i));
    if i + 1 < a.len() {
        assert(node_ok(table, a, i + 1));
        if i + 1 >= b.len() {
            assert(false);
        }
        lemma_same_behind(table, a, b, i + 1);
    } else if i + 1 < b.len() {
        assert(node_ok(table, b, i + 1));
        assert(false);
    }
}

/// A descriptor belongs to one list only: a list in the store that holds the
/// descriptor at `at` is the list of that descriptor.
pub proof fn lemma_list_unique(table: Map<usize, RawChunk>, nodes: Seq<usize>, at: usize)
    requires
        linked(table, nodes),
        nodes.contains(at),
    ensures
        in_list(table, at),
        list_of(table, at) == nodes,
{
    let other = list_of(table, at);
    let i = choose|i: int| 0 <= i < nodes.len() && nodes[i] == at;
    let j = choose|j: int| 0 <= j < other.len() && other[j] == at;
    lemma_same_before(table, nodes, other, i, j);
    lemma_same_behind(table, nodes, other, i);
    assert(nodes =~= other);
}

} // verus!
