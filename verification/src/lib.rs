//! Allocators that hand out addresses from a fixed byte region `[heap_start, heap_end)`.
//!
//! Every policy is a state machine over plain addresses: it decides which addresses
//! of the region belong to whom, and never reads or writes the bytes behind them.
//! The bookkeeping of a policy (cursors, extent records, chunk descriptors) has its
//! place in the region, and the policy accounts for the bytes that it takes there
//! next to the bytes that it lends out; the records themselves are kept in a
//! [`store::Store`], each under the address of its place.
//!
//! * [`bump`]: a cursor that only moves forward.
//! * [`statiq`]: two cursors, one from each end.
//! * [`debump`]: a stack of blocks, each followed by a record, that shrinks when its
//!   top is handed back.
//! * [`list`]: a list of extents in address order; first-fit and best-fit pick the
//!   gap for a new extent.
//! * [`pool`]: chunks of one size with descriptors at the far end of the region;
//!   neighbouring free chunks are merged for large blocks.
//! * [`sync`]: any of them behind a spin lock, for threads to share.
//!
//! All of them offer the operations of [`Alloqator`].

use vstd::prelude::*;
use vstd::arithmetic::power2::is_pow2;

use core::ops::Range;

pub mod bits;
pub mod store;
pub mod bump;
pub mod statiq;
pub mod debump;
pub mod list;
pub mod pool;
pub mod sync;

verus! {

/// Why an allocator turned a request down.
#[derive(Clone, Copy, Debug, PartialEq, Eq, Structural)]
pub enum AllocError {
    /// The region cannot hold the request in the allocator's current state.
    OutOfMemory,
    /// The address handed back matches nothing the allocator lent out.
    InvalidFree,
    /// The alignment is not a power of two, or the request's end is not an address.
    InvalidLayout,
    /// The region is not one an allocator of this policy can manage.
    InvalidHeap,
}

/// A request for `size` bytes whose first address is a multiple of `align`.
#[derive(Clone, Copy, Debug, PartialEq, Eq, Structural)]
pub struct Layout {
    pub size: usize,
    pub align: usize,
}

impl Layout {
    /// A layout is usable when its alignment is a power of two.
    pub open spec fn valid(self) -> bool {
        is_pow2(self.align as int)
    }

    /// Builds a layout, refusing an alignment that is not a power of two.
    pub fn from_size_align(size: usize, align: usize) -> (r: Result<Layout, AllocError>)
        ensures
            is_pow2(align as int) ==> r == Ok::<Layout, AllocError>(Layout { size, align }),
            !is_pow2(align as int) ==> r == Err::<Layout, AllocError>(AllocError::InvalidLayout),
    {
        if is_power_of_two(align) {
            Ok(Layout { size, align })
        } else {
            Err(AllocError::InvalidLayout)
        }
    }

    /// Number of bytes asked for.
    pub fn size(&self) -> (r: usize)
        ensures
            r == self.size,
    {
        self.size
    }

    /// The alignment asked for.
    pub fn align(&self) -> (r: usize)
        ensures
            r == self.align,
    {
        self.align
    }
}

/// The greatest multiple of `align` that is not above `addr`.
pub open spec fn align_down_spec(addr: int, align: int) -> int {
    addr - addr % align
}

/// The least multiple of `align` that is not below `addr`.
pub open spec fn align_up_spec(addr: int, align: int) -> int {
    align_down_spec(addr + align - 1, align)
}

/// Tells whether exactly one bit of `x` is set.
pub fn is_power_of_two(x: usize) -> (b: bool)
    ensures
        b == is_pow2(x as int),
{
    proof {
        bits::lemma_single_bit(x);
    }
    x != 0 && x & (x - 1) == 0
}

/// Rounds `addr` up to the next multiple of the power of two `align`.
pub fn align_up(addr: usize, align: usize) -> (r: usize)
    requires
        is_pow2(align as int),
        addr + align - 1 <= usize::MAX,
    ensures
        r == align_up_spec(addr as int, align as int),
        r as int % align as int == 0,
        addr <= r < addr + align,
{
    proof {
        bits::lemma_pow2_positive(align);
        bits::lemma_mask_clears(((addr + align - 1) as usize), align);
        bits::lemma_align_up_bounds(addr as int, align as int);
    }
    (addr + (align - 1)) & !(align - 1)
}

/// Rounds `addr` down to a multiple of the power of two `align`; an alignment of
/// zero leaves the address as it is.
pub fn align_down(addr: usize, align: usize) -> (r: usize)
    requires
        align == 0 || is_pow2(align as int),
    ensures
        align == 0 ==> r == addr,
        align != 0 ==> r == align_down_spec(addr as int, align as int),
        align != 0 ==> r as int % align as int == 0 && addr - align < r <= addr,
{
    if align == 0 {
        addr
    } else {
        proof {
            bits::lemma_mask_clears(addr, align);
            bits::lemma_align_down_bounds(addr as int, align as int);
        }
        addr & !(align - 1)
    }
}

/// `align_up` for any pair of numbers: `None` where the alignment is not a power of
/// two or the rounded address would not fit.
pub fn checked_align_up(addr: usize, align: usize) -> (r: Option<usize>)
    ensures
        r matches Some(p) ==> is_pow2(align as int) && p == align_up_spec(addr as int, align as int),
        r is None <==> !is_pow2(align as int) || align_up_spec(addr as int, align as int)
            > usize::MAX,
{
    if !is_power_of_two(align) {
        return None;
    }
    proof {
        bits::lemma_pow2_positive(align);
        bits::lemma_align_up_bounds(addr as int, align as int);
    }
    if addr > usize::MAX - (align - 1) {
        // The only multiple left above `addr` would be 2^BITS itself.
        let low: usize = addr & (align - 1);
        proof {
            bits::lemma_mask_is_mod(addr, align);
            bits::lemma_align_up_exact(addr as int, align as int);
            if low != 0 {
                bits::lemma_top_multiple(addr, align);
            }
        }
        if low == 0 {
            Some(addr)
        } else {
            None
        }
    } else {
        Some(align_up(addr, align))
    }
}

/// Bytes that `count` objects of `size` bytes take at most, each with a record of
/// `meta_size` bytes, where an object and a record may each lose up to one
/// record alignment less one to padding.
pub open spec fn size_hint(size: nat, meta_size: nat, meta_align: nat, count: nat) -> nat {
    let align = if meta_align > 1 {
        meta_align
    } else {
        1
    };
    ((size + align - 1 + meta_size + align - 1) * count) as nat
}

/// A region size that is enough for `count` objects of type `T` under the policy
/// `A`.
pub fn get_size_hint_in<T, A: Alloqator>(count: usize) -> (r: usize)
    requires
        size_hint(vstd::layout::size_of::<T>(), A::meta_size(), A::meta_align(), count as nat)
            <= usize::MAX,
    ensures
        r == size_hint(vstd::layout::size_of::<T>(), A::meta_size(), A::meta_align(), count as nat),
{
    if count == 0 {
        assert(size_hint(vstd::layout::size_of::<T>(), A::meta_size(), A::meta_align(), 0) == 0)
            by (nonlinear_arith)
            requires
                size_hint(vstd::layout::size_of::<T>(), A::meta_size(), A::meta_align(), 0) == ((
                vstd::layout::size_of::<T>() + (if A::meta_align() > 1 {
                    A::meta_align()
                } else {
                    1
                }) - 1 + A::meta_size() + (if A::meta_align() > 1 {
                    A::meta_align()
                } else {
                    1
                }) - 1) * 0) as nat,
        ;
        return 0;
    }
    let meta_align: usize = if A::metadata_align() > 1 {
        A::metadata_align()
    } else {
        1
    };
    let obj_align: usize = meta_align;
    let size: usize = core::mem::size_of::<T>();
    let meta_size: usize = A::metadata_size();
    proof {
        let per = size + obj_align - 1 + meta_size + meta_align - 1;
        assert(per <= per * count) by (nonlinear_arith)
            requires
                per >= 0,
                count >= 1,
        ;
    }
    (size + (obj_align - 1) + meta_size + (meta_align - 1)) * count
}

/// The addresses `[p, p + size)`.
pub open spec fn block(p: int, size: int) -> Set<int> {
    Set::new(|a: int| p <= a < p + size)
}

/// What a successful allocation does to the set of addresses in use: the block it
/// returns was free before and is in use after, and nothing in use was given up.
pub open spec fn grants(before: Set<int>, after: Set<int>, p: int, size: int) -> bool {
    &&& block(p, size).disjoint(before)
    &&& block(p, size).subset_of(after)
    &&& before.subset_of(after)
}

/// Blocks granted one after another, with nothing handed back in between, do not
/// overlap: `occ[k]` is the set of addresses in use before the `k`-th grant and
/// `occ[k + 1]` the set after it.
pub proof fn lemma_grants_disjoint(
    occ: Seq<Set<int>>,
    ps: Seq<int>,
    sizes: Seq<int>,
    i: int,
    j: int,
)
    requires
        occ.len() == ps.len() + 1,
        sizes.len() == ps.len(),
        forall|k: int| 0 <= k < ps.len() ==> grants(occ[k], #[trigger] occ[k + 1], ps[k], sizes[k]),
        0 <= i < j < ps.len(),
    ensures
        block(ps[i], sizes[i]).disjoint(block(ps[j], sizes[j])),
{
    lemma_grants_accumulate(occ, ps, sizes, i, j);
    assert(grants(occ[j], occ[j + 1], ps[j], sizes[j]));
}

/// A granted block is still in use after any number of further grants.
pub proof fn lemma_grants_accumulate(
    occ: Seq<Set<int>>,
    ps: Seq<int>,
    sizes: Seq<int>,
    i: int,
    j: int,
)
    requires
        occ.len() == ps.len() + 1,
        sizes.len() == ps.len(),
        forall|k: int| 0 <= k < ps.len() ==> grants(occ[k], #[trigger] occ[k + 1], ps[k], sizes[k]),
        0 <= i < j <= ps.len(),
    ensures
        block(ps[i], sizes[i]).subset_of(occ[j]),
    decreases j - i,
{
    if j == i + 1 {
        assert(grants(occ[i], occ[i + 1], ps[i], sizes[i]));
    } else {
        lemma_grants_accumulate(occ, ps, sizes, i, j - 1);
        assert(grants(occ[j - 1], occ[j - 1 + 1], ps[j - 1], sizes[j - 1]));
    }
}

/// The address that stands for the outcome of a request where failure is the
/// null address.
pub open spec fn address_or_null(r: Result<usize, AllocError>) -> usize {
    match r {
        Ok(p) => p,
        Err(_) => 0,
    }
}

/// What every allocation policy offers over its region.
pub trait Alloqator: Sized {
    /// The state is one that the policy's own operations can have produced.
    spec fn inv(&self) -> bool;

    /// First address of the region.
    spec fn start(&self) -> int;

    /// First address past the region.
    spec fn end(&self) -> int;

    /// The addresses that are lent out or hold bookkeeping.
    spec fn occupied(&self) -> Set<int>;

    /// The state is the one that construction leaves.
    spec fn pristine(&self) -> bool;

    /// The next `allocate` with this layout succeeds.
    spec fn accepts(&self, layout: Layout) -> bool;

    /// The policy can manage the region `[heap_range.start, heap_range.end)`.
    spec fn hosts(heap_range: Range<usize>) -> bool;

    /// `after` is the state that a request for `layout` leaves of this one, and `r`
    /// is what the request returns.
    spec fn serves(&self, after: &Self, layout: Layout, r: Result<usize, AllocError>) -> bool;

    /// Handing back `ptr` for `layout` succeeds.
    spec fn can_free(&self, ptr: usize, layout: Layout) -> bool;

    /// `after` is the state that handing back `ptr` for `layout` leaves of this
    /// one: the state without the block where handing it back succeeds, and this
    /// state where it is refused.
    spec fn hands_back(&self, after: &Self, ptr: usize, layout: Layout) -> bool;

    /// Bytes that a record of the policy takes in the region.
    spec fn meta_size() -> nat;

    /// Alignment of a record of the policy in the region.
    spec fn meta_align() -> nat;

    /// Bytes that a record of the policy takes in the region.
    fn metadata_size() -> (r: usize)
        ensures
            r == Self::meta_size(),
    ;

    /// Alignment of a record of the policy in the region.
    fn metadata_align() -> (r: usize)
        ensures
            r == Self::meta_align(),
    ;

    /// Takes over the region `[heap_range.start, heap_range.end)`, if the policy can
    /// manage it. No region begins at the null address or ends before it begins; a
    /// policy may ask for more, such as room for its first record.
    fn new(heap_range: Range<usize>) -> (r: Result<Self, AllocError>)
        ensures
            match r {
                Ok(a) => a.inv() && a.pristine() && a.start() == heap_range.start && a.end()
                    == heap_range.end,
                Err(e) => e == AllocError::InvalidHeap,
            },
            r is Ok <==> Self::hosts(heap_range),
            heap_range.start == 0 || heap_range.end < heap_range.start ==> r is Err,
    ;

    /// Lends out `layout.size` bytes at a multiple of `layout.align`.
    fn allocate(&mut self, layout: Layout) -> (r: Result<usize, AllocError>)
        requires
            old(self).inv(),
        ensures
            final(self).inv(),
            final(self).start() == old(self).start(),
            final(self).end() == old(self).end(),
            r is Ok <==> old(self).accepts(layout),
            r is Ok ==> layout.valid(),
            old(self).serves(final(self), layout, r),
            match r {
                Ok(p) => {
                    &&& p != 0
                    &&& p as int % layout.align as int == 0
                    &&& old(self).start() <= p
                    &&& p + layout.size <= old(self).end()
                    &&& grants(old(self).occupied(), final(self).occupied(), p as int, layout.size as int)
                },
                Err(e) => {
                    &&& final(self).occupied() == old(self).occupied()
                    &&& e == AllocError::InvalidLayout || e == AllocError::OutOfMemory
                    &&& !layout.valid() ==> e == AllocError::InvalidLayout
                },
            },
    ;

    /// Takes back what `allocate` returned for `layout`.
    fn deallocate(&mut self, ptr: usize, layout: Layout) -> (r: Result<(), AllocError>)
        requires
            old(self).inv(),
        ensures
            final(self).inv(),
            final(self).start() == old(self).start(),
            final(self).end() == old(self).end(),
            final(self).occupied().subset_of(old(self).occupied()),
            old(self).can_free(ptr, layout) <==> r is Ok,
            old(self).hands_back(final(self), ptr, layout),
            r matches Err(e) ==> e == AllocError::InvalidFree && final(self).occupied() == old(
                self,
            ).occupied(),
    ;

    /// Forgets every allocation. Addresses lent out before must no longer be used.
    fn reset(&mut self)
        requires
            old(self).inv(),
        ensures
            final(self).inv(),
            final(self).pristine(),
            final(self).start() == old(self).start(),
            final(self).end() == old(self).end(),
    ;

    /// First address of the region.
    fn heap_start(&self) -> (r: usize)
        requires
            self.inv(),
        ensures
            r == self.start(),
    ;

    /// First address past the region.
    fn heap_end(&self) -> (r: usize)
        requires
            self.inv(),
        ensures
            r == self.end(),
    ;

    /// The region.
    fn heap_range(&self) -> (r: Range<usize>)
        requires
            self.inv(),
        ensures
            r.start == self.start(),
            r.end == self.end(),
    {
        self.heap_start()..self.heap_end()
    }

    /// Forgets every allocation and clears `heap`, the bytes of the region.
    fn hard_reset(&mut self, heap: &mut Vec<u8>)
        requires
            old(self).inv(),
            old(heap)@.len() == old(self).end() - old(self).start(),
        ensures
            final(self).inv(),
            final(self).pristine(),
            final(self).start() == old(self).start(),
            final(self).end() == old(self).end(),
            final(heap)@.len() == old(heap)@.len(),
            forall|i: int| 0 <= i < final(heap)@.len() ==> final(heap)@[i] == 0u8,
    {
        let n: usize = heap.len();
        let mut i: usize = 0;
        while i < n
            invariant
                i <= n,
                heap@.len() == n,
                forall|j: int| 0 <= j < i ==> heap@[j] == 0u8,
            decreases n - i,
        {
            heap.set(i, 0u8);
            i = i + 1;
        }
        self.reset();
    }

    /// `allocate` for hosts that know no error: the null address stands for failure.
    fn alloq(&mut self, layout: Layout) -> (p: usize)
        requires
            old(self).inv(),
        ensures
            final(self).inv(),
            final(self).start() == old(self).start(),
            final(self).end() == old(self).end(),
            p != 0 <==> old(self).accepts(layout),
            exists|r: Result<usize, AllocError>|
                #[trigger] old(self).serves(final(self), layout, r) && p == address_or_null(r),
            p != 0 ==> {
                &&& layout.valid()
                &&& p as int % layout.align as int == 0
                &&& old(self).start() <= p
                &&& p + layout.size <= old(self).end()
                &&& grants(old(self).occupied(), final(self).occupied(), p as int, layout.size as int)
            },
            p == 0 ==> final(self).occupied() == old(self).occupied(),
    {
        let r = self.allocate(layout);
        assert(old(self).serves(self, layout, r));
        match r {
            Ok(p) => p,
            Err(_) => 0,
        }
    }

    /// `deallocate` for hosts that know no error: a refused address changes nothing.
    fn dealloq(&mut self, ptr: usize, layout: Layout)
        requires
            old(self).inv(),
        ensures
            final(self).inv(),
            final(self).start() == old(self).start(),
            final(self).end() == old(self).end(),
            final(self).occupied().subset_of(old(self).occupied()),
            old(self).hands_back(final(self), ptr, layout),
    {
        let _ = self.deallocate(ptr, layout);
    }
}

} // verus!
