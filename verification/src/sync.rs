//! One allocator for many threads: the allocator lies behind a spin lock, which is
//! held for the whole of each operation. What lies behind the lock is sealed: a
//! sealed allocator is only made of one in a state that its own operations have
//! produced, so whatever the lock hands out is in such a state. What an operation
//! does with the place behind the lock, once the lock has handed it out, is said
//! by the functions of [`Sealed`] that take the place.

use vstd::prelude::*;
use core::ops::Range;
use crate::{AllocError, Alloqator, Layout};

verus! {

/// `spin::mutex::Mutex`, a lock that is taken by spinning. Nothing inside it is
/// seen here.
#[verifier::external_type_specification]
#[verifier::external_body]
#[verifier::reject_recursive_types(T)]
#[verifier::reject_recursive_types(R)]
pub struct ExMutex<T: ?Sized, R>(spin::mutex::Mutex<T, R>);

/// `spin::mutex::MutexGuard`, which stands for a lock that is held. Nothing
/// inside it is seen here.
#[verifier::external_type_specification]
#[verifier::external_body]
#[verifier::reject_recursive_types(T)]
pub struct ExMutexGuard<'a, T: 'a + ?Sized>(spin::mutex::MutexGuard<'a, T>);

/// `spin::relax::Spin`, the way a `spin::mutex::Mutex` waits where no other is
/// named: it spins.
#[verifier::external_type_specification]
#[verifier::external_body]
pub struct ExSpin(spin::relax::Spin);

/// `spin::mutex::Mutex::new`: a lock around `value`. Nothing is claimed of it.
#[verifier::external_body]
fn mutex_new<T>(value: T) -> (m: spin::mutex::Mutex<T>) {
    spin::mutex::Mutex::new(value)
}

/// `spin::mutex::Mutex::lock`: spins until the lock is free and takes it; the
/// lock is given up when the guard goes out of scope. It returns once no other
/// guard is alive; every operation of this module lets its guard go before it
/// returns, and none takes the lock twice. Nothing is claimed of the guard.
#[verifier::external_body]
fn mutex_lock<'a, T>(m: &'a spin::mutex::Mutex<T>) -> (g: spin::mutex::MutexGuard<'a, T>) {
    m.lock()
}

/// `DerefMut::deref_mut` of `spin::mutex::MutexGuard`: the value behind the lock
/// that the guard holds. Nothing is claimed of the value but what its type says.
#[verifier::external_body]
fn guard_mut<'a, 'b, T>(g: &'b mut spin::mutex::MutexGuard<'a, T>) -> (r: &'b mut T) {
    &mut **g
}

/// An allocator in a state that its own operations have produced.
pub struct Sealed<A: Alloqator> {
    inner: A,
}

impl<A: Alloqator> View for Sealed<A> {
    type V = A;

    /// The allocator.
    closed spec fn view(&self) -> A {
        self.inner
    }
}

impl<A: Alloqator> Sealed<A> {
    #[verifier::type_invariant]
    spec fn sound(self) -> bool {
        self.inner.inv()
    }

    /// Seals an allocator that is in a state that its operations have produced.
    pub fn seal(inner: A) -> (s: Sealed<A>)
        requires
            inner.inv(),
        ensures
            s@ == inner,
    {
        Sealed { inner }
    }

    /// The allocator, which is in a state that its operations have produced.
    pub fn open(self) -> (inner: A)
        ensures
            inner == self@,
            inner.inv(),
    {
        proof {
            use_type_invariant(&self);
        }
        self.inner
    }

    /// The place holds an allocator, and it is one over `[start, end)`.
    pub open spec fn holds_for(place: Option<Sealed<A>>, start: usize, end: usize) -> bool {
        place matches Some(s) && s@.start() == start && s@.end() == end
    }

    /// Takes the allocator out of the place if it is one over `[start, end)`;
    /// the place stays as it is where it is not.
    fn take_for(place: &mut Option<Sealed<A>>, start: usize, end: usize) -> (r: Option<A>)
        ensures
            r is Some <==> Self::holds_for(*old(place), start, end),
            r matches Some(inner) ==> inner.inv() && inner == (*old(place))->0@ && *final(place)
                is None,
            r is None ==> *final(place) == *old(place),
    {
        match place.take() {
            Some(sealed) => {
                let inner = sealed.open();
                if inner.heap_start() == start && inner.heap_end() == end {
                    Some(inner)
                } else {
                    *place = Some(Self::seal(inner));
                    None
                }
            },
            None => None,
        }
    }

    /// `allocate` on the allocator in the place, if the place holds one over
    /// `[start, end)`. Where it does not, the request fails and the place stays as
    /// it is.
    pub fn allocate_in(place: &mut Option<Sealed<A>>, start: usize, end: usize, layout: Layout) -> (r:
        Result<usize, AllocError>)
        ensures
            Self::holds_for(*old(place), start, end) ==> {
                &&& *final(place) is Some
                &&& (*old(place))->0@.serves(&(*final(place))->0@, layout, r)
                &&& (*final(place))->0@.start() == start
                &&& (*final(place))->0@.end() == end
                &&& r is Ok <==> (*old(place))->0@.accepts(layout)
            },
            !Self::holds_for(*old(place), start, end) ==> {
                &&& *final(place) == *old(place)
                &&& r == if layout.valid() {
                    Err::<usize, AllocError>(AllocError::OutOfMemory)
                } else {
                    Err::<usize, AllocError>(AllocError::InvalidLayout)
                }
            },
            match r {
                Ok(p) => {
                    &&& layout.valid()
                    &&& p != 0
                    &&& p as int % layout.align as int == 0
                    &&& start <= p
                    &&& p + layout.size <= end
                },
                Err(e) => {
                    &&& e == AllocError::InvalidLayout || e == AllocError::OutOfMemory
                    &&& !layout.valid() ==> e == AllocError::InvalidLayout
                },
            },
    {
        match Self::take_for(place, start, end) {
            Some(inner) => {
                let mut inner = inner;
                let r = inner.allocate(layout);
                *place = Some(Self::seal(inner));
                r
            },
            None => if crate::is_power_of_two(layout.align) {
                Err(AllocError::OutOfMemory)
            } else {
                Err(AllocError::InvalidLayout)
            },
        }
    }

    /// `deallocate` on the allocator in the place, if the place holds one over
    /// `[start, end)`. Where it does not, the address is refused and the place stays
    /// as it is.
    pub fn deallocate_in(
        place: &mut Option<Sealed<A>>,
        start: usize,
        end: usize,
        ptr: usize,
        layout: Layout,
    ) -> (r: Result<(), AllocError>)
        ensures
            Self::holds_for(*old(place), start, end) ==> {
                &&& *final(place) is Some
                &&& (*old(place))->0@.hands_back(&(*final(place))->0@, ptr, layout)
                &&& (*final(place))->0@.start() == start
                &&& (*final(place))->0@.end() == end
                &&& r is Ok <==> (*old(place))->0@.can_free(ptr, layout)
            },
            !Self::holds_for(*old(place), start, end) ==> *final(place) == *old(place) && r is Err,
            r matches Err(e) ==> e == AllocError::InvalidFree,
    {
        match Self::take_for(place, start, end) {
            Some(inner) => {
                let mut inner = inner;
                let r = inner.deallocate(ptr, layout);
                *place = Some(Self::seal(inner));
                r
            },
            None => Err(AllocError::InvalidFree),
        }
    }

    /// `reset` on the allocator in the place, if the place holds one over
    /// `[start, end)`; tells whether it does. Where it does not, the place stays as
    /// it is.
    pub fn reset_in(place: &mut Option<Sealed<A>>, start: usize, end: usize) -> (done: bool)
        ensures
            done == Self::holds_for(*old(place), start, end),
            done ==> {
                &&& *final(place) is Some
                &&& (*final(place))->0@.pristine()
                &&& (*final(place))->0@.start() == start
                &&& (*final(place))->0@.end() == end
            },
            !done ==> *final(place) == *old(place),
    {
        match Self::take_for(place, start, end) {
            Some(inner) => {
                let mut inner = inner;
                inner.reset();
                *place = Some(Self::seal(inner));
                true
            },
            None => false,
        }
    }

    /// `hard_reset` on the allocator in the place, if the place holds one over
    /// `[start, end)` and `heap` has as many bytes as the region; tells whether that
    /// is so. Where it is not, the place and the bytes stay as they are.
    pub fn hard_reset_in(
        place: &mut Option<Sealed<A>>,
        start: usize,
        end: usize,
        heap: &mut Vec<u8>,
    ) -> (done: bool)
        ensures
            done == (Self::holds_for(*old(place), start, end) && old(heap)@.len() == end - start),
            final(heap)@.len() == old(heap)@.len(),
            done ==> {
                &&& *final(place) is Some
                &&& (*final(place))->0@.pristine()
                &&& (*final(place))->0@.start() == start
                &&& (*final(place))->0@.end() == end
                &&& forall|i: int| 0 <= i < final(heap)@.len() ==> final(heap)@[i] == 0u8
            },
            !done ==> *final(place) == *old(place) && final(heap)@ == old(heap)@,
    {
        match Self::take_for(place, start, end) {
            Some(inner) => {
                let mut inner = inner;
                let done = start <= end && heap.len() == end - start;
                if done {
                    inner.hard_reset(heap);
                }
                *place = Some(Self::seal(inner));
                done
            },
            None => false,
        }
    }
}

/// An allocator over `[heap_start, heap_end)` that threads share. Every operation
/// takes the lock, takes the allocator out of its place behind the lock, works on
/// it, puts it back and gives the lock up. What the place holds when the lock is
/// taken is for the lock to say: an operation that does not find the allocator of
/// this region there fails and leaves the place as it is.
#[verifier::reject_recursive_types(A)]
pub struct Locked<A: Alloqator> {
    heap_start: usize,
    heap_end: usize,
    cell: spin::mutex::Mutex<Option<Sealed<A>>>,
}

impl<A: Alloqator> Locked<A> {
    /// First address of the region.
    pub closed spec fn start(&self) -> usize {
        self.heap_start
    }

    /// First address past the region.
    pub closed spec fn end(&self) -> usize {
        self.heap_end
    }

    /// First address of the region.
    pub fn heap_start(&self) -> (r: usize)
        ensures
            r == self.start(),
    {
        self.heap_start
    }

    /// First address past the region.
    pub fn heap_end(&self) -> (r: usize)
        ensures
            r == self.end(),
    {
        self.heap_end
    }

    /// Puts an allocator behind a lock.
    pub fn from_allocator(inner: A) -> (l: Locked<A>)
        requires
            inner.inv(),
        ensures
            l.start() == inner.start(),
            l.end() == inner.end(),
    {
        let heap_start = inner.heap_start();
        let heap_end = inner.heap_end();
        Locked { heap_start, heap_end, cell: mutex_new(Some(Sealed::seal(inner))) }
    }

    /// An allocator of the policy `A` over `heap_range`, behind a lock.
    pub fn new(heap_range: Range<usize>) -> (r: Result<Locked<A>, AllocError>)
        ensures
            match r {
                Ok(l) => l.start() == heap_range.start && l.end() == heap_range.end,
                Err(e) => e == AllocError::InvalidHeap,
            },
            r is Ok <==> A::hosts(heap_range),
            heap_range.start == 0 || heap_range.end < heap_range.start ==> r is Err,
    {
        match A::new(heap_range) {
            Ok(inner) => Ok(Self::from_allocator(inner)),
            Err(e) => Err(e),
        }
    }

    /// `allocate` of the allocator behind the lock. Which requests succeed depends
    /// on what other threads have done; a block that is returned is not at the
    /// null address, begins at a multiple of its alignment and lies in the region.
    pub fn allocate(&self, layout: Layout) -> (r: Result<usize, AllocError>)
        ensures
            match r {
                Ok(p) => {
                    &&& p != 0
                    &&& p as int % layout.align as int == 0
                    &&& self.start() <= p
                    &&& p + layout.size <= self.end()
                },
                Err(e) => e == AllocError::InvalidLayout || e == AllocError::OutOfMemory,
            },
            !layout.valid() ==> r == Err::<usize, AllocError>(AllocError::InvalidLayout),
    {
        let mut guard = mutex_lock(&self.cell);
        let place = guard_mut(&mut guard);
        Sealed::allocate_in(place, self.heap_start, self.heap_end, layout)
    }

    /// `deallocate` of the allocator behind the lock. Which addresses are taken
    /// back depends on what was lent out through the lock.
    pub fn deallocate(&self, ptr: usize, layout: Layout) -> (r: Result<(), AllocError>)
        ensures
            r matches Err(e) ==> e == AllocError::InvalidFree,
    {
        let mut guard = mutex_lock(&self.cell);
        let place = guard_mut(&mut guard);
        Sealed::deallocate_in(place, self.heap_start, self.heap_end, ptr, layout)
    }

    /// `reset` of the allocator behind the lock. Addresses lent out before must no
    /// longer be used.
    pub fn reset(&self) {
        let mut guard = mutex_lock(&self.cell);
        let place = guard_mut(&mut guard);
        let _ = Sealed::reset_in(place, self.heap_start, self.heap_end);
    }

    /// `hard_reset` of the allocator behind the lock, where `heap` has as many bytes
    /// as the region: every byte of `heap` is then zero. Tells whether the reset was
    /// made; it is not where `heap` has another length, and the bytes then stay as
    /// they are.
    pub fn hard_reset(&self, heap: &mut Vec<u8>) -> (done: bool)
        ensures
            final(heap)@.len() == old(heap)@.len(),
            done ==> {
                &&& old(heap)@.len() == self.end() - self.start()
                &&& forall|i: int| 0 <= i < final(heap)@.len() ==> final(heap)@[i] == 0u8
            },
            !done ==> final(heap)@ == old(heap)@,
    {
        let mut guard = mutex_lock(&self.cell);
        let place = guard_mut(&mut guard);
        Sealed::hard_reset_in(place, self.heap_start, self.heap_end, heap)
    }

    /// `allocate` for hosts that know no error: the null address stands for
    /// failure. A block that is returned begins at a multiple of its alignment and
    /// lies in the region.
    pub fn alloq(&self, layout: Layout) -> (p: usize)
        ensures
            p != 0 ==> {
                &&& layout.valid()
                &&& p as int % layout.align as int == 0
                &&& self.start() <= p
                &&& p + layout.size <= self.end()
            },
    {
        match self.allocate(layout) {
            Ok(p) => p,
            Err(_) => 0,
        }
    }

    /// `deallocate` for hosts that know no error: a refused address changes
    /// nothing.
    pub fn dealloq(&self, ptr: usize, layout: Layout) {
        let _ = self.deallocate(ptr, layout);
    }

    /// The region that the allocator behind the lock was made over.
    pub fn heap_range(&self) -> (r: Range<usize>)
        ensures
            r.start == self.start(),
            r.end == self.end(),
    {
        self.heap_start..self.heap_end
    }
}

} // verus!
