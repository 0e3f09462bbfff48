use alloq::list::{best, first};
use alloq::sync::{Locked, Sealed};
use alloq::{bump, debump, statiq};
use alloq::{get_size_hint_in, AllocError, Alloqator, Layout};
use core::ops::Range;

const BASE: usize = 0x10_0000;

/// The bytes of a region that begins at `BASE`.
struct Arena {
    bytes: Vec<u8>,
}

impl Arena {
    fn new(len: usize) -> Arena {
        Arena { bytes: vec![0u8; len] }
    }

    fn range(&self) -> Range<usize> {
        BASE..BASE + self.bytes.len()
    }

    fn write(&mut self, addr: usize, data: &[u8]) {
        let at = addr - BASE;
        self.bytes[at..at + data.len()].copy_from_slice(data);
    }

    fn read(&self, addr: usize, len: usize) -> Vec<u8> {
        let at = addr - BASE;
        self.bytes[at..at + len].to_vec()
    }
}

/// A growable array of elements of one size, kept in an arena and grown the way a
/// vector grows: by doubling, into a new block, with the old block handed back.
struct Array {
    ptr: usize,
    cap: usize,
    len: usize,
    size: usize,
    align: usize,
}

impl Array {
    fn new(size: usize, align: usize) -> Array {
        Array { ptr: 0, cap: 0, len: 0, size, align }
    }

    fn with_capacity<A: Alloqator>(a: &mut A, size: usize, align: usize, cap: usize) -> Array {
        let mut v = Array::new(size, align);
        if size > 0 && cap > 0 {
            v.ptr = a.allocate(Layout { size: size * cap, align }).unwrap();
            v.cap = cap;
        }
        v
    }

    fn try_push<A: Alloqator>(
        &mut self,
        a: &mut A,
        arena: &mut Arena,
        elem: &[u8],
    ) -> Result<(), AllocError> {
        assert_eq!(elem.len(), self.size);
        if self.size > 0 && self.len == self.cap {
            let least = if self.size == 1 {
                8
            } else if self.size <= 1024 {
                4
            } else {
                1
            };
            let cap = (self.cap * 2).max(self.len + 1).max(least);
            let ptr = a.allocate(Layout { size: cap * self.size, align: self.align })?;
            assert_eq!(ptr % self.align, 0);
            if self.cap > 0 {
                let old = arena.read(self.ptr, self.len * self.size);
                arena.write(ptr, &old);
                let _ = a.deallocate(self.ptr, Layout { size: self.cap * self.size, align: self.align });
            }
            self.ptr = ptr;
            self.cap = cap;
        }
        if self.size > 0 {
            arena.write(self.ptr + self.len * self.size, elem);
        }
        self.len += 1;
        Ok(())
    }

    fn push<A: Alloqator>(&mut self, a: &mut A, arena: &mut Arena, elem: &[u8]) {
        self.try_push(a, arena, elem).unwrap();
    }

    fn get(&self, arena: &Arena, i: usize) -> Vec<u8> {
        assert!(i < self.len);
        arena.read(self.ptr + i * self.size, self.size)
    }

    fn ints(&self, arena: &Arena) -> Vec<i64> {
        (0..self.len)
            .map(|i| {
                let b = self.get(arena, i);
                let mut raw = [0u8; 8];
                raw[..b.len()].copy_from_slice(&b);
                if b.len() == 8 {
                    i64::from_le_bytes(raw)
                } else if b.len() == 4 {
                    i32::from_le_bytes([b[0], b[1], b[2], b[3]]) as i64
                } else {
                    b[0] as i64
                }
            })
            .collect()
    }
}

/// A single value kept in an arena.
fn put_box<A: Alloqator>(a: &mut A, arena: &mut Arena, value: &[u8], align: usize) -> usize {
    let ptr = a.allocate(Layout { size: value.len(), align }).unwrap();
    if !value.is_empty() {
        arena.write(ptr, value);
    }
    ptr
}

struct S {
    _foo: i32,
    _bar: [u16; 8],
    _baz: &'static str,
}

fn s_bytes(x: i32) -> Vec<u8> {
    let mut b = vec![0u8; core::mem::size_of::<S>()];
    b[..4].copy_from_slice(&((x - 5) * 255).to_le_bytes());
    b
}

fn run_simple_alloc<A: Alloqator>() {
    let arena = Arena::new(512 * 8);
    let mut alloqer = A::new(arena.range()).unwrap();
    let layout = Layout::from_size_align(32, 2).unwrap();
    let ptr = alloqer.alloq(layout);
    assert_ne!(ptr, 0);
    alloqer.dealloq(ptr, layout);
}

fn run_linear_allocs<A: Alloqator>() {
    let arena = Arena::new(512 * 512);
    let mut alloqer = A::new(arena.range()).unwrap();
    let layout = Layout::from_size_align(32, 2).unwrap();
    let mut chunks_allocated = [0usize; 4];
    for chunk in chunks_allocated.iter_mut() {
        *chunk = alloqer.alloq(layout);
        assert_ne!(*chunk, 0);
    }
    for &mut chunk in chunks_allocated.iter_mut() {
        alloqer.dealloq(chunk, layout);
    }
}

fn run_stack_allocs<A: Alloqator>() {
    let arena = Arena::new(512 * 512);
    let mut alloqer = A::new(arena.range()).unwrap();
    let layout = Layout::from_size_align(32, 2).unwrap();
    let mut chunks_allocated = [0usize; 4];
    for chunk in chunks_allocated.iter_mut() {
        *chunk = alloqer.alloq(layout);
        assert_ne!(*chunk, 0);
    }
    for &mut chunk in chunks_allocated.iter_mut().rev() {
        alloqer.dealloq(chunk, layout);
    }
}

fn run_vec_grow<A: Alloqator>() {
    let mut arena = Arena::new(512);
    let mut alloqer = A::new(arena.range()).unwrap();
    let mut v = Array::new(4, 4);
    for x in 0..10i32 {
        v.push(&mut alloqer, &mut arena, &x.to_le_bytes());
    }
    assert_eq!(v.ints(&arena).iter().sum::<i64>(), 45);
}

fn run_boxed<A: Alloqator>() {
    let mut arena = Arena::new(512);
    let mut alloqer = A::new(arena.range()).unwrap();
    let b_ptr = put_box(&mut alloqer, &mut arena, &[255u8], 1);
    let c_ptr = put_box(&mut alloqer, &mut arena, &[127u8], 1);
    assert_ne!(b_ptr, 0);
    assert_ne!(c_ptr, 0);
    assert_ne!(b_ptr, c_ptr);
    assert_eq!(arena.read(b_ptr, 1), vec![255u8]);
    assert_eq!(arena.read(c_ptr, 1), vec![127u8]);
}

fn run_fragmented_heap<A: Alloqator>() {
    let mut arena = Arena::new(1024 * 1024);
    let mut alloqer = A::new(arena.range()).unwrap();
    let mut v = Array::new(1, 1);
    let mut w = Array::new(1, 1);
    for x in 0..128u8 {
        match x % 2 {
            0 => v.push(&mut alloqer, &mut arena, &[x]),
            1 => w.push(&mut alloqer, &mut arena, &[x]),
            _ => unreachable!(),
        }
    }
    assert_eq!(v.len, 64);
    assert_eq!(w.len, 64);
    assert!(v.ints(&arena).iter().all(|i| i % 2 == 0));
    assert!(w.ints(&arena).iter().all(|i| i % 2 == 1));
}

fn run_custom_structs<A: Alloqator>() {
    let mut arena = Arena::new(get_size_hint_in::<S, A>(10) * 2);
    let mut alloqer = A::new(arena.range()).unwrap();
    let size = core::mem::size_of::<S>();
    let align = core::mem::align_of::<S>();
    let mut v = Array::with_capacity(&mut alloqer, size, align, 10);
    for x in 0..10 {
        v.push(&mut alloqer, &mut arena, &s_bytes(x));
    }
    assert_eq!(v.len, 10);
    assert_eq!(v.cap, 10);
}

fn run_full_heap<A: Alloqator>() {
    const VECTOR_SIZE: usize = 16;
    let mut arena = Arena::new(get_size_hint_in::<[u16; 32], A>(VECTOR_SIZE) * 2);
    let mut alloqer = A::new(arena.range()).unwrap();
    let mut v = Array::with_capacity(&mut alloqer, 64, 2, VECTOR_SIZE);
    for x in 0..VECTOR_SIZE {
        let mut ar = [0u8; 64];
        for i in 0..32 {
            ar[2 * i..2 * i + 2].copy_from_slice(&((i * x) as u16).to_le_bytes());
        }
        v.push(&mut alloqer, &mut arena, &ar);
    }
    assert_eq!(v.len, VECTOR_SIZE);
    assert_eq!(v.get(&arena, 3)[2..4], 3u16.to_le_bytes());
}

fn run_zero_sized<A: Alloqator>() {
    const VECTOR_SIZE: usize = 1024;
    let mut arena = Arena::new(get_size_hint_in::<(), A>(VECTOR_SIZE));
    let mut alloqer = A::new(arena.range()).unwrap();
    let mut v = Array::with_capacity(&mut alloqer, 0, 1, VECTOR_SIZE);
    for _ in 0..VECTOR_SIZE {
        v.push(&mut alloqer, &mut arena, &[]);
    }
    let b = put_box(&mut alloqer, &mut arena, &[], 1);
    assert_ne!(b, 0);
    assert_eq!(v.len, VECTOR_SIZE);
}

fn run_vector_fragmented<A: Alloqator>() {
    const VECTOR_SIZE: usize = 128;
    let mut arena = Arena::new(1024 * 30);
    let mut alloqer = A::new(arena.range()).unwrap();
    let mut v1 = Array::with_capacity(&mut alloqer, 8, 8, VECTOR_SIZE);
    let mut v2 = Array::with_capacity(&mut alloqer, 8, 8, VECTOR_SIZE);
    let mut v3 = Array::with_capacity(&mut alloqer, 8, 8, VECTOR_SIZE);
    for x in 0..VECTOR_SIZE as i64 {
        if x % 2 == 0 {
            v2.push(&mut alloqer, &mut arena, &x.to_le_bytes());
        } else {
            v1.push(&mut alloqer, &mut arena, &x.to_le_bytes());
        }
        v3.push(&mut alloqer, &mut arena, &(-x).to_le_bytes());
    }
    assert!(v1.ints(&arena).iter().all(|x| x % 2 == 1));
    assert!(v2.ints(&arena).iter().all(|x| x % 2 == 0));
    assert_eq!(
        v1.ints(&arena).iter().chain(v2.ints(&arena).iter()).sum::<i64>(),
        -v3.ints(&arena).iter().sum::<i64>()
    )
}

fn run_trash_heap<A: Alloqator>() {
    let mut arena = Arena::new(1024);
    for (x, b) in arena.bytes.iter_mut().enumerate() {
        *b = (x % 255) as u8;
    }
    let mut alloqer = A::new(arena.range()).unwrap();
    let mut v = Array::new(4, 4);
    for x in 0..10i32 {
        v.push(&mut alloqer, &mut arena, &x.to_le_bytes());
    }
    assert_eq!(v.ints(&arena).iter().sum::<i64>(), 45);
}

fn run_corrupted_heap<A: Alloqator>() {
    let mut arena = Arena::new(1024);
    let mut alloqer = A::new(arena.range()).unwrap();
    arena.bytes.fill(0);
    alloqer.reset();
    let mut v = Array::new(4, 4);
    for x in 0..10i32 {
        v.push(&mut alloqer, &mut arena, &x.to_le_bytes());
    }
    assert_eq!(v.ints(&arena).iter().sum::<i64>(), 45);
}

#[test]
fn simple_alloc() {
    run_simple_alloc::<bump::Alloq>();
    run_simple_alloc::<debump::Alloq>();
    run_simple_alloc::<statiq::Alloq>();
    run_simple_alloc::<first::Alloq>();
    run_simple_alloc::<best::Alloq>();
}

#[test]
fn linear_allocs() {
    run_linear_allocs::<bump::Alloq>();
    run_linear_allocs::<debump::Alloq>();
    run_linear_allocs::<statiq::Alloq>();
    run_linear_allocs::<first::Alloq>();
    run_linear_allocs::<best::Alloq>();
}

#[test]
fn stack_allocs() {
    run_stack_allocs::<bump::Alloq>();
    run_stack_allocs::<debump::Alloq>();
    run_stack_allocs::<statiq::Alloq>();
    run_stack_allocs::<first::Alloq>();
    run_stack_allocs::<best::Alloq>();
}

#[test]
fn vec_grow() {
    run_vec_grow::<bump::Alloq>();
    run_vec_grow::<debump::Alloq>();
    run_vec_grow::<statiq::Alloq>();
    run_vec_grow::<first::Alloq>();
    run_vec_grow::<best::Alloq>();
}

#[test]
fn fragmented_heap() {
    run_fragmented_heap::<bump::Alloq>();
    run_fragmented_heap::<debump::Alloq>();
    run_fragmented_heap::<statiq::Alloq>();
    run_fragmented_heap::<first::Alloq>();
    run_fragmented_heap::<best::Alloq>();
}

#[test]
fn custom_structs() {
    run_custom_structs::<bump::Alloq>();
    run_custom_structs::<debump::Alloq>();
    run_custom_structs::<statiq::Alloq>();
    run_custom_structs::<first::Alloq>();
    run_custom_structs::<best::Alloq>();
}

#[test]
fn full_heap() {
    run_full_heap::<bump::Alloq>();
    run_full_heap::<debump::Alloq>();
    run_full_heap::<statiq::Alloq>();
    run_full_heap::<first::Alloq>();
    run_full_heap::<best::Alloq>();
}

#[test]
fn zero_sized() {
    run_zero_sized::<bump::Alloq>();
    run_zero_sized::<debump::Alloq>();
    run_zero_sized::<statiq::Alloq>();
    run_zero_sized::<first::Alloq>();
    run_zero_sized::<best::Alloq>();
}

#[test]
fn vector_fragmented() {
    run_vector_fragmented::<bump::Alloq>();
    run_vector_fragmented::<debump::Alloq>();
    run_vector_fragmented::<statiq::Alloq>();
    run_vector_fragmented::<first::Alloq>();
    run_vector_fragmented::<best::Alloq>();
}

#[test]
fn trash_heap() {
    run_trash_heap::<bump::Alloq>();
    run_trash_heap::<debump::Alloq>();
    run_trash_heap::<statiq::Alloq>();
    run_trash_heap::<first::Alloq>();
    run_trash_heap::<best::Alloq>();
}

#[test]
fn corrupted_heap() {
    run_corrupted_heap::<bump::Alloq>();
    run_corrupted_heap::<debump::Alloq>();
    run_corrupted_heap::<statiq::Alloq>();
    run_corrupted_heap::<first::Alloq>();
    run_corrupted_heap::<best::Alloq>();
}

#[test]
fn boxed() {
    run_boxed::<bump::Alloq>();
    run_boxed::<debump::Alloq>();
    run_boxed::<statiq::Alloq>();
    run_boxed::<first::Alloq>();
    run_boxed::<best::Alloq>();
}

/// Two callers take turns on one shared allocator, a hundred blocks each.
#[test]
fn multithread_allocs() {
    let arena = Arena::new(get_size_hint_in::<i32, first::Alloq>(200));
    let shared: Locked<first::Alloq> = Locked::new(arena.range()).unwrap();
    let layout = Layout::from_size_align(4, 4).unwrap();
    let one = &shared;
    let two = &shared;
    for _ in 0..100 {
        let p = one.alloq(layout);
        let q = two.alloq(layout);
        assert_ne!(p, 0);
        assert_ne!(q, 0);
        assert_ne!(p, q);
        one.dealloq(p, layout);
        two.dealloq(q, layout);
    }
    assert!(shared.allocate(layout).is_ok());
}

#[test]
fn a_shared_allocator_serves_like_the_one_behind_the_lock() {
    let mut arena = Arena::new(256);
    let inner = debump::Alloq::new(arena.range()).unwrap();
    let shared = Locked::from_allocator(inner);
    assert_eq!(shared.heap_range(), BASE..BASE + 256);
    assert_eq!((shared.heap_start(), shared.heap_end()), (BASE, BASE + 256));
    let l = Layout { size: 8, align: 8 };
    assert_eq!(shared.allocate(l), Ok(BASE + 16));
    assert_eq!(shared.allocate(l), Ok(BASE + 40));
    assert_eq!(shared.allocate(Layout { size: 8, align: 7 }), Err(AllocError::InvalidLayout));
    assert_eq!(shared.allocate(Layout { size: 800, align: 1 }), Err(AllocError::OutOfMemory));
    assert_eq!(shared.alloq(Layout { size: 800, align: 1 }), 0);
    assert_eq!(shared.deallocate(BASE + 17, l), Err(AllocError::InvalidFree));
    assert_eq!(shared.deallocate(BASE + 40, l), Ok(()));
    assert_eq!(shared.allocate(l), Ok(BASE + 40));
    shared.reset();
    assert_eq!(shared.allocate(l), Ok(BASE + 16));
    arena.write(BASE + 16, &[9; 8]);
    let mut short = vec![1u8; 10];
    assert!(!shared.hard_reset(&mut short));
    assert_eq!(short, vec![1u8; 10]);
    assert!(shared.hard_reset(&mut arena.bytes));
    assert_eq!(arena.bytes, vec![0u8; 256]);
    assert_eq!(shared.allocate(l), Ok(BASE + 16));
    assert!(matches!(Locked::<bump::Alloq>::new(0..16), Err(AllocError::InvalidHeap)));
}

#[test]
fn a_place_serves_only_the_allocator_of_its_region() {
    let inner = bump::Alloq::new(BASE..BASE + 64).unwrap();
    let mut place = Some(Sealed::seal(inner));
    let l = Layout { size: 8, align: 8 };
    assert_eq!(Sealed::allocate_in(&mut place, BASE, BASE + 64, l), Ok(BASE));
    // another region: nothing is served, and nothing changes
    assert_eq!(Sealed::allocate_in(&mut place, BASE, BASE + 63, l), Err(AllocError::OutOfMemory));
    assert_eq!(
        Sealed::allocate_in(&mut place, BASE, BASE + 63, Layout { size: 8, align: 3 }),
        Err(AllocError::InvalidLayout)
    );
    assert_eq!(
        Sealed::deallocate_in(&mut place, BASE + 1, BASE + 64, BASE, l),
        Err(AllocError::InvalidFree)
    );
    assert!(!Sealed::reset_in(&mut place, BASE + 8, BASE + 64));
    let mut heap = vec![7u8; 64];
    assert!(!Sealed::hard_reset_in(&mut place, BASE, BASE + 60, &mut heap));
    let mut short = vec![7u8; 63];
    assert!(!Sealed::hard_reset_in(&mut place, BASE, BASE + 64, &mut short));
    assert_eq!(heap, vec![7u8; 64]);
    assert_eq!(short, vec![7u8; 63]);
    assert_eq!(Sealed::allocate_in(&mut place, BASE, BASE + 64, l), Ok(BASE + 8));
    // the region of the allocator in the place
    assert_eq!(Sealed::deallocate_in(&mut place, BASE, BASE + 64, BASE, l), Ok(()));
    assert_eq!(Sealed::allocate_in(&mut place, BASE, BASE + 64, l), Ok(BASE + 16));
    assert!(Sealed::hard_reset_in(&mut place, BASE, BASE + 64, &mut heap));
    assert_eq!(heap, vec![0u8; 64]);
    assert_eq!(Sealed::allocate_in(&mut place, BASE, BASE + 64, l), Ok(BASE));
    assert!(Sealed::reset_in(&mut place, BASE, BASE + 64));
    let a = place.take().unwrap().open();
    assert_eq!(a.iter, (0, BASE));
    // an empty place serves nothing
    let mut empty: Option<Sealed<bump::Alloq>> = None;
    assert_eq!(Sealed::allocate_in(&mut empty, BASE, BASE + 64, l), Err(AllocError::OutOfMemory));
    assert_eq!(
        Sealed::deallocate_in(&mut empty, BASE, BASE + 64, BASE, l),
        Err(AllocError::InvalidFree)
    );
    assert!(!Sealed::reset_in(&mut empty, BASE, BASE + 64));
    assert!(!Sealed::hard_reset_in(&mut empty, BASE, BASE + 64, &mut heap));
    assert!(empty.is_none());
}

#[test]
fn stack_grow_sums_to_300() {
    let mut arena = Arena::new(512);
    let mut alloqer = bump::Alloq::new(arena.range()).unwrap();
    let mut v = Array::with_capacity(&mut alloqer, 1, 1, 10);
    for x in 0u8..10u8 {
        v.push(&mut alloqer, &mut arena, &[x]);
    }
    v.push(&mut alloqer, &mut arena, &[255]);
    assert_eq!(v.ints(&arena).iter().sum::<i64>(), 45 + 255);
    assert_eq!(v.len, 11);
}

#[test]
fn interleaved_vectors_keep_their_elements() {
    let mut arena = Arena::new(1024);
    let mut alloqer = debump::Alloq::new(arena.range()).unwrap();
    let mut v = Array::new(1, 1);
    let mut w = Array::new(1, 1);
    for x in 0..128u8 {
        if x % 2 == 0 {
            v.push(&mut alloqer, &mut arena, &[x]);
        } else {
            w.push(&mut alloqer, &mut arena, &[x]);
        }
    }
    assert!(v.ints(&arena).iter().all(|x| x % 2 == 0));
    assert!(w.ints(&arena).iter().all(|x| x % 2 == 1));
    assert_eq!(v.ints(&arena), (0..128).step_by(2).collect::<Vec<i64>>());
}

#[test]
fn best_fit_takes_the_gap() {
    let arena = Arena::new(1024);
    let mut alloqer = best::Alloq::new(arena.range()).unwrap();
    let a = alloqer.allocate(Layout { size: 64, align: 8 }).unwrap();
    let b = alloqer.allocate(Layout { size: 16, align: 8 }).unwrap();
    let c = alloqer.allocate(Layout { size: 64, align: 8 }).unwrap();
    assert_eq!(a, BASE + 48);
    assert_eq!(b, BASE + 136);
    assert_eq!(c, BASE + 176);
    assert_eq!(alloqer.deallocate(b, Layout { size: 16, align: 8 }), Ok(()));
    let d = alloqer.allocate(Layout { size: 16, align: 8 }).unwrap();
    assert_eq!(d, b);
    assert!(a + 64 <= d && d + 16 <= c);
}

#[test]
fn seventeenth_push_runs_out_of_memory() {
    let mut arena = Arena::new(core::mem::size_of::<[u16; 32]>() * 16);
    let mut alloqer = bump::Alloq::new(arena.range()).unwrap();
    let mut v = Array::with_capacity(&mut alloqer, 64, 2, 16);
    for x in 0..16u8 {
        assert_eq!(v.try_push(&mut alloqer, &mut arena, &[x; 64]), Ok(()));
    }
    assert_eq!(v.try_push(&mut alloqer, &mut arena, &[16; 64]), Err(AllocError::OutOfMemory));
    assert_eq!(v.len, 16);
}

fn overlap(a: (usize, usize), b: (usize, usize)) -> bool {
    a.0 < b.0 + b.1 && b.0 < a.0 + a.1
}

fn run_disjoint_and_aligned<A: Alloqator>() {
    let arena = Arena::new(4096);
    let mut alloqer = A::new(arena.range()).unwrap();
    let layouts = [(1usize, 1usize), (24, 8), (3, 2), (64, 64), (0, 16), (17, 4), (128, 32)];
    let mut got: Vec<(usize, usize)> = Vec::new();
    for (size, align) in layouts {
        let p = alloqer.allocate(Layout { size, align }).unwrap();
        assert_ne!(p, 0);
        assert_eq!(p % align, 0);
        assert!(BASE <= p && p + size <= BASE + 4096);
        for other in got.iter() {
            assert!(!overlap((p, size), *other));
        }
        got.push((p, size));
    }
}

#[test]
fn blocks_are_disjoint_aligned_and_inside() {
    run_disjoint_and_aligned::<bump::Alloq>();
    run_disjoint_and_aligned::<debump::Alloq>();
    run_disjoint_and_aligned::<statiq::Alloq>();
    run_disjoint_and_aligned::<first::Alloq>();
    run_disjoint_and_aligned::<best::Alloq>();
}

fn run_reset_parity<A: Alloqator>(heap: usize) {
    let arena = Arena::new(heap);
    let script = [(100usize, 8usize), (7, 1), (64, 16), (300, 4), (200, 8), (1, 1), (500, 2)];
    let mut fresh = A::new(arena.range()).unwrap();
    let first_run: Vec<Result<usize, AllocError>> =
        script.iter().map(|&(size, align)| fresh.allocate(Layout { size, align })).collect();
    assert!(first_run.iter().any(|r| r.is_ok()));
    assert!(first_run.iter().any(|r| r.is_err()));
    fresh.reset();
    let second_run: Vec<Result<usize, AllocError>> =
        script.iter().map(|&(size, align)| fresh.allocate(Layout { size, align })).collect();
    assert_eq!(first_run, second_run);
    fresh.reset();
    fresh.reset();
    let third_run: Vec<Result<usize, AllocError>> =
        script.iter().map(|&(size, align)| fresh.allocate(Layout { size, align })).collect();
    assert_eq!(first_run, third_run);
}

#[test]
fn reset_gives_back_the_empty_state() {
    run_reset_parity::<bump::Alloq>(700);
    run_reset_parity::<debump::Alloq>(900);
    run_reset_parity::<statiq::Alloq>(700);
    run_reset_parity::<first::Alloq>(1000);
    run_reset_parity::<best::Alloq>(1000);
}

fn run_hard_reset<A: Alloqator>() {
    let mut arena = Arena::new(256);
    let mut alloqer = A::new(arena.range()).unwrap();
    let p = alloqer.allocate(Layout { size: 40, align: 8 }).unwrap();
    arena.write(p, &[0xAB; 40]);
    alloqer.hard_reset(&mut arena.bytes);
    assert_eq!(arena.bytes, vec![0u8; 256]);
    assert_eq!(alloqer.allocate(Layout { size: 40, align: 8 }), Ok(p));
}

#[test]
fn hard_reset_clears_the_region() {
    run_hard_reset::<bump::Alloq>();
    run_hard_reset::<debump::Alloq>();
    run_hard_reset::<statiq::Alloq>();
    run_hard_reset::<first::Alloq>();
    run_hard_reset::<best::Alloq>();
}

fn run_invalid_requests<A: Alloqator>() {
    assert!(matches!(A::new(0..64), Err(AllocError::InvalidHeap)));
    assert!(matches!(A::new(BASE + 64..BASE), Err(AllocError::InvalidHeap)));
    let arena = Arena::new(256);
    let mut alloqer = A::new(arena.range()).unwrap();
    assert_eq!(alloqer.allocate(Layout { size: 8, align: 3 }), Err(AllocError::InvalidLayout));
    assert_eq!(alloqer.allocate(Layout { size: 8, align: 0 }), Err(AllocError::InvalidLayout));
    assert_eq!(alloqer.allocate(Layout { size: 257, align: 1 }), Err(AllocError::OutOfMemory));
    assert_eq!(alloqer.alloq(Layout { size: 257, align: 1 }), 0);
    assert_eq!(alloqer.heap_start(), BASE);
    assert_eq!(alloqer.heap_end(), BASE + 256);
    assert_eq!(alloqer.heap_range(), BASE..BASE + 256);
}

#[test]
fn requests_that_cannot_be_served_are_refused() {
    run_invalid_requests::<bump::Alloq>();
    run_invalid_requests::<debump::Alloq>();
    run_invalid_requests::<statiq::Alloq>();
    run_invalid_requests::<first::Alloq>();
    run_invalid_requests::<best::Alloq>();
}

#[test]
fn layout_is_checked_on_construction() {
    assert_eq!(Layout::from_size_align(32, 2), Ok(Layout { size: 32, align: 2 }));
    assert_eq!(Layout::from_size_align(0, 1), Ok(Layout { size: 0, align: 1 }));
    assert_eq!(Layout::from_size_align(32, 0), Err(AllocError::InvalidLayout));
    assert_eq!(Layout::from_size_align(32, 6), Err(AllocError::InvalidLayout));
    let l = Layout::from_size_align(12, 4).unwrap();
    assert_eq!(l.size(), 12);
    assert_eq!(l.align(), 4);
}

#[test]
fn size_hint_counts_object_record_and_padding() {
    assert_eq!(get_size_hint_in::<i32, bump::Alloq>(200), 4 * 200);
    assert_eq!(get_size_hint_in::<i32, statiq::Alloq>(3), 12);
    assert_eq!(get_size_hint_in::<i32, debump::Alloq>(200), (4 + 7 + 16 + 7) * 200);
    assert_eq!(get_size_hint_in::<i32, first::Alloq>(10), (4 + 7 + 24 + 7) * 10);
    assert_eq!(get_size_hint_in::<[u16; 32], alloq::pool::Alloq>(16), (64 + 7 + 32 + 7) * 16);
    assert_eq!(get_size_hint_in::<u64, best::Alloq>(0), 0);
}

#[test]
fn bump_places_blocks_behind_one_another() {
    let arena = Arena::new(64);
    let mut a = bump::Alloq::new(arena.range()).unwrap();
    assert_eq!(a.allocate(Layout { size: 10, align: 8 }), Ok(BASE));
    assert_eq!(a.allocate(Layout { size: 4, align: 4 }), Ok(BASE + 12));
    assert_eq!(a.allocate(Layout { size: 0, align: 16 }), Ok(BASE + 16));
    assert_eq!(a.iter, (3, BASE + 16));
    assert_eq!(a.allocate(Layout { size: 48, align: 1 }), Ok(BASE + 16));
    assert_eq!(a.allocate(Layout { size: 1, align: 1 }), Err(AllocError::OutOfMemory));
    assert_eq!(a.allocate(Layout { size: usize::MAX, align: 1 }), Err(AllocError::InvalidLayout));
    assert_eq!(a.iter, (4, BASE + 64));
}

#[test]
fn bump_reclaims_when_nothing_is_lent_out() {
    let arena = Arena::new(64);
    let mut a = bump::Alloq::new(arena.range()).unwrap();
    let l = Layout { size: 20, align: 4 };
    let p = a.allocate(l).unwrap();
    let q = a.allocate(l).unwrap();
    assert_eq!((p, q), (BASE, BASE + 20));
    assert_eq!(a.deallocate(p, l), Ok(()));
    assert_eq!(a.iter, (1, BASE + 40));
    assert_eq!(a.allocate(l), Ok(BASE + 40));
    assert_eq!(a.deallocate(q, l), Ok(()));
    assert_eq!(a.deallocate(BASE + 40, l), Ok(()));
    assert_eq!(a.iter, (0, BASE));
    assert_eq!(a.allocate(Layout { size: 8, align: 32 }), Ok(BASE));
    assert_eq!(a.deallocate(BASE, l), Ok(()));
    assert_eq!(a.deallocate(BASE, l), Err(AllocError::InvalidFree));
}

#[test]
fn statiq_grows_from_both_ends() {
    let arena = Arena::new(100);
    let mut a = statiq::Alloq::new(arena.range()).unwrap();
    assert_eq!(a.r_alloc(Layout { size: 10, align: 8 }), Ok(BASE + 88));
    assert_eq!(a.allocate(Layout { size: 3, align: 1 }), Ok(BASE + 85));
    assert_eq!(a.l_alloc(Layout { size: 10, align: 8 }), Ok(BASE));
    assert_eq!(a.l_alloc(Layout { size: 4, align: 4 }), Ok(BASE + 12));
    assert_eq!(a.end, (BASE + 16, BASE + 85));
    assert_eq!(a.deallocate(BASE + 88, Layout { size: 10, align: 8 }), Ok(()));
    assert_eq!(a.end, (BASE + 16, BASE + 85));
    assert_eq!(a.l_alloc(Layout { size: 70, align: 1 }), Err(AllocError::OutOfMemory));
    assert_eq!(a.r_alloc(Layout { size: 70, align: 1 }), Err(AllocError::OutOfMemory));
    assert_eq!(a.l_alloc(Layout { size: 1, align: 5 }), Err(AllocError::InvalidLayout));
    assert_eq!(a.r_alloc(Layout { size: 1, align: 5 }), Err(AllocError::InvalidLayout));
    assert_eq!(a.r_alloc(Layout { size: 69, align: 1 }), Ok(BASE + 16));
    assert_eq!(a.l_alloc(Layout { size: 0, align: 1 }), Ok(BASE + 16));
    a.reset();
    assert_eq!(a.end, (BASE, BASE + 100));
}

#[test]
fn debump_writes_a_record_behind_every_block() {
    let arena = Arena::new(128);
    let mut a = debump::Alloq::new(arena.range()).unwrap();
    assert_eq!(a.last_meta, BASE);
    let l1 = Layout { size: 10, align: 8 };
    let l2 = Layout { size: 4, align: 4 };
    assert_eq!(a.allocate(l1), Ok(BASE + 16));
    assert_eq!(a.last_meta, BASE + 32);
    assert_eq!(a.allocate(l2), Ok(BASE + 48));
    assert_eq!(a.last_meta, BASE + 56);
    assert_eq!(debump::AlloqMetaData::from_alloc_ptr(BASE + 16, l1), Some(BASE + 32));
    let rec = a.records.read(BASE + 56).unwrap();
    assert_eq!(rec.start, Some(BASE + 48));
    assert_eq!(rec.last_meta, BASE + 32);
    // 56 + 16 = 72; a block of 40 ends at 112 and its record at 128
    assert_eq!(a.allocate(Layout { size: 41, align: 1 }), Err(AllocError::OutOfMemory));
    assert_eq!(a.allocate(Layout { size: 40, align: 1 }), Ok(BASE + 72));
    assert_eq!(a.last_meta, BASE + 112);
}

#[test]
fn debump_unwinds_marked_records() {
    let arena = Arena::new(256);
    let mut a = debump::Alloq::new(arena.range()).unwrap();
    let l = Layout { size: 8, align: 8 };
    let x1 = a.allocate(l).unwrap();
    let x2 = a.allocate(l).unwrap();
    let x3 = a.allocate(l).unwrap();
    assert_eq!((x1, x2, x3), (BASE + 16, BASE + 40, BASE + 64));
    assert_eq!(a.last_meta, BASE + 72);
    // a block in the middle is only marked
    assert_eq!(a.deallocate(x2, l), Ok(()));
    assert_eq!(a.last_meta, BASE + 72);
    assert_eq!(a.records.read(BASE + 48).unwrap().start, None);
    // twice is refused, and so is an address that was never lent out
    assert_eq!(a.deallocate(x2, l), Err(AllocError::InvalidFree));
    assert_eq!(a.deallocate(BASE + 100, l), Err(AllocError::InvalidFree));
    assert_eq!(a.deallocate(x1, Layout { size: 9, align: 8 }), Err(AllocError::InvalidFree));
    // the top block takes the marked one below it along
    assert_eq!(a.deallocate(x3, l), Ok(()));
    assert_eq!(a.last_meta, BASE + 24);
    assert!(a.records.read(BASE + 48).is_none());
    assert_eq!(a.deallocate(x1, l), Ok(()));
    assert_eq!(a.last_meta, BASE);
    assert_eq!(a.allocate(l), Ok(x1));
}

#[test]
fn debump_returns_to_the_start_in_any_order() {
    let orders: [[usize; 4]; 4] = [[0, 1, 2, 3], [3, 2, 1, 0], [1, 3, 0, 2], [2, 0, 3, 1]];
    for order in orders {
        let arena = Arena::new(512);
        let mut a = debump::Alloq::new(arena.range()).unwrap();
        let initial = a.last_meta;
        let layouts = [
            Layout { size: 8, align: 8 },
            Layout { size: 3, align: 1 },
            Layout { size: 40, align: 16 },
            Layout { size: 0, align: 4 },
        ];
        let ptrs: Vec<usize> = layouts.iter().map(|l| a.allocate(*l).unwrap()).collect();
        assert_ne!(a.last_meta, initial);
        for i in order {
            assert_eq!(a.deallocate(ptrs[i], layouts[i]), Ok(()));
        }
        assert_eq!(a.last_meta, initial);
    }
}

#[test]
fn debump_refuses_a_region_without_room_for_its_first_record() {
    assert!(matches!(debump::Alloq::new(BASE..BASE + 15), Err(AllocError::InvalidHeap)));
    assert!(debump::Alloq::new(BASE..BASE + 16).is_ok());
    assert!(matches!(debump::Alloq::new(BASE + 1..BASE + 23), Err(AllocError::InvalidHeap)));
    assert!(debump::Alloq::new(BASE + 1..BASE + 24).is_ok());
}

#[test]
fn debump_record_of_the_null_address_has_no_block() {
    let none = debump::AlloqMetaData::new(0, 7);
    assert_eq!(none.start, None);
    assert_eq!(none.last_meta, 7);
    let some = debump::AlloqMetaData::new(BASE, 0);
    assert_eq!(some.start, Some(BASE));
}
