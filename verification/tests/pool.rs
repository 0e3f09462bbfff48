use alloq::pool::{Alloq, Pool, RawChunk, DEFAULT_ALIGNMENT, DEFAULT_CHUNK_SIZE};
use alloq::store::Store;
use alloq::sync::Locked;
use alloq::{get_size_hint_in, AllocError, Alloqator, Layout};
use core::ops::Range;

const BASE: usize = 0x10_0000;

struct Arena {
    bytes: Vec<u8>,
}

impl Arena {
    fn new(len: usize) -> Arena {
        Arena { bytes: vec![0u8; len] }
    }

    fn range(&self) -> Range<usize> {
        BASE..BASE + self.bytes.len()
    }

    fn write(&mut self, addr: usize, data: &[u8]) {
        let at = addr - BASE;
        self.bytes[at..at + data.len()].copy_from_slice(data);
    }

    fn read(&self, addr: usize, len: usize) -> Vec<u8> {
        let at = addr - BASE;
        self.bytes[at..at + len].to_vec()
    }
}

struct Array {
    ptr: usize,
    cap: usize,
    len: usize,
    size: usize,
    align: usize,
}

impl Array {
    fn new(size: usize, align: usize) -> Array {
        Array { ptr: 0, cap: 0, len: 0, size, align }
    }

    fn with_capacity(a: &mut Alloq, size: usize, align: usize, cap: usize) -> Array {
        let mut v = Array::new(size, align);
        if size > 0 && cap > 0 {
            v.ptr = a.allocate(Layout { size: size * cap, align }).unwrap();
            v.cap = cap;
        }
        v
    }

    fn push(&mut self, a: &mut Alloq, arena: &mut Arena, elem: &[u8]) {
        assert_eq!(elem.len(), self.size);
        if self.size > 0 && self.len == self.cap {
            let least = if self.size == 1 {
                8
            } else if self.size <= 1024 {
                4
            } else {
                1
            };
            let cap = (self.cap * 2).max(self.len + 1).max(least);
            let ptr = a.allocate(Layout { size: cap * self.size, align: self.align }).unwrap();
            assert_eq!(ptr % self.align, 0);
            if self.cap > 0 {
                let old = arena.read(self.ptr, self.len * self.size);
                arena.write(ptr, &old);
                let layout = Layout { size: self.cap * self.size, align: self.align };
                assert_eq!(a.deallocate(self.ptr, layout), Ok(()));
            }
            self.ptr = ptr;
            self.cap = cap;
        }
        if self.size > 0 {
            arena.write(self.ptr + self.len * self.size, elem);
        }
        self.len += 1;
    }

    fn ints(&self, arena: &Arena) -> Vec<i64> {
        (0..self.len)
            .map(|i| {
                let b = arena.read(self.ptr + i * self.size, self.size);
                if b.len() == 8 {
                    i64::from_le_bytes([b[0], b[1], b[2], b[3], b[4], b[5], b[6], b[7]])
                } else if b.len() == 4 {
                    i32::from_le_bytes([b[0], b[1], b[2], b[3]]) as i64
                } else {
                    b[0] as i64
                }
            })
            .collect()
    }
}

fn put_box(a: &mut Alloq, arena: &mut Arena, value: &[u8], align: usize) -> usize {
    let ptr = a.allocate(Layout { size: value.len(), align }).unwrap();
    assert_eq!(ptr % align, 0);
    arena.write(ptr, value);
    ptr
}

/// The chunks of the free list, by their first address, from the last of the list
/// to the first.
fn free_chunks(pool: &Pool) -> Vec<usize> {
    let mut it = RawChunk::back_iter(pool.free_last);
    let mut out = Vec::new();
    while let Some(at) = it.next(&pool.table) {
        out.push(pool.table.read(at).unwrap().chunk);
    }
    out
}

struct S {
    _foo: i32,
    _bar: [u16; 8],
    _baz: &'static str,
}

#[test]
fn pool_simple_alloc() {
    let arena = Arena::new(512 * 8);
    let mut alloqer = Alloq::new(arena.range()).unwrap();
    let layout = Layout::from_size_align(32, 2).unwrap();
    let ptr = alloqer.alloq(layout);
    assert_ne!(ptr, 0);
    alloqer.dealloq(ptr, layout);
}

#[test]
fn pool_linear_allocs() {
    let arena = Arena::new(512 * 512);
    let mut alloqer = Alloq::new(arena.range()).unwrap();
    let layout = Layout::from_size_align(32, 2).unwrap();
    let mut chunks_allocated = [0usize; 4];
    for chunk in chunks_allocated.iter_mut() {
        *chunk = alloqer.alloq(layout);
        assert_ne!(*chunk, 0);
    }
    for &mut chunk in chunks_allocated.iter_mut() {
        assert_eq!(alloqer.deallocate(chunk, layout), Ok(()));
    }
}

#[test]
fn pool_stack_allocs() {
    let arena = Arena::new(512 * 512);
    let mut alloqer = Alloq::new(arena.range()).unwrap();
    let layout = Layout::from_size_align(32, 2).unwrap();
    let mut chunks_allocated = [0usize; 4];
    for chunk in chunks_allocated.iter_mut() {
        *chunk = alloqer.alloq(layout);
        assert_ne!(*chunk, 0);
    }
    for &mut chunk in chunks_allocated.iter_mut().rev() {
        assert_eq!(alloqer.deallocate(chunk, layout), Ok(()));
    }
}

/// Two callers take turns on one shared pool, a hundred blocks each.
#[test]
fn pool_multithread_allocs() {
    let arena = Arena::new(1024);
    let shared: Locked<Alloq> = Locked::new(arena.range()).unwrap();
    let layout = Layout::from_size_align(32, 2).unwrap();
    let one = &shared;
    let two = &shared;
    for _ in 0..100 {
        let p = one.alloq(layout);
        let q = two.alloq(layout);
        assert_ne!(p, 0);
        assert_ne!(q, 0);
        assert_ne!(p, q);
        one.dealloq(p, layout);
        two.dealloq(q, layout);
    }
    assert!(shared.allocate(layout).is_ok());
    assert_eq!(shared.heap_range(), BASE..BASE + 1024);
}

#[test]
fn pool_vec_grow() {
    let mut arena = Arena::new(512);
    let mut alloqer = Alloq::new(arena.range()).unwrap();
    let mut v = Array::new(4, 4);
    for x in 0..10i32 {
        v.push(&mut alloqer, &mut arena, &x.to_le_bytes());
    }
    assert_eq!(v.ints(&arena).iter().sum::<i64>(), 45);
}

#[test]
fn pool_boxed() {
    let mut arena = Arena::new(512);
    let mut alloqer = Alloq::new(arena.range()).unwrap();
    let b_ptr = put_box(&mut alloqer, &mut arena, &[255u8], 1);
    let c_ptr = put_box(&mut alloqer, &mut arena, &[127u8], 1);
    assert_ne!(b_ptr, 0);
    assert_ne!(c_ptr, 0);
    assert_ne!(b_ptr, c_ptr);
    assert_eq!(arena.read(b_ptr, 1), vec![255u8]);
    assert_eq!(arena.read(c_ptr, 1), vec![127u8]);
}

#[test]
fn pool_fragmented_heap() {
    let mut arena = Arena::new(1024 * 1024);
    let mut alloqer = Alloq::new(arena.range()).unwrap();
    let mut v = Array::new(1, 1);
    let mut w = Array::new(1, 1);
    for x in 0..128u8 {
        match x % 2 {
            0 => v.push(&mut alloqer, &mut arena, &[x]),
            1 => w.push(&mut alloqer, &mut arena, &[x]),
            _ => unreachable!(),
        }
    }
    assert!(v.ints(&arena).iter().all(|i| i % 2 == 0));
    assert!(w.ints(&arena).iter().all(|i| i % 2 == 1));
}

#[test]
fn pool_custom_structs() {
    let mut arena = Arena::new(get_size_hint_in::<S, Alloq>(10) * 2);
    let mut alloqer = Alloq::with_chunk_size(arena.range(), 512, 2).unwrap();
    let size = core::mem::size_of::<S>();
    let mut v = Array::with_capacity(&mut alloqer, size, core::mem::align_of::<S>(), 10);
    for x in 0..10i32 {
        let mut s = vec![0u8; size];
        s[..4].copy_from_slice(&((x - 5) * 255).to_le_bytes());
        v.push(&mut alloqer, &mut arena, &s);
    }
    assert_eq!(v.len, 10);
    assert_eq!(v.cap, 10);
}

#[test]
fn pool_full_heap() {
    const VECTOR_SIZE: usize = 16;
    let mut arena = Arena::new(get_size_hint_in::<[u16; 32], Alloq>(VECTOR_SIZE) * 2);
    let mut alloqer = Alloq::with_chunk_size(arena.range(), 1024, 2).unwrap();
    let mut v = Array::with_capacity(&mut alloqer, 64, 2, VECTOR_SIZE);
    for x in 0..VECTOR_SIZE {
        let mut ar = [0u8; 64];
        for i in 0..32 {
            ar[2 * i..2 * i + 2].copy_from_slice(&((i * x) as u16).to_le_bytes());
        }
        v.push(&mut alloqer, &mut arena, &ar);
    }
    assert_eq!(v.len, VECTOR_SIZE);
}

#[test]
fn pool_zero_sized() {
    const VECTOR_SIZE: usize = 1024;
    let mut arena = Arena::new(get_size_hint_in::<(), Alloq>(VECTOR_SIZE));
    let mut alloqer = Alloq::new(arena.range()).unwrap();
    let mut v = Array::with_capacity(&mut alloqer, 0, 1, VECTOR_SIZE);
    for _ in 0..VECTOR_SIZE {
        v.push(&mut alloqer, &mut arena, &[]);
    }
    assert_eq!(v.len, VECTOR_SIZE);
}

#[test]
fn pool_vector_fragmented() {
    const VECTOR_SIZE: usize = 128;
    let mut arena = Arena::new(1024 * 1024);
    let mut alloqer = Alloq::with_chunk_size(arena.range(), 1024, 2).unwrap();
    let mut v1 = Array::with_capacity(&mut alloqer, 8, 8, VECTOR_SIZE);
    let mut v2 = Array::with_capacity(&mut alloqer, 8, 8, VECTOR_SIZE);
    let mut v3 = Array::with_capacity(&mut alloqer, 8, 8, VECTOR_SIZE);
    for x in 0..VECTOR_SIZE as i64 {
        if x % 2 == 0 {
            v2.push(&mut alloqer, &mut arena, &x.to_le_bytes());
        } else {
            v1.push(&mut alloqer, &mut arena, &x.to_le_bytes());
        }
        v3.push(&mut alloqer, &mut arena, &(-x).to_le_bytes());
    }
    assert!(v1.ints(&arena).iter().all(|x| x % 2 == 1));
    assert!(v2.ints(&arena).iter().all(|x| x % 2 == 0));
    assert_eq!(
        v1.ints(&arena).iter().chain(v2.ints(&arena).iter()).sum::<i64>(),
        -v3.ints(&arena).iter().sum::<i64>()
    );
    assert_eq!(
        v1.ints(&arena).iter().sum::<i64>()
            + v2.ints(&arena).iter().sum::<i64>()
            + v3.ints(&arena).iter().sum::<i64>(),
        0
    );
}

#[test]
fn pool_trash_heap() {
    let mut arena = Arena::new(1024);
    for (x, b) in arena.bytes.iter_mut().enumerate() {
        *b = (x % 255) as u8;
    }
    let mut alloqer = Alloq::new(arena.range()).unwrap();
    let mut v = Array::new(4, 4);
    for x in 0..10i32 {
        v.push(&mut alloqer, &mut arena, &x.to_le_bytes());
    }
    assert_eq!(v.ints(&arena).iter().sum::<i64>(), 45);
}

#[test]
fn pool_corrupted_heap() {
    let mut arena = Arena::new(1024);
    let mut alloqer = Alloq::new(arena.range()).unwrap();
    arena.bytes.fill(0);
    alloqer.reset();
    let mut v = Array::new(4, 4);
    for x in 0..10i32 {
        v.push(&mut alloqer, &mut arena, &x.to_le_bytes());
    }
    assert_eq!(v.ints(&arena).iter().sum::<i64>(), 45);
}

#[test]
fn sort() {
    let arena = Arena::new(1024 * 1024);
    let mut alloqer = Alloq::new(arena.range()).unwrap();
    let zero = Layout { size: 0, align: 1 };
    let vec: Vec<usize> = (0..1024).map(|_| alloqer.alloq(zero)).collect();
    for p in vec.iter().rev().cloned() {
        alloqer.dealloq(p, zero);
    }
    let unsorted = free_chunks(&alloqer.pooler);
    assert_eq!(unsorted.len(), 1025);
    assert!(unsorted.windows(2).any(|w| w[1] > w[0]));
    let end = RawChunk::sort(&mut alloqer.pooler.table, alloqer.pooler.free_last);
    alloqer.pooler.free_last = end;
    let chunks = free_chunks(&alloqer.pooler);
    assert_eq!(chunks.len(), 1025);
    let mut last = chunks[0];
    for &c in chunks.iter().skip(1) {
        assert!(c < last, "c < last: {c:?} < {last:?}");
        last = c;
    }
}

#[test]
fn tiny_chunk_allocation() {
    let mut arena = Arena::new(1024);
    let mut alloqer = Alloq::with_chunk_size(arena.range(), 48, 2).unwrap();
    let v: Vec<usize> =
        (0..10u128).map(|x| put_box(&mut alloqer, &mut arena, &x.to_le_bytes(), 16)).collect();
    assert!(v
        .iter()
        .enumerate()
        .all(|(i, x)| arena.read(*x, 16) == (i as u128).to_le_bytes().to_vec()));
}

#[test]
fn tiny_chunk_unsorted_allocation() {
    let mut arena = Arena::new(1024);
    let mut alloqer = Alloq::with_chunk_size(arena.range(), 48, 2).unwrap();
    let zero = Layout { size: 0, align: 1 };
    let vec: Vec<usize> = (0..5).map(|_| alloqer.alloq(zero)).collect();
    for p in vec.iter().rev().cloned() {
        alloqer.dealloq(p, zero);
    }
    let v: Vec<usize> =
        (0..10u128).map(|x| put_box(&mut alloqer, &mut arena, &x.to_le_bytes(), 16)).collect();
    assert!(v
        .iter()
        .enumerate()
        .all(|(i, x)| arena.read(*x, 16) == (i as u128).to_le_bytes().to_vec()));
}

#[test]
fn pool_lends_chunks_one_by_one() {
    let mut a = Alloq::new(BASE..BASE + 4096).unwrap();
    assert_eq!(a.chunk_size, DEFAULT_CHUNK_SIZE);
    assert_eq!(a.align, DEFAULT_ALIGNMENT);
    // the descriptor of chunk 0 lies at the highest place
    assert_eq!(a.pooler.free_last, BASE + 4096 - 32);
    assert_eq!(a.pooler.list_end, BASE + 4096 - 32);
    let l = Layout { size: 32, align: 2 };
    assert_eq!(a.allocate(l), Ok(BASE + 64));
    assert_eq!(a.pooler.list_end, BASE + 4096 - 64);
    assert_eq!(a.allocate(l), Ok(BASE + 128));
    assert_eq!(a.allocate(Layout { size: 60, align: 4 }), Ok(BASE + 192));
    assert_eq!(free_chunks(&a.pooler), vec![BASE]);
    // the chunk that was handed back last is lent out next
    assert_eq!(a.deallocate(BASE + 64, l), Ok(()));
    assert_eq!(a.deallocate(BASE + 192, l), Ok(()));
    assert_eq!(free_chunks(&a.pooler), vec![BASE + 192, BASE + 64, BASE]);
    assert_eq!(a.allocate(l), Ok(BASE + 192));
    assert_eq!(a.allocate(Layout { size: 1, align: 16 }), Ok(BASE + 64));
    assert_eq!(a.allocate(Layout { size: 64, align: 64 }), Ok(BASE + 256));
}

#[test]
fn pool_finds_its_descriptor_again() {
    let mut a = Alloq::new(BASE..BASE + 4096).unwrap();
    let l = Layout { size: 40, align: 8 };
    let p = a.allocate(l).unwrap();
    let q = a.allocate(l).unwrap();
    let d = a.get_raw_chunk_from(p, l).unwrap();
    assert_eq!(d, BASE + 4096 - 64);
    let c = a.pooler.table.read(d).unwrap();
    assert_eq!((c.addr, c.chunk, c.next, c.back), (p, BASE + 64, 0, 0));
    assert_eq!(a.get_raw_chunk_from(q, l), Some(BASE + 4096 - 96));
    assert_eq!(a.get_raw_chunk_from(p + 8, l), None);
    assert_eq!(a.get_raw_chunk_from(BASE, l), None);
    assert_eq!(a.get_raw_chunk_from(0, l), None);
    assert_eq!(a.get_raw_chunk_from(BASE - 64, l), None);
    assert_eq!(a.get_raw_chunk_from(BASE + 3000, l), None);
}

#[test]
fn pool_refuses_what_it_did_not_lend() {
    let mut a = Alloq::new(BASE..BASE + 4096).unwrap();
    let l = Layout { size: 40, align: 8 };
    let p = a.allocate(l).unwrap();
    assert_eq!(a.deallocate(p + 2, l), Err(AllocError::InvalidFree));
    assert_eq!(a.deallocate(BASE, l), Err(AllocError::InvalidFree));
    assert_eq!(a.deallocate(BASE + 128, l), Err(AllocError::InvalidFree));
    assert_eq!(a.deallocate(0, l), Err(AllocError::InvalidFree));
    assert_eq!(a.deallocate(usize::MAX, l), Err(AllocError::InvalidFree));
    assert_eq!(free_chunks(&a.pooler), vec![BASE]);
    assert_eq!(a.deallocate(p, l), Ok(()));
    assert_eq!(a.deallocate(p, l), Err(AllocError::InvalidFree));
    assert_eq!(free_chunks(&a.pooler), vec![BASE + 64, BASE]);
}

#[test]
fn pool_merges_neighbouring_chunks_for_a_large_block() {
    let mut a = Alloq::new(BASE..BASE + 4096).unwrap();
    let big = Layout { size: 200, align: 8 };
    // chunks 0 to 3 hold 200 bytes; chunk 4 keeps the free list from running empty
    assert_eq!(a.allocate(big), Ok(BASE));
    assert_eq!(free_chunks(&a.pooler), vec![BASE + 256]);
    let head = a.pooler.table.read(BASE + 4096 - 32).unwrap();
    assert_eq!((head.addr, head.chunk, head.back), (BASE, BASE, 0));
    assert_eq!(head.next, BASE + 4096 - 64);
    assert_eq!(a.pooler.table.read(BASE + 4096 - 128).unwrap().next, 0);
    assert_eq!(a.pooler.table.read(BASE + 4096 - 64).unwrap().addr, 0);
    assert_eq!(a.allocate(Layout { size: 32, align: 2 }), Ok(BASE + 320));
    // the run goes back as a whole, in the order of its chunks
    assert_eq!(a.deallocate(BASE + 64, big), Err(AllocError::InvalidFree));
    assert_eq!(a.deallocate(BASE, big), Ok(()));
    assert_eq!(
        free_chunks(&a.pooler),
        vec![BASE + 192, BASE + 128, BASE + 64, BASE, BASE + 256]
    );
    // the highest run that holds 100 bytes is chunks 3 and 4
    assert_eq!(a.allocate(Layout { size: 100, align: 4 }), Ok(BASE + 192));
    assert_eq!(free_chunks(&a.pooler), vec![BASE + 128, BASE + 64, BASE]);
    assert_eq!(a.deallocate(BASE + 192, Layout { size: 100, align: 4 }), Ok(()));
    assert_eq!(
        free_chunks(&a.pooler),
        vec![BASE + 256, BASE + 192, BASE + 128, BASE + 64, BASE]
    );
}

#[test]
fn pool_pads_over_aligned_blocks() {
    let mut a = Alloq::new(BASE..BASE + 4096).unwrap();
    let l = Layout { size: 16, align: 256 };
    // chunk 1 has no multiple of 256; the run of chunks 0 and 1 has
    assert_eq!(a.allocate(l), Ok(BASE));
    assert_eq!(a.allocate(l), Ok(BASE + 256));
    assert_eq!(a.deallocate(BASE, l), Ok(()));
    assert_eq!(a.deallocate(BASE + 256, l), Ok(()));
}

#[test]
fn pool_runs_out_where_chunks_meet_descriptors() {
    let mut a = Alloq::new(BASE..BASE + 512).unwrap();
    let l = Layout { size: 64, align: 2 };
    // chunks 1 to 4 fit below the descriptors, a fifth does not
    for i in 1..5 {
        assert_eq!(a.allocate(l), Ok(BASE + 64 * i));
    }
    assert_eq!(a.allocate(l), Err(AllocError::OutOfMemory));
    assert_eq!(a.allocate(Layout { size: 500, align: 2 }), Err(AllocError::OutOfMemory));
    assert_eq!(a.allocate(Layout { size: 8, align: 12 }), Err(AllocError::InvalidLayout));
    assert_eq!(a.deallocate(BASE + 128, l), Ok(()));
    assert_eq!(a.allocate(l), Ok(BASE + 128));
    a.reset();
    assert_eq!(a.pooler.free_last, BASE + 512 - 32);
    assert_eq!(a.pooler.list_end, BASE + 512 - 32);
    assert_eq!(free_chunks(&a.pooler), vec![BASE]);
    assert_eq!(a.allocate(l), Ok(BASE + 64));
}

#[test]
fn pool_construction_checks_the_region() {
    let ok = |r: Result<Alloq, AllocError>| r.map(|_| ());
    assert_eq!(ok(Alloq::with_chunk_size(BASE..BASE + 4096, 32, 2)), Err(AllocError::InvalidHeap));
    assert_eq!(ok(Alloq::with_chunk_size(BASE..BASE + 4096, 33, 2)), Ok(()));
    assert_eq!(ok(Alloq::with_chunk_size(BASE..BASE + 4096, 64, 3)), Err(AllocError::InvalidHeap));
    assert_eq!(ok(Alloq::with_chunk_size(0..4096, 64, 2)), Err(AllocError::InvalidHeap));
    assert_eq!(ok(Alloq::with_chunk_size(BASE + 1..BASE, 64, 2)), Err(AllocError::InvalidHeap));
    // chunk 0 must end below its descriptor
    assert_eq!(ok(Alloq::with_chunk_size(BASE..BASE + 96, 64, 2)), Err(AllocError::InvalidHeap));
    assert_eq!(ok(Alloq::with_chunk_size(BASE..BASE + 104, 64, 2)), Ok(()));
    assert_eq!(ok(Alloq::new(BASE..BASE + 16)), Err(AllocError::InvalidHeap));
}

#[test]
fn pool_hard_reset_clears_the_region() {
    let mut arena = Arena::new(1024);
    let mut a = Alloq::new(arena.range()).unwrap();
    let l = Layout { size: 40, align: 8 };
    let p = a.allocate(l).unwrap();
    arena.write(p, &[0xCD; 40]);
    a.hard_reset(&mut arena.bytes);
    assert_eq!(arena.bytes, vec![0u8; 1024]);
    assert_eq!(a.allocate(l), Ok(p));
}

#[test]
fn pool_decides_after_reset_as_when_fresh() {
    let script = [(32usize, 2usize), (200, 8), (64, 64), (1, 1), (300, 4), (64, 2), (64, 2)];
    let mut a = Alloq::new(BASE..BASE + 1024).unwrap();
    let run = |a: &mut Alloq| -> Vec<Result<usize, AllocError>> {
        script.iter().map(|&(size, align)| a.allocate(Layout { size, align })).collect()
    };
    let fresh = run(&mut a);
    assert!(fresh.iter().any(|r| r.is_ok()));
    assert!(fresh.iter().any(|r| r.is_err()));
    a.reset();
    a.reset();
    assert_eq!(run(&mut a), fresh);
}

#[test]
fn descriptors_are_linked_and_cut() {
    let mut table: Store<RawChunk> = Store::new();
    for (i, at) in [400usize, 300, 200, 100].into_iter().enumerate() {
        table.write(at, RawChunk::vacant(1000 + 64 * i));
    }
    RawChunk::connect(&mut table, 400, 300);
    RawChunk::connect(&mut table, 300, 200);
    RawChunk::connect_unchecked(&mut table, 200, 100);
    let c = table.read(300).unwrap();
    assert_eq!((c.addr, c.chunk, c.next, c.back), (0, 1064, 200, 400));
    // the middle two leave together
    RawChunk::slice_until(&mut table, 300, 200);
    assert_eq!(table.read(400).unwrap().next, 100);
    assert_eq!(table.read(100).unwrap().back, 400);
    let c = table.read(300).unwrap();
    assert_eq!((c.next, c.back), (200, 0));
    let c = table.read(200).unwrap();
    assert_eq!((c.next, c.back), (0, 300));
    RawChunk::disconnect(&mut table, 100);
    assert_eq!(table.read(400).unwrap().next, 0);
    assert_eq!(table.read(100).unwrap().back, 0);
    let built = RawChunk::new(1001, 8).next(7).back(9);
    assert_eq!((built.addr, built.chunk, built.next, built.back), (1008, 1001, 7, 9));
}

/// A list of free descriptors at the given addresses, in that order; the chunk
/// of a descriptor lies the higher the lower the descriptor does.
fn chain(table: &mut Store<RawChunk>, addrs: &[usize]) {
    for &at in addrs {
        table.write(at, RawChunk::vacant(10_000 - at));
    }
    for w in addrs.windows(2) {
        RawChunk::connect(table, w[0], w[1]);
    }
}

/// The addresses of a list, from the descriptor at `at` to the last.
fn forward(table: &Store<RawChunk>, at: usize) -> Vec<usize> {
    let mut it = RawChunk::iter(at);
    let mut out = Vec::new();
    while let Some(x) = it.next(table) {
        out.push(x);
    }
    out
}

#[test]
fn first_and_last_are_found_from_anywhere() {
    let mut table: Store<RawChunk> = Store::new();
    chain(&mut table, &[500, 300, 700, 100]);
    for at in [500usize, 300, 700, 100] {
        assert_eq!(RawChunk::first(&table, at), 500);
        assert_eq!(RawChunk::last(&table, at), 100);
    }
    chain(&mut table, &[900]);
    assert_eq!(RawChunk::first(&table, 900), 900);
    assert_eq!(RawChunk::last(&table, 900), 900);
    assert_eq!(forward(&table, 300), vec![300, 700, 100]);
}

#[test]
fn merge_puts_two_lists_in_one_order() {
    let mut table: Store<RawChunk> = Store::new();
    chain(&mut table, &[900, 600, 200]);
    chain(&mut table, &[800, 700, 300, 100]);
    let end = RawChunk::merge(&mut table, 200, 100);
    assert_eq!(end, 100);
    let head = RawChunk::first(&table, end);
    assert_eq!(forward(&table, head), vec![900, 800, 700, 600, 300, 200, 100]);
    let mut back = RawChunk::back_iter(end);
    let mut chunks = Vec::new();
    while let Some(x) = back.next(&table) {
        chunks.push(table.read(x).unwrap().chunk);
    }
    assert_eq!(chunks, vec![9900, 9800, 9700, 9400, 9300, 9200, 9100]);
}

#[test]
fn sort_orders_a_list_by_its_chunks() {
    let mut table: Store<RawChunk> = Store::new();
    chain(&mut table, &[300, 900, 100, 500, 700, 200]);
    chain(&mut table, &[400]);
    let end = RawChunk::sort(&mut table, 200);
    assert_eq!(end, 100);
    let head = RawChunk::first(&table, end);
    assert_eq!(head, 900);
    assert_eq!(forward(&table, head), vec![900, 700, 500, 300, 200, 100]);
    // a list of one descriptor is sorted, and stays alone
    assert_eq!(RawChunk::sort(&mut table, 400), 400);
    assert_eq!(forward(&table, 400), vec![400]);
    // so is a list of two
    chain(&mut table, &[20, 40]);
    assert_eq!(RawChunk::sort(&mut table, 40), 20);
    assert_eq!(forward(&table, 40), vec![40, 20]);
}

#[test]
fn descriptors_grow_downward() {
    let mut table: Store<RawChunk> = Store::new();
    let mut end: usize = BASE + 1000;
    let first = RawChunk::vacant(BASE).allocate(&mut table, &mut end, 64);
    assert_eq!(first, Some(BASE + 968));
    assert_eq!(end, BASE + 968);
    let second = RawChunk::alloc_next(&mut table, BASE + 968, &mut end, 64);
    assert_eq!(second, Some(BASE + 936));
    assert_eq!(end, BASE + 936);
    let c = table.read(BASE + 936).unwrap();
    assert_eq!((c.addr, c.chunk, c.next, c.back), (0, BASE + 64, 0, BASE + 968));
    assert_eq!(table.read(BASE + 968).unwrap().next, BASE + 936);
    // a chunk that would reach up to its descriptor gets none
    let mut low: usize = BASE + 96;
    assert_eq!(RawChunk::vacant(BASE).allocate(&mut table, &mut low, 64), None);
    assert_eq!(low, BASE + 96);
    let mut tiny: usize = 16;
    assert_eq!(RawChunk::vacant(BASE).allocate(&mut table, &mut tiny, 64), None);
}

#[test]
fn a_run_is_found_from_the_end_of_the_free_list() {
    let mut a = Alloq::new(BASE..BASE + 4096).unwrap();
    let l = Layout { size: 8, align: 2 };
    let ps: Vec<usize> = (0..6).map(|_| a.allocate(l).unwrap()).collect();
    assert_eq!(ps, (1..7).map(|i| BASE + 64 * i).collect::<Vec<usize>>());
    // chunks 0, 2, 3 and 5 are free
    for i in [1usize, 2, 4] {
        assert_eq!(a.deallocate(ps[i], l), Ok(()));
    }
    a.pooler.sort_free();
    assert_eq!(free_chunks(&a.pooler), vec![BASE + 320, BASE + 192, BASE + 128, BASE]);
    let top = BASE + 4096 - 32;
    assert_eq!(a.pooler.find_run(64, Layout { size: 64, align: 2 }), Some((top - 160, top - 160)));
    assert_eq!(a.pooler.find_run(64, Layout { size: 100, align: 2 }), Some((top - 64, top - 96)));
    assert_eq!(a.pooler.find_run(64, Layout { size: 129, align: 2 }), None);
    assert_eq!(a.allocate(Layout { size: 100, align: 2 }), Ok(BASE + 128));
}
