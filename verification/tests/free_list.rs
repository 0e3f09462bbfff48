use alloq::list::{best, first, AllocMethod, AlloqMetaData, BestFit, FirstFit, Records};
use alloq::store::Store;
use alloq::{AllocError, Alloqator, Layout};

const BASE: usize = 0x10_0000;

fn l(size: usize, align: usize) -> Layout {
    Layout { size, align }
}

/// The addresses of the records of the list, from the anchor on.
fn walk(records: &Records) -> Vec<usize> {
    let mut it = AlloqMetaData::iter(records.first);
    let mut out = Vec::new();
    while let Some(at) = it.next(&records.table) {
        out.push(at);
    }
    out
}

#[test]
fn extent_begins_with_its_record() {
    assert_eq!(AlloqMetaData::end_of_allocation(BASE, l(10, 1)), Some(BASE + 34));
    assert_eq!(AlloqMetaData::end_of_allocation(BASE + 1, l(10, 1)), Some(BASE + 8 + 24 + 10));
    assert_eq!(AlloqMetaData::end_of_allocation(BASE, l(10, 64)), Some(BASE + 64 + 10));
    assert_eq!(AlloqMetaData::end_of_allocation(BASE, l(0, 1)), Some(BASE + 24));
    assert_eq!(AlloqMetaData::end_of_allocation(BASE, l(10, 3)), None);
    assert_eq!(AlloqMetaData::end_of_allocation(usize::MAX - 40, l(10, 1)), Some(usize::MAX - 5));
    assert_eq!(AlloqMetaData::end_of_allocation(usize::MAX - 40, l(16, 1)), None);
    assert_eq!(AlloqMetaData::end_of_allocation(usize::MAX - 30, l(0, 1)), None);
    assert_eq!(AlloqMetaData::end_of_allocation(BASE, l(usize::MAX, 1)), None);
}

#[test]
fn records_are_linked_in_address_order() {
    let mut a = first::Alloq::new(BASE..BASE + 1024).unwrap();
    assert_eq!(walk(&a.first), vec![BASE]);
    assert_eq!(a.first.table.read(BASE).unwrap().end, BASE + 24);
    let x1 = a.allocate(l(64, 8)).unwrap();
    let x2 = a.allocate(l(16, 8)).unwrap();
    let x3 = a.allocate(l(64, 8)).unwrap();
    assert_eq!((x1, x2, x3), (BASE + 48, BASE + 136, BASE + 176));
    assert_eq!(walk(&a.first), vec![BASE, BASE + 24, BASE + 112, BASE + 152]);
    assert_eq!(a.first.last, BASE + 152);
    let mid = a.first.table.read(BASE + 112).unwrap();
    assert_eq!((mid.end, mid.next, mid.back), (BASE + 152, BASE + 152, BASE + 24));
    let tail = a.first.table.read(BASE + 152).unwrap();
    assert_eq!((tail.end, tail.next, tail.back), (BASE + 240, 0, BASE + 112));
    // the middle one leaves: its neighbours are joined
    assert_eq!(a.deallocate(x2, l(16, 8)), Ok(()));
    assert_eq!(walk(&a.first), vec![BASE, BASE + 24, BASE + 152]);
    assert_eq!(a.first.table.read(BASE + 24).unwrap().next, BASE + 152);
    assert_eq!(a.first.table.read(BASE + 152).unwrap().back, BASE + 24);
    assert!(a.first.table.read(BASE + 112).is_none());
    // the last one leaves: the one before it is the last
    assert_eq!(a.deallocate(x3, l(64, 8)), Ok(()));
    assert_eq!(walk(&a.first), vec![BASE, BASE + 24]);
    assert_eq!(a.first.last, BASE + 24);
    assert_eq!(a.first.table.read(BASE + 24).unwrap().next, 0);
}

#[test]
fn a_free_that_matches_nothing_is_refused() {
    let mut a = first::Alloq::new(BASE..BASE + 1024).unwrap();
    let x1 = a.allocate(l(64, 8)).unwrap();
    let x2 = a.allocate(l(16, 8)).unwrap();
    let before = walk(&a.first);
    assert_eq!(a.deallocate(x1 + 8, l(64, 8)), Err(AllocError::InvalidFree));
    assert_eq!(a.deallocate(x1, l(63, 8)), Err(AllocError::InvalidFree));
    assert_eq!(a.deallocate(BASE + 900, l(8, 8)), Err(AllocError::InvalidFree));
    assert_eq!(a.deallocate(usize::MAX, l(8, 8)), Err(AllocError::InvalidFree));
    // the end of the anchor is no block
    assert_eq!(a.deallocate(BASE + 24, l(0, 1)), Err(AllocError::InvalidFree));
    assert_eq!(walk(&a.first), before);
    assert_eq!(a.deallocate(x1, l(64, 8)), Ok(()));
    assert_eq!(a.deallocate(x1, l(64, 8)), Err(AllocError::InvalidFree));
    assert_eq!(a.deallocate(x2, l(16, 8)), Ok(()));
    assert_eq!(a.deallocate(x2, l(16, 8)), Err(AllocError::InvalidFree));
    assert_eq!(walk(&a.first), vec![BASE]);
}

/// Five blocks, of which the second and the fourth are handed back: a wide gap and,
/// behind it, a gap that is just wide enough for 16 bytes.
fn two_gaps<A: AllocMethod>() -> (alloq::list::Alloq<A>, usize, usize) {
    let mut a = alloq::list::Alloq::<A>::new(BASE..BASE + 1024).unwrap();
    let _a = a.allocate(l(16, 8)).unwrap();
    let b = a.allocate(l(64, 8)).unwrap();
    let _c = a.allocate(l(16, 8)).unwrap();
    let d = a.allocate(l(16, 8)).unwrap();
    let _e = a.allocate(l(16, 8)).unwrap();
    assert_eq!(a.deallocate(b, l(64, 8)), Ok(()));
    assert_eq!(a.deallocate(d, l(16, 8)), Ok(()));
    (a, b, d)
}

#[test]
fn first_fit_takes_the_first_gap_and_best_fit_the_tightest() {
    let (mut ff, b, _) = two_gaps::<FirstFit>();
    let (mut bf, _, d) = two_gaps::<BestFit>();
    assert_eq!(ff.allocate(l(16, 8)), Ok(b));
    assert_eq!(bf.allocate(l(16, 8)), Ok(d));
    // what is left of the gap that each took
    let ff_next = ff.first.table.read(b - 24).unwrap().next;
    let bf_next = bf.first.table.read(d - 24).unwrap().next;
    let ff_slack = ff_next - (b + 16);
    let bf_slack = bf_next - (d + 16);
    assert_eq!(bf_slack, 0);
    assert_eq!(ff_slack, 48);
    assert!(bf_slack <= ff_slack);
}

#[test]
fn slack_is_compared_in_one_state() {
    // after their first choices the two allocators are in different states: the
    // tight gap is gone for best-fit, and first-fit has narrowed the wide one
    let (mut ff, b, d) = two_gaps::<FirstFit>();
    let (mut bf, _, _) = two_gaps::<BestFit>();
    assert_eq!(ff.allocate(l(16, 8)), Ok(b));
    assert_eq!(bf.allocate(l(16, 8)), Ok(d));
    assert_eq!(ff.allocate(l(16, 8)), Ok(b + 40));
    assert_eq!(bf.allocate(l(16, 8)), Ok(b));
    // in the state that first-fit is in, best-fit would have picked no wider gap
    let (mut third, _, _) = two_gaps::<FirstFit>();
    assert_eq!(third.allocate(l(16, 8)), Ok(b));
    assert_eq!(BestFit::fit(&third.first, l(16, 8)), d - 24 - 40);
    assert_eq!(FirstFit::fit(&third.first, l(16, 8)), b - 24);
}

#[test]
fn fit_names_the_record_to_place_behind() {
    let (ff, b, d) = two_gaps::<FirstFit>();
    assert_eq!(FirstFit::fit(&ff.first, l(16, 8)), b - 24 - 40);
    assert_eq!(BestFit::fit(&ff.first, l(16, 8)), d - 24 - 40);
    // only the wide gap and the end of the region hold 40 bytes
    assert_eq!(FirstFit::fit(&ff.first, l(40, 8)), b - 24 - 40);
    assert_eq!(BestFit::fit(&ff.first, l(40, 8)), b - 24 - 40);
    // only the end of the region holds 100 bytes
    assert_eq!(FirstFit::fit(&ff.first, l(100, 8)), ff.first.last);
    assert_eq!(BestFit::fit(&ff.first, l(100, 8)), ff.first.last);
    // nothing holds 2000 bytes: the last record is named, and the request fails
    assert_eq!(FirstFit::fit(&ff.first, l(2000, 8)), ff.first.last);
    assert_eq!(BestFit::fit(&ff.first, l(2000, 8)), ff.first.last);
}

#[test]
fn the_end_of_the_region_is_the_last_limit() {
    let mut a = best::Alloq::new(BASE..BASE + 128).unwrap();
    // anchor 24, record 24, block 80: 128
    assert_eq!(a.allocate(l(81, 1)), Err(AllocError::OutOfMemory));
    assert_eq!(a.allocate(l(80, 1)), Ok(BASE + 48));
    assert_eq!(a.allocate(l(0, 1)), Err(AllocError::OutOfMemory));
    assert_eq!(a.deallocate(BASE + 48, l(80, 1)), Ok(()));
    assert_eq!(a.allocate(l(0, 1)), Ok(BASE + 48));
    assert!(matches!(first::Alloq::new(BASE..BASE + 23), Err(AllocError::InvalidHeap)));
    assert!(first::Alloq::new(BASE..BASE + 24).is_ok());
}

#[test]
fn a_record_is_placed_behind_the_one_that_is_named() {
    let mut records = Records::new(BASE..BASE + 512).unwrap();
    let (rec, at) = AlloqMetaData::allocate(&mut records, BASE, l(10, 2)).unwrap();
    assert_eq!(at, BASE + 24);
    assert_eq!((rec.end, rec.back), (BASE + 58, BASE));
    let (rec2, at2) = AlloqMetaData::allocate(&mut records, at, l(8, 8)).unwrap();
    assert_eq!(at2, BASE + 64);
    assert_eq!(rec2.end, BASE + 96);
    // behind the anchor there is no room left
    assert_eq!(
        AlloqMetaData::allocate(&mut records, BASE, l(1, 1)).map(|r| r.1),
        Err(AllocError::OutOfMemory)
    );
    assert_eq!(walk(&records), vec![BASE, BASE + 24, BASE + 64]);
    assert_eq!(FirstFit::remove(&mut records, BASE + 48, l(10, 2)), Ok(()));
    assert_eq!(walk(&records), vec![BASE, BASE + 64]);
    assert_eq!(BestFit::remove(&mut records, BASE + 48, l(10, 2)), Err(AllocError::InvalidFree));
}

#[test]
fn links_are_set_and_cleared() {
    let mut table: Store<AlloqMetaData> = Store::new();
    let n = |end: usize| AlloqMetaData { end, next: 0, back: 0 };
    assert_eq!(n(10).write(&mut table, 100), 100);
    n(20).write(&mut table, 200);
    n(30).write(&mut table, 300);
    AlloqMetaData::connect_unchecked(&mut table, 100, 200);
    AlloqMetaData::connect_unchecked(&mut table, 200, 300);
    let mid = table.read(200).unwrap();
    assert_eq!((mid.end, mid.next, mid.back), (20, 300, 100));
    AlloqMetaData::disconnect(&mut table, 200);
    let mid = table.read(200).unwrap();
    assert_eq!((mid.end, mid.next, mid.back), (20, 0, 0));
    assert_eq!(table.read(100).unwrap().next, 300);
    assert_eq!(table.read(300).unwrap().back, 100);
    table.erase(200);
    assert!(table.read(200).is_none());
    table.clear();
    assert!(table.read(100).is_none());
}
