use pw_viz::ui::id::{Id, IdAllocator};

#[test]
fn allocator_counts_from_one() {
    let mut ids = IdAllocator::new();
    assert_eq!(ids.allocate(), Id(1));
    assert_eq!(ids.allocate(), Id(2));
    assert_eq!(ids.allocate().as_usize(), 3);
}

#[test]
fn allocator_reuses_the_identifier_freed_last() {
    let mut ids = IdAllocator::new();
    let a = ids.allocate();
    let b = ids.allocate();
    ids.free(a);
    ids.free(b);
    assert_eq!(ids.allocate(), b);
    assert_eq!(ids.allocate(), a);
    assert_eq!(ids.allocate(), Id(3));
}
