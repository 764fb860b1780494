use rcore::id::RecycleAllocator;

#[test]
fn fresh_ids_count_up() {
    let mut a = RecycleAllocator::new();
    assert_eq!(a.allocate(), 0);
    assert_eq!(a.allocate(), 1);
    assert_eq!(a.allocate(), 2);
}

#[test]
fn returned_ids_come_back_last_first() {
    let mut a = RecycleAllocator::new();
    for _ in 0..4 {
        a.allocate();
    }
    a.deallocate(0);
    a.deallocate(2);
    assert_eq!(a.allocate(), 2);
    assert_eq!(a.allocate(), 0);
    assert_eq!(a.allocate(), 4);
}
