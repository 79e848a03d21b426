use gitloggraph::arena::Arena;

#[test]
fn allocate_appends_when_pool_is_empty() {
    let mut a: Arena<u32> = Arena::new();
    let s0 = a.allocate(10);
    let s1 = a.allocate(20);
    assert_eq!(s0, 0);
    assert_eq!(s1, 1);
    assert_eq!(*a.get(s0), 10);
    assert_eq!(*a.get(s1), 20);
}

#[test]
fn freed_slots_are_reused_most_recent_first() {
    let mut a: Arena<u32> = Arena::new();
    let s0 = a.allocate(10);
    let s1 = a.allocate(20);
    let s2 = a.allocate(30);
    a.free(s0);
    a.free(s2);
    // Most recently freed first: s2, then s0; only then does the arena grow.
    assert_eq!(a.allocate(40), s2);
    assert_eq!(a.allocate(50), s0);
    assert_eq!(a.allocate(60), 3);
    assert_eq!(*a.get(s1), 20);
    assert_eq!(*a.get(s2), 40);
    assert_eq!(*a.get(s0), 50);
}

#[test]
fn set_replaces_a_slot_value() {
    let mut a: Arena<u32> = Arena::new();
    let s = a.allocate(1);
    a.set(s, 2);
    assert_eq!(*a.get(s), 2);
}
