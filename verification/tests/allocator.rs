use red_black_tree::{NodeAllocator, SENTINEL};

#[test]
fn allocator_hands_out_slots_in_order() {
    let mut a = NodeAllocator::<u64, 8>::new(0);
    assert_eq!(a.size(), 0);
    assert_eq!(a.add_node(10), 1);
    assert_eq!(a.add_node(20), 2);
    assert_eq!(a.add_node(30), 3);
    assert_eq!(a.size(), 3);
    assert_eq!(*a.get(2), 20);
}

#[test]
fn allocator_reuses_the_last_freed_slot_first() {
    let mut a = NodeAllocator::<u64, 8>::new(0);
    a.add_node(1);
    a.add_node(2);
    a.add_node(3);
    a.remove_node(1);
    a.remove_node(3);
    assert_eq!(a.size(), 1);
    assert_eq!(a.add_node(7), 3);
    assert_eq!(a.add_node(8), 1);
    assert_eq!(a.add_node(9), 4);
}

#[test]
fn allocator_registers_and_links() {
    let mut a = NodeAllocator::<u64, 8>::new(0);
    let p = a.add_node(1);
    let c = a.add_node(2);
    a.connect(p, c, 0, 2);
    assert_eq!(a.get_register(p, 0), c);
    assert_eq!(a.get_register(c, 2), p);
    a.set_register(c, 7, 3);
    assert_eq!(a.get_register(c, 3), 7);
    a.clear_register(c, 3);
    assert_eq!(a.get_register(c, 3), 0);
    a.set_register(SENTINEL, 5, 1);
    assert_eq!(a.get_register(SENTINEL, 1), SENTINEL);
}

#[test]
fn allocator_values_can_be_replaced() {
    let mut a = NodeAllocator::<u64, 4>::new(9);
    let i = a.add_node(1);
    a.set_value(i, 5);
    assert_eq!(*a.get(i), 5);
    *a.get_mut(i) = 6;
    assert_eq!(*a.get(i), 6);
    assert_eq!(*a.get(3), 9);
}
