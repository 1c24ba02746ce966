use quantum_ide::entity::{EntityId, EntityIdAllocator};

#[test]
fn entity_ids_are_unique_and_increasing() {
    let allocator = EntityIdAllocator::new();
    let a = allocator.allocate();
    let b = allocator.allocate();
    assert_ne!(a, b);
    assert!(b.raw() > a.raw());
}

#[test]
fn entity_id_keeps_its_raw_value() {
    assert_eq!(EntityId::new(42).raw(), 42);
    assert_eq!(EntityId::new(7), EntityId::new(7));
}

#[test]
fn allocator_starts_at_zero_and_counts_up() {
    let allocator = EntityIdAllocator::new();
    assert_eq!(allocator.allocate().raw(), 0);
    assert_eq!(allocator.allocate().raw(), 1);
    assert_eq!(allocator.allocate().raw(), 2);
}

#[test]
fn ids_order_and_compare_as_their_raw_values() {
    assert!(EntityId::new(1) < EntityId::new(2));
    assert!(EntityId::new(9) > EntityId::new(3));
    assert_eq!(EntityId::new(4).partial_cmp(&EntityId::new(4)), Some(std::cmp::Ordering::Equal));
    assert_ne!(EntityId::new(4), EntityId::new(5));
}
