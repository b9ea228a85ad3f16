use thriller_flow::{Buffer, IdAllocator, ThrillerEdge};

#[test]
fn first_id_is_zero() {
    let mut ids = IdAllocator::new();
    assert!(!ids.is_exhausted());
    assert_eq!(ids.next_id(), 0);
}

#[test]
fn ids_grow_by_one() {
    let mut ids = IdAllocator::new();
    let a = ids.next_id();
    let b = ids.next_id();
    let c = ids.next_id();
    assert_eq!((a, b, c), (0, 1, 2));
    assert!(a < b && b < c);
}

#[test]
fn allocators_are_independent() {
    let mut first = IdAllocator::new();
    let mut second = IdAllocator::new();
    assert_eq!(first.next_id(), 0);
    assert_eq!(first.next_id(), 1);
    assert_eq!(second.next_id(), 0);
}

#[test]
fn buffer_keeps_its_name() {
    let buffer = Buffer::new(String::from("shared_a"));
    assert_eq!(buffer.get_name().as_str(), "shared_a");
}

#[test]
fn buffer_name_may_be_empty() {
    let buffer = Buffer::new(String::new());
    assert_eq!(buffer.get_name().as_str(), "");
}

#[test]
fn edge_keeps_its_ends() {
    let e = ThrillerEdge::new(2, 5);
    assert_eq!(e.get_src(), 2);
    assert_eq!(e.get_dst(), 5);
}

#[test]
fn edge_ends_are_ordered() {
    let forward = ThrillerEdge::new(1, 4);
    let backward = ThrillerEdge::new(4, 1);
    assert_ne!(forward, backward);
    assert_eq!(forward, ThrillerEdge::new(1, 4));
}
