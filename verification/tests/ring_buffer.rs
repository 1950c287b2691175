use cache_kit::cache::ring_buffer::{RingBuffer, Slot};

#[test]
fn slot_inner_and_inner_mut() {
    let mut slot = Slot::new(5u32);
    assert_eq!(*slot.inner(), 5);
    *slot.inner_mut() = 9;
    assert_eq!(*slot.inner(), 9);
}

#[test]
fn new_fills_each_slot_from_factory() {
    let mut counter = 0u32;
    let rb = RingBuffer::new(3, || {
        counter += 1;
        counter
    });
    assert_eq!(rb.capacity(), 3);
    assert_eq!(*rb.get_slot(0).inner(), 1);
    assert_eq!(*rb.get_slot(1).inner(), 2);
    assert_eq!(*rb.get_slot(2).inner(), 3);
}

#[test]
fn slot_idx_maps_logical_to_physical() {
    let rb = RingBuffer::new(4, || 0u8);
    assert_eq!(rb.slot_idx(0), 0);
    assert_eq!(rb.slot_idx(3), 3);
    assert_eq!(rb.slot_idx(4), 0);
    assert_eq!(rb.slot_idx(10), 2);
}

#[test]
fn next_idx_wraps_to_first_slot() {
    let rb = RingBuffer::new(4, || 0u8);
    assert_eq!(rb.next_idx(0), 1);
    assert_eq!(rb.next_idx(3), 0);
    assert_eq!(rb.next_idx(7), 0);
}

#[test]
fn prev_idx_wraps_to_last_slot() {
    let rb = RingBuffer::new(4, || 0u8);
    assert_eq!(rb.prev_idx(1), 0);
    assert_eq!(rb.prev_idx(0), 3);
}

#[test]
fn logical_and_physical_index_have_same_neighbours() {
    let rb = RingBuffer::new(5, || 0u8);
    for i in 0..30usize {
        let p = rb.slot_idx(i);
        assert_eq!(rb.prev_idx(i), rb.prev_idx(p));
        assert_eq!(rb.next_idx(i), rb.next_idx(p));
        assert_eq!(rb.next_idx(rb.prev_idx(i)), p);
        assert_eq!(rb.prev_idx(rb.next_idx(i)), p);
    }
}

#[test]
fn get_slot_mut_writes_the_slot_index_lands_on() {
    let mut rb = RingBuffer::new(3, || 0i32);
    *rb.get_slot_mut(7).inner_mut() = 42;
    assert_eq!(*rb.get_slot(1).inner(), 42);
    assert_eq!(*rb.get_slot(4).inner(), 42);
    assert_eq!(*rb.get_slot(0).inner(), 0);
    assert_eq!(*rb.get_slot(2).inner(), 0);
}

#[test]
fn single_slot_ring() {
    let rb = RingBuffer::new(1, || 'x');
    assert_eq!(rb.capacity(), 1);
    assert_eq!(rb.slot_idx(99), 0);
    assert_eq!(rb.next_idx(0), 0);
    assert_eq!(rb.prev_idx(0), 0);
}

#[test]
fn indices_accept_any_logical_index() {
    let rb = RingBuffer::new(3, || 0u8);
    assert_eq!(rb.prev_idx(usize::MAX), (usize::MAX % 3 + 2) % 3);
    assert_eq!(rb.next_idx(usize::MAX), (usize::MAX % 3 + 1) % 3);
    assert_eq!(rb.prev_idx(usize::MAX), rb.prev_idx(rb.slot_idx(usize::MAX)));
}

#[test]
fn writes_keep_capacity_and_read_back_last_value_per_slot() {
    let mut rb = RingBuffer::new(3, || 0u32);
    *rb.get_slot_mut(1).inner_mut() = 5;
    *rb.get_slot_mut(4).inner_mut() = 6;
    *rb.get_slot_mut(2).inner_mut() = 7;
    assert_eq!(rb.capacity(), 3);
    assert_eq!(*rb.get_slot(1).inner(), 6);
    assert_eq!(*rb.get_slot(7).inner(), 6);
    assert_eq!(*rb.get_slot(5).inner(), 7);
    assert_eq!(*rb.get_slot(0).inner(), 0);
}
