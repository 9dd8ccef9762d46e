use agma::{RingBuffer, RING_BUFFER_INTERNAL_STORAGE_SLOTS, path_find};

#[test]
fn ring_buffer_starts_empty() {
    let r: RingBuffer<u32> = RingBuffer::new();
    assert!(r.storage.is_empty());
    assert_eq!(r.next_open_slot, 0);
}

#[test]
fn ring_buffer_appends_until_full_then_overwrites_oldest() {
    let mut r: RingBuffer<usize> = RingBuffer::new();
    for i in 0..RING_BUFFER_INTERNAL_STORAGE_SLOTS {
        r.add_new_data(i);
    }
    assert_eq!(r.storage.len(), 32);
    assert_eq!(r.storage[31], 31);
    r.add_new_data(100);
    assert_eq!(r.storage.len(), 32);
    assert_eq!(r.storage[0], 100);
    assert_eq!(r.storage[1], 1);
    assert_eq!(r.next_open_slot, 33);
}

#[test]
fn ring_buffer_keeps_latest_items_at_index_mod_32() {
    let mut r: RingBuffer<usize> = RingBuffer::new();
    let n = 75;
    for i in 0..n {
        r.add_new_data(i * 10);
    }
    assert_eq!(r.next_open_slot, n);
    assert_eq!(r.storage.len(), 32);
    for k in (n - 32)..n {
        assert_eq!(r.storage[k % 32], k * 10);
    }
}

#[test]
fn path_find_moves_diagonally_when_y_distance_dominates() {
    assert_eq!(path_find(0, 0, 5, 5), (1, 1));
    assert_eq!(path_find(0, 0, 5, -5), (1, -1));
}

#[test]
fn path_find_moves_straight_when_x_distance_dominates() {
    assert_eq!(path_find(0, 0, 10, 2), (1, 0));
    assert_eq!(path_find(3, 3, 3, 3), (3, 3));
}

#[test]
fn path_find_steps_left_and_follows_the_sign_of_x() {
    assert_eq!(path_find(5, 0, 0, 0), (4, 0));
    assert_eq!(path_find(1, 0, 0, 0), (0, 0));
    assert_eq!(path_find(5, 0, 0, 1), (4, 0));
    assert_eq!(path_find(5, 0, 0, 3), (4, 1));
    assert_eq!(path_find(5, 0, 0, -3), (4, -1));
    assert_eq!(path_find(0, 0, 0, 3), (0, 1));
    assert_eq!(path_find(0, 0, 0, -3), (0, -1));
}

#[test]
fn path_find_keeps_level_lines_level() {
    assert_eq!(path_find(-4, 7, 9, 7), (-3, 7));
    assert_eq!(path_find(9, 7, -4, 7), (8, 7));
    assert_eq!(path_find(i64::MIN, 0, i64::MAX, 0), (i64::MIN + 1, 0));
}
