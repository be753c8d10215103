use event_engine::events::{Data, Sender};
use event_engine::ring_buffer::{Buffer, MAXBUFFERSIZE};

struct Test;

impl Sender for Test {}

fn on_event(_code: u8) {}

fn queued_on_event(_code: u8) {}

#[test]
fn build_works() {
    let mut buffer = Buffer::new();

    let event = Test::create_event(32, Data { lo: 3, hi: 3 });
    buffer.push_back(event);
    assert!(buffer.entries[0].is_some());
    assert!(buffer.entries[1].is_none());
    assert_eq!(buffer.head, 0);
    assert_eq!(buffer.tail, 1);
}

#[test]
fn pop_works() {
    let mut buffer = Buffer::new();
    buffer.push_back(queued_on_event as fn(u8));

    assert_eq!(buffer.head, 0);
    assert_eq!(buffer.tail, 1);
    assert!(buffer.entries[1].is_none());
}

#[test]
fn test_test() {
    let mut buffer = Buffer::new();
    for _ in 0..MAXBUFFERSIZE - 1 {
        buffer.push_back(queued_on_event as fn(u8));
    }
    buffer.remove_at_index(5);
    buffer.remove_at_index(2);
    buffer.insert(on_event as fn(u8));
    buffer.insert(on_event as fn(u8));
    assert_eq!(buffer.entries[5].unwrap() as u32, buffer.entries[2].unwrap() as u32);
}

#[test]
fn test_clear() {
    let mut buffer = Buffer::new();
    for _ in 0..MAXBUFFERSIZE - 1 {
        buffer.push_back(queued_on_event as fn(u8));
    }

    buffer.clear();
    for i in 0..MAXBUFFERSIZE - 1 {
        println!("entries {:?}", buffer.entries[i]);
    }
    assert_eq!(buffer.head, 0);
    assert_eq!(buffer.tail, 0);
}

#[test]
fn fifo_order() {
    let mut buffer = Buffer::new();
    assert!(buffer.push_back(10u64));
    assert!(buffer.push_back(20));
    assert!(buffer.push_back(30));
    assert_eq!(buffer.pop_front(), Some(10));
    assert_eq!(buffer.pop_front(), Some(20));
    assert_eq!(buffer.pop_front(), Some(30));
    assert_eq!(buffer.pop_front(), None);
}

#[test]
fn fifo_order_survives_wraparound() {
    let mut buffer = Buffer::new();
    for i in 0..5u64 {
        assert!(buffer.push_back(i));
    }
    for i in 0..5u64 {
        assert_eq!(buffer.pop_front(), Some(i));
    }
    for i in 10..19u64 {
        assert!(buffer.push_back(i));
    }
    assert!(!buffer.push_back(99));
    for i in 10..19u64 {
        assert_eq!(buffer.pop_front(), Some(i));
    }
    assert_eq!(buffer.pop_front(), None);
}

#[test]
fn push_back_on_full_buffer_rejects_without_change() {
    let mut buffer = Buffer::new();
    for i in 0..(MAXBUFFERSIZE as u64 - 1) {
        assert!(buffer.push_back(i));
    }
    let head = buffer.head;
    let tail = buffer.tail;
    let entries = buffer.entries.clone();
    assert!(!buffer.push_back(99));
    assert!(!buffer.push_back(99));
    assert_eq!(buffer.head, head);
    assert_eq!(buffer.tail, tail);
    assert_eq!(buffer.entries, entries);
}

#[test]
fn pop_front_on_empty_buffer_changes_nothing() {
    let mut buffer: Buffer<u64> = Buffer::new();
    assert_eq!(buffer.pop_front(), None);
    assert_eq!(buffer.head, 0);
    assert_eq!(buffer.tail, 0);
    assert!(buffer.push_back(7));
    assert_eq!(buffer.pop_front(), Some(7));
    assert_eq!(buffer.pop_front(), None);
    assert_eq!(buffer.head, 1);
    assert_eq!(buffer.tail, 1);
}

#[test]
fn clear_resets_indices_and_empties_every_slot() {
    let mut buffer = Buffer::new();
    for i in 0..6u64 {
        assert!(buffer.push_back(i));
    }
    buffer.pop_front();
    buffer.remove_at_index(3);
    buffer.clear();
    assert_eq!(buffer.head, 0);
    assert_eq!(buffer.tail, 0);
    for i in 0..MAXBUFFERSIZE {
        assert!(buffer.entries[i].is_none());
    }
}

#[test]
fn nine_pushes_fill_a_capacity_ten_buffer() {
    let mut buffer = Buffer::new();
    for i in 0..9u64 {
        assert!(buffer.push_back(i));
    }
    assert!(!buffer.push_back(9));
    let live = buffer.entries.iter().filter(|e| e.is_some()).count();
    assert_eq!(live, 9);
}

#[test]
fn insert_fills_holes_and_fails_when_every_slot_is_taken() {
    let mut buffer = Buffer::new();
    for i in 0..9u64 {
        assert!(buffer.push_back(i));
    }
    assert!(buffer.insert(100));
    assert!(!buffer.insert(200));
    assert_eq!(buffer.entries[9], Some(100));
}

#[test]
fn remove_at_index_on_empty_buffer_fails() {
    let mut buffer: Buffer<u64> = Buffer::new();
    assert!(!buffer.remove_at_index(3));
    assert!(buffer.push_back(5));
    assert!(buffer.remove_at_index(0));
    assert_eq!(buffer.pop_front(), None);
    assert_eq!(buffer.head, 1);
}

#[test]
fn with_capacity_keeps_one_slot_free() {
    let mut buffer = Buffer::with_capacity(4);
    assert!(buffer.push_back(1u64));
    assert!(buffer.push_back(2));
    assert!(buffer.push_back(3));
    assert!(!buffer.push_back(4));
    assert_eq!(buffer.pop_front(), Some(1));
    assert!(buffer.push_back(4));
    assert_eq!(buffer.pop_front(), Some(2));
    assert_eq!(buffer.pop_front(), Some(3));
    assert_eq!(buffer.pop_front(), Some(4));
}

#[test]
fn default_buffer_is_empty() {
    let buffer: Buffer<u64> = Default::default();
    assert_eq!(buffer.head, 0);
    assert_eq!(buffer.tail, 0);
    assert_eq!(buffer.entries.len(), MAXBUFFERSIZE);
    assert!(buffer.entries.iter().all(|e| e.is_none()));
}
