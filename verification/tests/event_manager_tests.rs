use event_engine::event_manager::{Callback, EventManager, ListenerRegistry};
use event_engine::events::{Data, Event};

fn cb(id: u64) -> Callback {
    Callback { id }
}

fn ev(code: u32, lo: u64) -> Event {
    Event::new(code, Data { lo, hi: 0 })
}

#[test]
fn register_then_unregister_removes_the_listener() {
    let mut registry = ListenerRegistry::new();
    assert!(registry.register(5, cb(1)));
    assert!(registry.unregister(5, cb(1)));
    assert!(!registry.listeners_for(5).contains(&cb(1)));
    assert!(registry.listeners_for(5).is_empty());
}

#[test]
fn unregister_fails_for_unknown_code_or_callback() {
    let mut registry = ListenerRegistry::new();
    assert!(!registry.unregister(9, cb(1)));
    assert!(registry.register(9, cb(1)));
    assert!(!registry.unregister(9, cb(2)));
    assert!(registry.unregister(9, cb(1)));
    assert!(!registry.unregister(9, cb(1)));
}

#[test]
fn register_fails_when_a_codes_list_is_full() {
    let mut registry = ListenerRegistry::new();
    for id in 0..10u64 {
        assert!(registry.register(3, cb(id)));
    }
    assert!(!registry.register(3, cb(10)));
    assert_eq!(registry.listeners_for(3).len(), 10);
}

#[test]
fn reregistration_fills_the_hole_left_by_unregistration() {
    let mut registry = ListenerRegistry::new();
    for id in 1..4u64 {
        assert!(registry.register(1, cb(id)));
    }
    assert!(registry.unregister(1, cb(2)));
    assert_eq!(registry.listeners_for(1), vec![cb(1), cb(3)]);
    assert!(registry.register(1, cb(4)));
    assert_eq!(registry.listeners_for(1), vec![cb(1), cb(4), cb(3)]);
}

#[test]
fn queue_event_without_listeners_fails_and_queues_nothing() {
    let mut manager = EventManager::new();
    assert!(!manager.queue_event(ev(7, 1)));
    assert!(manager.process_event().is_empty());
    assert!(manager.process_event().is_empty());
}

#[test]
fn three_queued_events_invoke_the_listener_three_times() {
    let mut manager = EventManager::new();
    let cb_a = cb(11);
    let payload = Data { lo: 100, hi: 200 };
    assert!(manager.register_listener(5, cb_a));
    assert!(manager.queue_event(Event::new(5, payload)));
    assert!(manager.queue_event(Event::new(5, payload)));
    assert!(manager.queue_event(Event::new(5, payload)));
    let invocations = manager.process_event();
    assert_eq!(invocations.len(), 3);
    for invocation in invocations.iter() {
        assert_eq!(invocation.callback, cb_a);
        assert_eq!(invocation.code, 5);
        assert_eq!(invocation.data, payload);
    }
}

#[test]
fn queued_events_are_dispatched_in_enqueue_order() {
    let mut manager = EventManager::new();
    let cb_a = cb(12);
    assert!(manager.register_listener(5, cb_a));
    assert!(manager.queue_event(ev(5, 100)));
    assert!(manager.queue_event(ev(5, 101)));
    assert!(manager.queue_event(ev(5, 102)));
    let invocations = manager.process_event();
    assert_eq!(invocations.len(), 3);
    for (k, invocation) in invocations.iter().enumerate() {
        assert_eq!(invocation.callback, cb_a);
        assert_eq!(invocation.code, 5);
        assert_eq!(invocation.data, Data { lo: 100 + k as u64, hi: 0 });
    }
}

#[test]
fn reentrant_queue_event_is_dispatched_next_cycle() {
    let mut manager = EventManager::new();
    let cb_a = cb(21);
    assert!(manager.register_listener(5, cb_a));
    assert!(manager.queue_event(ev(5, 1)));
    let first = manager.process_event();
    assert_eq!(first.len(), 1);
    for invocation in first.iter() {
        // what cb_a does while the host performs the invocation
        assert_eq!(invocation.callback, cb_a);
        assert!(manager.queue_event(ev(5, 2)));
    }
    // the re-entrant event was not part of the first cycle
    assert_eq!(first.len(), 1);
    let second = manager.process_event();
    assert_eq!(second.len(), 1);
    assert_eq!(second[0].data, Data { lo: 2, hi: 0 });
    assert!(manager.process_event().is_empty());
}

#[test]
fn queue_event_fails_once_the_active_buffer_is_full() {
    let mut manager = EventManager::new();
    assert!(manager.register_listener(2, cb(1)));
    for k in 0..9u64 {
        assert!(manager.queue_event(ev(2, k)));
    }
    assert!(!manager.queue_event(ev(2, 9)));
    let invocations = manager.process_event();
    assert_eq!(invocations.len(), 9);
}

#[test]
fn events_queued_before_unregistration_yield_no_invocations() {
    let mut manager = EventManager::new();
    assert!(manager.register_listener(4, cb(8)));
    assert!(manager.queue_event(ev(4, 0)));
    assert!(manager.unregister_listener(4, cb(8)));
    assert!(manager.process_event().is_empty());
}

#[test]
fn every_listener_for_a_code_is_invoked_in_slot_order() {
    let mut manager = EventManager::new();
    assert!(manager.register_listener(6, cb(1)));
    assert!(manager.register_listener(6, cb(2)));
    assert!(manager.register_listener(8, cb(3)));
    assert!(manager.queue_event(ev(6, 0)));
    let invocations = manager.process_event();
    assert_eq!(invocations.len(), 2);
    assert_eq!(invocations[0].callback, cb(1));
    assert_eq!(invocations[1].callback, cb(2));
}

#[test]
fn no_event_queued_before_a_swap_is_lost() {
    let mut manager = EventManager::new();
    assert!(manager.register_listener(1, cb(5)));
    for round in 0..4u64 {
        assert!(manager.queue_event(ev(1, round)));
        let invocations = manager.process_event();
        assert_eq!(invocations.len(), 1);
        assert_eq!(invocations[0].data, Data { lo: round, hi: 0 });
    }
}

#[test]
fn default_manager_behaves_like_a_fresh_one() {
    let mut manager: EventManager = Default::default();
    assert!(!manager.queue_event(ev(1, 0)));
    assert!(manager.process_event().is_empty());
}
