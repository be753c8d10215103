use vstd::prelude::*;

verus! {

/// A fixed-size 16-byte event payload, carried as two 64-bit halves. The
/// engine never interprets or validates it: the producer and every listener
/// registered for the event's code must agree on its meaning.
#[derive(Clone, Copy, PartialEq, Eq, Structural, Debug)]
pub struct Data {
    pub lo: u64,
    pub hi: u64,
}

/// An event: a `code` naming its semantic kind (the lookup key into the
/// listener registry; callers choosing codes must coordinate externally)
/// and an opaque payload.
#[derive(Clone, Copy, PartialEq, Eq, Structural, Debug)]
pub struct Event {
    pub code: u32,
    pub data: Data,
}

/// Anything that produces events for the engine.
pub trait Sender {
    fn create_event(code: u32, data: Data) -> (r: Event)
        ensures
            r == (Event { code, data }),
    {
        Event::new(code, data)
    }
}

impl Event {
    pub fn new(code: u32, data: Data) -> (r: Self)
        ensures
            r == (Event { code, data }),
    {
        Event { code, data }
    }
}

impl Default for Event {
    /// The zero event: code 0 with an all-zero payload.
    fn default() -> (r: Self)
        ensures
            r == (Event { code: 0, data: Data { lo: 0, hi: 0 } }),
    {
        Event::new(0, Data { lo: 0, hi: 0 })
    }
}

} // verus!
