use vstd::prelude::*;

use crate::events::{Data, Event};
use crate::ring_buffer::{
    lemma_first_free_char, lemma_first_free_is, lemma_occupied_all_free, lemma_occupied_contains,
    lemma_pop_front_items, lemma_push_back_items, occupied, Buffer, RingView, MAXBUFFERSIZE,
};

verus! {

/// Marker for subsystems that consume events through registered callbacks.
pub trait Listener {}

/// A callback handle. The engine compares handles by identity alone and
/// never invokes anything itself: the host maps each handle to the listener
/// function it stands for when it performs the invocations that
/// `process_event` returns.
#[derive(Clone, Copy, PartialEq, Eq, Structural, Debug)]
pub struct Callback {
    pub id: u64,
}

/// One callback invocation owed to a listener: `callback` is to be called
/// with `(code, data)`.
#[derive(Clone, Copy, PartialEq, Eq, Structural, Debug)]
pub struct Invocation {
    pub callback: Callback,
    pub code: u32,
    pub data: Data,
}

/// The model of a freshly created listener list.
pub open spec fn fresh_list() -> RingView<Callback> {
    RingView { head: 0, tail: 0, slots: Seq::new(MAXBUFFERSIZE as nat, |i: int| None) }
}

/// Index of the first slot at or after `i` holding exactly `cb`; the
/// sequence length if none does.
pub open spec fn first_match_from(slots: Seq<Option<Callback>>, cb: Callback, i: int) -> int
    decreases slots.len() - i,
{
    if i < 0 || i >= slots.len() {
        slots.len() as int
    } else if slots[i] == Some(cb) {
        i
    } else {
        first_match_from(slots, cb, i + 1)
    }
}

pub open spec fn first_match(slots: Seq<Option<Callback>>, cb: Callback) -> int {
    first_match_from(slots, cb, 0)
}

/// What `first_match` finds: the least slot holding exactly `cb`, or the
/// sequence length when none does.
pub proof fn lemma_first_match_char(slots: Seq<Option<Callback>>, cb: Callback)
    ensures
        0 <= first_match(slots, cb) <= slots.len(),
        first_match(slots, cb) < slots.len() ==> slots[first_match(slots, cb)] == Some(cb),
        forall|j: int| 0 <= j < first_match(slots, cb) ==> slots[j] != Some(cb),
        (first_match(slots, cb) == slots.len()) <==> (forall|j: int|
            0 <= j < slots.len() ==> slots[j] != Some(cb)),
{
    lemma_first_match_from_char(slots, cb, 0);
    if first_match(slots, cb) < slots.len() {
        assert(slots[first_match(slots, cb)] == Some(cb));
    }
}

proof fn lemma_first_match_from_char(slots: Seq<Option<Callback>>, cb: Callback, i: int)
    requires
        0 <= i <= slots.len(),
    ensures
        i <= first_match_from(slots, cb, i) <= slots.len(),
        first_match_from(slots, cb, i) < slots.len() ==> slots[first_match_from(slots, cb, i)]
            == Some(cb),
        forall|j: int| i <= j < first_match_from(slots, cb, i) ==> slots[j] != Some(cb),
    decreases slots.len() - i,
{
    if i < slots.len() && slots[i] != Some(cb) {
        lemma_first_match_from_char(slots, cb, i + 1);
    }
}

/// If the slots below `k` all differ from `Some(cb)` and `k` is either the
/// length or a matching slot, then `k` is exactly `first_match`.
pub proof fn lemma_first_match_is(slots: Seq<Option<Callback>>, cb: Callback, k: int)
    requires
        0 <= k <= slots.len(),
        forall|j: int| 0 <= j < k ==> slots[j] != Some(cb),
        k < slots.len() ==> slots[k] == Some(cb),
    ensures
        first_match(slots, cb) == k,
{
    lemma_first_match_from_is(slots, cb, 0, k);
}

proof fn lemma_first_match_from_is(slots: Seq<Option<Callback>>, cb: Callback, i: int, k: int)
    requires
        0 <= i <= k <= slots.len(),
        forall|j: int| i <= j < k ==> slots[j] != Some(cb),
        k < slots.len() ==> slots[k] == Some(cb),
    ensures
        first_match_from(slots, cb, i) == k,
    decreases k - i,
{
    if i < k {
        lemma_first_match_from_is(slots, cb, i + 1, k);
    }
}

/// Mathematical model of the listener registry: an association sequence
/// from event code to the model of that code's listener list. Codes are
/// unique, so the order of entries carries no meaning.
#[verifier::ext_equal]
pub struct RegistryView {
    pub codes: Seq<(u32, RingView<Callback>)>,
}

impl RegistryView {
    pub open spec fn wf(self) -> bool {
        &&& forall|i: int|
            0 <= i < self.codes.len() ==> (#[trigger] self.codes[i]).1.wf()
                && self.codes[i].1.cap() == MAXBUFFERSIZE
        &&& forall|i: int, j: int|
            0 <= i < j < self.codes.len() ==> (#[trigger] self.codes[i]).0 != (#[trigger] self.codes[j]).0
    }

    pub open spec fn has_code(self, code: u32) -> bool {
        exists|i: int| 0 <= i < self.codes.len() && (#[trigger] self.codes[i]).0 == code
    }

    pub open spec fn index_of(self, code: u32) -> int {
        choose|i: int| 0 <= i < self.codes.len() && (#[trigger] self.codes[i]).0 == code
    }

    pub open spec fn list_of(self, code: u32) -> RingView<Callback> {
        self.codes[self.index_of(code)].1
    }

    /// The callbacks registered for `code`, in slot order; a code that was
    /// never registered or whose list holds only cleared slots has none.
    pub open spec fn listeners(self, code: u32) -> Seq<Callback> {
        if self.has_code(code) {
            occupied(self.list_of(code).slots)
        } else {
            Seq::empty()
        }
    }

    /// Whether `register` succeeds: a fresh code always fits; a known code
    /// needs a free slot in its listener list.
    pub open spec fn register_ok(self, code: u32) -> bool {
        self.has_code(code) ==> self.list_of(code).first_free() < self.list_of(code).cap()
    }

    /// The registry after `register(code, cb)`.
    pub open spec fn after_register(self, code: u32, cb: Callback) -> RegistryView {
        if self.has_code(code) {
            let i = self.index_of(code);
            RegistryView { codes: self.codes.update(i, (code, self.codes[i].1.after_insert(cb))) }
        } else {
            RegistryView { codes: self.codes.push((code, fresh_list().after_insert(cb))) }
        }
    }

    /// Whether `unregister` succeeds: the code is known and some slot holds
    /// this very callback.
    pub open spec fn unregister_ok(self, code: u32, cb: Callback) -> bool {
        &&& self.has_code(code)
        &&& exists|k: int|
            0 <= k < self.list_of(code).slots.len() && self.list_of(code).slots[k] == Some(cb)
    }

    /// The registry after `unregister(code, cb)`: the first matching slot of
    /// `code`'s list is cleared; nothing changes when none matches.
    pub open spec fn after_unregister(self, code: u32, cb: Callback) -> RegistryView {
        if self.unregister_ok(code, cb) {
            let i = self.index_of(code);
            let b = self.codes[i].1;
            let k = first_match(b.slots, cb);
            RegistryView {
                codes: self.codes.update(
                    i,
                    (code, RingView { head: b.head, tail: b.tail, slots: b.slots.update(k, None) }),
                ),
            }
        } else {
            self
        }
    }
}

/// In a well-formed registry, an entry whose code matches is the unique
/// witness that `index_of` picks.
pub proof fn lemma_index_of_unique(r: RegistryView, code: u32, i: int)
    requires
        r.wf(),
        0 <= i < r.codes.len(),
        r.codes[i].0 == code,
    ensures
        r.has_code(code),
        r.index_of(code) == i,
{
    assert(r.has_code(code));
    let w = r.index_of(code);
    if w < i {
        assert(r.codes[w].0 != r.codes[i].0);
    } else if w > i {
        assert(r.codes[i].0 != r.codes[w].0);
    }
}

/// Registry mapping each event code to a fixed-capacity list of callbacks.
pub struct ListenerRegistry {
    lists: Vec<(u32, Buffer<Callback>)>,
}

impl View for ListenerRegistry {
    type V = RegistryView;

    closed spec fn view(&self) -> RegistryView {
        RegistryView {
            codes: Seq::new(self.lists@.len(), |i: int| (self.lists@[i].0, self.lists@[i].1@)),
        }
    }
}

impl ListenerRegistry {
    /// An empty registry: no code has listeners.
    pub fn new() -> (r: ListenerRegistry)
        ensures
            r@.wf(),
            r@.codes.len() == 0,
    {
        ListenerRegistry { lists: Vec::new() }
    }

    fn find_index(&self, code: u32) -> (r: Option<usize>)
        requires
            self@.wf(),
        ensures
            match r {
                Some(i) => self@.has_code(code) && 0 <= i < self@.codes.len()
                    && self@.index_of(code) == i && self@.codes[i as int].0 == code,
                None => !self@.has_code(code),
            },
    {
        let n = self.lists.len();
        let mut x: usize = 0;
        while x < n
            invariant
                self@.wf(),
                n == self@.codes.len(),
                x <= n,
                forall|j: int| 0 <= j < x ==> self@.codes[j].0 != code,
            decreases n - x,
        {
            if self.lists[x].0 == code {
                proof {
                    lemma_index_of_unique(self@, code, x as int);
                }
                return Some(x);
            }
            x += 1;
        }
        None
    }

    /// Ensures a listener list exists for `code` (creating an empty one on
    /// first use), then inserts `callback` into its first free slot; the
    /// scanning insert refills slots cleared by unregistration, so the order
    /// among a code's listeners is not significant. Fails only when that
    /// code's list is already full.
    pub fn register(&mut self, code: u32, callback: Callback) -> (r: bool)
        requires
            old(self)@.wf(),
        ensures
            final(self)@.wf(),
            r == old(self)@.register_ok(code),
            final(self)@ == old(self)@.after_register(code, callback),
    {
        let found = self.find_index(code);
        match found {
            Some(i) => {
                let r = self.lists[i].1.insert(callback);
                proof {
                    assert(self@.codes =~= old(self)@.after_register(code, callback).codes);
                    lemma_after_register_wf(old(self)@, code, callback);
                }
                r
            },
            None => {
                let mut list: Buffer<Callback> = Buffer::new();
                proof {
                    assert(list@.slots =~= fresh_list().slots);
                    lemma_first_free_is(list@, 0);
                }
                let inserted = list.insert(callback);
                self.lists.push((code, list));
                proof {
                    assert(self@.codes =~= old(self)@.after_register(code, callback).codes);
                    lemma_after_register_wf(old(self)@, code, callback);
                }
                inserted
            },
        }
    }

    /// Scans `code`'s listener list for a callback whose identity matches
    /// and clears that slot, leaving a hole; positions of the other
    /// listeners stay put. Fails when the code is unknown or no slot
    /// matches.
    pub fn unregister(&mut self, code: u32, callback: Callback) -> (r: bool)
        requires
            old(self)@.wf(),
        ensures
            final(self)@.wf(),
            r == old(self)@.unregister_ok(code, callback),
            final(self)@ == old(self)@.after_unregister(code, callback),
    {
        let found = self.find_index(code);
        match found {
            None => false,
            Some(i) => {
                let mut x: usize = 0;
                while x < MAXBUFFERSIZE
                    invariant
                        old(self)@.wf(),
                        *self == *old(self),
                        self@.has_code(code),
                        self@.index_of(code) == i,
                        0 <= i < self@.codes.len(),
                        x <= MAXBUFFERSIZE,
                        self@.list_of(code).slots.len() == MAXBUFFERSIZE,
                        forall|j: int| 0 <= j < x ==> self@.list_of(code).slots[j] != Some(callback),
                    decreases MAXBUFFERSIZE - x,
                {
                    let slot = self.lists[i].1.get(x);
                    match slot {
                        Some(cb) => {
                            if cb.id == callback.id {
                                proof {
                                    assert(cb == callback);
                                    lemma_first_match_is(self@.list_of(code).slots, callback, x as int);
                                }
                                self.lists[i].1.remove_at_index(x);
                                proof {
                                    assert(old(self)@.unregister_ok(code, callback));
                                    assert(self@.codes =~= old(self)@.after_unregister(
                                        code,
                                        callback,
                                    ).codes);
                                    lemma_after_unregister_wf(old(self)@, code, callback);
                                }
                                return true;
                            }
                        },
                        None => {},
                    }
                    x += 1;
                }
                proof {
                    assert(!old(self)@.unregister_ok(code, callback));
                }
                false
            },
        }
    }

    /// Read-only view: the callbacks registered for `code`, in slot order;
    /// an unknown code yields none.
    pub fn listeners_for(&self, code: u32) -> (r: Vec<Callback>)
        requires
            self@.wf(),
        ensures
            r@ == self@.listeners(code),
    {
        let mut out: Vec<Callback> = Vec::new();
        let found = self.find_index(code);
        match found {
            None => out,
            Some(i) => {
                let ghost slots = self@.list_of(code).slots;
                let mut x: usize = 0;
                while x < MAXBUFFERSIZE
                    invariant
                        self@.wf(),
                        self@.has_code(code),
                        self@.index_of(code) == i,
                        0 <= i < self@.codes.len(),
                        x <= MAXBUFFERSIZE,
                        slots == self@.list_of(code).slots,
                        slots.len() == MAXBUFFERSIZE,
                        out@ == occupied(slots.take(x as int)),
                    decreases MAXBUFFERSIZE - x,
                {
                    let slot = self.lists[i].1.get(x);
                    proof {
                        assert(slots.take(x as int + 1).drop_last() =~= slots.take(x as int));
                        assert(slots.take(x as int + 1).last() == slots[x as int]);
                    }
                    match slot {
                        Some(cb) => out.push(cb),
                        None => {},
                    }
                    x += 1;
                }
                proof {
                    assert(slots.take(MAXBUFFERSIZE as int) =~= slots);
                }
                out
            },
        }
    }
}

/// The invocations one event gives rise to: its code's listeners, in slot
/// order, each owed a call with the event's code and payload.
pub open spec fn invocations_of(reg: RegistryView, e: Event) -> Seq<Invocation> {
    reg.listeners(e.code).map_values(
        |cb: Callback| Invocation { callback: cb, code: e.code, data: e.data },
    )
}

/// The invocations a whole queue of events gives rise to, in queue order,
/// with every event's listeners resolved against the same registry.
pub open spec fn dispatch_of(reg: RegistryView, events: Seq<Event>) -> Seq<Invocation>
    decreases events.len(),
{
    if events.len() == 0 {
        Seq::empty()
    } else {
        invocations_of(reg, events[0]) + dispatch_of(reg, events.skip(1))
    }
}

/// Dispatching one more event appends that event's invocations.
proof fn lemma_dispatch_push(reg: RegistryView, events: Seq<Event>, e: Event)
    ensures
        dispatch_of(reg, events.push(e)) == dispatch_of(reg, events) + invocations_of(reg, e),
    decreases events.len(),
{
    if events.len() == 0 {
        assert(events.push(e)[0] == e);
        assert(events.push(e).skip(1) =~= Seq::<Event>::empty());
        assert(dispatch_of(reg, events.push(e)) == invocations_of(reg, e) + dispatch_of(
            reg,
            events.push(e).skip(1),
        ));
        assert(dispatch_of(reg, Seq::<Event>::empty()) == Seq::<Invocation>::empty());
        assert(events =~= Seq::<Event>::empty());
        assert(invocations_of(reg, e) + Seq::<Invocation>::empty() =~= Seq::<
            Invocation,
        >::empty() + invocations_of(reg, e));
    } else {
        assert(events.push(e).skip(1) =~= events.skip(1).push(e));
        lemma_dispatch_push(reg, events.skip(1), e);
        assert(events.push(e)[0] == events[0]);
        assert(dispatch_of(reg, events.push(e)) == invocations_of(reg, events[0]) + dispatch_of(
            reg,
            events.skip(1).push(e),
        ));
        assert(dispatch_of(reg, events.skip(1).push(e)) == dispatch_of(reg, events.skip(1))
            + invocations_of(reg, e));
        assert(dispatch_of(reg, events) == invocations_of(reg, events[0]) + dispatch_of(
            reg,
            events.skip(1),
        ));
        assert(invocations_of(reg, events[0]) + (dispatch_of(reg, events.skip(1))
            + invocations_of(reg, e)) =~= (invocations_of(reg, events[0]) + dispatch_of(
            reg,
            events.skip(1),
        )) + invocations_of(reg, e));
    }
}

/// Mathematical model of the dispatch engine: the registry, the two event
/// buffers, and which of them is active (accepting `queue_event`).
#[verifier::ext_equal]
pub struct ManagerView {
    pub registry: RegistryView,
    pub queue_a: RingView<Event>,
    pub queue_b: RingView<Event>,
    pub active: int,
}

impl ManagerView {
    /// The buffer currently accepting `queue_event` insertions.
    pub open spec fn active_queue(self) -> RingView<Event> {
        if self.active == 0 {
            self.queue_a
        } else {
            self.queue_b
        }
    }

    /// The other buffer: drained by the last dispatch cycle (or never yet
    /// used), it sits empty until the next cycle makes it active again.
    pub open spec fn standby_queue(self) -> RingView<Event> {
        if self.active == 0 {
            self.queue_b
        } else {
            self.queue_a
        }
    }

    /// The events queued so far for the next dispatch cycle, oldest first.
    pub open spec fn pending(self) -> Seq<Event> {
        self.active_queue().items()
    }

    /// Exactly one buffer is active. The active buffer holds the pending
    /// events as one run starting at slot zero; the standby buffer is
    /// empty, so the clear at the start of each dispatch cycle never
    /// discards a queued event.
    pub open spec fn wf(self) -> bool {
        &&& self.registry.wf()
        &&& self.active == 0 || self.active == 1
        &&& self.queue_a.wf() && self.queue_a.cap() == MAXBUFFERSIZE
        &&& self.queue_b.wf() && self.queue_b.cap() == MAXBUFFERSIZE
        &&& self.active_queue().contiguous() && self.active_queue().head == 0
        &&& self.standby_queue().contiguous() && self.standby_queue().is_empty()
    }
}

/// The dispatch engine: a listener registry plus two event buffers used as
/// a double buffer. One buffer accepts newly queued events while the other
/// is drained each dispatch cycle, and the roles swap every cycle, so an
/// event queued while a cycle's invocations are being performed is
/// delivered one cycle later, never in the cycle that produced it.
pub struct EventManager {
    event_listener_map: ListenerRegistry,
    queue_a: Buffer<Event>,
    queue_b: Buffer<Event>,
    active_queue: usize,
}

impl View for EventManager {
    type V = ManagerView;

    closed spec fn view(&self) -> ManagerView {
        ManagerView {
            registry: self.event_listener_map@,
            queue_a: self.queue_a@,
            queue_b: self.queue_b@,
            active: self.active_queue as int,
        }
    }
}

impl EventManager {
    /// A fresh engine: no listeners, both buffers empty with their indices
    /// at zero, the first buffer active.
    pub fn new() -> (r: EventManager)
        ensures
            r@.wf(),
            r@.registry.codes.len() == 0,
            r@.active == 0,
            r@.pending().len() == 0,
            r@.queue_a.head == 0 && r@.queue_a.tail == 0 && r@.queue_a.all_free(),
            r@.queue_b.head == 0 && r@.queue_b.tail == 0 && r@.queue_b.all_free(),
    {
        EventManager {
            event_listener_map: ListenerRegistry::new(),
            queue_a: Buffer::new(),
            queue_b: Buffer::new(),
            active_queue: 0,
        }
    }

    /// Registers `callback` for `code` events; see
    /// `ListenerRegistry::register`. Fails only when that code's listener
    /// list is already full. The event queues are untouched.
    pub fn register_listener(&mut self, code: u32, callback: Callback) -> (r: bool)
        requires
            old(self)@.wf(),
        ensures
            final(self)@.wf(),
            r == old(self)@.registry.register_ok(code),
            final(self)@.registry == old(self)@.registry.after_register(code, callback),
            final(self)@.queue_a == old(self)@.queue_a,
            final(self)@.queue_b == old(self)@.queue_b,
            final(self)@.active == old(self)@.active,
    {
        self.event_listener_map.register(code, callback)
    }

    /// Removes one registration of `callback` for `code`; see
    /// `ListenerRegistry::unregister`. Fails when the code is unknown or no
    /// registered callback matches. The event queues are untouched.
    pub fn unregister_listener(&mut self, code: u32, callback: Callback) -> (r: bool)
        requires
            old(self)@.wf(),
        ensures
            final(self)@.wf(),
            r == old(self)@.registry.unregister_ok(code, callback),
            final(self)@.registry == old(self)@.registry.after_unregister(code, callback),
            final(self)@.queue_a == old(self)@.queue_a,
            final(self)@.queue_b == old(self)@.queue_b,
            final(self)@.active == old(self)@.active,
    {
        self.event_listener_map.unregister(code, callback)
    }

    /// Queues `event` into the active buffer for the next dispatch cycle.
    /// An event whose code has no registered listeners is rejected (dropped,
    /// with nothing changed), as is one that arrives while the active buffer
    /// is full.
    pub fn queue_event(&mut self, event: Event) -> (r: bool)
        requires
            old(self)@.wf(),
        ensures
            final(self)@.wf(),
            final(self)@.registry == old(self)@.registry,
            final(self)@.active == old(self)@.active,
            r == (old(self)@.registry.listeners(event.code).len() > 0
                && !old(self)@.active_queue().is_full()),
            old(self)@.registry.listeners(event.code).len() == 0 ==> r == false,
            r ==> final(self)@.pending() == old(self)@.pending().push(event)
                && final(self)@.standby_queue() == old(self)@.standby_queue(),
            !r ==> final(self)@ == old(self)@,
    {
        let recipients = self.event_listener_map.listeners_for(event.code);
        if recipients.len() == 0 {
            return false;
        }
        proof {
            if !old(self)@.active_queue().is_full() {
                lemma_push_back_items(old(self)@.active_queue(), event);
            }
        }
        if self.active_queue == 0 {
            self.queue_a.push_back(event)
        } else {
            self.queue_b.push_back(event)
        }
    }

    /// One dispatch cycle. Flips the active buffer, so that events queued
    /// while the host performs the returned invocations land in the fresh
    /// buffer and are delivered next cycle; clears the buffer that just
    /// became active (empty already, since the standby buffer holds no
    /// events); then drains the frozen buffer front to back, resolving each
    /// event's listeners at dispatch time. Returns the invocations owed, in
    /// order: the host calls each `callback` with `(code, data)`. An empty
    /// queue yields no invocations.
    pub fn process_event(&mut self) -> (invocations: Vec<Invocation>)
        requires
            old(self)@.wf(),
        ensures
            final(self)@.wf(),
            final(self)@.registry == old(self)@.registry,
            final(self)@.active == 1 - old(self)@.active,
            final(self)@.pending().len() == 0,
            invocations@ == dispatch_of(old(self)@.registry, old(self)@.pending()),
    {
        let mut invocations: Vec<Invocation> = Vec::new();
        if self.active_queue == 0 {
            self.active_queue = 1;
            self.queue_b.clear();
            Self::drain(&mut self.queue_a, &self.event_listener_map, &mut invocations);
        } else {
            self.active_queue = 0;
            self.queue_a.clear();
            Self::drain(&mut self.queue_b, &self.event_listener_map, &mut invocations);
        }
        invocations
    }

    /// Pops every queued event of `queue`, oldest first, and appends the
    /// invocations each one owes (per `registry`) to `invocations`.
    fn drain(
        queue: &mut Buffer<Event>,
        registry: &ListenerRegistry,
        invocations: &mut Vec<Invocation>,
    )
        requires
            old(queue)@.wf(),
            old(queue)@.contiguous(),
            registry@.wf(),
        ensures
            final(queue)@.wf(),
            final(queue)@.cap() == old(queue)@.cap(),
            final(queue)@.contiguous(),
            final(queue)@.is_empty(),
            final(invocations)@ == old(invocations)@ + dispatch_of(
                registry@,
                old(queue)@.items(),
            ),
    {
        let ghost q0 = queue@;
        let ghost mut done: Seq<Event> = Seq::empty();
        proof {
            assert(q0.items() =~= done + queue@.items());
        }
        while queue.head != queue.tail
            invariant
                queue@.wf(),
                queue@.contiguous(),
                queue@.cap() == q0.cap(),
                registry@.wf(),
                q0.items() == done + queue@.items(),
                invocations@ == old(invocations)@ + dispatch_of(registry@, done),
            decreases queue@.qlen(),
        {
            let ghost before = queue@;
            let popped = queue.pop_front();
            proof {
                lemma_pop_front_items(before);
            }
            match popped {
                None => {
                    proof {
                        assert(false);
                    }
                },
                Some(event) => {
                    let recipients = registry.listeners_for(event.code);
                    let ghost base = invocations@;
                    let n = recipients.len();
                    let mut x: usize = 0;
                    while x < n
                        invariant
                            x <= n,
                            n == recipients@.len(),
                            recipients@ == registry@.listeners(event.code),
                            invocations@ == base + recipients@.take(x as int).map_values(
                                |cb: Callback| Invocation { callback: cb, code: event.code, data: event.data },
                            ),
                        decreases n - x,
                    {
                        let cb = recipients[x];
                        invocations.push(
                            Invocation { callback: cb, code: event.code, data: event.data },
                        );
                        proof {
                            let f = |cb: Callback| Invocation { callback: cb, code: event.code, data: event.data };
                            assert(recipients@.take(x as int + 1).map_values(f) =~= recipients@.take(
                                x as int,
                            ).map_values(f).push(f(recipients@[x as int])));
                        }
                        x += 1;
                    }
                    proof {
                        let f = |cb: Callback| Invocation { callback: cb, code: event.code, data: event.data };
                        assert(recipients@.take(n as int) =~= recipients@);
                        assert(invocations@ =~= base + invocations_of(registry@, event));
                        lemma_dispatch_push(registry@, done, event);
                        done = done.push(event);
                        assert(q0.items() =~= done + queue@.items());
                    }
                },
            }
        }
        proof {
            assert(queue@.items() =~= Seq::<Event>::empty());
            assert(done =~= q0.items());
        }
    }
}

impl Default for EventManager {
    /// Same as `EventManager::new`.
    fn default() -> (r: EventManager)
        ensures
            r@.wf(),
            r@.registry.codes.len() == 0,
            r@.active == 0,
            r@.pending().len() == 0,
            r@.queue_a.head == 0 && r@.queue_a.tail == 0 && r@.queue_a.all_free(),
            r@.queue_b.head == 0 && r@.queue_b.tail == 0 && r@.queue_b.all_free(),
    {
        EventManager::new()
    }
}

/// Registering preserves well-formedness.
pub proof fn lemma_after_register_wf(r: RegistryView, code: u32, cb: Callback)
    requires
        r.wf(),
    ensures
        r.after_register(code, cb).wf(),
{
    let r1 = r.after_register(code, cb);
    if r.has_code(code) {
        assert forall|i: int|
            0 <= i < r1.codes.len() implies (#[trigger] r1.codes[i]).1.wf()
            && r1.codes[i].1.cap() == MAXBUFFERSIZE by {
            assert(r.codes[i].1.wf());
            if i == r.index_of(code) {
                let b = r.codes[i].1;
                lemma_first_free_char(b);
                assert(r1.codes[i].1 == b.after_insert(cb));
                assert(b.after_insert(cb).cap() == b.cap());
                assert(b.after_insert(cb).wf());
            } else {
                assert(r1.codes[i] == r.codes[i]);
            }
        };
    } else {
        assert(fresh_list().after_insert(cb).wf());
        assert(fresh_list().after_insert(cb).cap() == MAXBUFFERSIZE);
        assert forall|i: int, j: int|
            0 <= i < j < r1.codes.len() implies (#[trigger] r1.codes[i]).0 != (
        #[trigger] r1.codes[j]).0 by {
            if j == r1.codes.len() - 1 {
                assert(!(exists|k: int| 0 <= k < r.codes.len() && (#[trigger] r.codes[k]).0 == code));
                assert(r.codes[i].0 != code);
            }
        };
    }
}

/// Law: registering a callback that is not yet registered for `code` and
/// then unregistering it restores the listener list for that code exactly;
/// in particular, afterwards `listeners(code)` no longer includes the
/// callback. (A callback registered several times over keeps its other
/// registrations, so the law asks that the callback start unregistered.)
pub proof fn lemma_register_then_unregister(r: RegistryView, code: u32, cb: Callback)
    requires
        r.wf(),
        !r.listeners(code).contains(cb),
    ensures
        r.after_register(code, cb).after_unregister(code, cb).listeners(code) == r.listeners(code),
        !r.after_register(code, cb).after_unregister(code, cb).listeners(code).contains(cb),
{
    let r1 = r.after_register(code, cb);
    lemma_after_register_wf(r, code, cb);
    let r2 = r1.after_unregister(code, cb);
    lemma_after_unregister_wf(r1, code, cb);

    if r.has_code(code) {
        let i = r.index_of(code);
        assert(0 <= i < r.codes.len() && r.codes[i].0 == code);
        let b = r.codes[i].1;
        lemma_occupied_contains(b.slots, cb);
        assert(forall|k: int| 0 <= k < b.slots.len() ==> b.slots[k] != Some(cb));
        lemma_first_free_char(b);
        let ff = b.first_free();
        if ff == b.cap() {
            assert(b.after_insert(cb) == b);
            assert(r1.codes =~= r.codes);
            assert(r1 =~= r);
            assert(!r1.unregister_ok(code, cb));
            assert(r2 == r);
        } else {
            let b1 = b.after_insert(cb);
            assert(b1.slots == b.slots.update(ff, Some(cb)));
            lemma_index_of_unique(r1, code, i);
            assert(r1.list_of(code) == b1);
            assert(b1.slots[ff] == Some(cb));
            assert(r1.unregister_ok(code, cb));
            lemma_first_match_is(b1.slots, cb, ff);
            assert(b1.slots.update(ff, None) =~= b.slots);
            assert(r2.codes[i].1 =~= b);
            assert(r2.codes =~= r.codes);
            assert(r2 =~= r);
        }
    } else {
        let n = r.codes.len() as int;
        let fl = fresh_list();
        assert(fl.slots.len() == MAXBUFFERSIZE);
        lemma_first_free_is::<Callback>(fl, 0);
        let b1 = fl.after_insert(cb);
        assert(b1.slots == fl.slots.update(0, Some(cb)));
        assert(r1.codes[n] == (code, b1));
        lemma_index_of_unique(r1, code, n);
        assert(r1.list_of(code) == b1);
        assert(b1.slots[0] == Some(cb));
        assert(r1.unregister_ok(code, cb));
        lemma_first_match_is(b1.slots, cb, 0);
        let cleared = b1.slots.update(0, None);
        assert(cleared =~= fl.slots);
        lemma_index_of_unique(r2, code, n);
        assert(r2.list_of(code).slots == cleared);
        lemma_occupied_all_free(cleared);
        assert(r2.listeners(code) == Seq::<Callback>::empty());
        assert(r.listeners(code) == Seq::<Callback>::empty());
    }
}

/// Unregistering preserves well-formedness.
pub proof fn lemma_after_unregister_wf(r: RegistryView, code: u32, cb: Callback)
    requires
        r.wf(),
    ensures
        r.after_unregister(code, cb).wf(),
{
    let r1 = r.after_unregister(code, cb);
    if r.unregister_ok(code, cb) {
        assert forall|i: int|
            0 <= i < r1.codes.len() implies (#[trigger] r1.codes[i]).1.wf()
            && r1.codes[i].1.cap() == MAXBUFFERSIZE by {
            assert(r.codes[i].1.wf());
            if i == r.index_of(code) {
                let b = r.codes[i].1;
                lemma_first_match_char(b.slots, cb);
                assert(r1.codes[i].1.head == b.head && r1.codes[i].1.tail == b.tail);
                assert(r1.codes[i].1.slots.len() == b.slots.len());
            } else {
                assert(r1.codes[i] == r.codes[i]);
            }
        };
    }
}

} // verus!
