use vstd::prelude::*;

verus! {

/// Number of slots in a buffer created by `Buffer::new`. One slot is always
/// kept free as a sentinel gap, so such a buffer holds at most
/// `MAXBUFFERSIZE - 1` queued elements.
pub const MAXBUFFERSIZE: usize = 10;

/// Mathematical model of a fixed-capacity ring buffer: a sequence of slots,
/// each empty or holding one value, with `head` the index of the oldest
/// queued slot and `tail` the index where the next `push_back` lands.
/// `head == tail` means the queue is empty.
#[verifier::ext_equal]
pub struct RingView<T> {
    pub head: int,
    pub tail: int,
    pub slots: Seq<Option<T>>,
}

impl<T> RingView<T> {
    pub open spec fn cap(self) -> int {
        self.slots.len() as int
    }

    pub open spec fn wf(self) -> bool {
        &&& 2 <= self.cap()
        &&& 0 <= self.head < self.cap()
        &&& 0 <= self.tail < self.cap()
    }

    /// The queue (the slots reached by `pop_front`) is empty.
    pub open spec fn is_empty(self) -> bool {
        self.head == self.tail
    }

    /// One slot always stays free: the buffer is full as soon as advancing
    /// `tail` would make it collide with `head`.
    pub open spec fn is_full(self) -> bool {
        self.tail + 1 == self.head || (self.tail + 1 == self.cap() && self.head == 0)
    }

    /// Number of slot positions between `head` and `tail`, in ring order.
    pub open spec fn qlen(self) -> int {
        if self.tail >= self.head {
            self.tail - self.head
        } else {
            self.tail - self.head + self.cap()
        }
    }

    /// The slot index `i` positions after `head`, wrapping around.
    pub open spec fn pos(self, i: int) -> int {
        if self.head + i < self.cap() {
            self.head + i
        } else {
            self.head + i - self.cap()
        }
    }

    /// The queue segment: the slots from `head` (oldest) up to `tail`,
    /// oldest first. Slots cleared by `remove_at_index` appear as `None`.
    pub open spec fn queue(self) -> Seq<Option<T>> {
        Seq::new(self.qlen() as nat, |i: int| self.slots[self.pos(i)])
    }

    /// Every slot is empty.
    pub open spec fn all_free(self) -> bool {
        forall|i: int| 0 <= i < self.cap() ==> self.slots[i] is None
    }

    /// Index of the first empty slot at or after `i`; `cap()` if none.
    pub open spec fn first_free_from(self, i: int) -> int
        decreases self.cap() - i,
    {
        if i < 0 || i >= self.cap() {
            self.cap()
        } else if self.slots[i] is None {
            i
        } else {
            self.first_free_from(i + 1)
        }
    }

    pub open spec fn first_free(self) -> int {
        self.first_free_from(0)
    }

    /// State after a successful `push_back`.
    pub open spec fn after_push_back(self, value: T) -> RingView<T> {
        RingView {
            head: self.head,
            tail: if self.tail + 1 == self.cap() {
                0
            } else {
                self.tail + 1
            },
            slots: self.slots.update(self.tail, Some(value)),
        }
    }

    /// State after a successful `pop_front`.
    pub open spec fn after_pop_front(self) -> RingView<T> {
        RingView {
            head: if self.head + 1 == self.cap() {
                0
            } else {
                self.head + 1
            },
            tail: self.tail,
            slots: self.slots.update(self.head, None),
        }
    }

    /// State after `insert`: the first empty slot is occupied; no change
    /// when every slot is taken.
    pub open spec fn after_insert(self, value: T) -> RingView<T> {
        if self.first_free() == self.cap() {
            self
        } else {
            RingView { head: self.head, tail: self.tail, slots: self.slots.update(self.first_free(), Some(value)) }
        }
    }

    /// State after `remove_at_index`: the slot is cleared, `head` and `tail`
    /// stay put; no change when the buffer held nothing to begin with.
    pub open spec fn after_remove_at(self, index: int) -> RingView<T> {
        if self.all_free() {
            self
        } else {
            RingView { head: self.head, tail: self.tail, slots: self.slots.update(index, None) }
        }
    }

    /// State after `clear`.
    pub open spec fn after_clear(self) -> RingView<T> {
        RingView { head: 0, tail: 0, slots: Seq::new(self.slots.len(), |i: int| None) }
    }

    /// The slots form one unwrapped run from `head` to `tail`: exactly the
    /// positions in `[head, tail)` are occupied. This holds of a buffer that
    /// has only seen `push_back`, `pop_front` and `clear` since it was
    /// created, as long as `head` never wrapped past the slot boundary.
    pub open spec fn contiguous(self) -> bool {
        &&& self.head <= self.tail
        &&& forall|i: int| 0 <= i < self.cap() ==> ((self.slots[i] is Some) <==> (self.head <= i < self.tail))
    }

    /// The queued values of a contiguous buffer, oldest first.
    pub open spec fn items(self) -> Seq<T> {
        Seq::new(self.qlen() as nat, |i: int| self.slots[self.head + i]->Some_0)
    }
}

/// The values of the occupied slots, in slot order, holes skipped.
pub open spec fn occupied<T>(slots: Seq<Option<T>>) -> Seq<T>
    decreases slots.len(),
{
    if slots.len() == 0 {
        Seq::empty()
    } else {
        match slots.last() {
            Some(v) => occupied(slots.drop_last()).push(v),
            None => occupied(slots.drop_last()),
        }
    }
}

/// A run of slots that are all empty yields no occupied values.
pub proof fn lemma_occupied_all_free<T>(slots: Seq<Option<T>>)
    requires
        forall|i: int| 0 <= i < slots.len() ==> slots[i] is None,
    ensures
        occupied(slots) == Seq::<T>::empty(),
    decreases slots.len(),
{
    if slots.len() > 0 {
        assert(slots.last() is None);
        lemma_occupied_all_free(slots.drop_last());
    }
}

/// A value appears among the occupied slots exactly when some slot holds it.
pub proof fn lemma_occupied_contains<T>(slots: Seq<Option<T>>, v: T)
    ensures
        occupied(slots).contains(v) <==> exists|i: int| 0 <= i < slots.len() && slots[i] == Some(v),
    decreases slots.len(),
{
    if slots.len() > 0 {
        lemma_occupied_contains(slots.drop_last(), v);
        if occupied(slots).contains(v) {
            if slots.last() == Some(v) {
                assert(slots[slots.len() - 1] == Some(v));
            } else {
                match slots.last() {
                    Some(w) => {
                        let j = choose|j: int| 0 <= j < occupied(slots).len() && occupied(slots)[j] == v;
                        if j < occupied(slots).len() - 1 {
                            assert(occupied(slots.drop_last()).contains(v));
                        }
                        let i = choose|i: int| 0 <= i < slots.drop_last().len() && slots.drop_last()[i] == Some(v);
                        assert(slots[i] == Some(v));
                    },
                    None => {
                        let i = choose|i: int| 0 <= i < slots.drop_last().len() && slots.drop_last()[i] == Some(v);
                        assert(slots[i] == Some(v));
                    },
                }
            }
        }
        if exists|i: int| 0 <= i < slots.len() && slots[i] == Some(v) {
            let i = choose|i: int| 0 <= i < slots.len() && slots[i] == Some(v);
            if i == slots.len() - 1 {
                assert(occupied(slots).last() == v);
            } else {
                assert(slots.drop_last()[i] == Some(v));
                assert(occupied(slots.drop_last()).contains(v));
                let j = choose|j: int| 0 <= j < occupied(slots.drop_last()).len() && occupied(slots.drop_last())[j] == v;
                assert(occupied(slots)[j] == v);
            }
        }
    }
}

/// A fixed-capacity circular buffer. `push_back`/`pop_front` treat it as a
/// FIFO queue between `head` and `tail`; `insert`/`remove_at_index` address
/// slots directly, leaving `head` and `tail` untouched, so that positions
/// stay stable (used for listener lists). Direct removal leaves holes that
/// only `insert` refills, since `push_back` always targets `tail`.
pub struct Buffer<T> {
    pub head: usize,
    pub tail: usize,
    pub entries: Vec<Option<T>>,
}

impl<T> View for Buffer<T> {
    type V = RingView<T>;

    open spec fn view(&self) -> RingView<T> {
        RingView { head: self.head as int, tail: self.tail as int, slots: self.entries@ }
    }
}

impl<T: Copy> Buffer<T> {
    /// An empty buffer with `MAXBUFFERSIZE` slots.
    pub fn new() -> (r: Self)
        ensures
            r@.wf(),
            r@.cap() == MAXBUFFERSIZE,
            r@.head == 0,
            r@.tail == 0,
            r@.all_free(),
    {
        Self::with_capacity(MAXBUFFERSIZE)
    }

    /// An empty buffer with `capacity` slots; it can queue at most
    /// `capacity - 1` elements.
    pub fn with_capacity(capacity: usize) -> (r: Self)
        requires
            2 <= capacity,
        ensures
            r@.wf(),
            r@.cap() == capacity,
            r@.head == 0,
            r@.tail == 0,
            r@.all_free(),
    {
        let mut entries: Vec<Option<T>> = Vec::new();
        let mut x: usize = 0;
        while x < capacity
            invariant
                x <= capacity,
                entries@.len() == x,
                forall|j: int| 0 <= j < x ==> entries@[j] is None,
            decreases capacity - x,
        {
            entries.push(None);
            x += 1;
        }
        Buffer { head: 0, tail: 0, entries }
    }

    /// Queues `value` at `tail` unless the buffer is full; a full buffer is
    /// rejected without any change.
    pub fn push_back(&mut self, value: T) -> (r: bool)
        requires
            old(self)@.wf(),
        ensures
            final(self)@.wf(),
            final(self)@.cap() == old(self)@.cap(),
            r == !old(self)@.is_full(),
            old(self)@.is_full() ==> final(self)@ == old(self)@,
            !old(self)@.is_full() ==> final(self)@ == old(self)@.after_push_back(value),
    {
        let cap = self.entries.len();
        let next: usize = if self.tail + 1 == cap {
            0
        } else {
            self.tail + 1
        };
        if next == self.head {
            return false;
        }
        self.entries[self.tail] = Some(value);
        self.tail = next;
        true
    }

    /// Dequeues the slot at `head`; an empty buffer yields `None` (a normal
    /// "nothing pending" outcome) without any change. The result is whatever
    /// the head slot held, so a hole left by `remove_at_index` comes out as
    /// `None` as well.
    pub fn pop_front(&mut self) -> (r: Option<T>)
        requires
            old(self)@.wf(),
        ensures
            final(self)@.wf(),
            final(self)@.cap() == old(self)@.cap(),
            old(self)@.is_empty() ==> r is None && final(self)@ == old(self)@,
            !old(self)@.is_empty() ==> r == old(self)@.slots[old(self)@.head]
                && final(self)@ == old(self)@.after_pop_front(),
    {
        if self.head == self.tail {
            return None;
        }
        let value = self.entries[self.head];
        self.entries[self.head] = None;
        let cap = self.entries.len();
        self.head = if self.head + 1 == cap {
            0
        } else {
            self.head + 1
        };
        value
    }

    /// Occupies the first empty slot, wherever it lies; fails only when
    /// every slot is taken. Unlike `push_back` this refills holes left by
    /// `remove_at_index`, and it never moves `head` or `tail`.
    pub fn insert(&mut self, value: T) -> (r: bool)
        requires
            old(self)@.wf(),
        ensures
            final(self)@.wf(),
            final(self)@.cap() == old(self)@.cap(),
            r == (old(self)@.first_free() < old(self)@.cap()),
            final(self)@ == old(self)@.after_insert(value),
    {
        let cap = self.entries.len();
        let mut x: usize = 0;
        while x < cap
            invariant
                x <= cap,
                cap == self@.cap(),
                self@.wf(),
                *self == *old(self),
                forall|j: int| 0 <= j < x ==> self@.slots[j] is Some,
            decreases cap - x,
        {
            if self.entries[x].is_none() {
                proof {
                    lemma_first_free_is(old(self)@, x as int);
                }
                self.entries[x] = Some(value);
                return true;
            }
            x += 1;
        }
        proof {
            lemma_first_free_is(old(self)@, cap as int);
        }
        false
    }

    /// Clears the slot at `index` directly, leaving `head` and `tail` where
    /// they are; fails when the buffer holds nothing at all.
    pub fn remove_at_index(&mut self, index: usize) -> (r: bool)
        requires
            old(self)@.wf(),
            index < old(self)@.cap(),
        ensures
            final(self)@.wf(),
            final(self)@.cap() == old(self)@.cap(),
            r == !old(self)@.all_free(),
            final(self)@ == old(self)@.after_remove_at(index as int),
    {
        let cap = self.entries.len();
        let mut x: usize = 0;
        let mut found = false;
        while x < cap
            invariant
                x <= cap,
                cap == self@.cap(),
                self@.wf(),
                *self == *old(self),
                found == exists|j: int| 0 <= j < x && self@.slots[j] is Some,
            decreases cap - x,
        {
            if self.entries[x].is_some() {
                found = true;
            }
            x += 1;
        }
        if !found {
            return false;
        }
        self.entries[index] = None;
        true
    }

    /// Empties every slot and resets `head` and `tail` to zero.
    pub fn clear(&mut self)
        requires
            old(self)@.wf(),
        ensures
            final(self)@.wf(),
            final(self)@.cap() == old(self)@.cap(),
            final(self)@ == old(self)@.after_clear(),
    {
        let cap = self.entries.len();
        let mut x: usize = 0;
        while x < cap
            invariant
                x <= cap,
                cap == self@.cap(),
                self@.head == old(self)@.head,
                self@.tail == old(self)@.tail,
                forall|j: int| 0 <= j < x ==> self@.slots[j] is None,
            decreases cap - x,
        {
            self.entries[x] = None;
            x += 1;
        }
        self.head = 0;
        self.tail = 0;
        proof {
            assert(self@.slots =~= old(self)@.after_clear().slots);
        }
    }

    /// Reads the slot at `index` without changing anything.
    pub fn get(&self, index: usize) -> (r: Option<T>)
        requires
            index < self@.cap(),
        ensures
            r == self@.slots[index as int],
    {
        self.entries[index]
    }
}

impl<T: Copy> Default for Buffer<T> {
    /// Same as `Buffer::new`.
    fn default() -> (r: Self)
        ensures
            r@.wf(),
            r@.cap() == MAXBUFFERSIZE,
            r@.head == 0,
            r@.tail == 0,
            r@.all_free(),
    {
        Buffer::new()
    }
}

/// The buffer state after pushing each value of `vals` in turn.
pub open spec fn push_all<T>(v: RingView<T>, vals: Seq<T>) -> RingView<T>
    decreases vals.len(),
{
    if vals.len() == 0 {
        v
    } else {
        push_all(v.after_push_back(vals[0]), vals.skip(1))
    }
}

/// The results of `n` successive `pop_front` calls, oldest first.
pub open spec fn pop_all<T>(v: RingView<T>, n: nat) -> Seq<Option<T>>
    decreases n,
{
    if n == 0 {
        Seq::empty()
    } else {
        seq![v.slots[v.head]] + pop_all(v.after_pop_front(), (n - 1) as nat)
    }
}

/// The queue is full exactly when it holds `cap() - 1` elements, and empty
/// exactly when it holds none.
pub proof fn lemma_full_empty_qlen<T>(v: RingView<T>)
    requires
        v.wf(),
    ensures
        v.is_full() <==> v.qlen() == v.cap() - 1,
        v.is_empty() <==> v.qlen() == 0,
        0 <= v.qlen() < v.cap(),
{
}

/// A successful `push_back` appends its value to the queue segment.
pub proof fn lemma_push_back_queue<T>(v: RingView<T>, x: T)
    requires
        v.wf(),
        !v.is_full(),
    ensures
        v.after_push_back(x).wf(),
        v.after_push_back(x).cap() == v.cap(),
        v.after_push_back(x).qlen() == v.qlen() + 1,
        v.after_push_back(x).queue() == v.queue().push(Some(x)),
{
    let w = v.after_push_back(x);
    assert forall|i: int| 0 <= i < v.qlen() implies w.queue()[i] == v.queue()[i] by {
        assert(v.pos(i) != v.tail);
        assert(w.pos(i) == v.pos(i));
    };
    assert(w.pos(v.qlen()) == v.tail);
    assert(w.queue() =~= v.queue().push(Some(x)));
}

/// A `pop_front` on a non-empty buffer returns the front of the queue
/// segment and drops it.
pub proof fn lemma_pop_front_queue<T>(v: RingView<T>)
    requires
        v.wf(),
        !v.is_empty(),
    ensures
        v.after_pop_front().wf(),
        v.after_pop_front().cap() == v.cap(),
        v.after_pop_front().qlen() == v.qlen() - 1,
        v.slots[v.head] == v.queue()[0],
        v.after_pop_front().queue() == v.queue().skip(1),
{
    let w = v.after_pop_front();
    assert(v.pos(0) == v.head);
    assert forall|i: int| 0 <= i < w.qlen() implies w.queue()[i] == v.queue()[i + 1] by {
        assert(w.pos(i) == v.pos(i + 1));
        assert(v.pos(i + 1) != v.head);
    };
    assert(w.queue() =~= v.queue().skip(1));
}

/// Pushing a run of values appends them, in order, to the queue segment,
/// as long as the buffer keeps its one-slot sentinel gap.
pub proof fn lemma_push_all_queue<T>(v: RingView<T>, vals: Seq<T>)
    requires
        v.wf(),
        v.qlen() + vals.len() <= v.cap() - 1,
    ensures
        push_all(v, vals).wf(),
        push_all(v, vals).cap() == v.cap(),
        push_all(v, vals).qlen() == v.qlen() + vals.len(),
        push_all(v, vals).queue() == v.queue() + vals.map_values(|t: T| Some(t)),
    decreases vals.len(),
{
    lemma_full_empty_qlen(v);
    if vals.len() == 0 {
        assert(v.queue() + vals.map_values(|t: T| Some(t)) =~= v.queue());
    } else {
        let w = v.after_push_back(vals[0]);
        lemma_push_back_queue(v, vals[0]);
        lemma_push_all_queue(w, vals.skip(1));
        assert(push_all(v, vals).queue() =~= v.queue() + vals.map_values(|t: T| Some(t)));
    }
}

/// Draining `n` elements returns the first `n` entries of the queue segment.
pub proof fn lemma_pop_all_queue<T>(v: RingView<T>, n: nat)
    requires
        v.wf(),
        n <= v.qlen(),
    ensures
        pop_all(v, n) == v.queue().take(n as int),
    decreases n,
{
    if n > 0 {
        lemma_full_empty_qlen(v);
        lemma_pop_front_queue(v);
        lemma_pop_all_queue(v.after_pop_front(), (n - 1) as nat);
        assert(v.queue().take(n as int) =~= seq![v.slots[v.head]]
            + v.after_pop_front().queue().take(n - 1));
    }
}

/// FIFO law: for any capacity, pushing a run of values (never exceeding
/// `cap() - 1` queued elements) and then draining the buffer yields the
/// prior queue contents followed by the pushed values, in insertion order.
pub proof fn lemma_fifo_order<T>(v: RingView<T>, vals: Seq<T>)
    requires
        v.wf(),
        v.qlen() + vals.len() <= v.cap() - 1,
    ensures
        pop_all(push_all(v, vals), (v.qlen() + vals.len()) as nat)
            == v.queue() + vals.map_values(|t: T| Some(t)),
{
    lemma_push_all_queue(v, vals);
    let w = push_all(v, vals);
    lemma_pop_all_queue(w, (v.qlen() + vals.len()) as nat);
    assert(w.queue().take(v.qlen() + vals.len()) =~= w.queue());
}

/// On a contiguous buffer whose run starts at slot zero, a successful
/// `push_back` appends to `items()` and keeps the run contiguous.
pub proof fn lemma_push_back_items<T>(v: RingView<T>, x: T)
    requires
        v.wf(),
        v.contiguous(),
        v.head == 0,
        !v.is_full(),
    ensures
        v.after_push_back(x).wf(),
        v.after_push_back(x).cap() == v.cap(),
        v.after_push_back(x).contiguous(),
        v.after_push_back(x).head == 0,
        v.after_push_back(x).items() == v.items().push(x),
{
    let w = v.after_push_back(x);
    assert(w.items() =~= v.items().push(x));
}

/// On a non-empty contiguous buffer, `pop_front` returns the first item and
/// leaves the rest contiguous.
pub proof fn lemma_pop_front_items<T>(v: RingView<T>)
    requires
        v.wf(),
        v.contiguous(),
        !v.is_empty(),
    ensures
        v.after_pop_front().wf(),
        v.after_pop_front().cap() == v.cap(),
        v.after_pop_front().contiguous(),
        v.slots[v.head] == Some(v.items()[0]),
        v.after_pop_front().items() == v.items().skip(1),
{
    let w = v.after_pop_front();
    assert(w.items() =~= v.items().skip(1));
}

/// What `first_free` finds: the least empty slot, or `cap()` when every
/// slot is taken.
pub proof fn lemma_first_free_char<T>(v: RingView<T>)
    ensures
        0 <= v.first_free() <= v.cap(),
        v.first_free() < v.cap() ==> v.slots[v.first_free()] is None,
        forall|j: int| 0 <= j < v.first_free() ==> v.slots[j] is Some,
        (v.first_free() == v.cap()) <==> (forall|j: int| 0 <= j < v.cap() ==> v.slots[j] is Some),
{
    lemma_first_free_from_char(v, 0);
    if v.first_free() < v.cap() {
        assert(v.slots[v.first_free()] is None);
    }
}

proof fn lemma_first_free_from_char<T>(v: RingView<T>, i: int)
    requires
        0 <= i <= v.cap(),
    ensures
        i <= v.first_free_from(i) <= v.cap(),
        v.first_free_from(i) < v.cap() ==> v.slots[v.first_free_from(i)] is None,
        forall|j: int| i <= j < v.first_free_from(i) ==> v.slots[j] is Some,
    decreases v.cap() - i,
{
    if i < v.cap() && !(v.slots[i] is None) {
        lemma_first_free_from_char(v, i + 1);
    }
}

/// If the slots below `k` are all occupied and `k` is either `cap()` or an
/// empty slot, then `k` is exactly `first_free()`.
pub proof fn lemma_first_free_is<T>(v: RingView<T>, k: int)
    requires
        0 <= k <= v.cap(),
        forall|j: int| 0 <= j < k ==> v.slots[j] is Some,
        k < v.cap() ==> v.slots[k] is None,
    ensures
        v.first_free() == k,
{
    lemma_first_free_from_is(v, 0, k);
}

proof fn lemma_first_free_from_is<T>(v: RingView<T>, i: int, k: int)
    requires
        0 <= i <= k <= v.cap(),
        forall|j: int| i <= j < k ==> v.slots[j] is Some,
        k < v.cap() ==> v.slots[k] is None,
    ensures
        v.first_free_from(i) == k,
    decreases k - i,
{
    if i < k {
        lemma_first_free_from_is(v, i + 1, k);
    }
}

} // verus!
