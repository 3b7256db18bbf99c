use std::sync::Arc;
use vstd::prelude::*;
use vstd::rwlock::{RwLock, RwLockPredicate, WriteHandle};

verus! {

/// A queue of a fixed number of slots, one of which stays free.
#[derive(Debug)]
pub struct RingBuffer<T> {
    pub buffer: Vec<Option<T>>,
    pub head: usize,
    pub tail: usize,
    pub capacity: usize,
}

/// A ring, as it is reasoned about.
#[verifier::ext_equal]
pub struct RingView<T> {
    /// The queued values, the oldest first.
    pub queue: Seq<T>,
    /// The slot that the oldest value stands in.
    pub head: int,
    /// The slot that the next value goes to.
    pub tail: int,
    pub capacity: int,
}

/// The slot after a slot, going round the end.
pub open spec fn next_slot(slot: int, capacity: int) -> int {
    (slot + 1) % capacity
}

impl<T> RingView<T> {
    /// A ring in which nothing is queued, and nothing was.
    pub open spec fn empty(capacity: int) -> RingView<T> {
        RingView { queue: Seq::empty(), head: 0, tail: 0, capacity }
    }

    /// Head and tail lie within the slots, and the tail lies as many slots past the head, going
    /// round the end, as there are values.
    pub open spec fn wf(self) -> bool {
        &&& 0 <= self.head < self.capacity
        &&& 0 <= self.tail < self.capacity
        &&& self.queue.len() == (self.tail + self.capacity - self.head) % self.capacity
    }

    /// What queueing a value gives, and the ring afterwards: one slot stays free.
    pub open spec fn pushed(self, value: T) -> (Result<(), T>, RingView<T>) {
        if self.queue.len() + 1 < self.capacity {
            (
                Ok(()),
                RingView {
                    queue: self.queue.push(value),
                    tail: next_slot(self.tail, self.capacity),
                    ..self
                },
            )
        } else {
            (Err(value), self)
        }
    }

    /// What taking out a value gives, and the ring afterwards.
    pub open spec fn popped(self) -> (Option<T>, RingView<T>) {
        if self.queue.len() > 0 {
            (
                Some(self.queue[0]),
                RingView {
                    queue: self.queue.skip(1),
                    head: next_slot(self.head, self.capacity),
                    ..self
                },
            )
        } else {
            (None, self)
        }
    }
}

impl<T> RingBuffer<T> {
    /// How many values are queued.
    pub open spec fn count(self) -> int {
        if self.head <= self.tail {
            self.tail - self.head
        } else {
            self.tail - self.head + self.capacity
        }
    }

    /// The slot that lies `i` slots past the head, going round the end.
    pub open spec fn slot(self, i: int) -> int {
        if self.head + i < self.capacity {
            self.head + i
        } else {
            self.head + i - self.capacity
        }
    }

    /// Head and tail lie within the slots, and the slots from head to tail are filled.
    pub open spec fn wf(self) -> bool {
        &&& self.buffer@.len() == self.capacity
        &&& self.head < self.capacity || self.head == 0 == self.capacity
        &&& self.tail < self.capacity || self.tail == 0 == self.capacity
        &&& forall|i: int|
            0 <= i < self.count() ==> (#[trigger] self.buffer@[self.slot(i)]) is Some
    }
}

impl<T> View for RingBuffer<T> {
    type V = RingView<T>;

    open spec fn view(&self) -> RingView<T> {
        RingView {
            queue: Seq::new(self.count() as nat, |i: int| self.buffer@[self.slot(i)]->0),
            head: self.head as int,
            tail: self.tail as int,
            capacity: self.capacity as int,
        }
    }
}

impl<T> RingBuffer<T> {
    /// Create a queue with the given number of slots.
    pub fn new(capacity: usize) -> (ring: RingBuffer<T>)
        ensures
            ring.wf(),
            ring@ == RingView::<T>::empty(capacity as int),
    {
        let mut buffer: Vec<Option<T>> = Vec::with_capacity(capacity);
        let mut i: usize = 0;
        while i < capacity
            invariant
                i <= capacity,
                buffer@.len() == i,
            decreases capacity - i,
        {
            buffer.push(None);
            i += 1;
        }
        let ring = RingBuffer { buffer, head: 0, tail: 0, capacity };
        assert(ring@.queue =~= Seq::<T>::empty());
        ring
    }

    /// The slot after a slot, going round the end.
    fn next(&self, slot: usize) -> (next: usize)
        requires
            slot < self.capacity,
        ensures
            next == next_slot(slot as int, self.capacity as int),
            next == if slot + 1 == self.capacity {
                0
            } else {
                slot + 1
            },
    {
        proof {
            lemma_distance(slot as int, slot as int, self.capacity as int);
        }
        if slot + 1 == self.capacity {
            0
        } else {
            slot + 1
        }
    }

    /// Queue a value, or hand it back if only one slot is free. No slot changes but the one at the
    /// tail, in which no queued value stands.
    pub fn push(&mut self, value: T) -> (result: Result<(), T>)
        requires
            old(self).wf(),
            old(self)@.capacity > 0,
        ensures
            final(self).wf(),
            result == old(self)@.pushed(value).0,
            final(self)@ == old(self)@.pushed(value).1,
            final(self)@.head == old(self)@.head,
            forall|i: int|
                0 <= i < old(self).capacity && i != old(self).tail ==> final(self).buffer@[i]
                    == old(self).buffer@[i],
            forall|i: int|
                0 <= i < old(self).count() ==> #[trigger] old(self).slot(i) != old(self).tail,
    {
        let next_tail: usize = self.next(self.tail);
        if next_tail == self.head {
            return Err(value);
        }
        let ghost before = *self;
        let tail: usize = self.tail;
        self.buffer[tail] = Some(value);
        self.tail = next_tail;
        proof {
            assert(before.slot(before.count()) == before.tail);
            assert forall|i: int| 0 <= i < self.count() implies (
            #[trigger] self.buffer@[self.slot(i)]) is Some by {
                if i < before.count() {
                    assert(before.buffer@[before.slot(i)] is Some);
                }
            }
            assert(self@.queue =~= before@.queue.push(value));
        }
        Ok(())
    }

    /// Take out the oldest value.
    pub fn pop(&mut self) -> (result: Option<T>)
        requires
            old(self).wf(),
        ensures
            final(self).wf(),
            result == old(self)@.popped().0,
            final(self)@ == old(self)@.popped().1,
            final(self)@.tail == old(self)@.tail,
    {
        if self.head == self.tail {
            return None;
        }
        let ghost before = *self;
        let head: usize = self.head;
        assert(before.buffer@[before.slot(0)] is Some);
        let value = self.buffer[head].take();
        self.head = self.next(head);
        proof {
            assert forall|i: int| 0 <= i < self.count() implies (
            #[trigger] self.buffer@[self.slot(i)]) is Some by {
                assert(self.slot(i) == before.slot(i + 1));
                assert(before.buffer@[before.slot(i + 1)] is Some);
            }
            assert(self@.queue =~= before@.queue.skip(1)) by {
                assert forall|i: int| 0 <= i < self.count() implies self@.queue[i]
                    == before@.queue.skip(1)[i] by {
                    assert(self.slot(i) == before.slot(i + 1));
                }
            }
        }
        value
    }
}

/// An operation on a queue.
pub enum RingOp<T> {
    Push(T),
    Pop,
}

/// What a run of operations on a ring comes to.
#[verifier::ext_equal]
pub struct RingRun<T> {
    /// The values that were let in, in order.
    pub accepted: Seq<T>,
    /// The values that were taken out, in order.
    pub taken: Seq<T>,
    /// The ring at the end.
    pub ring: RingView<T>,
}

/// Carry out operations one after the other on a ring.
pub open spec fn run<T>(start: RingView<T>, ops: Seq<RingOp<T>>) -> RingRun<T>
    decreases ops.len(),
{
    if ops.len() == 0 {
        RingRun { accepted: Seq::empty(), taken: Seq::empty(), ring: start }
    } else {
        let before = run(start, ops.drop_last());
        match ops.last() {
            RingOp::Push(value) => {
                let (result, ring) = before.ring.pushed(value);
                RingRun {
                    accepted: if result is Ok {
                        before.accepted.push(value)
                    } else {
                        before.accepted
                    },
                    ring,
                    ..before
                }
            },
            RingOp::Pop => {
                let (result, ring) = before.ring.popped();
                RingRun {
                    taken: match result {
                        Some(value) => before.taken.push(value),
                        None => before.taken,
                    },
                    ring,
                    ..before
                }
            },
        }
    }
}

/// Values come out in the order in which they went in, each of them once: whatever is done to a
/// ring, what has been taken out, followed by what is still there, is what was there at the start,
/// followed by what was let in. Head and tail stay within the slots, and one slot always stays
/// free.
pub proof fn law_first_in_first_out<T>(start: RingView<T>, ops: Seq<RingOp<T>>)
    requires
        start.wf(),
    ensures
        start.queue + run(start, ops).accepted == run(start, ops).taken + run(
            start,
            ops,
        ).ring.queue,
        run(start, ops).ring.wf(),
        run(start, ops).ring.capacity == start.capacity,
        run(start, ops).ring.queue.len() <= start.capacity - 1,
    decreases ops.len(),
{
    let after = run(start, ops);
    if ops.len() > 0 {
        law_first_in_first_out(start, ops.drop_last());
        let before = run(start, ops.drop_last());
        match ops.last() {
            RingOp::Push(value) => {
                law_push_keeps_head(before.ring, value);
                assert(start.queue + before.accepted.push(value) =~= (start.queue
                    + before.accepted).push(value));
            },
            RingOp::Pop => law_pop_keeps_tail(before.ring),
        }
    } else {
        lemma_distance(start.head, start.tail, start.capacity);
    }
    assert(start.queue + after.accepted =~= after.taken + after.ring.queue);
}

/// A ring that is sound and has any slots is one that operations can start from.
pub proof fn law_sound_ring<T>(ring: RingBuffer<T>)
    requires
        ring.wf(),
        ring@.capacity > 0,
    ensures
        ring@.wf(),
{
    lemma_distance(ring@.head, ring@.tail, ring@.capacity);
}

/// Queueing a value never moves the head, and leaves every value that is queued in its place.
pub proof fn law_push_keeps_head<T>(ring: RingView<T>, value: T)
    requires
        ring.wf(),
    ensures
        ring.pushed(value).1.wf(),
        ring.pushed(value).1.head == ring.head,
        ring.queue.is_prefix_of(ring.pushed(value).1.queue),
{
    lemma_distance(ring.head, ring.tail, ring.capacity);
    lemma_distance(ring.head, ring.pushed(value).1.tail, ring.capacity);
}

/// Taking out a value never moves the tail, and leaves every value that comes after it in its
/// place.
pub proof fn law_pop_keeps_tail<T>(ring: RingView<T>)
    requires
        ring.wf(),
    ensures
        ring.popped().1.wf(),
        ring.popped().1.tail == ring.tail,
        ring.popped().1.queue.is_suffix_of(ring.queue),
{
    lemma_distance(ring.head, ring.tail, ring.capacity);
    lemma_distance(ring.popped().1.head, ring.tail, ring.capacity);
}

/// How far one slot lies past another, and which slot comes next, without division.
proof fn lemma_distance(from: int, to: int, capacity: int)
    requires
        0 <= from,
        0 <= to,
        capacity > 0,
    ensures
        from < capacity && to < capacity ==> (to + capacity - from) % capacity == if from <= to {
            to - from
        } else {
            to - from + capacity
        },
        from < capacity ==> next_slot(from, capacity) == if from + 1 == capacity {
            0
        } else {
            from + 1
        },
        to < capacity ==> next_slot(to, capacity) == if to + 1 == capacity {
            0
        } else {
            to + 1
        },
{
    if from < capacity && to < capacity && from <= to {
        vstd::arithmetic::div_mod::lemma_mod_add_multiples_vanish(to - from, capacity);
        vstd::arithmetic::div_mod::lemma_small_mod((to - from) as nat, capacity as nat);
    }
    if from < capacity && to < capacity && from > to {
        vstd::arithmetic::div_mod::lemma_small_mod((to - from + capacity) as nat, capacity as nat);
    }
    if from + 1 < capacity {
        vstd::arithmetic::div_mod::lemma_small_mod((from + 1) as nat, capacity as nat);
    }
    if to + 1 < capacity {
        vstd::arithmetic::div_mod::lemma_small_mod((to + 1) as nat, capacity as nat);
    }
    vstd::arithmetic::div_mod::lemma_mod_self_0(capacity);
}

/// A ring that two ends share, and what has been done to it since it was parted.
pub struct SharedRing<T> {
    pub ring: RingBuffer<T>,
    pub history: Ghost<Seq<RingOp<T>>>,
}

/// What holds of a ring that two ends share: it is sound, and it is the ring that was parted after
/// all that has been done to it.
pub struct Shared<T> {
    /// The ring that was parted.
    pub start: RingView<T>,
}

impl<T> RwLockPredicate<SharedRing<T>> for Shared<T> {
    open spec fn inv(self, shared: SharedRing<T>) -> bool {
        &&& shared.ring.wf()
        &&& shared.ring@.capacity == self.start.capacity
        &&& shared.ring@ == run(self.start, shared.history@).ring
    }
}

/// A shared ring was made of the given ring, to which nothing has been done yet.
pub open spec fn made_with<T>(
    shared: RwLock<SharedRing<T>, Shared<T>>,
    ring: RingBuffer<T>,
) -> bool {
    &&& shared.pred().start == ring@
    &&& call_ensures(
        RwLock::<SharedRing<T>, Shared<T>>::new,
        (
            SharedRing { ring, history: Ghost(Seq::<RingOp<T>>::empty()) },
            Ghost(Shared { start: ring@ }),
        ),
        shared,
    )
}

/// A shared ring was taken, found to be `before`, and given back as `after`: a call that acquires
/// the lock returned the one, and a call that releases it was handed the other.
pub open spec fn exchanged<T>(
    shared: RwLock<SharedRing<T>, Shared<T>>,
    before: SharedRing<T>,
    after: SharedRing<T>,
) -> bool {
    exists|handle: WriteHandle<'_, SharedRing<T>, Shared<T>>|
        {
            &&& #[trigger] call_ensures(
                RwLock::<SharedRing<T>, Shared<T>>::acquire_write,
                (&shared,),
                (before, handle),
            )
            &&& call_ensures(
                WriteHandle::<'_, SharedRing<T>, Shared<T>>::release_write,
                (handle, after),
                (),
            )
        }
}

/// One operation was carried out on a shared ring: it was found as it is after some operations on
/// the ring that was parted, and given back as it is after one more.
pub open spec fn operated<T>(
    shared: RwLock<SharedRing<T>, Shared<T>>,
    op: RingOp<T>,
    before: SharedRing<T>,
    after: SharedRing<T>,
) -> bool {
    &&& exchanged(shared, before, after)
    &&& shared.inv(before) && shared.inv(after)
    &&& after.history@ == before.history@.push(op)
}

/// A value was pushed into a shared ring, and this is what came of it: it was queued or handed back
/// according to what was found.
pub open spec fn push_seen<T>(
    shared: RwLock<SharedRing<T>, Shared<T>>,
    value: T,
    result: Result<(), T>,
) -> bool {
    exists|before: SharedRing<T>, after: SharedRing<T>|
        {
            &&& #[trigger] operated(shared, RingOp::Push(value), before, after)
            &&& (result, after.ring@) == before.ring@.pushed(value)
        }
}

/// A value was taken out of a shared ring, and this is what came of it: the oldest value that was
/// found, if there was any.
pub open spec fn pop_seen<T>(
    shared: RwLock<SharedRing<T>, Shared<T>>,
    result: Option<T>,
) -> bool {
    exists|before: SharedRing<T>, after: SharedRing<T>|
        {
            &&& #[trigger] operated(shared, RingOp::Pop, before, after)
            &&& (result, after.ring@) == before.ring@.popped()
        }
}

/// Both ends see one ring. While nothing has been done to it, it is the ring that was parted. What
/// is found is what was given back, if nothing was done to it in between.
pub proof fn law_ends_share_one_ring<T>(
    shared: RwLock<SharedRing<T>, Shared<T>>,
    parted: RingBuffer<T>,
    given: SharedRing<T>,
    found: SharedRing<T>,
)
    requires
        made_with(shared, parted),
        shared.inv(given),
        shared.inv(found),
    ensures
        found.history@.len() == 0 ==> found.ring@ == parted@,
        found.history@ == given.history@ ==> found.ring@ == given.ring@,
{
}

/// What one end does the other end sees: when a value has been let in at one end, the queue that is
/// found next is the one from before, followed by the value; when one has been taken out at the
/// other end, the queue that is found next is the one from before without its first value, and has
/// room for one more.
pub proof fn law_ends_see_each_other<T>(
    shared: RwLock<SharedRing<T>, Shared<T>>,
    op: RingOp<T>,
    before: SharedRing<T>,
    after: SharedRing<T>,
    found: SharedRing<T>,
)
    requires
        operated(shared, op, before, after),
        shared.inv(found),
        found.history@ == after.history@,
    ensures
        match op {
            RingOp::Push(value) => found.ring@ == before.ring@.pushed(value).1 && (
            before.ring@.pushed(value).0 is Ok ==> found.ring@.queue == before.ring@.queue.push(
                value,
            )),
            RingOp::Pop => found.ring@ == before.ring@.popped().1 && (
            before.ring@.popped().0 is Some ==> {
                &&& found.ring@.queue == before.ring@.queue.skip(1)
                &&& found.ring@.queue.len() == before.ring@.queue.len() - 1
            }),
        },
{
    assert(after.history@.drop_last() =~= before.history@);
}

/// What comes out of a shared ring went in: whatever the holders of its ends do, a value that is
/// taken out is, of the values that were there at the start and those that were let in since, the
/// first one that has not been taken out before, and nothing is taken out only if there is none.
pub proof fn law_shared_first_in_first_out<T>(
    shared: RwLock<SharedRing<T>, Shared<T>>,
    result: Option<T>,
)
    requires
        shared.pred().start.wf(),
        pop_seen(shared, result),
    ensures
        exists|history: Seq<RingOp<T>>|
            {
                let done = #[trigger] run(shared.pred().start, history);
                let all = shared.pred().start.queue + done.accepted;
                result == if done.taken.len() < all.len() {
                    Some(all[done.taken.len() as int])
                } else {
                    None
                }
            },
{
    let (before, after) = choose|before: SharedRing<T>, after: SharedRing<T>|
        {
            &&& #[trigger] operated(shared, RingOp::Pop, before, after)
            &&& (result, after.ring@) == before.ring@.popped()
        };
    let start = shared.pred().start;
    law_first_in_first_out(start, before.history@);
    let done = run(start, before.history@);
    assert((done.taken + done.ring.queue).len() == done.taken.len() + done.ring.queue.len());
    assert(done.ring.queue.len() > 0 ==> (done.taken + done.ring.queue)[done.taken.len() as int]
        == done.ring.queue[0]);
}

/// The end of a queue that values go in at.
pub struct Producer<T> {
    pub buffer: Arc<RwLock<SharedRing<T>, Shared<T>>>,
}

/// The end of a queue that values come out of.
pub struct Consumer<T> {
    pub buffer: Arc<RwLock<SharedRing<T>, Shared<T>>>,
}

impl<T> RingBuffer<T> {
    /// Part a queue into its two ends.
    pub fn split(self) -> (ends: (Producer<T>, Consumer<T>))
        requires
            self.wf(),
        ensures
            made_with(*ends.0.buffer, self),
            ends.0.buffer.pred().start == self@,
            ends.0.buffer == ends.1.buffer,
            ends.0.capacity() == self.capacity,
            ends.1.capacity() == self.capacity,
    {
        let ghost ring = self;
        let shared = SharedRing { ring: self, history: Ghost(Seq::empty()) };
        let lock = RwLock::new(shared, Ghost(Shared { start: ring@ }));
        assert(made_with(lock, ring));
        let buffer = Arc::new(lock);
        (Producer { buffer: buffer.clone() }, Consumer { buffer })
    }
}

impl<T> Clone for Producer<T> {
    fn clone(&self) -> (end: Producer<T>)
        ensures
            end.buffer == self.buffer,
    {
        Producer { buffer: self.buffer.clone() }
    }
}

impl<T> Producer<T> {
    /// How many slots the queue has.
    pub open spec fn capacity(self) -> int {
        self.buffer.pred().start.capacity
    }

    /// Return how many slots the queue has.
    pub fn slots(&self) -> (slots: usize)
        ensures
            slots == self.capacity(),
            slots == self.buffer.pred().start.capacity,
    {
        let handle = self.buffer.acquire_read();
        let slots: usize = handle.borrow().ring.capacity;
        handle.release_read();
        slots
    }

    /// Queue a value, or hand it back if only one slot is free. Other holders of either end may
    /// come in between, so the queue is the one that is found when the call gets hold of it. The
    /// contract says of one exchange with the shared queue what it found and what it did; that there
    /// was no other, and that what it found is what was given back last, is not said.
    pub fn try_push(&self, value: T) -> (result: Result<(), T>)
        requires
            self.capacity() > 0,
        ensures
            push_seen(*self.buffer, value, result),
    {
        let (before, handle) = self.buffer.acquire_write();
        let ghost found = before;
        let SharedRing { mut ring, history } = before;
        let result = ring.push(value);
        let after = SharedRing { ring, history: Ghost(history@.push(RingOp::Push(value))) };
        let ghost given = after;
        assert(given.history@.drop_last() =~= found.history@);
        handle.release_write(after);
        assert(exchanged(*self.buffer, found, given));
        assert(operated(*self.buffer, RingOp::Push(value), found, given));
        result
    }
}

impl<T> Clone for Consumer<T> {
    fn clone(&self) -> (end: Consumer<T>)
        ensures
            end.buffer == self.buffer,
    {
        Consumer { buffer: self.buffer.clone() }
    }
}

impl<T> Consumer<T> {
    /// How many slots the queue has.
    pub open spec fn capacity(self) -> int {
        self.buffer.pred().start.capacity
    }

    /// Take out the oldest value. Other holders of either end may come in between, so the queue is
    /// the one that is found when the call gets hold of it. The contract says of one exchange with
    /// the shared queue what it found and what it did; that there was no other, and that what it
    /// found is what was given back last, is not said.
    pub fn try_pop(&self) -> (result: Option<T>)
        ensures
            pop_seen(*self.buffer, result),
    {
        let (before, handle) = self.buffer.acquire_write();
        let ghost found = before;
        let SharedRing { mut ring, history } = before;
        let result = ring.pop();
        let after = SharedRing { ring, history: Ghost(history@.push(RingOp::Pop)) };
        let ghost given = after;
        assert(given.history@.drop_last() =~= found.history@);
        handle.release_write(after);
        assert(exchanged(*self.buffer, found, given));
        assert(operated(*self.buffer, RingOp::Pop, found, given));
        result
    }
}

/// The end of a port that frames are sent to.
pub struct PortSender {
    pub producer: Producer<Vec<u8>>,
}

impl PortSender {
    /// Send a frame, or hand it back if the port has no room for it.
    pub fn send(&self, data: Vec<u8>) -> (result: Result<(), Vec<u8>>)
        requires
            self.producer.capacity() > 0,
        ensures
            push_seen(*self.producer.buffer, data, result),
    {
        self.producer.try_push(data)
    }
}

/// The end of a port that frames are received from.
pub struct PortReceiver {
    pub consumer: Consumer<Vec<u8>>,
}

impl PortReceiver {
    /// Receive the frame that was sent first, if there is one.
    pub fn try_recv(&self) -> (result: Option<Vec<u8>>)
        ensures
            pop_seen(*self.consumer.buffer, result),
    {
        self.consumer.try_pop()
    }
}

/// Create the two ends of a port at which nothing waits.
pub fn create_port_channel(capacity: usize) -> (ends: (PortSender, PortReceiver))
    ensures
        exists|ring: RingBuffer<Vec<u8>>|
            {
                &&& #[trigger] made_with(*ends.0.producer.buffer, ring)
                &&& ring.wf()
                &&& ring@ == RingView::<Vec<u8>>::empty(capacity as int)
            },
        ends.0.producer.buffer == ends.1.consumer.buffer,
        ends.0.producer.capacity() == capacity,
        ends.1.consumer.capacity() == capacity,
{
    let ring_buffer = RingBuffer::new(capacity);
    let ghost ring = ring_buffer;
    let (producer, consumer) = ring_buffer.split();
    let ends = (PortSender { producer }, PortReceiver { consumer });
    assert(made_with(*ends.0.producer.buffer, ring));
    ends
}

/// A ring holds the values that stand in its slots from the head up to the tail, going round the end.
pub proof fn law_ring_holds<T>(ring: RingBuffer<T>)
    requires
        ring.wf(),
        ring.capacity > 0,
    ensures
        ring.buffer@.len() == ring.capacity,
        ring@.head == ring.head && ring@.tail == ring.tail && ring@.capacity == ring.capacity,
        ring@.queue.len() == (ring.tail + ring.capacity - ring.head) % (ring.capacity as int),
        forall|i: int|
            0 <= i < ring@.queue.len() ==> ring.buffer@[(ring.head + i) % (ring.capacity as int)]
                == Some(#[trigger] ring@.queue[i]),
{
    let capacity = ring.capacity as int;
    lemma_distance(ring.head as int, ring.tail as int, capacity);
    assert forall|i: int| 0 <= i < ring@.queue.len() implies ring.buffer@[(ring.head + i) % capacity]
        == Some(#[trigger] ring@.queue[i]) by {
        assert(ring.buffer@[ring.slot(i)] is Some);
        if ring.head + i < capacity {
            vstd::arithmetic::div_mod::lemma_small_mod((ring.head + i) as nat, capacity as nat);
        } else {
            let rest = ring.head + i - capacity;
            vstd::arithmetic::div_mod::lemma_mod_add_multiples_vanish(rest, capacity);
            vstd::arithmetic::div_mod::lemma_small_mod(rest as nat, capacity as nat);
        }
    }
}

/// A value is let in if and only if more than one slot is free, and then it is the last in the
/// queue; otherwise it is handed back, and the ring is as it was.
pub proof fn law_push<T>(ring: RingView<T>, value: T)
    requires
        ring.wf(),
    ensures
        ({
            let (result, after) = ring.pushed(value);
            if ring.queue.len() < ring.capacity - 1 {
                &&& result == Ok::<(), T>(())
                &&& after.queue == ring.queue + seq![value]
                &&& after.head == ring.head
                &&& after.tail == (ring.tail + 1) % ring.capacity
                &&& after.capacity == ring.capacity
            } else {
                &&& result == Err::<(), T>(value)
                &&& after == ring
            }
        }),
{
    assert(ring.queue.push(value) =~= ring.queue + seq![value]);
}

/// The value that is taken out is the first in the queue, and the others stay; nothing is taken out
/// if and only if nothing is there.
pub proof fn law_pop<T>(ring: RingView<T>)
    requires
        ring.wf(),
    ensures
        ({
            let (result, after) = ring.popped();
            match result {
                Some(value) => {
                    &&& ring.queue == seq![value] + after.queue
                    &&& after.head == (ring.head + 1) % ring.capacity
                    &&& after.tail == ring.tail
                    &&& after.capacity == ring.capacity
                },
                None => ring.queue.len() == 0 && after == ring,
            }
        }),
{
    if ring.queue.len() > 0 {
        assert(ring.queue =~= seq![ring.queue[0]] + ring.queue.skip(1));
    }
}

/// Pushing values, one after the other.
pub open spec fn pushes<T>(values: Seq<T>) -> Seq<RingOp<T>> {
    Seq::new(values.len(), |i: int| RingOp::Push(values[i]))
}

/// Popping so many times.
pub open spec fn pops<T>(count: nat) -> Seq<RingOp<T>> {
    Seq::new(count, |i: int| RingOp::Pop)
}

/// A new ring has room for one value less than it has slots: of values that are pushed one after the
/// other, it lets in the first ones, up to that many.
pub proof fn law_new_ring_fills<T>(capacity: int, values: Seq<T>)
    requires
        capacity > 0,
    ensures
        run(RingView::empty(capacity), pushes(values)).ring.queue == if values.len() <= capacity
            - 1 {
            values
        } else {
            values.take(capacity - 1)
        },
        run(RingView::empty(capacity), pushes(values)).ring.capacity == capacity,
    decreases values.len(),
{
    let start = RingView::<T>::empty(capacity);
    let queue = run(start, pushes(values)).ring.queue;
    if values.len() > 0 {
        law_new_ring_fills(capacity, values.drop_last());
        assert(pushes(values).drop_last() =~= pushes(values.drop_last()));
        assert(pushes(values).last() == RingOp::Push(values.last()));
        let before = run(start, pushes(values.drop_last())).ring;
        if values.len() <= capacity - 1 {
            assert(queue =~= values);
        } else {
            assert(queue =~= values.take(capacity - 1));
        }
    } else {
        assert(queue =~= values);
    }
}

/// Popping takes out the queued values in order, as many as there are.
pub proof fn law_ring_empties<T>(start: RingView<T>, count: nat)
    requires
        start.wf(),
    ensures
        run(start, pops(count)).taken == if count <= start.queue.len() {
            start.queue.take(count as int)
        } else {
            start.queue
        },
        run(start, pops(count)).accepted.len() == 0,
    decreases count,
{
    law_first_in_first_out(start, pops(count));
    let after = run(start, pops(count));
    if count > 0 {
        let fewer = (count - 1) as nat;
        law_ring_empties(start, fewer);
        law_first_in_first_out(start, pops(fewer));
        assert(pops::<T>(count).drop_last() =~= pops::<T>(fewer));
        assert(pops::<T>(count).last() == RingOp::<T>::Pop);
        let before = run(start, pops(fewer));
        assert(start.queue + before.accepted =~= start.queue);
        assert(before.taken + before.ring.queue == start.queue);
        assert(before.ring.queue.len() > 0 ==> start.queue[before.taken.len() as int]
            == before.ring.queue[0]);
        if count <= start.queue.len() {
            assert(after.taken =~= start.queue.take(count as int));
        } else {
            assert(after.taken =~= start.queue);
        }
    } else {
        assert(after.taken =~= start.queue.take(0));
    }
}

/// A new ring holds nothing, and its head and tail stand at the first slot.
pub proof fn law_new_ring<T>(capacity: int)
    requires
        capacity > 0,
    ensures
        RingView::<T>::empty(capacity).queue.len() == 0,
        RingView::<T>::empty(capacity).head == 0,
        RingView::<T>::empty(capacity).tail == 0,
        RingView::<T>::empty(capacity).capacity == capacity,
        RingView::<T>::empty(capacity).wf(),
{
    lemma_distance(0, 0, capacity);
}

/// A shared ring that was made of a ring was handed that ring, with nothing done to it, and remembers
/// it as the one that was parted.
pub proof fn law_parted<T>(shared: RwLock<SharedRing<T>, Shared<T>>, ring: RingBuffer<T>)
    requires
        made_with(shared, ring),
    ensures
        shared.pred().start == ring@,
        exists|given: SharedRing<T>, shares: Ghost<Shared<T>>|
            {
                &&& #[trigger] call_ensures(
                    RwLock::<SharedRing<T>, Shared<T>>::new,
                    (given, shares),
                    shared,
                )
                &&& given.ring == ring
                &&& given.history@.len() == 0
                &&& shares@.start == ring@
            },
{
}

/// An operation on a shared ring takes the ring from the lock and gives it back, once more operated
/// on than it was found.
pub proof fn law_operation<T>(
    shared: RwLock<SharedRing<T>, Shared<T>>,
    op: RingOp<T>,
    before: SharedRing<T>,
    after: SharedRing<T>,
)
    requires
        operated(shared, op, before, after),
    ensures
        exists|handle: WriteHandle<'_, SharedRing<T>, Shared<T>>|
            {
                &&& #[trigger] call_ensures(
                    RwLock::<SharedRing<T>, Shared<T>>::acquire_write,
                    (&shared,),
                    (before, handle),
                )
                &&& call_ensures(
                    WriteHandle::<'_, SharedRing<T>, Shared<T>>::release_write,
                    (handle, after),
                    (),
                )
            },
        shared.inv(before),
        shared.inv(after),
        after.history@.len() == before.history@.len() + 1,
        after.history@.last() == op,
        after.history@.drop_last() == before.history@,
{
    assert(after.history@.drop_last() =~= before.history@);
}

/// What a push and a pop of a shared ring come to is what one operation on it comes to.
pub proof fn law_ends_operate<T>(
    shared: RwLock<SharedRing<T>, Shared<T>>,
    value: T,
    pushed: Result<(), T>,
    popped: Option<T>,
)
    requires
        push_seen(shared, value, pushed),
        pop_seen(shared, popped),
    ensures
        exists|before: SharedRing<T>, after: SharedRing<T>|
            {
                &&& #[trigger] operated(shared, RingOp::Push(value), before, after)
                &&& pushed is Ok <==> before.ring@.queue.len() + 1 < before.ring@.capacity
            },
        exists|before: SharedRing<T>, after: SharedRing<T>|
            {
                &&& #[trigger] operated(shared, RingOp::Pop, before, after)
                &&& popped == if before.ring@.queue.len() > 0 {
                    Some(before.ring@.queue[0])
                } else {
                    None
                }
            },
{
}

/// What is found in a shared ring is sound, has the slots of the ring that was parted, and is what
/// its history made of that ring.
pub proof fn law_shared_ring_is_sound<T>(
    shared: RwLock<SharedRing<T>, Shared<T>>,
    found: SharedRing<T>,
)
    requires
        shared.inv(found),
    ensures
        found.ring.wf(),
        found.ring@.capacity == shared.pred().start.capacity,
        found.ring@ == run(shared.pred().start, found.history@).ring,
{
}

/// A value that is not let into a shared ring is handed back as it was.
pub proof fn law_push_hands_back<T>(
    shared: RwLock<SharedRing<T>, Shared<T>>,
    value: T,
    result: Result<(), T>,
)
    requires
        push_seen(shared, value, result),
    ensures
        result matches Err(back) ==> back == value,
{
}

/// Whether a value is let into a shared ring depends on whether, after all that was done to it, more
/// than one slot is free; if it is let in, it is the last of those that were.
pub proof fn law_shared_push<T>(
    shared: RwLock<SharedRing<T>, Shared<T>>,
    value: T,
    result: Result<(), T>,
)
    requires
        shared.pred().start.wf(),
        push_seen(shared, value, result),
    ensures
        exists|history: Seq<RingOp<T>>|
            {
                let before = #[trigger] run(shared.pred().start, history);
                let after = run(shared.pred().start, history.push(RingOp::Push(value)));
                &&& result is Ok <==> before.ring.queue.len() < shared.pred().start.capacity - 1
                &&& result is Ok ==> after.ring.queue == before.ring.queue + seq![value]
                    && after.accepted == before.accepted + seq![value]
                &&& result is Err ==> result == Err::<(), T>(value) && after.ring == before.ring
            },
{
    let (before, after) = choose|before: SharedRing<T>, after: SharedRing<T>|
        {
            &&& #[trigger] operated(shared, RingOp::Push(value), before, after)
            &&& (result, after.ring@) == before.ring@.pushed(value)
        };
    let start = shared.pred().start;
    let history = before.history@;
    law_first_in_first_out(start, history);
    let done = run(start, history);
    let more = history.push(RingOp::Push(value));
    assert(more.drop_last() =~= history);
    law_push(done.ring, value);
    assert(done.accepted.push(value) =~= done.accepted + seq![value]);
    assert(run(start, more).ring == done.ring.pushed(value).1);
}

} // verus!
