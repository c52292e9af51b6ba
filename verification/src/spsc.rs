//! A bounded channel from one producer to one consumer.
//!
//! What a step does to the channel is decided by [`Passage`], whose contracts are
//! exact. The two halves share a passage behind a lock. A half that cannot go on
//! waits for the other, which rings a bell after each of its steps.

use std::collections::VecDeque;
use std::sync::Arc;
use std::sync::Condvar;
use std::sync::Mutex;
use std::sync::MutexGuard;
use vstd::prelude::*;

verus! {

// The ring.

/// The messages in transit, oldest first, and how many there is room for.
pub struct Ring<T> {
    queue: VecDeque<T>,
    capacity: usize,
}

/// What came of an attempt to send.
pub enum Offer<T> {
    Sent,
    /// There is no room at the moment. The message comes back.
    Full(T),
    /// The consumer is gone. The message comes back.
    Closed(T),
}

/// What came of an attempt to receive.
pub enum Taken<T> {
    Received(T),
    /// There is no message at the moment.
    Empty,
    /// The producer is gone and no message remains.
    Closed,
}

impl<T> Ring<T> {
    /// The messages in transit, oldest first.
    pub closed spec fn messages(&self) -> Seq<T> {
        self.queue@
    }

    /// How many messages there is room for.
    pub closed spec fn capacity(&self) -> nat {
        self.capacity as nat
    }

    /// An empty ring with room for `capacity` messages, and for one at least.
    pub fn new(capacity: usize) -> (r: Self)
        ensures
            r.messages() == Seq::<T>::empty(),
            r.capacity() == (if capacity == 0 {
                1
            } else {
                capacity as nat
            }),
    {
        let capacity: usize = if capacity == 0 {
            1
        } else {
            capacity
        };
        Ring { queue: VecDeque::new(), capacity }
    }

    pub fn is_empty(&self) -> (r: bool)
        ensures
            r == (self.messages().len() == 0),
    {
        self.queue.len() == 0
    }

    /// Whether there is no room for another message.
    pub fn is_full(&self) -> (r: bool)
        ensures
            r == (self.messages().len() >= self.capacity()),
    {
        self.queue.len() >= self.capacity
    }

    /// Tries to send `value`, knowing whether the consumer is gone.
    pub fn offer(&mut self, value: T, consumer_gone: bool) -> (r: Offer<T>)
        ensures
            final(self).capacity() == old(self).capacity(),
            if consumer_gone {
                &&& r == Offer::Closed(value)
                &&& final(self).messages() == old(self).messages()
            } else if old(self).messages().len() < old(self).capacity() {
                &&& r is Sent
                &&& final(self).messages() == old(self).messages().push(value)
            } else {
                &&& r == Offer::Full(value)
                &&& final(self).messages() == old(self).messages()
            },
    {
        if consumer_gone {
            Offer::Closed(value)
        } else if self.queue.len() < self.capacity {
            self.queue.push_back(value);
            Offer::Sent
        } else {
            Offer::Full(value)
        }
    }

    /// Tries to receive a message, knowing whether the producer was gone before
    /// the ring was looked at.
    pub fn take(&mut self, producer_gone: bool) -> (r: Taken<T>)
        ensures
            final(self).capacity() == old(self).capacity(),
            if old(self).messages().len() > 0 {
                &&& r == Taken::Received(old(self).messages()[0])
                &&& final(self).messages() == old(self).messages().skip(1)
            } else {
                &&& final(self).messages() == old(self).messages()
                &&& r == (if producer_gone {
                    Taken::<T>::Closed
                } else {
                    Taken::<T>::Empty
                })
            },
    {
        match self.queue.pop_front() {
            Some(value) => {
                assert(self.queue@ =~= old(self).queue@.skip(1));
                Taken::Received(value)
            },
            None => {
                if producer_gone {
                    Taken::Closed
                } else {
                    Taken::Empty
                }
            },
        }
    }
}

// The passage.

/// One of the two halves of a channel.
#[derive(Clone, Copy, PartialEq, Eq, Structural, Debug)]
pub enum Half {
    Producer,
    Consumer,
}

/// What the two halves share: the messages in transit, and which half is gone.
pub struct Passage<T> {
    ring: Ring<T>,
    producer_gone: bool,
    consumer_gone: bool,
}

impl<T> Passage<T> {
    /// The messages in transit, oldest first.
    pub closed spec fn messages(&self) -> Seq<T> {
        self.ring.messages()
    }

    /// How many messages there is room for.
    pub closed spec fn capacity(&self) -> nat {
        self.ring.capacity()
    }

    /// Whether the given half has been dropped.
    pub closed spec fn gone(&self, half: Half) -> bool {
        match half {
            Half::Producer => self.producer_gone,
            Half::Consumer => self.consumer_gone,
        }
    }

    /// Whether the given half can do nothing for now but wait for the other: the
    /// producer while there is no room, the consumer while there is no message.
    pub open spec fn is_blocked(&self, half: Half) -> bool {
        match half {
            Half::Producer => !self.gone(Half::Consumer) && self.messages().len()
                >= self.capacity(),
            Half::Consumer => !self.gone(Half::Producer) && self.messages().len() == 0,
        }
    }

    /// A passage with both halves present, no message in it, and room for
    /// `capacity` messages, and for one at least.
    pub open spec fn is_fresh(&self, capacity: usize) -> bool {
        &&& self.messages() == Seq::<T>::empty()
        &&& self.capacity() == (if capacity == 0 {
            1
        } else {
            capacity as nat
        })
        &&& !self.gone(Half::Producer)
        &&& !self.gone(Half::Consumer)
    }

    pub fn new(capacity: usize) -> (r: Self)
        ensures
            r.is_fresh(capacity),
    {
        Passage { ring: Ring::new(capacity), producer_gone: false, consumer_gone: false }
    }

    /// Whether the given half has to wait.
    pub fn must_wait(&self, half: Half) -> (r: bool)
        ensures
            r == self.is_blocked(half),
    {
        match half {
            Half::Producer => !self.consumer_gone && self.ring.is_full(),
            Half::Consumer => !self.producer_gone && self.ring.is_empty(),
        }
    }

    /// Tries to send `value`.
    pub fn offer(&mut self, value: T) -> (r: Offer<T>)
        ensures
            is_offer(*old(self), value, r, *final(self)),
    {
        self.ring.offer(value, self.consumer_gone)
    }

    /// Tries to receive a message.
    pub fn take(&mut self) -> (r: Taken<T>)
        ensures
            is_take(*old(self), r, *final(self)),
    {
        self.ring.take(self.producer_gone)
    }

    /// Takes note that the given half has been dropped.
    pub fn leave(&mut self, half: Half)
        ensures
            is_leave(*old(self), half, *final(self)),
        opens_invariants none
        no_unwind
    {
        match half {
            Half::Producer => {
                self.producer_gone = true;
            },
            Half::Consumer => {
                self.consumer_gone = true;
            },
        }
    }
}

/// Whether an attempt to send `value` into `before`, answered with `r`, leaves
/// `after`.
pub open spec fn is_offer<T>(
    before: Passage<T>,
    value: T,
    r: Offer<T>,
    after: Passage<T>,
) -> bool {
    &&& after.capacity() == before.capacity()
    &&& forall|half: Half| #[trigger] after.gone(half) == before.gone(half)
    &&& if before.gone(Half::Consumer) {
        &&& r == Offer::Closed(value)
        &&& after.messages() == before.messages()
    } else if before.messages().len() < before.capacity() {
        &&& r == Offer::<T>::Sent
        &&& after.messages() == before.messages().push(value)
    } else {
        &&& r == Offer::Full(value)
        &&& after.messages() == before.messages()
    }
}

/// Whether an attempt to receive from `before`, answered with `r`, leaves
/// `after`.
pub open spec fn is_take<T>(before: Passage<T>, r: Taken<T>, after: Passage<T>) -> bool {
    &&& after.capacity() == before.capacity()
    &&& forall|half: Half| #[trigger] after.gone(half) == before.gone(half)
    &&& if before.messages().len() > 0 {
        &&& r == Taken::Received(before.messages()[0])
        &&& after.messages() == before.messages().skip(1)
    } else {
        &&& r == (if before.gone(Half::Producer) {
            Taken::<T>::Closed
        } else {
            Taken::<T>::Empty
        })
        &&& after.messages() == before.messages()
    }
}

/// Whether the loss of the given half turns `before` into `after`.
pub open spec fn is_leave<T>(before: Passage<T>, half: Half, after: Passage<T>) -> bool {
    &&& after.capacity() == before.capacity()
    &&& after.messages() == before.messages()
    &&& forall|h: Half| #[trigger] after.gone(h) == (h == half || before.gone(h))
}

// What a half does next.

/// What a half does once an attempt has been answered.
pub enum Next<R, W> {
    /// It returns this.
    Return(R),
    /// It waits for the other half and tries again, with this in its hands.
    Wait(W),
}

impl<T> Offer<T> {
    /// What the producer does next: it returns once the message is sent or the
    /// consumer is gone, and waits while there is no room.
    pub fn next(self) -> (r: Next<Result<(), SendError<T>>, T>)
        ensures
            r == (match self {
                Offer::Sent => Next::Return(Ok(())),
                Offer::Closed(v) => Next::Return(Err(SendError(v))),
                Offer::Full(v) => Next::Wait(v),
            }),
    {
        match self {
            Offer::Sent => Next::Return(Ok(())),
            Offer::Closed(v) => Next::Return(Err(SendError(v))),
            Offer::Full(v) => Next::Wait(v),
        }
    }
}

impl<T> Taken<T> {
    /// What the consumer does next: it returns once it has a message or the
    /// producer is gone and none is left, and waits while there is none.
    pub fn next(self) -> (r: Next<Result<T, RecvError>, ()>)
        ensures
            r == (match self {
                Taken::Received(v) => Next::Return(Ok(v)),
                Taken::Closed => Next::Return(Err(RecvError)),
                Taken::Empty => Next::Wait(()),
            }),
    {
        match self {
            Taken::Received(v) => Next::Return(Ok(v)),
            Taken::Closed => Next::Return(Err(RecvError)),
            Taken::Empty => Next::Wait(()),
        }
    }
}

// What every step keeps.

/// Whether `sent` messages came in and `received` went out: none is lost, none
/// is received twice, and they arrive in the order in which they were sent.
pub open spec fn in_transit<T>(sent: Seq<T>, received: Seq<T>, messages: Seq<T>) -> bool {
    sent == received + messages
}

/// Sending a message keeps the order and the count of messages.
pub proof fn law_sending_keeps_order<T>(
    sent: Seq<T>,
    received: Seq<T>,
    messages: Seq<T>,
    value: T,
)
    requires
        in_transit(sent, received, messages),
    ensures
        in_transit(sent.push(value), received, messages.push(value)),
{
    assert(sent.push(value) =~= received + messages.push(value));
}

/// Receiving a message keeps the order and the count of messages: what is
/// received next is the oldest message that was sent and not yet received.
pub proof fn law_receiving_keeps_order<T>(sent: Seq<T>, received: Seq<T>, messages: Seq<T>)
    requires
        in_transit(sent, received, messages),
        messages.len() > 0,
    ensures
        sent[received.len() as int] == messages[0],
        in_transit(sent, received.push(messages[0]), messages.skip(1)),
{
    assert(sent =~= received.push(messages[0]) + messages.skip(1));
}

/// Once the producer is gone and the ring is empty, everything that was sent has
/// been received.
pub proof fn law_closed_means_drained<T>(sent: Seq<T>, received: Seq<T>, messages: Seq<T>)
    requires
        in_transit(sent, received, messages),
        messages.len() == 0,
    ensures
        received == sent,
{
    assert(received =~= sent);
}

/// Sending and receiving in turn gives each message back, and leaves nothing in
/// transit.
pub proof fn law_sent_then_received<T>(
    before: Passage<T>,
    value: T,
    sent: Offer<T>,
    between: Passage<T>,
    received: Taken<T>,
    after: Passage<T>,
)
    requires
        before.messages().len() == 0,
        before.capacity() > 0,
        !before.gone(Half::Consumer),
        is_offer(before, value, sent, between),
        is_take(between, received, after),
    ensures
        sent == Offer::<T>::Sent,
        received == Taken::Received(value),
        after.messages() == before.messages(),
{
    assert(after.messages() =~= before.messages());
}

/// Once the producer is gone and no message is left, every further attempt to
/// receive is answered with `Closed`.
pub proof fn law_closed_for_good<T>(
    before: Passage<T>,
    r: Taken<T>,
    between: Passage<T>,
    again: Taken<T>,
    after: Passage<T>,
)
    requires
        is_take(before, r, between),
        r is Closed,
        is_take(between, again, after),
    ensures
        again is Closed,
        before.gone(Half::Producer),
        before.messages().len() == 0,
{
}

/// A half waits exactly where its attempt would be answered with `Full` or
/// `Empty`.
pub proof fn law_blocked_means_waiting<T>(
    p: Passage<T>,
    value: T,
    sent: Offer<T>,
    after_sending: Passage<T>,
    received: Taken<T>,
    after_receiving: Passage<T>,
)
    requires
        is_offer(p, value, sent, after_sending),
        is_take(p, received, after_receiving),
    ensures
        p.is_blocked(Half::Producer) <==> sent is Full,
        p.is_blocked(Half::Consumer) <==> received is Empty,
{
}

/// The loss of a half ends the wait of the other, for good.
pub proof fn law_leaving_unblocks<T>(before: Passage<T>, half: Half, after: Passage<T>)
    requires
        is_leave(before, half, after),
    ensures
        half is Producer ==> !after.is_blocked(Half::Consumer),
        half is Consumer ==> !after.is_blocked(Half::Producer),
{
}

// Whole runs.

/// One thing that happens to a passage.
pub enum Event<T> {
    /// The producer tries to send this, and is answered so.
    Offered(T, Offer<T>),
    /// The consumer tries to receive, and is answered so.
    Asked(Taken<T>),
    /// This half is dropped.
    Left(Half),
}

/// Whether `e` turns `before` into `after`.
pub open spec fn is_step<T>(before: Passage<T>, e: Event<T>, after: Passage<T>) -> bool {
    match e {
        Event::Offered(value, r) => is_offer(before, value, r, after),
        Event::Asked(r) => is_take(before, r, after),
        Event::Left(half) => is_leave(before, half, after),
    }
}

/// Whether `events` take a fresh passage with room for `capacity` messages through
/// the states `ps`, the first of which is the fresh one.
pub open spec fn is_run<T>(capacity: usize, ps: Seq<Passage<T>>, events: Seq<Event<T>>) -> bool {
    &&& ps.len() == events.len() + 1
    &&& ps[0].is_fresh(capacity)
    &&& forall|i: int|
        0 <= i < events.len() ==> is_step(ps[i], #[trigger] events[i], ps[i + 1])
}

/// The messages that are sent in the first `n` of `events`, in order.
pub open spec fn sent_in<T>(events: Seq<Event<T>>, n: int) -> Seq<T>
    decreases n,
{
    if n <= 0 {
        Seq::empty()
    } else {
        match events[n - 1] {
            Event::Offered(value, Offer::Sent) => sent_in(events, n - 1).push(value),
            _ => sent_in(events, n - 1),
        }
    }
}

/// The messages that are received in the first `n` of `events`, in order.
pub open spec fn received_in<T>(events: Seq<Event<T>>, n: int) -> Seq<T>
    decreases n,
{
    if n <= 0 {
        Seq::empty()
    } else {
        match events[n - 1] {
            Event::Asked(Taken::Received(value)) => received_in(events, n - 1).push(value),
            _ => received_in(events, n - 1),
        }
    }
}

/// Whether the given half is dropped in the first `n` of `events`.
pub open spec fn left_in<T>(events: Seq<Event<T>>, half: Half, n: int) -> bool {
    exists|i: int| 0 <= i < n && (#[trigger] events[i]) == Event::<T>::Left(half)
}

/// However sending, receiving and dropping the halves interleave, what was sent is
/// what was received followed by what is in transit: messages arrive in order, each
/// once, and none is lost. There are never more in transit than there is room for,
/// and a half is known to be gone exactly if it was dropped.
pub proof fn law_order_over_a_run<T>(
    capacity: usize,
    ps: Seq<Passage<T>>,
    events: Seq<Event<T>>,
    n: int,
)
    requires
        is_run(capacity, ps, events),
        0 <= n <= events.len(),
    ensures
        in_transit(sent_in(events, n), received_in(events, n), ps[n].messages()),
        ps[n].capacity() == ps[0].capacity(),
        ps[n].messages().len() <= ps[n].capacity(),
        ps[n].gone(Half::Producer) <==> left_in(events, Half::Producer, n),
        ps[n].gone(Half::Consumer) <==> left_in(events, Half::Consumer, n),
    decreases n,
{
    let sent = sent_in(events, n);
    let received = received_in(events, n);
    if n == 0 {
        assert(sent =~= received + ps[0].messages());
    } else {
        law_order_over_a_run(capacity, ps, events, n - 1);
        let e = events[n - 1];
        let before = ps[n - 1];
        assert(is_step(before, e, ps[n - 1 + 1]));
        assert(sent =~= received + ps[n].messages());
        lemma_left_in(events, Half::Producer, n);
        lemma_left_in(events, Half::Consumer, n);
    }
}

proof fn lemma_left_in<T>(events: Seq<Event<T>>, half: Half, n: int)
    requires
        0 < n <= events.len(),
    ensures
        left_in(events, half, n) <==> left_in(events, half, n - 1) || events[n - 1]
            == Event::<T>::Left(half),
{
    if left_in(events, half, n - 1) {
        let i = choose|i: int| 0 <= i < n - 1 && (#[trigger] events[i]) == Event::<T>::Left(half);
        assert(events[i] == Event::<T>::Left(half));
    }
    if left_in(events, half, n) && events[n - 1] != Event::<T>::Left(half) {
        let i = choose|i: int| 0 <= i < n && (#[trigger] events[i]) == Event::<T>::Left(half);
        assert(i < n - 1);
    }
}

/// The answer `Closed` to the consumer comes only once the producer has been
/// dropped and everything that was sent has been received, and from then on to
/// every attempt, as long as nothing more is sent. `Received` brings the oldest
/// message that was not received yet, and `Empty` comes only while the producer is
/// there.
pub proof fn law_receiving_over_a_run<T>(
    capacity: usize,
    ps: Seq<Passage<T>>,
    events: Seq<Event<T>>,
    n: int,
    m: int,
)
    requires
        is_run(capacity, ps, events),
        0 <= n <= m < events.len(),
        events[n] is Asked,
    ensures
        match events[n]->Asked_0 {
            Taken::Received(v) => received_in(events, n).len() < sent_in(events, n).len() && v
                == sent_in(events, n)[received_in(events, n).len() as int],
            Taken::Empty => !left_in(events, Half::Producer, n) && received_in(events, n)
                == sent_in(events, n),
            Taken::Closed => left_in(events, Half::Producer, n) && received_in(events, n)
                == sent_in(events, n),
        },
        events[n]->Asked_0 is Closed && sent_in(events, m) == sent_in(events, n)
            && events[m] is Asked ==> events[m]->Asked_0 is Closed,
{
    law_order_over_a_run(capacity, ps, events, n);
    law_order_over_a_run(capacity, ps, events, m);
    assert(is_step(ps[n], events[n], ps[n + 1]));
    assert(is_step(ps[m], events[m], ps[m + 1]));
    let sent = sent_in(events, n);
    let received = received_in(events, n);
    if ps[n].messages().len() > 0 {
        assert(sent[received.len() as int] == ps[n].messages()[0]);
    } else {
        assert(received =~= sent);
    }
    if events[n]->Asked_0 is Closed && sent_in(events, m) == sent {
        lemma_received_grows(events, n, m);
        assert(ps[m].messages().len() == 0);
        let i = choose|i: int|
            0 <= i < n && (#[trigger] events[i]) == Event::<T>::Left(Half::Producer);
        assert(0 <= i < m && events[i] == Event::<T>::Left(Half::Producer));
    }
}

proof fn lemma_received_grows<T>(events: Seq<Event<T>>, n: int, m: int)
    requires
        0 <= n <= m <= events.len(),
    ensures
        received_in(events, n).len() <= received_in(events, m).len(),
    decreases m,
{
    if n < m {
        lemma_received_grows(events, n, m - 1);
    }
}

/// What becomes of each message that is offered: it is sent, and then received
/// once or still in transit, to be dropped with the passage; or it comes back,
/// because there is no room while the consumer is there, or because the consumer
/// has been dropped. Once it has, every message comes back.
pub proof fn law_sending_over_a_run<T>(
    capacity: usize,
    ps: Seq<Passage<T>>,
    events: Seq<Event<T>>,
    n: int,
)
    requires
        is_run(capacity, ps, events),
        0 <= n < events.len(),
        events[n] is Offered,
    ensures
        ({
            let value = events[n]->Offered_0;
            match events[n]->Offered_1 {
                Offer::Sent => !left_in(events, Half::Consumer, n) && sent_in(events, n + 1)
                    == sent_in(events, n).push(value),
                Offer::Full(v) => v == value && !left_in(events, Half::Consumer, n) && sent_in(
                    events,
                    n + 1,
                ) == sent_in(events, n) && sent_in(events, n).len() == received_in(events, n).len()
                    + ps[n].capacity(),
                Offer::Closed(v) => v == value && left_in(events, Half::Consumer, n) && sent_in(
                    events,
                    n + 1,
                ) == sent_in(events, n),
            }
        }),
{
    law_order_over_a_run(capacity, ps, events, n);
    assert(is_step(ps[n], events[n], ps[n + 1]));
}

// The lock and the bell.

/// A lock around a value.
#[verifier::external_type_specification]
#[verifier::external_body]
#[verifier::reject_recursive_types(T)]
pub struct ExMutex<T: ?Sized>(std::sync::Mutex<T>);

/// A value whose lock is held.
#[verifier::external_type_specification]
#[verifier::external_body]
#[verifier::reject_recursive_types(T)]
pub struct ExMutexGuard<'a, T: ?Sized + 'a>(std::sync::MutexGuard<'a, T>);

/// `Mutex::new`. Nothing is promised: what a lock holds changes under it.
#[verifier::external_body]
fn guarded<T>(value: T) -> (r: Mutex<T>) {
    Mutex::new(value)
}

/// `Mutex::lock`. Waits for the lock; that another holder panicked does not
/// matter here. It may panic only where the thread already holds the lock, and no
/// caller does. Nothing is promised: what the lock holds is up to the other side.
#[verifier::external_body]
fn hold<'a, T>(lock: &'a Mutex<T>) -> (r: MutexGuard<'a, T>)
    opens_invariants none
    no_unwind
{
    match lock.lock() {
        Ok(guard) => guard,
        Err(poisoned) => poisoned.into_inner(),
    }
}

/// `MutexGuard::deref_mut`: the value whose lock is held.
#[verifier::external_body]
fn held_value<'a, 'b, T>(guard: &'a mut MutexGuard<'b, T>) -> (r: &'a mut T)
    opens_invariants none
    no_unwind
{
    &mut **guard
}

/// A bell that threads wait for.
#[verifier::external_type_specification]
#[verifier::external_body]
pub struct ExCondvar(std::sync::Condvar);

/// `Condvar::new`.
#[verifier::external_body]
fn new_bell() -> (r: Condvar) {
    Condvar::new()
}

/// `Condvar::notify_all`: wakes every thread that waits for the bell.
#[verifier::external_body]
fn ring_bell(bell: &Condvar)
    opens_invariants none
    no_unwind
{
    bell.notify_all()
}

/// `Condvar::wait_while`: gives the lock up while the given half has to wait, and
/// returns with the lock held again. With `Ok` the half need not wait: the passage
/// that is then found behind the lock does not block it. With `Err` nothing is
/// promised: another holder of the lock has panicked, which ends the wait early.
#[verifier::external_body]
fn wait_turn<'a, T>(bell: &Condvar, guard: MutexGuard<'a, Passage<T>>, half: Half) -> (r: Result<
    MutexGuard<'a, Passage<T>>,
    MutexGuard<'a, Passage<T>>,
>)
    ensures
        r is Ok ==> forall|g: &mut MutexGuard<Passage<T>>, p: &mut Passage<T>|
            *g == r->Ok_0 && #[trigger] call_ensures(held_value::<Passage<T>>, (g,), p)
                ==> !p.is_blocked(half),
{
    match bell.wait_while(guard, |p| p.must_wait(half)) {
        Ok(guard) => Ok(guard),
        Err(poisoned) => Err(poisoned.into_inner()),
    }
}

// The channel.

#[verifier::reject_recursive_types(T)]
struct Shared<T> {
    passage: Mutex<Passage<T>>,
    bell: Condvar,
}

impl<T> Shared<T> {
    /// Whether a wait of the given half may end with `guard` held, in time or,
    /// because a holder of the lock has panicked, early.
    spec fn may_wait(&self, half: Half, guard: MutexGuard<Passage<T>>, early: bool) -> bool {
        exists|first: MutexGuard<Passage<T>>,
            w: Result<MutexGuard<Passage<T>>, MutexGuard<Passage<T>>>|
            {
                &&& #[trigger] call_ensures(hold::<Passage<T>>, (&self.passage,), first)
                &&& #[trigger] call_ensures(wait_turn::<T>, (&self.bell, first, half), w)
                &&& w == (if early {
                    Err::<MutexGuard<Passage<T>>, MutexGuard<Passage<T>>>(guard)
                } else {
                    Ok(guard)
                })
            }
    }

    /// Whether a wait of the given half may end early.
    spec fn may_break(&self, half: Half) -> bool {
        exists|guard: MutexGuard<Passage<T>>| #[trigger] self.may_wait(half, guard, true)
    }

    /// Waits for the turn of the given half. Returns with the lock held, and
    /// whether the wait has ended early.
    fn wait<'a>(&'a self, half: Half) -> (r: (MutexGuard<'a, Passage<T>>, bool))
        ensures
            self.may_wait(half, r.0, r.1),
            !r.1 ==> forall|g: &mut MutexGuard<Passage<T>>, p: &mut Passage<T>|
                *g == r.0 && #[trigger] call_ensures(held_value::<Passage<T>>, (g,), p)
                    ==> !p.is_blocked(half),
    {
        let first: MutexGuard<Passage<T>> = hold(&self.passage);
        match wait_turn(&self.bell, first, half) {
            Ok(guard) => (guard, false),
            Err(guard) => (guard, true),
        }
    }

    /// Takes note that the given half has been dropped, and wakes the other.
    fn leave(&self, half: Half)
        ensures
            exists|guard: &mut MutexGuard<Passage<T>>, p: &mut Passage<T>|
                {
                    &&& call_ensures(hold::<Passage<T>>, (&self.passage,), *guard)
                    &&& #[trigger] call_ensures(held_value::<Passage<T>>, (guard,), p)
                    &&& is_leave(*p, half, *final(p))
                },
            call_ensures(ring_bell, (&self.bell,), ()),
        opens_invariants none
        no_unwind
    {
        {
            let mut guard: MutexGuard<Passage<T>> = hold(&self.passage);
            let p: &mut Passage<T> = held_value(&mut guard);
            p.leave(half);
        }
        ring_bell(&self.bell)
    }
}

/// Sending half of the channel.
#[verifier::reject_recursive_types(T)]
pub struct Producer<T: Send> {
    shared: Arc<Shared<T>>,
}

/// Receiving half of the channel.
#[verifier::reject_recursive_types(T)]
pub struct Consumer<T: Send> {
    shared: Arc<Shared<T>>,
}

/// Returned when `send` cannot deliver because the consumer has been dropped.
/// Contains the value so the caller can recover it.
#[derive(Debug)]
pub struct SendError<T>(pub T);

impl<T> SendError<T> {
    /// The text shown to a person.
    pub fn message(&self) -> (r: String)
        ensures
            r@ == "send on closed channel"@,
    {
        "send on closed channel".to_owned()
    }
}

/// Returned when `recv` cannot produce a value because the channel is empty and
/// the producer has been dropped.
#[derive(Debug)]
pub struct RecvError;

impl RecvError {
    /// The text shown to a person.
    pub fn message(&self) -> (r: String)
        ensures
            r@ == "receive on closed and empty channel"@,
    {
        "receive on closed and empty channel".to_owned()
    }
}

/// Creates a channel with room for `capacity` messages. A capacity of zero counts
/// as one.
pub fn channel<T: Send>(capacity: usize) -> (r: (Producer<T>, Consumer<T>))
    ensures
        joined(r.0, r.1),
        starts_fresh(r.0, capacity),
{
    let passage: Passage<T> = Passage::new(capacity);
    let ghost fresh = passage;
    let lock: Mutex<Passage<T>> = guarded(passage);
    assert(call_ensures(guarded::<Passage<T>>, (fresh,), lock));
    let shared: Arc<Shared<T>> = Arc::new(Shared { passage: lock, bell: new_bell() });
    let other: Arc<Shared<T>> = Arc::clone(&shared);
    let producer: Producer<T> = Producer { shared };
    assert(call_ensures(guarded::<Passage<T>>, (fresh,), producer.shared.passage));
    (producer, Consumer { shared: other })
}

/// Whether the two halves belong to the same channel.
pub closed spec fn joined<T: Send>(p: Producer<T>, c: Consumer<T>) -> bool {
    p.shared == c.shared
}

/// Whether the lock of the channel was made around a passage with no message in
/// it, both halves present, and room for `capacity` messages.
pub closed spec fn starts_fresh<T: Send>(p: Producer<T>, capacity: usize) -> bool {
    exists|passage: Passage<T>|
        passage.is_fresh(capacity) && #[trigger] call_ensures(
            guarded::<Passage<T>>,
            (passage,),
            p.shared.passage,
        )
}

impl<T: Send> Producer<T> {
    /// Whether an attempt to send `value` into this channel, made once the wait
    /// for its turn has ended, may be answered with `r`.
    pub closed spec fn may_answer(&self, value: T, r: Offer<T>) -> bool {
        call_ensures(Producer::<T>::attempt, (self, value), r)
    }

    /// Whether a wait for room may end early, because the other half panicked
    /// while it held the lock.
    pub closed spec fn may_break(&self) -> bool {
        self.shared.may_break(Half::Producer)
    }

    /// Whether the loss of this half may be noted in the passage, and the other
    /// half woken.
    pub closed spec fn may_leave(&self) -> bool {
        call_ensures(Shared::<T>::leave, (&*self.shared, Half::Producer), ())
    }

    /// Waits for room, tries to send `value` then, and wakes the other half.
    fn attempt(&self, value: T) -> (r: Offer<T>)
        ensures
            exists|early: bool, guard: &mut MutexGuard<Passage<T>>, p: &mut Passage<T>|
                {
                    &&& #[trigger] self.shared.may_wait(Half::Producer, *guard, early)
                    &&& #[trigger] call_ensures(held_value::<Passage<T>>, (guard,), p)
                    &&& is_offer(*p, value, r, *final(p))
                },
            r is Full ==> self.may_break(),
            call_ensures(ring_bell, (&self.shared.bell,), ()),
    {
        let r: Offer<T> = {
            let (mut guard, early) = self.shared.wait(Half::Producer);
            let ghost held = guard;
            assert(self.shared.may_wait(Half::Producer, held, early));
            let p: &mut Passage<T> = held_value(&mut guard);
            p.offer(value)
        };
        ring_bell(&self.shared.bell);
        r
    }

    /// Sends `value`. Waits while the channel is full. Returns
    /// `Err(SendError(value))` if the consumer has been dropped.
    ///
    /// Which of the two comes is up to the consumer; whether the channel is full
    /// or closed at a given moment is decided by [`Passage::offer`], and what is
    /// done then by [`Offer::next`]. A message that is not delivered always comes
    /// back. Waits that end early are repeated, up to more times than fit into any
    /// lifetime.
    pub fn send(&self, value: T) -> (r: Result<(), SendError<T>>)
        ensures
            match r {
                Ok(_) => self.may_answer(value, Offer::Sent),
                Err(e) => {
                    &&& e == SendError(value)
                    &&& self.may_answer(value, Offer::Closed(value)) || self.may_break()
                },
            },
    {
        let mut message: T = value;
        let mut patience: u64 = u64::MAX;
        while patience > 0
            invariant
                message == value,
                patience == u64::MAX || self.may_break(),
            decreases patience,
        {
            match self.attempt(message).next() {
                Next::Return(r) => {
                    return r;
                },
                Next::Wait(v) => {
                    message = v;
                },
            }
            patience -= 1;
        }
        Err(SendError(message))
    }
}

impl<T: Send> Consumer<T> {
    /// Whether an attempt to receive from this channel, made once the wait for its
    /// turn has ended, may be answered with `r`.
    pub closed spec fn may_answer(&self, r: Taken<T>) -> bool {
        call_ensures(Consumer::<T>::attempt, (self,), r)
    }

    /// Whether a wait for a message may end early, because the other half panicked
    /// while it held the lock.
    pub closed spec fn may_break(&self) -> bool {
        self.shared.may_break(Half::Consumer)
    }

    /// Whether the loss of this half may be noted in the passage, and the other
    /// half woken.
    pub closed spec fn may_leave(&self) -> bool {
        call_ensures(Shared::<T>::leave, (&*self.shared, Half::Consumer), ())
    }

    /// Waits for a message, tries to receive it then, and wakes the other half.
    fn attempt(&self) -> (r: Taken<T>)
        ensures
            exists|early: bool, guard: &mut MutexGuard<Passage<T>>, p: &mut Passage<T>|
                {
                    &&& #[trigger] self.shared.may_wait(Half::Consumer, *guard, early)
                    &&& #[trigger] call_ensures(held_value::<Passage<T>>, (guard,), p)
                    &&& is_take(*p, r, *final(p))
                },
            r is Empty ==> self.may_break(),
            call_ensures(ring_bell, (&self.shared.bell,), ()),
    {
        let r: Taken<T> = {
            let (mut guard, early) = self.shared.wait(Half::Consumer);
            let ghost held = guard;
            assert(self.shared.may_wait(Half::Consumer, held, early));
            let p: &mut Passage<T> = held_value(&mut guard);
            p.take()
        };
        ring_bell(&self.shared.bell);
        r
    }

    /// Receives the next message. Waits while the channel is empty. Returns
    /// `Err(RecvError)` if the producer has been dropped and no messages remain
    /// in the channel.
    ///
    /// Which of the two comes, and which message, is up to the producer; what is
    /// taken at a given moment is decided by [`Passage::take`], and what is done
    /// then by [`Taken::next`]. Waits that end early are repeated, up to more times
    /// than fit into any lifetime.
    pub fn recv(&self) -> (r: Result<T, RecvError>)
        ensures
            match r {
                Ok(v) => self.may_answer(Taken::Received(v)),
                Err(_) => self.may_answer(Taken::Closed) || self.may_break(),
            },
    {
        let mut patience: u64 = u64::MAX;
        while patience > 0
            invariant
                patience == u64::MAX || self.may_break(),
            decreases patience,
        {
            match self.attempt().next() {
                Next::Return(r) => {
                    return r;
                },
                Next::Wait(_) => {},
            }
            patience -= 1;
        }
        Err(RecvError)
    }

    /// The next message; `None` once the channel is closed and empty.
    pub fn next(&mut self) -> (r: Option<T>)
        ensures
            *final(self) == *old(self),
            match r {
                Some(v) => old(self).may_answer(Taken::Received(v)),
                None => old(self).may_answer(Taken::Closed) || old(self).may_break(),
            },
    {
        match self.recv() {
            Ok(v) => Some(v),
            Err(_) => None,
        }
    }

    /// The consumer itself, which hands out its messages one by one.
    pub fn into_iter(self) -> (r: Self)
        ensures
            r == self,
    {
        self
    }
}

impl<T: Send> Drop for Producer<T> {
    /// Closes the channel: the loss of this half is noted, and the other half is
    /// woken.
    fn drop(&mut self)
        ensures
            old(self).may_leave(),
        opens_invariants none
        no_unwind
    {
        self.shared.leave(Half::Producer)
    }
}

impl<T: Send> Drop for Consumer<T> {
    /// Closes the channel: the loss of this half is noted, and the other half is
    /// woken.
    fn drop(&mut self)
        ensures
            old(self).may_leave(),
        opens_invariants none
        no_unwind
    {
        self.shared.leave(Half::Consumer)
    }
}

// What each attempt comes to.

/// What the functions of a passage return and leave behind. There is room for as many
/// messages as asked for, and for one at least. A message is sent exactly if the consumer
/// is there and there is room, and goes behind the others. The oldest message is received
/// if there is one, even if the producer is gone.
pub proof fn law_passage_calls<T>()
    ensures
        forall|n: usize, r: Passage<T>| #[trigger]
            call_ensures(Passage::<T>::new, (n,), r) ==> {
                &&& r.messages().len() == 0
                &&& n > 0 ==> r.capacity() == n
                &&& n == 0 ==> r.capacity() == 1
                &&& !r.gone(Half::Producer) && !r.gone(Half::Consumer)
            },
        forall|p: &mut Passage<T>, v: T, r: Offer<T>| #[trigger]
            call_ensures(Passage::<T>::offer, (p, v), r) ==> {
                let q = *final(p);
                let room = !p.gone(Half::Consumer) && p.messages().len() < p.capacity();
                &&& r is Sent <==> room
                &&& p.gone(Half::Consumer) ==> r == Offer::Closed(v)
                &&& !p.gone(Half::Consumer) && !room ==> r == Offer::Full(v)
                &&& room ==> q.messages() == p.messages().push(v)
                &&& !room ==> q.messages() == p.messages()
                &&& q.capacity() == p.capacity()
                &&& q.gone(Half::Producer) == p.gone(Half::Producer)
                &&& q.gone(Half::Consumer) == p.gone(Half::Consumer)
            },
        forall|p: &mut Passage<T>, r: Taken<T>| #[trigger]
            call_ensures(Passage::<T>::take, (p,), r) ==> {
                let q = *final(p);
                &&& p.messages().len() > 0 ==> r == Taken::Received(p.messages()[0])
                    && q.messages() == p.messages().skip(1)
                &&& p.messages().len() == 0 ==> q.messages() == p.messages()
                &&& p.messages().len() == 0 && p.gone(Half::Producer) ==> r is Closed
                &&& p.messages().len() == 0 && !p.gone(Half::Producer) ==> r is Empty
                &&& q.capacity() == p.capacity()
                &&& q.gone(Half::Producer) == p.gone(Half::Producer)
                &&& q.gone(Half::Consumer) == p.gone(Half::Consumer)
            },
        forall|p: &mut Passage<T>, half: Half, r: ()| #[trigger]
            call_ensures(Passage::<T>::leave, (p, half), r) ==> {
                let q = *final(p);
                &&& q.messages() == p.messages()
                &&& q.capacity() == p.capacity()
                &&& q.gone(half)
                &&& half == Half::Producer ==> q.gone(Half::Consumer) == p.gone(Half::Consumer)
                &&& half == Half::Consumer ==> q.gone(Half::Producer) == p.gone(Half::Producer)
            },
        forall|p: &Passage<T>, r: bool| #[trigger]
            call_ensures(Passage::<T>::must_wait, (p, Half::Producer), r) ==> (r <==> !p.gone(
                Half::Consumer,
            ) && p.messages().len() >= p.capacity()),
        forall|p: &Passage<T>, r: bool| #[trigger]
            call_ensures(Passage::<T>::must_wait, (p, Half::Consumer), r) ==> (r <==> !p.gone(
                Half::Producer,
            ) && p.messages().len() == 0),
{
}

/// What the functions of a ring return and leave behind, and what a half does once an
/// attempt has been answered.
pub proof fn law_ring_calls<T>()
    ensures
        forall|n: usize, r: Ring<T>| #[trigger]
            call_ensures(Ring::<T>::new, (n,), r) ==> {
                &&& r.messages().len() == 0
                &&& n > 0 ==> r.capacity() == n
                &&& n == 0 ==> r.capacity() == 1
            },
        forall|q: &Ring<T>, r: bool| #[trigger]
            call_ensures(Ring::<T>::is_empty, (q,), r) ==> (r <==> q.messages().len() == 0),
        forall|q: &Ring<T>, r: bool| #[trigger]
            call_ensures(Ring::<T>::is_full, (q,), r) ==> (r <==> q.messages().len()
                >= q.capacity()),
        forall|q: &mut Ring<T>, v: T, gone: bool, r: Offer<T>| #[trigger]
            call_ensures(Ring::<T>::offer, (q, v, gone), r) ==> {
                let room = !gone && q.messages().len() < q.capacity();
                &&& (*final(q)).capacity() == q.capacity()
                &&& r is Sent <==> room
                &&& gone ==> r == Offer::Closed(v)
                &&& !gone && !room ==> r == Offer::Full(v)
                &&& room ==> (*final(q)).messages() == q.messages().push(v)
                &&& !room ==> (*final(q)).messages() == q.messages()
            },
        forall|q: &mut Ring<T>, gone: bool, r: Taken<T>| #[trigger]
            call_ensures(Ring::<T>::take, (q, gone), r) ==> {
                &&& (*final(q)).capacity() == q.capacity()
                &&& q.messages().len() > 0 ==> r == Taken::Received(q.messages()[0])
                    && (*final(q)).messages() == q.messages().skip(1)
                &&& q.messages().len() == 0 ==> (*final(q)).messages() == q.messages()
                &&& q.messages().len() == 0 && gone ==> r is Closed
                &&& q.messages().len() == 0 && !gone ==> r is Empty
            },
        forall|o: Offer<T>, r: Next<Result<(), SendError<T>>, T>| #[trigger]
            call_ensures(Offer::<T>::next, (o,), r) ==> {
                &&& o is Sent ==> r == Next::<Result<(), SendError<T>>, T>::Return(Ok(()))
                &&& o matches Offer::Closed(v) ==> r == Next::<
                    Result<(), SendError<T>>,
                    T,
                >::Return(Err(SendError(v)))
                &&& o matches Offer::Full(v) ==> r == Next::<Result<(), SendError<T>>, T>::Wait(v)
            },
        forall|o: Taken<T>, r: Next<Result<T, RecvError>, ()>| #[trigger]
            call_ensures(Taken::<T>::next, (o,), r) ==> {
                &&& o matches Taken::Received(v) ==> r == Next::<Result<T, RecvError>, ()>::Return(
                    Ok(v),
                )
                &&& o is Closed ==> r == Next::<Result<T, RecvError>, ()>::Return(Err(RecvError))
                &&& o is Empty ==> r == Next::<Result<T, RecvError>, ()>::Wait(())
            },
        forall|e: &SendError<T>, r: String| #[trigger]
            call_ensures(SendError::<T>::message, (e,), r) ==> r@ == "send on closed channel"@,
        forall|e: &RecvError, r: String| #[trigger]
            call_ensures(RecvError::message, (e,), r) ==> r@
                == "receive on closed and empty channel"@,
{
}

/// A message that could not be sent comes back.
pub proof fn law_unsent_message_comes_back<T: Send>()
    ensures
        forall|p: &Producer<T>, v: T, r: Result<(), SendError<T>>| #[trigger]
            call_ensures(Producer::<T>::send, (p, v), r) ==> (r matches Err(e) ==> e.0 == v),
        forall|c: Consumer<T>, r: Consumer<T>| #[trigger]
            call_ensures(Consumer::<T>::into_iter, (c,), r) ==> r == c,
{
}

} // verus!
