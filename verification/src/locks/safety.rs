//! What every step of the event server keeps: each lock has at most one holder,
//! waiters are served in order, and a client that leaves gives up everything.

use vstd::prelude::*;

use crate::locks::event::departed;
use crate::locks::event::drained;
use crate::locks::event::free_slot;
use crate::locks::event::gave_up;
use crate::locks::event::handed_over;
use crate::locks::event::is_slot_of;
use crate::locks::event::lemma_drain_step;
use crate::locks::event::lemma_free_slot;
use crate::locks::event::lemma_processed_same;
use crate::locks::event::lemma_slot_of;
use crate::locks::event::line_taken;
use crate::locks::event::list_reply;
use crate::locks::event::passed_on;
use crate::locks::event::processed;
use crate::locks::event::seated;
use crate::locks::event::served;
use crate::locks::event::slot_of;
use crate::locks::event::told;
use crate::locks::event::told_all;
use crate::locks::event::unread_at;
use crate::locks::event::vacated;
use crate::locks::event::without_name;
use crate::locks::event::ClientModel;
use crate::locks::event::SlabModel;
use crate::locks::framer::line_of;
use crate::locks::framer::LineModel;
use crate::locks::framer::ReadEnd;
use crate::locks::intake::catalogued;
use crate::locks::intake::refusal;
use crate::locks::intake::trim_cr;
use crate::locks::protocol::request_of;
use crate::locks::protocol::ClientId;
use crate::locks::protocol::RequestModel;
use crate::locks::protocol::ResponseModel;
use crate::locks::protocol::ERR_ALREADY_HELD;
use crate::locks::protocol::ERR_LINE_TOO_LONG;
use crate::locks::protocol::ERR_NOT_HELD;
use crate::locks::table::acquire_outcome;
use crate::locks::table::after_acquire;
use crate::locks::table::free_lock;
use crate::locks::table::known_names_of;
use crate::locks::table::lock_at;
use crate::locks::table::queues_without;
use crate::locks::table::status_response;
use crate::locks::table::without;
use crate::locks::table::Acquired;
use crate::locks::table::LockModel;
use crate::locks::table::TableModel;
use crate::ordmap::ascending;
use crate::ordmap::lemma_sorted_keys_lists;

verus! {

// The invariant.

/// Whether the client `id` is connected.
pub open spec fn connected<S>(cs: SlabModel<S>, id: ClientId) -> bool {
    exists|i: int| #[trigger] is_slot_of(cs, i, id)
}

/// Whether a connected client `id` believes that it holds the lock `n`.
pub open spec fn holds<S>(cs: SlabModel<S>, id: ClientId, n: Seq<char>) -> bool {
    exists|i: int| #[trigger] is_slot_of(cs, i, id) && cs[i]->0.held.contains(n)
}

/// Connection ids are unique and were handed out.
pub open spec fn ids_sound<S>(cs: SlabModel<S>, next_id: ClientId) -> bool {
    &&& forall|i: int| 0 <= i < cs.len() && (#[trigger] cs[i]) is Some ==> 0 < cs[i]->0.id < next_id
    &&& forall|i: int, j: int|
        0 <= i < j < cs.len() && (#[trigger] cs[i]) is Some && (#[trigger] cs[j]) is Some
            ==> cs[i]->0.id != cs[j]->0.id
}

/// Waiters are connected, and each waits once.
pub open spec fn queue_sound<S>(cs: SlabModel<S>, waiters: Seq<ClientId>) -> bool {
    &&& waiters.no_duplicates()
    &&& forall|k: int| 0 <= k < waiters.len() ==> connected(cs, #[trigger] waiters[k])
}

/// The lock `n` is free and nobody waits for it, or its holder is connected and
/// knows that it holds it, and does not wait for it.
pub open spec fn lock_sound<S>(cs: SlabModel<S>, m: LockModel, n: Seq<char>) -> bool {
    &&& queue_sound(cs, m.waiters)
    &&& match m.holder {
        None => m.waiters.len() == 0,
        Some(id) => holds(cs, id, n) && !m.waiters.contains(id),
    }
}

/// Every lock that a client believes to hold is its own in the table, and listed
/// once.
pub open spec fn client_sound<S>(t: TableModel, c: ClientModel<S>) -> bool {
    &&& c.held.no_duplicates()
    &&& forall|k: int|
        0 <= k < c.held.len() ==> lock_at(t, #[trigger] c.held[k]).holder == Some(c.id)
}

/// The invariant of the event server.
pub open spec fn sound<S>(cs: SlabModel<S>, t: TableModel, next_id: ClientId) -> bool {
    &&& ids_sound(cs, next_id)
    &&& forall|i: int| 0 <= i < cs.len() && (#[trigger] cs[i]) is Some ==> client_sound(t, cs[i]->0)
    &&& forall|n: Seq<char>| #[trigger] t.dom().contains(n) ==> lock_sound(cs, t[n], n)
}

/// The invariant, while the client `gone` has left and the locks `open` have yet
/// to pass on.
spec fn sound_but<S>(
    cs: SlabModel<S>,
    t: TableModel,
    next_id: ClientId,
    gone: ClientId,
    open: Seq<Seq<char>>,
) -> bool {
    &&& ids_sound(cs, next_id)
    &&& !connected(cs, gone)
    &&& open.no_duplicates()
    &&& forall|k: int|
        0 <= k < open.len() ==> t.dom().contains(#[trigger] open[k]) && t[open[k]].holder == Some(
            gone,
        )
    &&& forall|i: int| 0 <= i < cs.len() && (#[trigger] cs[i]) is Some ==> client_sound(t, cs[i]->0)
    &&& forall|n: Seq<char>| #[trigger]
        t.dom().contains(n) ==> if open.contains(n) {
            queue_sound(cs, t[n].waiters)
        } else {
            lock_sound(cs, t[n], n)
        }
}

/// The invariant, while the lock `n` has no holder though others may wait for it.
spec fn sound_around<S>(
    cs: SlabModel<S>,
    t: TableModel,
    next_id: ClientId,
    gone: ClientId,
    open: Seq<Seq<char>>,
    n: Seq<char>,
) -> bool {
    &&& ids_sound(cs, next_id)
    &&& !connected(cs, gone)
    &&& open.no_duplicates()
    &&& !open.contains(n)
    &&& forall|k: int|
        0 <= k < open.len() ==> t.dom().contains(#[trigger] open[k]) && t[open[k]].holder == Some(
            gone,
        )
    &&& forall|i: int|
        0 <= i < cs.len() && (#[trigger] cs[i]) is Some ==> {
            &&& client_sound(t.insert(n, free_lock()), cs[i]->0)
            &&& !cs[i]->0.held.contains(n)
        }
    &&& t.dom().contains(n) ==> queue_sound(cs, t[n].waiters)
    &&& forall|x: Seq<char>| #[trigger]
        t.dom().contains(x) && x != n ==> if open.contains(x) {
            queue_sound(cs, t[x].waiters)
        } else {
            lock_sound(cs, t[x], x)
        }
}

proof fn lemma_sound_is_sound_but<S>(cs: SlabModel<S>, t: TableModel, next_id: ClientId)
    ensures
        sound(cs, t, next_id) <==> sound_but(cs, t, next_id, 0, Seq::empty()),
{
    if sound(cs, t, next_id) {
        assert(!connected(cs, 0)) by {
            if connected(cs, 0) {
                let i = choose|i: int| #[trigger] is_slot_of(cs, i, 0);
                assert(cs[i] is Some);
            }
        }
    }
    assert forall|n: Seq<char>| #[trigger] t.dom().contains(n) implies !Seq::<
        Seq<char>,
    >::empty().contains(n) by {}
}

proof fn lemma_slot_of_connected<S>(cs: SlabModel<S>, id: ClientId)
    ensures
        connected(cs, id) <==> slot_of(cs, id) < cs.len(),
{
    lemma_slot_of(cs, id);
    if connected(cs, id) {
        let i = choose|i: int| #[trigger] is_slot_of(cs, i, id);
        assert(!(i < slot_of(cs, id)));
    }
}

// Steps that change nobody's holdings.

/// Whether the same clients hold the same locks.
spec fn same_holdings<S>(a: SlabModel<S>, b: SlabModel<S>) -> bool {
    &&& a.len() == b.len()
    &&& forall|i: int|
        0 <= i < a.len() ==> {
            &&& ((#[trigger] a[i]) is Some <==> b[i] is Some)
            &&& a[i] is Some ==> a[i]->0.id == b[i]->0.id && a[i]->0.held == b[i]->0.held
        }
}

proof fn lemma_connected_same<S>(a: SlabModel<S>, b: SlabModel<S>, id: ClientId, n: Seq<char>)
    requires
        same_holdings(a, b),
    ensures
        connected(a, id) <==> connected(b, id),
        holds(a, id, n) <==> holds(b, id, n),
{
    assert forall|i: int|
        #![trigger is_slot_of(a, i, id)]
        #![trigger is_slot_of(b, i, id)]
        is_slot_of(a, i, id) <==> is_slot_of(b, i, id) by {
        if 0 <= i < a.len() {
            assert(a[i] is Some <==> b[i] is Some);
        }
    }
    assert forall|i: int| #[trigger] is_slot_of(a, i, id) implies a[i]->0.held
        == b[i]->0.held by {}
}

proof fn lemma_same_holdings<S>(
    a: SlabModel<S>,
    b: SlabModel<S>,
    t: TableModel,
    next_id: ClientId,
)
    requires
        same_holdings(a, b),
        sound(a, t, next_id),
    ensures
        sound(b, t, next_id),
{
    assert forall|i: int| 0 <= i < b.len() && (#[trigger] b[i]) is Some implies 0 < b[i]->0.id
        < next_id && client_sound(t, b[i]->0) by {
        assert(a[i] is Some);
    }
    assert forall|i: int, j: int|
        0 <= i < j < b.len() && (#[trigger] b[i]) is Some && (
        #[trigger] b[j]) is Some implies b[i]->0.id != b[j]->0.id by {
        assert(a[i] is Some && a[j] is Some);
    }
    assert forall|n: Seq<char>| #[trigger] t.dom().contains(n) implies lock_sound(b, t[n], n) by {
        lemma_lock_same(a, b, t[n], n);
    }
}

proof fn lemma_lock_same<S>(a: SlabModel<S>, b: SlabModel<S>, m: LockModel, n: Seq<char>)
    requires
        same_holdings(a, b),
        lock_sound(a, m, n),
    ensures
        lock_sound(b, m, n),
{
    assert forall|k: int| 0 <= k < m.waiters.len() implies connected(b, #[trigger] m.waiters[k]) by {
        lemma_connected_same(a, b, m.waiters[k], n);
    }
    match m.holder {
        Some(id) => {
            lemma_connected_same(a, b, id, n);
        },
        None => {},
    }
}

proof fn lemma_told_all_holdings<S>(cs: SlabModel<S>, slot: int, ms: Seq<ResponseModel>)
    ensures
        same_holdings(cs, told_all(cs, slot, ms)),
    decreases ms.len(),
{
    if ms.len() > 0 {
        lemma_told_all_holdings(cs, slot, ms.drop_last());
    }
}

/// Naming a lock that was never named before changes nothing.
proof fn lemma_named<S>(cs: SlabModel<S>, t: TableModel, next_id: ClientId, n: Seq<char>)
    requires
        sound(cs, t, next_id),
    ensures
        sound(cs, t.insert(n, lock_at(t, n)), next_id),
{
    let t2 = t.insert(n, lock_at(t, n));
    assert(forall|x: Seq<char>| lock_at(t2, x) == lock_at(t, x));
    assert forall|i: int| 0 <= i < cs.len() && (#[trigger] cs[i]) is Some implies client_sound(
        t2,
        cs[i]->0,
    ) by {}
    assert forall|x: Seq<char>| #[trigger] t2.dom().contains(x) implies lock_sound(
        cs,
        t2[x],
        x,
    ) by {
        if x != n {
            assert(t.dom().contains(x));
        } else if t.dom().contains(n) {
            assert(t2[x] == t[x]);
        }
    }
}

// Steps that pass locks around.

/// A lock without a holder goes to a connected client.
proof fn lemma_assigned<S>(
    cs: SlabModel<S>,
    t: TableModel,
    next_id: ClientId,
    gone: ClientId,
    open: Seq<Seq<char>>,
    n: Seq<char>,
    slot: int,
    c: ClientModel<S>,
    waiters: Seq<ClientId>,
)
    requires
        sound_around(cs, t, next_id, gone, open, n),
        0 <= slot < cs.len(),
        cs[slot] is Some,
        c.id == cs[slot]->0.id,
        c.held == cs[slot]->0.held.push(n),
        queue_sound(cs, waiters),
        !waiters.contains(c.id),
    ensures
        sound_but(
            cs.update(slot, Some(c)),
            t.insert(n, LockModel { holder: Some(c.id), waiters }),
            next_id,
            gone,
            open,
        ),
{
    let cs2 = cs.update(slot, Some(c));
    let m = LockModel { holder: Some(c.id), waiters };
    let t2 = t.insert(n, m);
    assert forall|i: int, id: ClientId|
        #![trigger is_slot_of(cs2, i, id)]
        #![trigger is_slot_of(cs, i, id)]
        is_slot_of(cs2, i, id) <==> is_slot_of(cs, i, id) by {}
    assert forall|id: ClientId| #[trigger] connected(cs2, id) <==> connected(cs, id) by {}
    assert forall|id: ClientId, x: Seq<char>| holds(cs, id, x) implies #[trigger] holds(
        cs2,
        id,
        x,
    ) by {
        let i = choose|i: int| #[trigger] is_slot_of(cs, i, id) && cs[i]->0.held.contains(x);
        assert(is_slot_of(cs2, i, id));
        if i == slot {
            let k = choose|k: int| 0 <= k < cs[i]->0.held.len() && cs[i]->0.held[k] == x;
            assert(c.held[k] == x);
        }
    }
    assert forall|i: int| 0 <= i < cs2.len() && (#[trigger] cs2[i]) is Some implies 0
        < cs2[i]->0.id < next_id by {
        assert(cs[i] is Some);
    }
    assert forall|i: int, j: int|
        0 <= i < j < cs2.len() && (#[trigger] cs2[i]) is Some && (
        #[trigger] cs2[j]) is Some implies cs2[i]->0.id != cs2[j]->0.id by {
        assert(cs[i] is Some && cs[j] is Some);
    }
    assert forall|k: int| 0 <= k < open.len() implies t2.dom().contains(#[trigger] open[k])
        && t2[open[k]].holder == Some(gone) by {
        assert(open.contains(open[k]));
    }
    assert forall|i: int| 0 <= i < cs2.len() && (#[trigger] cs2[i]) is Some implies client_sound(
        t2,
        cs2[i]->0,
    ) by {
        let held = cs[i]->0.held;
        assert(cs[i] is Some);
        assert forall|k: int| 0 <= k < cs2[i]->0.held.len() implies lock_at(
            t2,
            #[trigger] cs2[i]->0.held[k],
        ).holder == Some(cs2[i]->0.id) by {
            if k < held.len() {
                assert(held.contains(held[k]));
                assert(lock_at(t.insert(n, free_lock()), held[k]).holder == Some(cs[i]->0.id));
            }
        }
        assert forall|a: int, b: int|
            0 <= a < cs2[i]->0.held.len() && 0 <= b < cs2[i]->0.held.len() && a
                != b implies cs2[i]->0.held[a] != cs2[i]->0.held[b] by {
            if a < held.len() {
                assert(held.contains(held[a]));
            }
            if b < held.len() {
                assert(held.contains(held[b]));
            }
        }
    }
    assert forall|x: Seq<char>| #[trigger] t2.dom().contains(x) implies if open.contains(x) {
        queue_sound(cs2, t2[x].waiters)
    } else {
        lock_sound(cs2, t2[x], x)
    } by {
        if x == n {
            assert(is_slot_of(cs2, slot, c.id));
            assert(c.held[c.held.len() - 1] == n);
            assert(holds(cs2, c.id, n));
        } else {
            assert(t.dom().contains(x));
        }
    }
}

/// A lock without a holder, and without waiters that could take it, is free.
proof fn lemma_freed<S>(
    cs: SlabModel<S>,
    t: TableModel,
    next_id: ClientId,
    gone: ClientId,
    open: Seq<Seq<char>>,
    n: Seq<char>,
)
    requires
        sound_around(cs, t, next_id, gone, open, n),
    ensures
        sound_but(cs, t.insert(n, free_lock()), next_id, gone, open),
{
    let t2 = t.insert(n, free_lock());
    assert forall|k: int| 0 <= k < open.len() implies t2.dom().contains(#[trigger] open[k])
        && t2[open[k]].holder == Some(gone) by {
        assert(open.contains(open[k]));
    }
    assert forall|x: Seq<char>| #[trigger] t2.dom().contains(x) implies if open.contains(x) {
        queue_sound(cs, t2[x].waiters)
    } else {
        lock_sound(cs, t2[x], x)
    } by {
        if x != n {
            assert(t.dom().contains(x));
        }
    }
}

/// While all waiters are connected, the oldest one gets the lock.
proof fn lemma_first_waiter<S>(cs: SlabModel<S>, waiters: Seq<ClientId>)
    requires
        queue_sound(cs, waiters),
    ensures
        waiters.len() > 0 ==> {
            &&& handed_over(cs, waiters) == (LockModel {
                holder: Some(waiters[0]),
                waiters: waiters.skip(1),
            })
            &&& is_slot_of(cs, slot_of(cs, waiters[0]), waiters[0])
            &&& queue_sound(cs, waiters.skip(1))
            &&& !waiters.skip(1).contains(waiters[0])
        },
        waiters.len() == 0 ==> handed_over(cs, waiters) == free_lock(),
{
    if waiters.len() > 0 {
        lemma_slot_of_connected(cs, waiters[0]);
        lemma_slot_of(cs, waiters[0]);
        let rest = waiters.skip(1);
        assert forall|k: int| 0 <= k < rest.len() implies connected(cs, #[trigger] rest[k]) by {
            assert(rest[k] == waiters[k + 1]);
        }
        if rest.contains(waiters[0]) {
            let k = choose|k: int| 0 <= k < rest.len() && rest[k] == waiters[0];
            assert(waiters[k + 1] == waiters[0]);
        }
    }
}

proof fn lemma_passed_on<S>(
    cs: SlabModel<S>,
    t: TableModel,
    next_id: ClientId,
    gone: ClientId,
    open: Seq<Seq<char>>,
    n: Seq<char>,
)
    requires
        sound_around(cs, t, next_id, gone, open, n),
        t.dom().contains(n),
    ensures
        sound_but(
            passed_on(cs, t, n).clients,
            passed_on(cs, t, n).locks,
            next_id,
            gone,
            open,
        ),
{
    let w = t[n].waiters;
    lemma_first_waiter(cs, w);
    if w.len() > 0 {
        let i = slot_of(cs, w[0]);
        lemma_assigned(
            cs,
            t,
            next_id,
            gone,
            open,
            n,
            i,
            cs[i]->0.promoted(n),
            w.skip(1),
        );
    } else {
        lemma_freed(cs, t, next_id, gone, open, n);
    }
}

proof fn lemma_sound_lock_free<S>(cs: SlabModel<S>, t: TableModel, next_id: ClientId, n: Seq<char>)
    requires
        sound(cs, t, next_id),
        lock_at(t, n).holder is None,
    ensures
        sound_around(cs, t, next_id, 0, Seq::empty(), n),
        lock_at(t, n).waiters.len() == 0,
{
    lemma_sound_is_sound_but(cs, t, next_id);
    let t2 = t.insert(n, free_lock());
    assert forall|i: int| 0 <= i < cs.len() && (#[trigger] cs[i]) is Some implies client_sound(
        t2,
        cs[i]->0,
    ) && !cs[i]->0.held.contains(n) by {
        let held = cs[i]->0.held;
        assert forall|k: int| 0 <= k < held.len() implies lock_at(
            t2,
            #[trigger] held[k],
        ).holder == Some(cs[i]->0.id) by {
            assert(lock_at(t, held[k]).holder == Some(cs[i]->0.id));
        }
        if held.contains(n) {
            let k = choose|k: int| 0 <= k < held.len() && held[k] == n;
            assert(lock_at(t, held[k]).holder == Some(cs[i]->0.id));
        }
    }
    assert forall|x: Seq<char>| #[trigger]
        t.dom().contains(x) && x != n implies if Seq::<Seq<char>>::empty().contains(x) {
        queue_sound(cs, t[x].waiters)
    } else {
        lock_sound(cs, t[x], x)
    } by {}
}

/// A free lock is granted to a connected client.
proof fn lemma_granted<S>(
    cs: SlabModel<S>,
    t: TableModel,
    next_id: ClientId,
    slot: int,
    n: Seq<char>,
)
    requires
        sound(cs, t, next_id),
        0 <= slot < cs.len(),
        cs[slot] is Some,
        lock_at(t, n).holder is None,
    ensures
        sound(
            cs.update(slot, Some(cs[slot]->0.granted(n))),
            t.insert(n, LockModel { holder: Some(cs[slot]->0.id), ..lock_at(t, n) }),
            next_id,
        ),
{
    lemma_sound_lock_free(cs, t, next_id, n);
    let c = cs[slot]->0.granted(n);
    let w = lock_at(t, n).waiters;
    lemma_assigned(cs, t, next_id, 0, Seq::empty(), n, slot, c, w);
    lemma_sound_is_sound_but(
        cs.update(slot, Some(c)),
        t.insert(n, LockModel { holder: Some(c.id), waiters: w }),
        next_id,
    );
}

/// A client joins the queue of a lock that another client holds.
proof fn lemma_queued<S>(
    cs: SlabModel<S>,
    t: TableModel,
    next_id: ClientId,
    slot: int,
    n: Seq<char>,
)
    requires
        sound(cs, t, next_id),
        0 <= slot < cs.len(),
        cs[slot] is Some,
        acquire_outcome(lock_at(t, n), cs[slot]->0.id) is Queued,
    ensures
        sound(
            cs,
            t.insert(
                n,
                LockModel {
                    waiters: lock_at(t, n).waiters.push(cs[slot]->0.id),
                    ..lock_at(t, n)
                },
            ),
            next_id,
        ),
{
    let id = cs[slot]->0.id;
    let m = lock_at(t, n);
    let w = m.waiters.push(id);
    let t2 = t.insert(n, LockModel { waiters: w, ..m });
    assert(t.dom().contains(n));
    assert(is_slot_of(cs, slot, id));
    assert(queue_sound(cs, w)) by {
        assert forall|k: int| 0 <= k < w.len() implies connected(cs, #[trigger] w[k]) by {
            if k < m.waiters.len() {
                assert(w[k] == m.waiters[k]);
            }
        }
        assert forall|a: int, b: int|
            0 <= a < w.len() && 0 <= b < w.len() && a != b implies w[a] != w[b] by {
            if a < m.waiters.len() {
                assert(m.waiters.contains(m.waiters[a]));
            }
            if b < m.waiters.len() {
                assert(m.waiters.contains(m.waiters[b]));
            }
        }
    }
    assert forall|h: ClientId| w.contains(h) implies h == id || m.waiters.contains(h) by {
        let k = choose|k: int| 0 <= k < w.len() && w[k] == h;
        if k < m.waiters.len() {
            assert(m.waiters[k] == h);
        }
    }
    assert forall|i: int| 0 <= i < cs.len() && (#[trigger] cs[i]) is Some implies client_sound(
        t2,
        cs[i]->0,
    ) by {
        assert(client_sound(t, cs[i]->0));
        assert forall|k: int| 0 <= k < cs[i]->0.held.len() implies lock_at(
            t2,
            #[trigger] cs[i]->0.held[k],
        ).holder == Some(cs[i]->0.id) by {
            assert(lock_at(t, cs[i]->0.held[k]).holder == Some(cs[i]->0.id));
        }
    }
    assert forall|x: Seq<char>| #[trigger] t2.dom().contains(x) implies lock_sound(
        cs,
        t2[x],
        x,
    ) by {
        assert(t.dom().contains(x));
    }
}

/// `held` without `n` lists the others, each once.
pub proof fn lemma_without_name(held: Seq<Seq<char>>, n: Seq<char>)
    requires
        held.no_duplicates(),
    ensures
        without_name(held, n).no_duplicates(),
        !without_name(held, n).contains(n),
        forall|x: Seq<char>| #[trigger]
            without_name(held, n).contains(x) <==> held.contains(x) && x != n,
    decreases held.len(),
{
    reveal(Seq::filter);
    let r = without_name(held, n);
    if held.len() > 0 {
        let front = held.drop_last();
        let f = without_name(front, n);
        lemma_without_name(front, n);
        assert forall|x: Seq<char>| #[trigger] r.contains(x) <==> held.contains(x) && x != n by {
            if held.contains(x) && x != n {
                let k = choose|k: int| 0 <= k < held.len() && held[k] == x;
                if k < front.len() {
                    assert(front[k] == x);
                    assert(f.contains(x));
                    let j = choose|j: int| 0 <= j < f.len() && f[j] == x;
                    assert(r[j] == x);
                } else {
                    assert(r[f.len() as int] == x);
                }
            }
            if r.contains(x) {
                let j = choose|j: int| 0 <= j < r.len() && r[j] == x;
                if j < f.len() {
                    assert(f[j] == x);
                    assert(f.contains(x));
                    let k = choose|k: int| 0 <= k < front.len() && front[k] == x;
                    assert(held[k] == x);
                } else {
                    assert(held[held.len() - 1] == x);
                }
            }
        }
        assert(r.no_duplicates()) by {
            assert forall|a: int, b: int| 0 <= a < r.len() && 0 <= b < r.len() && a != b implies r[a]
                != r[b] by {
                if a < f.len() {
                    assert(f.contains(f[a]));
                    assert(front.contains(f[a]));
                    let k = choose|k: int| 0 <= k < front.len() && front[k] == f[a];
                    assert(held[k] != held[held.len() - 1]);
                }
                if b < f.len() {
                    assert(f.contains(f[b]));
                    assert(front.contains(f[b]));
                    let k = choose|k: int| 0 <= k < front.len() && front[k] == f[b];
                    assert(held[k] != held[held.len() - 1]);
                }
            }
        }
    } else {
        assert(r =~= held);
    }
}

/// A client gives up a lock that it holds.
proof fn lemma_released<S>(
    cs: SlabModel<S>,
    t: TableModel,
    next_id: ClientId,
    slot: int,
    n: Seq<char>,
)
    requires
        sound(cs, t, next_id),
        0 <= slot < cs.len(),
        cs[slot] is Some,
        lock_at(t, n).holder == Some(cs[slot]->0.id),
    ensures
        t.dom().contains(n),
        sound_around(
            cs.update(slot, Some(cs[slot]->0.released(n))),
            t,
            next_id,
            0,
            Seq::empty(),
            n,
        ),
{
    lemma_sound_is_sound_but(cs, t, next_id);
    let c = cs[slot]->0.released(n);
    let cs2 = cs.update(slot, Some(c));
    let t2 = t.insert(n, free_lock());
    lemma_without_name(cs[slot]->0.held, n);
    assert forall|i: int, id: ClientId|
        #![trigger is_slot_of(cs2, i, id)]
        #![trigger is_slot_of(cs, i, id)]
        is_slot_of(cs2, i, id) <==> is_slot_of(cs, i, id) by {}
    assert forall|id: ClientId| #[trigger] connected(cs2, id) <==> connected(cs, id) by {}
    assert forall|id: ClientId, x: Seq<char>| x != n && holds(cs, id, x) implies #[trigger] holds(
        cs2,
        id,
        x,
    ) by {
        let i = choose|i: int| #[trigger] is_slot_of(cs, i, id) && cs[i]->0.held.contains(x);
        assert(is_slot_of(cs2, i, id));
    }
    assert forall|i: int| 0 <= i < cs2.len() && (#[trigger] cs2[i]) is Some implies 0
        < cs2[i]->0.id < next_id by {
        assert(cs[i] is Some);
    }
    assert forall|i: int, j: int|
        0 <= i < j < cs2.len() && (#[trigger] cs2[i]) is Some && (
        #[trigger] cs2[j]) is Some implies cs2[i]->0.id != cs2[j]->0.id by {
        assert(cs[i] is Some && cs[j] is Some);
    }
    assert forall|i: int| 0 <= i < cs2.len() && (#[trigger] cs2[i]) is Some implies client_sound(
        t2,
        cs2[i]->0,
    ) && !cs2[i]->0.held.contains(n) by {
        assert(cs[i] is Some);
        let held = cs[i]->0.held;
        let held2 = cs2[i]->0.held;
        if held2.contains(n) {
            let k = choose|k: int| 0 <= k < held.len() && held[k] == n;
            assert(lock_at(t, held[k]).holder == Some(cs[i]->0.id));
            assert(i != slot);
            assert(cs[slot]->0.id != cs[i]->0.id);
        }
        assert forall|k: int| 0 <= k < held2.len() implies lock_at(
            t2,
            #[trigger] held2[k],
        ).holder == Some(cs2[i]->0.id) by {
            assert(held2.contains(held2[k]));
            let j = choose|j: int| 0 <= j < held.len() && held[j] == held2[k];
            assert(lock_at(t, held[j]).holder == Some(cs[i]->0.id));
        }
    }
    assert forall|x: Seq<char>| #[trigger]
        t.dom().contains(x) && x != n implies lock_sound(cs2, t[x], x) by {}
    assert(queue_sound(cs2, t[n].waiters)) by {
        assert(lock_sound(cs, t[n], n));
    }
}

// The laws.

/// Every line, from any connected client, keeps the invariant.
pub proof fn law_line_keeps_sound<S>(
    cs: SlabModel<S>,
    t: TableModel,
    next_id: ClientId,
    slot: int,
    line: Seq<char>,
)
    requires
        sound(cs, t, next_id),
        0 <= slot < cs.len(),
        cs[slot] is Some,
    ensures
        sound(
            processed(cs, t, slot, line).clients,
            processed(cs, t, slot, line).locks,
            next_id,
        ),
{
    let id = cs[slot]->0.id;
    match request_of(line) {
        None => {
            lemma_same_holdings(cs, told(cs, slot, refusal(line)), t, next_id);
        },
        Some(RequestModel::Acquire(n)) => {
            let m = lock_at(t, n);
            let t2 = t.insert(n, after_acquire(m, id));
            match acquire_outcome(m, id) {
                Acquired::AlreadyHeld => {
                    lemma_named(cs, t, next_id, n);
                    lemma_same_holdings(
                        cs,
                        told(cs, slot, catalogued(ERR_ALREADY_HELD@)),
                        t2,
                        next_id,
                    );
                },
                Acquired::Granted => {
                    lemma_granted(cs, t, next_id, slot, n);
                },
                Acquired::Queued => {
                    lemma_queued(cs, t, next_id, slot, n);
                    lemma_same_holdings(
                        cs,
                        processed(cs, t, slot, line).clients,
                        t2,
                        next_id,
                    );
                },
            }
        },
        Some(RequestModel::TryAcquire(n)) => {
            if lock_at(t, n).holder is Some {
                lemma_named(cs, t, next_id, n);
                lemma_same_holdings(
                    cs,
                    told(cs, slot, ResponseModel::Denied(n)),
                    t.insert(n, lock_at(t, n)),
                    next_id,
                );
            } else {
                lemma_granted(cs, t, next_id, slot, n);
            }
        },
        Some(RequestModel::Release(n)) => {
            let m = lock_at(t, n);
            if m.holder == Some(id) {
                let cs2 = cs.update(slot, Some(cs[slot]->0.released(n)));
                lemma_released(cs, t, next_id, slot, n);
                assert(t.insert(n, m) =~= t);
                lemma_passed_on(cs2, t, next_id, 0, Seq::empty(), n);
                let p = passed_on(cs2, t, n);
                lemma_sound_is_sound_but(p.clients, p.locks, next_id);
            } else {
                lemma_named(cs, t, next_id, n);
                lemma_same_holdings(
                    cs,
                    told(cs, slot, catalogued(ERR_NOT_HELD@)),
                    t.insert(n, m),
                    next_id,
                );
            }
        },
        Some(RequestModel::Status(n)) => {
            lemma_named(cs, t, next_id, n);
            lemma_same_holdings(
                cs,
                told(cs, slot, status_response(n, lock_at(t, n))),
                t.insert(n, lock_at(t, n)),
                next_id,
            );
        },
        Some(RequestModel::List) => {
            let ms = list_reply(known_names_of(t));
            lemma_told_all_holdings(cs, slot, ms);
            lemma_same_holdings(cs, told_all(cs, slot, ms), t, next_id);
        },
    }
}

/// `w` without `id` lists the others, each once, in the same order.
pub proof fn lemma_without(w: Seq<ClientId>, id: ClientId)
    requires
        w.no_duplicates(),
    ensures
        without(w, id).no_duplicates(),
        forall|x: ClientId| #[trigger] without(w, id).contains(x) <==> w.contains(x) && x != id,
    decreases w.len(),
{
    reveal(Seq::filter);
    let r = without(w, id);
    if w.len() > 0 {
        let front = w.drop_last();
        let f = without(front, id);
        lemma_without(front, id);
        assert forall|x: ClientId| #[trigger] r.contains(x) <==> w.contains(x) && x != id by {
            if w.contains(x) && x != id {
                let k = choose|k: int| 0 <= k < w.len() && w[k] == x;
                if k < front.len() {
                    assert(front[k] == x);
                    assert(f.contains(x));
                    let j = choose|j: int| 0 <= j < f.len() && f[j] == x;
                    assert(r[j] == x);
                } else {
                    assert(r[f.len() as int] == x);
                }
            }
            if r.contains(x) {
                let j = choose|j: int| 0 <= j < r.len() && r[j] == x;
                if j < f.len() {
                    assert(f[j] == x);
                    assert(f.contains(x));
                    let k = choose|k: int| 0 <= k < front.len() && front[k] == x;
                    assert(w[k] == x);
                } else {
                    assert(w[w.len() - 1] == x);
                }
            }
        }
        assert(r.no_duplicates()) by {
            assert forall|a: int, b: int| 0 <= a < r.len() && 0 <= b < r.len() && a != b implies r[a]
                != r[b] by {
                if a < f.len() {
                    assert(f.contains(f[a]));
                    assert(front.contains(f[a]));
                    let k = choose|k: int| 0 <= k < front.len() && front[k] == f[a];
                    assert(w[k] != w[w.len() - 1]);
                }
                if b < f.len() {
                    assert(f.contains(f[b]));
                    assert(front.contains(f[b]));
                    let k = choose|k: int| 0 <= k < front.len() && front[k] == f[b];
                    assert(w[k] != w[w.len() - 1]);
                }
            }
        }
    } else {
        assert(r =~= w);
    }
}

/// A client has left its slot and every queue; its locks are yet to pass on.
proof fn lemma_removed<S>(cs: SlabModel<S>, t: TableModel, next_id: ClientId, slot: int)
    requires
        sound(cs, t, next_id),
        0 <= slot < cs.len(),
        cs[slot] is Some,
    ensures
        sound_but(
            cs.update(slot, None),
            queues_without(t, cs[slot]->0.id),
            next_id,
            cs[slot]->0.id,
            cs[slot]->0.held,
        ),
{
    let id = cs[slot]->0.id;
    let held = cs[slot]->0.held;
    let cs2 = cs.update(slot, None);
    let t2 = queues_without(t, id);
    assert(client_sound(t, cs[slot]->0));
    assert forall|i: int, x: ClientId|
        #![trigger is_slot_of(cs2, i, x)]
        #![trigger is_slot_of(cs, i, x)]
        x != id implies (is_slot_of(cs2, i, x) <==> is_slot_of(cs, i, x)) by {}
    assert(!connected(cs2, id)) by {
        if connected(cs2, id) {
            let i = choose|i: int| #[trigger] is_slot_of(cs2, i, id);
            assert(cs[i] is Some && i != slot);
            if i < slot {
                assert(cs[i]->0.id != cs[slot]->0.id);
            } else {
                assert(cs[slot]->0.id != cs[i]->0.id);
            }
        }
    }
    assert forall|x: ClientId| x != id && connected(cs, x) implies #[trigger] connected(
        cs2,
        x,
    ) by {
        let i = choose|i: int| #[trigger] is_slot_of(cs, i, x);
        assert(is_slot_of(cs2, i, x));
    }
    assert forall|x: ClientId, n: Seq<char>| x != id && holds(cs, x, n) implies #[trigger] holds(
        cs2,
        x,
        n,
    ) by {
        let i = choose|i: int| #[trigger] is_slot_of(cs, i, x) && cs[i]->0.held.contains(n);
        assert(is_slot_of(cs2, i, x));
    }
    assert forall|i: int| 0 <= i < cs2.len() && (#[trigger] cs2[i]) is Some implies 0
        < cs2[i]->0.id < next_id by {
        assert(cs[i] is Some);
    }
    assert forall|i: int, j: int|
        0 <= i < j < cs2.len() && (#[trigger] cs2[i]) is Some && (
        #[trigger] cs2[j]) is Some implies cs2[i]->0.id != cs2[j]->0.id by {
        assert(cs[i] is Some && cs[j] is Some);
    }
    assert forall|k: int| 0 <= k < held.len() implies t2.dom().contains(#[trigger] held[k])
        && t2[held[k]].holder == Some(id) by {
        assert(lock_at(t, held[k]).holder == Some(id));
    }
    assert forall|i: int| 0 <= i < cs2.len() && (#[trigger] cs2[i]) is Some implies client_sound(
        t2,
        cs2[i]->0,
    ) by {
        assert(cs[i] is Some);
        let h = cs[i]->0.held;
        assert forall|k: int| 0 <= k < h.len() implies lock_at(t2, #[trigger] h[k]).holder
            == Some(cs[i]->0.id) by {
            assert(lock_at(t, h[k]).holder == Some(cs[i]->0.id));
        }
    }
    assert forall|n: Seq<char>| #[trigger] t2.dom().contains(n) implies if held.contains(n) {
        queue_sound(cs2, t2[n].waiters)
    } else {
        lock_sound(cs2, t2[n], n)
    } by {
        assert(t.dom().contains(n));
        let w = t[n].waiters;
        let w2 = t2[n].waiters;
        assert(lock_sound(cs, t[n], n));
        lemma_without(w, id);
        assert forall|k: int| 0 <= k < w2.len() implies connected(cs2, #[trigger] w2[k]) by {
            assert(w2.contains(w2[k]));
            let j = choose|j: int| 0 <= j < w.len() && w[j] == w2[k];
            assert(connected(cs, w[j]));
        }
        if !held.contains(n) {
            match t[n].holder {
                Some(h) => {
                    if h == id {
                        let i = choose|i: int| #[trigger]
                            is_slot_of(cs, i, id) && cs[i]->0.held.contains(n);
                        assert(i == slot) by {
                            if i < slot {
                                assert(cs[i]->0.id != cs[slot]->0.id);
                            } else if slot < i {
                                assert(cs[slot]->0.id != cs[i]->0.id);
                            }
                        }
                    }
                },
                None => {
                    assert(w2.len() == 0) by {
                        if w2.len() > 0 {
                            assert(w2.contains(w2[0]));
                        }
                    }
                },
            }
        }
    }
}

/// One lock of a client that has left passes on.
proof fn lemma_one_passed_on<S>(
    cs: SlabModel<S>,
    t: TableModel,
    next_id: ClientId,
    gone: ClientId,
    open: Seq<Seq<char>>,
)
    requires
        sound_but(cs, t, next_id, gone, open),
        open.len() > 0,
    ensures
        ({
            let m = passed_on(cs, vacated(t, open[0], gone), open[0]);
            sound_but(m.clients, m.locks, next_id, gone, open.skip(1))
        }),
{
    let n = open[0];
    let rest = open.skip(1);
    let t1 = vacated(t, n, gone);
    assert(t.dom().contains(open[0]));
    assert(!rest.contains(n)) by {
        if rest.contains(n) {
            let k = choose|k: int| 0 <= k < rest.len() && rest[k] == n;
            assert(open[k + 1] == open[0]);
        }
    }
    assert forall|x: Seq<char>| x != n implies (rest.contains(x) <==> #[trigger] open.contains(
        x,
    )) by {
        if open.contains(x) {
            let k = choose|k: int| 0 <= k < open.len() && open[k] == x;
            assert(rest[k - 1] == x);
        }
        if rest.contains(x) {
            let k = choose|k: int| 0 <= k < rest.len() && rest[k] == x;
            assert(open[k + 1] == x);
        }
    }
    assert forall|k: int| 0 <= k < rest.len() implies t1.dom().contains(#[trigger] rest[k])
        && t1[rest[k]].holder == Some(gone) by {
        assert(rest[k] == open[k + 1]);
        assert(rest.contains(rest[k]));
    }
    let t2 = t1.insert(n, free_lock());
    assert forall|i: int| 0 <= i < cs.len() && (#[trigger] cs[i]) is Some implies client_sound(
        t2,
        cs[i]->0,
    ) && !cs[i]->0.held.contains(n) by {
        let held = cs[i]->0.held;
        assert(client_sound(t, cs[i]->0));
        assert(is_slot_of(cs, i, cs[i]->0.id));
        assert(connected(cs, cs[i]->0.id));
        if held.contains(n) {
            let k = choose|k: int| 0 <= k < held.len() && held[k] == n;
            assert(lock_at(t, held[k]).holder == Some(cs[i]->0.id));
        }
        assert forall|k: int| 0 <= k < held.len() implies lock_at(
            t2,
            #[trigger] held[k],
        ).holder == Some(cs[i]->0.id) by {
            assert(held.contains(held[k]));
            assert(lock_at(t, held[k]).holder == Some(cs[i]->0.id));
        }
    }
    assert forall|x: Seq<char>| #[trigger]
        t1.dom().contains(x) && x != n implies if rest.contains(x) {
        queue_sound(cs, t1[x].waiters)
    } else {
        lock_sound(cs, t1[x], x)
    } by {
        assert(t.dom().contains(x));
        assert(open.contains(x) <==> rest.contains(x));
    }
    assert(queue_sound(cs, t1[n].waiters)) by {
        assert(open.contains(n));
    }
    lemma_passed_on(cs, t1, next_id, gone, rest, n);
}

proof fn lemma_gave_up<S>(
    cs: SlabModel<S>,
    t: TableModel,
    next_id: ClientId,
    gone: ClientId,
    held: Seq<Seq<char>>,
    k: int,
)
    requires
        sound_but(cs, t, next_id, gone, held),
        0 <= k <= held.len(),
    ensures
        ({
            let (cs2, t2, _) = gave_up(cs, t, gone, held, k);
            sound_but(cs2, t2, next_id, gone, held.skip(k))
        }),
    decreases k,
{
    if k > 0 {
        lemma_gave_up(cs, t, next_id, gone, held, k - 1);
        let (cs1, t1, _) = gave_up(cs, t, gone, held, k - 1);
        lemma_one_passed_on(cs1, t1, next_id, gone, held.skip(k - 1));
        assert(held.skip(k - 1).skip(1) =~= held.skip(k));
        assert(held.skip(k - 1)[0] == held[k - 1]);
    } else {
        assert(held.skip(0) =~= held);
    }
}

/// A client that leaves keeps the invariant. It is then connected no more, holds
/// no lock and waits for none.
pub proof fn law_departure_keeps_sound<S>(
    cs: SlabModel<S>,
    t: TableModel,
    next_id: ClientId,
    slot: int,
)
    requires
        sound(cs, t, next_id),
        0 <= slot < cs.len(),
        cs[slot] is Some,
    ensures
        sound(departed(cs, t, slot).0, departed(cs, t, slot).1, next_id),
        !connected(departed(cs, t, slot).0, cs[slot]->0.id),
        forall|n: Seq<char>| #[trigger]
            departed(cs, t, slot).1.dom().contains(n) ==> {
                &&& departed(cs, t, slot).1[n].holder != Some(cs[slot]->0.id)
                &&& !departed(cs, t, slot).1[n].waiters.contains(cs[slot]->0.id)
            },
{
    let c = cs[slot]->0;
    lemma_removed(cs, t, next_id, slot);
    lemma_gave_up(
        cs.update(slot, None),
        queues_without(t, c.id),
        next_id,
        c.id,
        c.held,
        c.held.len() as int,
    );
    let (cs2, t2, _) = departed(cs, t, slot);
    let none = c.held.skip(c.held.len() as int);
    assert(none =~= Seq::<Seq<char>>::empty());
    assert forall|n: Seq<char>| #[trigger] t2.dom().contains(n) implies lock_sound(cs2, t2[n], n)
        && t2[n].holder != Some(c.id) && !t2[n].waiters.contains(c.id) by {
        assert(!none.contains(n));
        assert(lock_sound(cs2, t2[n], n));
        if t2[n].holder == Some(c.id) {
            let i = choose|i: int| #[trigger]
                is_slot_of(cs2, i, c.id) && cs2[i]->0.held.contains(n);
            assert(connected(cs2, c.id));
        }
        if t2[n].waiters.contains(c.id) {
            let k = choose|k: int| 0 <= k < t2[n].waiters.len() && t2[n].waiters[k] == c.id;
            assert(connected(cs2, t2[n].waiters[k]));
        }
    }
}

/// A new connection, under the next id, keeps the invariant.
pub proof fn law_arrival_keeps_sound<S>(
    cs: SlabModel<S>,
    t: TableModel,
    next_id: ClientId,
    c: ClientModel<S>,
)
    requires
        sound(cs, t, next_id),
        0 < next_id < u64::MAX,
        c.id == next_id,
        c.held.len() == 0,
    ensures
        sound(seated(cs, c), t, (next_id + 1) as u64),
{
    lemma_free_slot(cs);
    let p = free_slot(cs);
    let cs2 = seated(cs, c);
    assert forall|i: int, x: ClientId| #[trigger] is_slot_of(cs, i, x) implies is_slot_of(
        cs2,
        i,
        x,
    ) && cs2[i] == cs[i] by {}
    assert forall|x: ClientId| connected(cs, x) implies #[trigger] connected(cs2, x) by {
        let i = choose|i: int| #[trigger] is_slot_of(cs, i, x);
        assert(is_slot_of(cs2, i, x));
    }
    assert forall|x: ClientId, n: Seq<char>| holds(cs, x, n) implies #[trigger] holds(
        cs2,
        x,
        n,
    ) by {
        let i = choose|i: int| #[trigger] is_slot_of(cs, i, x) && cs[i]->0.held.contains(n);
        assert(is_slot_of(cs2, i, x));
    }
    assert forall|i: int| 0 <= i < cs2.len() && (#[trigger] cs2[i]) is Some implies 0
        < cs2[i]->0.id < next_id + 1 && client_sound(t, cs2[i]->0) by {
        if i != p {
            assert(cs2[i] == cs[i]);
            assert(cs[i] is Some);
        }
    }
    assert forall|i: int, j: int|
        0 <= i < j < cs2.len() && (#[trigger] cs2[i]) is Some && (
        #[trigger] cs2[j]) is Some implies cs2[i]->0.id != cs2[j]->0.id by {
        if i != p {
            assert(cs2[i] == cs[i]);
            assert(cs[i] is Some);
        }
        if j != p {
            assert(cs2[j] == cs[j]);
            assert(cs[j] is Some);
        }
    }
}

/// A server to which nobody has connected yet satisfies the invariant.
pub proof fn law_start_is_sound<S>()
    ensures
        sound(
            Seq::<Option<ClientModel<S>>>::empty(),
            Map::<Seq<char>, LockModel>::empty(),
            1,
        ),
{
}

/// Whatever arrives from a client, and however the read of it ended, the
/// invariant is kept.
pub proof fn law_input_keeps_sound<S>(
    cs: SlabModel<S>,
    t: TableModel,
    next_id: ClientId,
    slot: int,
    data: Seq<u8>,
    end: ReadEnd,
)
    requires
        sound(cs, t, next_id),
    ensures
        sound(
            served(cs, t, slot, data, end).clients,
            served(cs, t, slot, data, end).locks,
            next_id,
        ),
{
    if 0 <= slot < cs.len() && cs[slot] is Some {
        let c = cs[slot]->0;
        let cs1 = cs.update(slot, Some((ClientModel { unread: c.unread + data, ..c })));
        assert(same_holdings(cs, cs1));
        lemma_same_holdings(cs, cs1, t, next_id);
        lemma_drained(cs1, t, next_id, slot);
        law_departure_keeps_sound(cs1, t, next_id, slot);
    }
}

proof fn lemma_drained<S>(cs: SlabModel<S>, t: TableModel, next_id: ClientId, slot: int)
    requires
        sound(cs, t, next_id),
        0 <= slot < cs.len(),
        cs[slot] is Some,
    ensures
        sound(drained(cs, t, slot).clients, drained(cs, t, slot).locks, next_id),
    decreases unread_at(cs, slot),
{
    let cs1 = line_taken(cs, slot);
    assert(same_holdings(cs, cs1));
    lemma_same_holdings(cs, cs1, t, next_id);
    lemma_drain_step(cs, t, slot);
    match line_of(cs[slot]->0.unread) {
        LineModel::Incomplete => {},
        LineModel::Line(s) => {
            if trim_cr(s).len() == 0 {
                lemma_drained(cs1, t, next_id, slot);
            } else {
                let m = processed(cs1, t, slot, trim_cr(s));
                law_line_keeps_sound(cs1, t, next_id, slot, trim_cr(s));
                lemma_processed_same(cs1, t, slot, trim_cr(s));
                assert(cs1[slot] is Some);
                lemma_drained(m.clients, m.locks, next_id, slot);
            }
        },
        LineModel::TooLong => {
            let cs2 = told(cs1, slot, catalogued(ERR_LINE_TOO_LONG@));
            lemma_same_holdings(cs1, cs2, t, next_id);
            law_departure_keeps_sound(cs2, t, next_id, slot);
        },
        LineModel::InvalidUtf8 => {
            law_departure_keeps_sound(cs1, t, next_id, slot);
        },
    }
}

/// Mutual exclusion: no lock is held by two clients, and what a client believes
/// to hold the table says that it holds.
pub proof fn law_mutual_exclusion<S>(
    cs: SlabModel<S>,
    t: TableModel,
    next_id: ClientId,
    i: int,
    j: int,
    n: Seq<char>,
)
    requires
        sound(cs, t, next_id),
        0 <= i < cs.len(),
        0 <= j < cs.len(),
        cs[i] is Some,
        cs[j] is Some,
        cs[i]->0.held.contains(n),
        cs[j]->0.held.contains(n),
    ensures
        i == j,
        lock_at(t, n).holder == Some(cs[i]->0.id),
{
    assert(client_sound(t, cs[i]->0));
    assert(client_sound(t, cs[j]->0));
    let a = choose|a: int| 0 <= a < cs[i]->0.held.len() && cs[i]->0.held[a] == n;
    let b = choose|b: int| 0 <= b < cs[j]->0.held.len() && cs[j]->0.held[b] == n;
    assert(lock_at(t, cs[i]->0.held[a]).holder == Some(cs[i]->0.id));
    assert(lock_at(t, cs[j]->0.held[b]).holder == Some(cs[j]->0.id));
}

/// First come, first served: when a lock is given up, it passes to the oldest
/// waiter, which is told `GRANTED`; the others keep their places. Without
/// waiters it is free.
pub proof fn law_first_waiter_is_next<S>(
    cs: SlabModel<S>,
    t: TableModel,
    next_id: ClientId,
    slot: int,
    line: Seq<char>,
    n: Seq<char>,
)
    requires
        sound(cs, t, next_id),
        0 <= slot < cs.len(),
        cs[slot] is Some,
        request_of(line) == Some(RequestModel::Release(n)),
        lock_at(t, n).holder == Some(cs[slot]->0.id),
    ensures
        ({
            let w = lock_at(t, n).waiters;
            let after = processed(cs, t, slot, line);
            if w.len() > 0 {
                let i = slot_of(cs, w[0]);
                &&& lock_at(after.locks, n) == (LockModel {
                    holder: Some(w[0]),
                    waiters: w.skip(1),
                })
                &&& i != slot
                &&& is_slot_of(cs, i, w[0])
                &&& after.clients[i] == Some(cs[i]->0.promoted(n))
                &&& after.clients[slot] == Some(cs[slot]->0.released(n))
                &&& after.rearm == Some(i)
            } else {
                &&& lock_at(after.locks, n) == free_lock()
                &&& after.clients == cs.update(slot, Some(cs[slot]->0.released(n)))
                &&& after.rearm is None
            }
        }),
{
    let m = lock_at(t, n);
    let w = m.waiters;
    let cs2 = cs.update(slot, Some(cs[slot]->0.released(n)));
    lemma_released(cs, t, next_id, slot, n);
    assert(t.insert(n, m) =~= t);
    assert(lock_sound(cs, t[n], n));
    lemma_first_waiter(cs2, w);
    if w.len() > 0 {
        lemma_first_waiter(cs, w);
        lemma_slot_of(cs, w[0]);
        lemma_slot_of(cs2, w[0]);
        let i = slot_of(cs, w[0]);
        let i2 = slot_of(cs2, w[0]);
        assert(is_slot_of(cs2, i, w[0]));
        assert(is_slot_of(cs, i2, w[0]));
        assert(i == i2);
        assert(w.contains(w[0]));
    }
}

/// A request that is answered with `ERR` or `DENIED`, or that only asks, leaves
/// every lock and every client's holdings as they were.
pub proof fn law_refusal_changes_no_lock<S>(
    cs: SlabModel<S>,
    t: TableModel,
    slot: int,
    line: Seq<char>,
    n: Seq<char>,
)
    requires
        0 <= slot < cs.len(),
        cs[slot] is Some,
        match request_of(line) {
            None => true,
            Some(RequestModel::Acquire(x)) => acquire_outcome(
                lock_at(t, x),
                cs[slot]->0.id,
            ) is AlreadyHeld,
            Some(RequestModel::TryAcquire(x)) => lock_at(t, x).holder is Some,
            Some(RequestModel::Release(x)) => lock_at(t, x).holder != Some(cs[slot]->0.id),
            Some(RequestModel::Status(x)) => true,
            Some(RequestModel::List) => true,
        },
    ensures
        lock_at(processed(cs, t, slot, line).locks, n) == lock_at(t, n),
        processed(cs, t, slot, line).clients.len() == cs.len(),
        forall|i: int|
            0 <= i < cs.len() && (#[trigger] processed(cs, t, slot, line).clients[i]) is Some
                ==> cs[i] is Some && processed(cs, t, slot, line).clients[i]->0.held
                == cs[i]->0.held,
        processed(cs, t, slot, line).rearm is None,
{
    match request_of(line) {
        Some(RequestModel::List) => {
            lemma_told_all_holdings(cs, slot, list_reply(known_names_of(t)));
        },
        _ => {},
    }
}

/// A request about one lock leaves every other lock as it was.
pub proof fn law_other_locks_unchanged<S>(
    cs: SlabModel<S>,
    t: TableModel,
    slot: int,
    line: Seq<char>,
    n: Seq<char>,
)
    requires
        match request_of(line) {
            None => true,
            Some(RequestModel::Acquire(x)) => x != n,
            Some(RequestModel::TryAcquire(x)) => x != n,
            Some(RequestModel::Release(x)) => x != n,
            Some(RequestModel::Status(x)) => true,
            Some(RequestModel::List) => true,
        },
    ensures
        lock_at(processed(cs, t, slot, line).locks, n) == lock_at(t, n),
{
}

/// `LIST` names every known lock once, in ascending order, and no others.
pub proof fn law_list_names_known_locks(t: TableModel, n: Seq<char>)
    requires
        t.dom().finite(),
    ensures
        known_names_of(t).contains(n) <==> t.dom().contains(n),
        known_names_of(t).no_duplicates(),
        ascending::<String>(known_names_of(t)),
{
    lemma_sorted_keys_lists::<String, LockModel>(t);
}

/// A lock stays known over every request, and one that a request names is known
/// from then on, free or not: `LIST` names it.
pub proof fn law_locks_stay_known<S>(
    cs: SlabModel<S>,
    t: TableModel,
    slot: int,
    line: Seq<char>,
    n: Seq<char>,
)
    requires
        t.dom().finite(),
        0 <= slot < cs.len(),
        cs[slot] is Some,
        t.dom().contains(n) || (match request_of(line) {
            Some(RequestModel::Acquire(x)) => x == n,
            Some(RequestModel::TryAcquire(x)) => x == n,
            Some(RequestModel::Release(x)) => x == n,
            Some(RequestModel::Status(x)) => x == n,
            _ => false,
        }),
    ensures
        processed(cs, t, slot, line).locks.dom().finite(),
        processed(cs, t, slot, line).locks.dom().contains(n),
        known_names_of(processed(cs, t, slot, line).locks).contains(n),
{
    lemma_sorted_keys_lists::<String, LockModel>(processed(cs, t, slot, line).locks);
}

proof fn lemma_gave_up_knows<S>(
    cs: SlabModel<S>,
    t: TableModel,
    id: ClientId,
    held: Seq<Seq<char>>,
    n: int,
)
    ensures
        gave_up(cs, t, id, held, n).1.dom() == t.dom(),
    decreases n,
{
    if n > 0 {
        lemma_gave_up_knows(cs, t, id, held, n - 1);
        let (cs1, t1, _) = gave_up(cs, t, id, held, n - 1);
        let t2 = vacated(t1, held[n - 1], id);
        assert(t2.dom() =~= t1.dom());
        assert(passed_on(cs1, t2, held[n - 1]).locks.dom() =~= t2.dom());
    }
}

/// A client that leaves takes no lock with it: those that were known stay known.
pub proof fn law_leaving_keeps_locks_known<S>(cs: SlabModel<S>, t: TableModel, slot: int)
    ensures
        departed(cs, t, slot).1.dom() == t.dom(),
{
    if 0 <= slot < cs.len() && cs[slot] is Some {
        let c = cs[slot]->0;
        assert(queues_without(t, c.id).dom() =~= t.dom());
        lemma_gave_up_knows(
            cs.update(slot, None),
            queues_without(t, c.id),
            c.id,
            c.held,
            c.held.len() as int,
        );
    }
}

proof fn lemma_gave_up_lock<S>(
    cs: SlabModel<S>,
    t: TableModel,
    next_id: ClientId,
    gone: ClientId,
    held: Seq<Seq<char>>,
    k: int,
    n: Seq<char>,
)
    requires
        sound_but(cs, t, next_id, gone, held),
        0 <= k <= held.len(),
        t.dom().contains(n),
    ensures
        ({
            let t2 = gave_up(cs, t, gone, held, k).1;
            let w = t[n].waiters;
            &&& t2.dom().contains(n)
            &&& !held.take(k).contains(n) ==> t2[n] == t[n]
            &&& held.take(k).contains(n) && w.len() == 0 ==> t2[n] == free_lock()
            &&& held.take(k).contains(n) && w.len() > 0 ==> t2[n] == (LockModel {
                holder: Some(w[0]),
                waiters: w.skip(1),
            })
        }),
    decreases k,
{
    if k > 0 {
        let x = held[k - 1];
        let (cs1, t1, _) = gave_up(cs, t, gone, held, k - 1);
        lemma_gave_up(cs, t, next_id, gone, held, k - 1);
        lemma_gave_up_lock(cs, t, next_id, gone, held, k - 1, n);
        let open = held.skip(k - 1);
        assert(open[0] == x);
        assert(open.contains(x));
        assert(t1.dom().contains(x) && t1[x].holder == Some(gone));
        let v = vacated(t1, x, gone);
        lemma_first_waiter(cs1, v[x].waiters);
        let before = held.take(k - 1);
        let now = held.take(k);
        assert(now[k - 1] == x);
        assert(now.contains(n) <==> before.contains(n) || n == x) by {
            if before.contains(n) {
                let i = choose|i: int| 0 <= i < before.len() && before[i] == n;
                assert(now[i] == n);
            }
            if now.contains(n) && n != x {
                let i = choose|i: int| 0 <= i < now.len() && now[i] == n;
                assert(before[i] == n);
            }
        }
        if before.contains(x) {
            let i = choose|i: int| 0 <= i < before.len() && before[i] == x;
            assert(held[i] == held[k - 1]);
        }
        assert(passed_on(cs1, v, x).locks == v.insert(x, handed_over(cs1, v[x].waiters)));
    } else {
        assert(!held.take(0).contains(n));
    }
}

/// What a client that leaves does to a lock: it waits there no more, and if it held the
/// lock, the one who waits longest of those that are left has it now. Without any it is
/// free. A lock that somebody else holds keeps its holder.
pub proof fn law_departure_passes_locks_on<S>(
    cs: SlabModel<S>,
    t: TableModel,
    next_id: ClientId,
    slot: int,
    n: Seq<char>,
)
    requires
        sound(cs, t, next_id),
        0 <= slot < cs.len(),
        cs[slot] is Some,
        t.dom().contains(n),
    ensures
        ({
            let id = cs[slot]->0.id;
            let w = without(t[n].waiters, id);
            let after = departed(cs, t, slot).1;
            &&& after.dom().contains(n)
            &&& t[n].holder != Some(id) ==> after[n].holder == t[n].holder && after[n].waiters == w
            &&& t[n].holder == Some(id) && w.len() == 0 ==> after[n].holder is None
                && after[n].waiters.len() == 0
            &&& t[n].holder == Some(id) && w.len() > 0 ==> after[n].holder == Some(w[0])
                && after[n].waiters == w.skip(1)
        }),
{
    let c = cs[slot]->0;
    let k = c.held.len() as int;
    lemma_removed(cs, t, next_id, slot);
    lemma_gave_up_lock(
        cs.update(slot, None),
        queues_without(t, c.id),
        next_id,
        c.id,
        c.held,
        k,
        n,
    );
    assert(c.held.take(k) =~= c.held);
    assert(lock_sound(cs, t[n], n));
    assert(client_sound(t, c));
    if t[n].holder == Some(c.id) {
        let i = choose|i: int| #[trigger] is_slot_of(cs, i, c.id) && cs[i]->0.held.contains(n);
        assert(cs[i] is Some);
        assert(i == slot);
        assert(c.held.contains(n));
    }
    if c.held.contains(n) {
        let i = choose|i: int| 0 <= i < c.held.len() && c.held[i] == n;
        assert(lock_at(t, c.held[i]).holder == Some(c.id));
    }
}

} // verus!
