//! The lock table: who holds each named lock and who waits for it.

use std::collections::VecDeque;
use vstd::prelude::*;
use vstd::string::*;

use crate::locks::protocol::ClientId;
use crate::locks::protocol::Response;
use crate::locks::protocol::ResponseModel;
use crate::ordmap::sorted_keys;
use crate::ordmap::OrdMap;
use crate::text::texts;

verus! {

/// The abstract state of one lock.
#[verifier::ext_equal]
pub struct LockModel {
    pub holder: Option<ClientId>,
    /// Oldest waiter first.
    pub waiters: Seq<ClientId>,
}

/// A lock that nobody holds or waits for.
pub open spec fn free_lock() -> LockModel {
    LockModel { holder: None, waiters: Seq::empty() }
}

/// The lock passes to its oldest waiter, or becomes free if it has none.
pub open spec fn promoted(m: LockModel) -> LockModel {
    if m.waiters.len() > 0 {
        LockModel { holder: Some(m.waiters[0]), waiters: m.waiters.skip(1) }
    } else {
        free_lock()
    }
}

/// `w` without the first occurrence of `id`.
pub open spec fn without_first(w: Seq<ClientId>, id: ClientId) -> Seq<ClientId>
    decreases w.len(),
{
    if w.len() == 0 {
        w
    } else if w[0] == id {
        w.skip(1)
    } else {
        seq![w[0]] + without_first(w.skip(1), id)
    }
}

/// `w` without any occurrence of `id`.
pub open spec fn without(w: Seq<ClientId>, id: ClientId) -> Seq<ClientId> {
    w.filter(|x: ClientId| x != id)
}

/// What an `ACQUIRE` comes to.
#[derive(Clone, Copy, PartialEq, Eq, Structural, Debug)]
pub enum Acquired {
    /// The client holds the lock already, or waits for it already.
    AlreadyHeld,
    /// The lock was free.
    Granted,
    /// The lock is held by another client; this one waits.
    Queued,
}

/// What an `ACQUIRE` by `id` comes to.
pub open spec fn acquire_outcome(m: LockModel, id: ClientId) -> Acquired {
    if m.holder == Some(id) || m.waiters.contains(id) {
        Acquired::AlreadyHeld
    } else if m.holder is None {
        Acquired::Granted
    } else {
        Acquired::Queued
    }
}

/// The lock after an `ACQUIRE` by `id`.
pub open spec fn after_acquire(m: LockModel, id: ClientId) -> LockModel {
    match acquire_outcome(m, id) {
        Acquired::AlreadyHeld => m,
        Acquired::Granted => LockModel { holder: Some(id), ..m },
        Acquired::Queued => LockModel { waiters: m.waiters.push(id), ..m },
    }
}

/// The lock after a `TRY_ACQUIRE` by `id`.
pub open spec fn after_try_acquire(m: LockModel, id: ClientId) -> LockModel {
    if m.holder is None {
        LockModel { holder: Some(id), ..m }
    } else {
        m
    }
}

/// What is reported of a lock.
pub open spec fn status_response(name: Seq<char>, m: LockModel) -> ResponseModel {
    match m.holder {
        None => ResponseModel::StatusFree { name, waiters: m.waiters.len() as usize },
        Some(holder) => ResponseModel::StatusHeld {
            name,
            holder,
            waiters: m.waiters.len() as usize,
        },
    }
}

/// State of a single named lock.
pub struct LockEntry {
    holder: Option<ClientId>,
    /// FIFO queue. The front is the oldest waiter and is granted the lock next.
    waiters: VecDeque<ClientId>,
}

impl View for LockEntry {
    type V = LockModel;

    closed spec fn view(&self) -> LockModel {
        LockModel { holder: self.holder, waiters: self.waiters@ }
    }
}

impl LockEntry {
    pub fn new() -> (r: Self)
        ensures
            r@ == free_lock(),
    {
        LockEntry { holder: None, waiters: VecDeque::new() }
    }

    pub fn holder(&self) -> (r: Option<ClientId>)
        ensures
            r == self@.holder,
    {
        self.holder
    }

    pub fn waiter_count(&self) -> (r: usize)
        ensures
            r == self@.waiters.len(),
    {
        self.waiters.len()
    }

    /// Whether `id` waits for the lock.
    pub fn is_waiting(&self, id: ClientId) -> (r: bool)
        ensures
            r == self@.waiters.contains(id),
    {
        match self.waiter_place(id) {
            Some(_) => true,
            None => false,
        }
    }

    fn waiter_place(&self, id: ClientId) -> (r: Option<usize>)
        ensures
            match r {
                Some(i) => {
                    &&& i < self@.waiters.len()
                    &&& self@.waiters[i as int] == id
                    &&& forall|k: int| 0 <= k < i ==> self@.waiters[k] != id
                },
                None => !self@.waiters.contains(id),
            },
    {
        let mut i: usize = 0;
        while i < self.waiters.len()
            invariant
                i <= self.waiters@.len(),
                forall|k: int| 0 <= k < i ==> self.waiters@[k] != id,
            decreases self.waiters@.len() - i,
        {
            if self.waiters[i] == id {
                return Some(i);
            }
            i += 1;
        }
        None
    }

    /// Transfers the lock to the oldest waiter. If there is none the lock
    /// becomes free. Returns the new holder.
    pub fn promote_next(&mut self) -> (r: Option<ClientId>)
        ensures
            final(self)@ == promoted(old(self)@),
            r == final(self)@.holder,
    {
        match self.waiters.pop_front() {
            Some(next) => {
                self.holder = Some(next);
                assert(self.waiters@ =~= old(self).waiters@.skip(1));
                Some(next)
            },
            None => {
                self.holder = None;
                assert(self.waiters@ =~= Seq::<ClientId>::empty());
                None
            },
        }
    }

    /// Removes `id` from the queue without granting the lock. Returns `true` if
    /// it was there.
    pub fn evict_waiter(&mut self, id: ClientId) -> (r: bool)
        ensures
            r == old(self)@.waiters.contains(id),
            final(self)@.holder == old(self)@.holder,
            final(self)@.waiters == without_first(old(self)@.waiters, id),
    {
        match self.waiter_place(id) {
            Some(i) => {
                proof {
                    lemma_without_first_at(self.waiters@, id, i as int);
                }
                let _gone = self.waiters.remove(i);
                true
            },
            None => {
                proof {
                    lemma_without_first_absent(self.waiters@, id);
                }
                false
            },
        }
    }

    /// Removes every occurrence of `id` from the queue.
    pub fn forget_waiter(&mut self, id: ClientId)
        ensures
            final(self)@.holder == old(self)@.holder,
            final(self)@.waiters == without(old(self)@.waiters, id),
    {
        let ghost all = self.waiters@;
        let mut kept: VecDeque<ClientId> = VecDeque::new();
        let mut i: usize = 0;
        assert(all.take(0) =~= Seq::<ClientId>::empty());
        while i < self.waiters.len()
            invariant
                i <= all.len(),
                all == self.waiters@,
                self.holder == old(self).holder,
                kept@ == without(all.take(i as int), id),
            decreases all.len() - i,
        {
            let x: ClientId = self.waiters[i];
            proof {
                reveal(Seq::filter);
                assert(all.take(i + 1).drop_last() =~= all.take(i as int));
                assert(all.take(i + 1).last() == x);
            }
            if x != id {
                kept.push_back(x);
            }
            i += 1;
        }
        assert(all.take(all.len() as int) =~= all);
        self.waiters = kept;
    }

    /// Handles an `ACQUIRE` by `id`.
    pub fn acquire(&mut self, id: ClientId) -> (r: Acquired)
        ensures
            r == acquire_outcome(old(self)@, id),
            final(self)@ == after_acquire(old(self)@, id),
    {
        if self.holder == Some(id) || self.is_waiting(id) {
            Acquired::AlreadyHeld
        } else if self.holder.is_none() {
            self.holder = Some(id);
            Acquired::Granted
        } else {
            self.waiters.push_back(id);
            Acquired::Queued
        }
    }

    /// Handles a `TRY_ACQUIRE` by `id`: grants the lock only if it is free.
    pub fn try_acquire(&mut self, id: ClientId) -> (r: bool)
        ensures
            r == (old(self)@.holder is None),
            final(self)@ == after_try_acquire(old(self)@, id),
    {
        if self.holder.is_none() {
            self.holder = Some(id);
            true
        } else {
            false
        }
    }

    /// What is reported of the lock under the given name.
    pub fn status(&self, name: &str) -> (r: Response)
        ensures
            r@ == status_response(name@, self@),
    {
        match self.holder {
            None => Response::StatusFree { name: name.to_owned(), waiters: self.waiters.len() },
            Some(holder) => Response::StatusHeld {
                name: name.to_owned(),
                holder,
                waiters: self.waiters.len(),
            },
        }
    }
}

proof fn lemma_without_first_at(w: Seq<ClientId>, id: ClientId, i: int)
    requires
        0 <= i < w.len(),
        w[i] == id,
        forall|k: int| 0 <= k < i ==> w[k] != id,
    ensures
        without_first(w, id) == w.remove(i),
    decreases w.len(),
{
    if i == 0 {
        assert(w.remove(0) =~= w.skip(1));
    } else {
        let t = w.skip(1);
        assert forall|k: int| 0 <= k < i - 1 implies t[k] != id by {
            assert(t[k] == w[k + 1]);
        }
        lemma_without_first_at(t, id, i - 1);
        assert(seq![w[0]] + t.remove(i - 1) =~= w.remove(i));
    }
}

proof fn lemma_without_first_absent(w: Seq<ClientId>, id: ClientId)
    requires
        !w.contains(id),
    ensures
        without_first(w, id) == w,
    decreases w.len(),
{
    if w.len() > 0 {
        let t = w.skip(1);
        assert(w.contains(w[0]));
        assert(!t.contains(id)) by {
            if t.contains(id) {
                let i = choose|i: int| 0 <= i < t.len() && t[i] == id;
                assert(w[i + 1] == id);
            }
        }
        lemma_without_first_absent(t, id);
        assert(seq![w[0]] + t =~= w);
    }
}

/// The abstract state of the table.
pub type TableModel = Map<Seq<char>, LockModel>;

/// The state of the lock called `name`: one that was never named is free.
pub open spec fn lock_at(t: TableModel, name: Seq<char>) -> LockModel {
    if t.dom().contains(name) {
        t[name]
    } else {
        free_lock()
    }
}

/// The table with every queue changed by taking `id` out of it.
pub open spec fn queues_without(t: TableModel, id: ClientId) -> TableModel {
    t.map_values(|m: LockModel| LockModel { waiters: without(m.waiters, id), ..m })
}

/// The table with the first occurrence of `id` taken out of every queue.
pub open spec fn queues_without_first(t: TableModel, id: ClientId) -> TableModel {
    t.map_values(|m: LockModel| LockModel { waiters: without_first(m.waiters, id), ..m })
}

/// Whether `id` waits for any lock.
pub open spec fn waits_somewhere(t: TableModel, id: ClientId) -> bool {
    exists|n: Seq<char>| #[trigger] t.dom().contains(n) && t[n].waiters.contains(id)
}

/// The table once `id` has given up the lock called `name`, if it holds it.
pub open spec fn given_up(t: TableModel, name: Seq<char>, id: ClientId) -> TableModel {
    if lock_at(t, name).holder == Some(id) {
        t.insert(name, promoted(t[name]))
    } else {
        t
    }
}

/// Who gets the lock called `name` once `id` gives it up, if it holds it.
pub open spec fn next_holder(t: TableModel, name: Seq<char>, id: ClientId) -> Option<ClientId> {
    if lock_at(t, name).holder == Some(id) {
        promoted(t[name]).holder
    } else {
        None
    }
}

/// The names of all known locks, the free ones too, in ascending order. A lock
/// is known once a request has named it.
pub open spec fn known_names_of(t: TableModel) -> Seq<Seq<char>> {
    sorted_keys::<String, LockModel>(t)
}

/// Central lock table.
pub struct LockStore {
    locks: OrdMap<String, LockEntry>,
    /// The next connection id to hand out.
    next_id: ClientId,
}

impl View for LockStore {
    type V = TableModel;

    closed spec fn view(&self) -> TableModel {
        self.locks@
    }
}

impl LockStore {
    pub closed spec fn wf(&self) -> bool {
        self.locks.wf()
    }

    /// The next connection id to hand out.
    pub closed spec fn next_id(&self) -> ClientId {
        self.next_id
    }

    pub fn new() -> (r: Self)
        ensures
            r.wf(),
            r@ == Map::<Seq<char>, LockModel>::empty(),
            r.next_id() == 1,
    {
        LockStore { locks: OrdMap::new(), next_id: 1 }
    }

    /// Whether there is a connection id left to hand out.
    pub fn has_id_left(&self) -> (r: bool)
        ensures
            r == (self.next_id() < u64::MAX),
    {
        self.next_id < u64::MAX
    }

    /// Allocates and returns the next connection id.
    pub fn alloc_id(&mut self) -> (r: ClientId)
        requires
            old(self).wf(),
            old(self).next_id() < u64::MAX,
        ensures
            final(self).wf(),
            final(self)@ == old(self)@,
            r == old(self).next_id(),
            final(self).next_id() == r + 1,
    {
        let id: ClientId = self.next_id;
        self.next_id = id + 1;
        id
    }

    /// The entry for `name`, created free and without waiters if absent.
    pub fn entry<'a>(&'a mut self, name: &str) -> (r: &'a mut LockEntry)
        requires
            old(self).wf(),
        ensures
            final(self).wf(),
            final(self).next_id() == old(self).next_id(),
            r@ == lock_at(old(self)@, name@),
            final(self)@ == old(self)@.insert(name@, (*final(r))@),
    {
        self.locks.entry_or(name.to_owned(), LockEntry::new())
    }

    /// Pops the next waiter from `name`'s queue and makes it the new holder.
    /// Returns `None` if the queue is empty (the lock is then free) or the name
    /// is not in the table.
    pub fn promote_next(&mut self, name: &str) -> (r: Option<ClientId>)
        requires
            old(self).wf(),
        ensures
            final(self).wf(),
            final(self).next_id() == old(self).next_id(),
            if old(self)@.dom().contains(name@) {
                &&& final(self)@ == old(self)@.insert(name@, promoted(old(self)@[name@]))
                &&& r == promoted(old(self)@[name@]).holder
            } else {
                &&& final(self)@ == old(self)@
                &&& r is None
            },
    {
        match self.locks.get_mut(&name.to_owned()) {
            Some(e) => e.promote_next(),
            None => None,
        }
    }

    /// Frees the lock called `name` if `id` holds it, without promoting anybody.
    pub fn vacate(&mut self, name: &str, id: ClientId)
        requires
            old(self).wf(),
        ensures
            final(self).wf(),
            final(self).next_id() == old(self).next_id(),
            if old(self)@.dom().contains(name@) && old(self)@[name@].holder == Some(id) {
                final(self)@ == old(self)@.insert(
                    name@,
                    (LockModel { holder: None, ..old(self)@[name@] }),
                )
            } else {
                final(self)@ == old(self)@
            },
    {
        match self.locks.get_mut(&name.to_owned()) {
            Some(e) => {
                let ghost m = e@;
                if e.holder == Some(id) {
                    e.holder = None;
                }
                assert(self@ =~= (if m.holder == Some(id) {
                    old(self)@.insert(name@, (LockModel { holder: None, ..m }))
                } else {
                    old(self)@
                }));
            },
            None => {},
        }
    }

    /// Takes `id` out of every queue.
    pub fn forget_waiter(&mut self, id: ClientId)
        requires
            old(self).wf(),
        ensures
            final(self).wf(),
            final(self).next_id() == old(self).next_id(),
            final(self)@ == queues_without(old(self)@, id),
    {
        let n: usize = self.locks.len();
        let mut i: usize = 0;
        let ghost before = self.locks@;
        let ghost ks = self.locks.keys();
        proof {
            self.locks.lemma_keys();
        }
        while i < n
            invariant
                i <= n,
                n == ks.len(),
                self.locks.wf(),
                self.locks.keys() == ks,
                self.next_id == old(self).next_id,
                self.locks@.dom() == before.dom(),
                before == old(self)@,
                forall|k: int|
                    0 <= k < ks.len() ==> before.dom().contains(#[trigger] ks[k])
                        && self.locks@[ks[k]] == (if k < i {
                        (LockModel { waiters: without(before[ks[k]].waiters, id), ..before[ks[k]] })
                    } else {
                        before[ks[k]]
                    }),
                forall|k: int, j: int|
                    0 <= k < j < ks.len() ==> #[trigger] ks[k] != #[trigger] ks[j],
                forall|x: Seq<char>| before.dom().contains(x) ==> ks.contains(x),
            decreases n - i,
        {
            let e: &mut LockEntry = self.locks.value_at_mut(i);
            e.forget_waiter(id);
            assert(self.locks@.dom() =~= before.dom());
            i += 1;
        }
        assert(self@ =~= queues_without(before, id));
    }

    /// Takes `id` out of every queue in which it waits, once per queue. Returns
    /// whether it waited anywhere.
    pub fn evict_waiter(&mut self, id: ClientId) -> (r: bool)
        requires
            old(self).wf(),
        ensures
            final(self).wf(),
            final(self).next_id() == old(self).next_id(),
            final(self)@ == queues_without_first(old(self)@, id),
            r == waits_somewhere(old(self)@, id),
    {
        let n: usize = self.locks.len();
        let mut i: usize = 0;
        let mut found: bool = false;
        let ghost before = self.locks@;
        let ghost ks = self.locks.keys();
        proof {
            self.locks.lemma_keys();
        }
        while i < n
            invariant
                i <= n,
                n == ks.len(),
                self.locks.wf(),
                self.locks.keys() == ks,
                self.next_id == old(self).next_id,
                self.locks@.dom() == before.dom(),
                before == old(self)@,
                forall|k: int|
                    0 <= k < ks.len() ==> before.dom().contains(#[trigger] ks[k])
                        && self.locks@[ks[k]] == (if k < i {
                        (LockModel {
                            waiters: without_first(before[ks[k]].waiters, id),
                            ..before[ks[k]]
                        })
                    } else {
                        before[ks[k]]
                    }),
                forall|k: int, j: int|
                    0 <= k < j < ks.len() ==> #[trigger] ks[k] != #[trigger] ks[j],
                forall|x: Seq<char>| before.dom().contains(x) ==> ks.contains(x),
                found <==> exists|k: int|
                    0 <= k < i && before[#[trigger] ks[k]].waiters.contains(id),
            decreases n - i,
        {
            let e: &mut LockEntry = self.locks.value_at_mut(i);
            let here: bool = e.evict_waiter(id);
            assert(self.locks@.dom() =~= before.dom());
            assert(here == before[ks[i as int]].waiters.contains(id));
            if here {
                found = true;
            }
            i += 1;
        }
        assert(self@ =~= queues_without_first(before, id));
        proof {
            if found {
                let k = choose|k: int| 0 <= k < i && before[#[trigger] ks[k]].waiters.contains(id);
                assert(before.dom().contains(ks[k]));
            }
            if waits_somewhere(before, id) {
                let x = choose|x: Seq<char>| #[trigger]
                    before.dom().contains(x) && before[x].waiters.contains(id);
                assert(ks.contains(x));
                let k = choose|k: int| 0 <= k < ks.len() && ks[k] == x;
                assert(before[ks[k]].waiters.contains(id));
            }
        }
        found
    }

    /// If `id` holds the lock called `name`, passes it to the oldest waiter, or
    /// frees it. Returns the new holder.
    pub fn give_up(&mut self, name: &str, id: ClientId) -> (r: Option<ClientId>)
        requires
            old(self).wf(),
        ensures
            final(self).wf(),
            final(self).next_id() == old(self).next_id(),
            final(self)@ == given_up(old(self)@, name@, id),
            r == next_holder(old(self)@, name@, id),
    {
        match self.locks.get_mut(&name.to_owned()) {
            Some(e) => {
                if e.holder == Some(id) {
                    e.promote_next()
                } else {
                    assert(self@ =~= old(self)@);
                    None
                }
            },
            None => None,
        }
    }

    /// A table knows finitely many locks.
    pub proof fn lemma_finite(&self)
        requires
            self.wf(),
        ensures
            self@.dom().finite(),
    {
        self.locks.lemma_keys();
    }

    /// The names of all known locks, in ascending order.
    pub fn known_names(&self) -> (r: Vec<String>)
        requires
            self.wf(),
        ensures
            texts(r@) == known_names_of(self@),
    {
        let ghost names = self.locks.keys();
        proof {
            self.locks.lemma_keys();
        }
        let n: usize = self.locks.len();
        let mut out: Vec<String> = Vec::new();
        let mut i: usize = 0;
        while i < n
            invariant
                i <= n,
                names == self.locks.keys(),
                n == names.len(),
                self.wf(),
                texts(out@) == names.take(i as int),
            decreases n - i,
        {
            let name: &String = self.locks.key_at(i);
            let ghost before = out@;
            out.push(name.clone());
            assert(texts(out@) =~= texts(before).push(name@));
            assert(names.take(i + 1) =~= names.take(i as int).push(names[i as int]));
            i += 1;
        }
        assert(names.take(n as int) =~= names);
        out
    }
}

// Laws.

/// What an `ACQUIRE` by `id` comes to, for every state of the lock. It is refused
/// exactly if `id` holds the lock or waits for it. It is granted exactly if nobody
/// holds the lock and `id` does not wait. Else `id` goes to the end of the queue,
/// however long that is. Nothing else changes.
pub proof fn law_acquire(m: LockModel, id: ClientId)
    ensures
        ({
            let mine = m.holder == Some(id) || exists|i: int|
                0 <= i < m.waiters.len() && m.waiters[i] == id;
            let r = acquire_outcome(m, id);
            let after = after_acquire(m, id);
            &&& r == Acquired::AlreadyHeld <==> mine
            &&& r == Acquired::Granted <==> !mine && m.holder == None::<ClientId>
            &&& r == Acquired::Queued <==> !mine && m.holder != None::<ClientId>
            &&& mine ==> after.holder == m.holder && after.waiters == m.waiters
            &&& !mine && m.holder == None::<ClientId> ==> after.holder == Some(id) && after.waiters
                == m.waiters
            &&& !mine && m.holder != None::<ClientId> ==> {
                &&& after.holder == m.holder
                &&& after.waiters.len() == m.waiters.len() + 1
                &&& after.waiters[m.waiters.len() as int] == id
                &&& forall|i: int| 0 <= i < m.waiters.len() ==> after.waiters[i] == m.waiters[i]
            }
        }),
{
}

/// What [`LockEntry::acquire`] returns and leaves behind, in the terms of
/// [`law_acquire`].
pub proof fn law_acquire_entry()
    ensures
        forall|e: &mut LockEntry, id: ClientId, r: Acquired| #[trigger]
            call_ensures(LockEntry::acquire, (e, id), r) ==> {
                let was = e@;
                let now = (*final(e))@;
                let mine = was.holder == Some(id) || exists|i: int|
                    0 <= i < was.waiters.len() && was.waiters[i] == id;
                if mine {
                    r == Acquired::AlreadyHeld && now.holder == was.holder && now.waiters
                        == was.waiters
                } else if was.holder == None::<ClientId> {
                    r == Acquired::Granted && now.holder == Some(id) && now.waiters == was.waiters
                } else {
                    r == Acquired::Queued && now.holder == was.holder && now.waiters
                        == was.waiters.push(id)
                }
            },
{
    assert forall|e: &mut LockEntry, id: ClientId, r: Acquired| #[trigger]
        call_ensures(LockEntry::acquire, (e, id), r) implies {
        let was = e@;
        let now = (*final(e))@;
        let mine = was.holder == Some(id) || exists|i: int|
            0 <= i < was.waiters.len() && was.waiters[i] == id;
        if mine {
            r == Acquired::AlreadyHeld && now.holder == was.holder && now.waiters == was.waiters
        } else if was.holder == None::<ClientId> {
            r == Acquired::Granted && now.holder == Some(id) && now.waiters == was.waiters
        } else {
            r == Acquired::Queued && now.holder == was.holder && now.waiters == was.waiters.push(id)
        }
    } by {
        law_acquire(e@, id);
        let was = e@;
        if r is Queued {
            assert(after_acquire(was, id).waiters =~= was.waiters.push(id));
        }
    }
}

/// A `TRY_ACQUIRE` is granted exactly if nobody holds the lock, and changes nothing
/// else; the queue stays as it is.
pub proof fn law_try_acquire(m: LockModel, id: ClientId)
    ensures
        after_try_acquire(m, id).waiters == m.waiters,
        m.holder == None::<ClientId> ==> after_try_acquire(m, id).holder == Some(id),
        m.holder != None::<ClientId> ==> after_try_acquire(m, id).holder == m.holder,
        forall|e: &mut LockEntry, id: ClientId, r: bool| #[trigger]
            call_ensures(LockEntry::try_acquire, (e, id), r) ==> {
                &&& r <==> e@.holder == None::<ClientId>
                &&& (*final(e))@.waiters == e@.waiters
                &&& (*final(e))@.holder == (if e@.holder == None::<ClientId> {
                    Some(id)
                } else {
                    e@.holder
                })
            },
{
}

/// A lock that is given up passes to whoever has waited longest; the others move up
/// by one place. Without waiters it is free.
pub proof fn law_promotion(m: LockModel)
    ensures
        m.waiters.len() == 0 ==> promoted(m).holder == None::<ClientId> && promoted(m).waiters.len()
            == 0,
        m.waiters.len() > 0 ==> {
            &&& promoted(m).holder == Some(m.waiters[0])
            &&& promoted(m).waiters.len() == m.waiters.len() - 1
            &&& forall|i: int|
                0 <= i < m.waiters.len() - 1 ==> promoted(m).waiters[i] == m.waiters[i + 1]
        },
        forall|e: &mut LockEntry, r: Option<ClientId>| #[trigger]
            call_ensures(LockEntry::promote_next, (e,), r) ==> {
                &&& r == (if e@.waiters.len() > 0 {
                    Some(e@.waiters[0])
                } else {
                    None
                })
                &&& (*final(e))@.holder == r
                &&& (*final(e))@.waiters == (if e@.waiters.len() > 0 {
                    e@.waiters.skip(1)
                } else {
                    Seq::empty()
                })
            },
{
}

/// A new entry, and a name that the table does not know, stand for a lock that
/// nobody holds or waits for.
pub proof fn law_unknown_lock_is_free(t: TableModel, n: Seq<char>)
    ensures
        free_lock().holder == None::<ClientId>,
        free_lock().waiters.len() == 0,
        t.dom().contains(n) ==> lock_at(t, n) == t[n],
        !t.dom().contains(n) ==> lock_at(t, n).holder == None::<ClientId> && lock_at(
            t,
            n,
        ).waiters.len() == 0,
        forall|r: LockEntry| #[trigger]
            call_ensures(LockEntry::new, (), r) ==> r@.holder == None::<ClientId>
                && r@.waiters.len() == 0,
{
}

/// What is reported of a lock is its holder and how many wait for it.
pub proof fn law_status(name: Seq<char>, m: LockModel)
    ensures
        m.holder == None::<ClientId> ==> status_response(name, m) == (ResponseModel::StatusFree {
            name,
            waiters: m.waiters.len() as usize,
        }),
        m.holder matches Some(id) ==> status_response(name, m) == (ResponseModel::StatusHeld {
            name,
            holder: id,
            waiters: m.waiters.len() as usize,
        }),
        forall|e: &LockEntry, n: &str, r: Response| #[trigger]
            call_ensures(LockEntry::status, (e, n), r) ==> match e@.holder {
                None => r matches Response::StatusFree { name: x, waiters: w } && x@ == n@ && w
                    == e@.waiters.len() as usize,
                Some(id) => r matches Response::StatusHeld { name: x, holder: h, waiters: w } && x@
                    == n@ && h == id && w == e@.waiters.len() as usize,
            },
{
}

/// Taking a client out of a queue at its first place there closes the gap and moves
/// nobody else; where it does not wait, nothing changes.
pub proof fn law_without_first(a: Seq<ClientId>, id: ClientId, b: Seq<ClientId>)
    requires
        !a.contains(id),
    ensures
        without_first(a.push(id) + b, id) == a + b,
        without_first(a, id) == a,
{
    lemma_without_first_absent(a, id);
    let w = a.push(id) + b;
    assert forall|k: int| 0 <= k < a.len() implies w[k] != id by {
        assert(w[k] == a[k]);
        assert(a.contains(a[k]));
    }
    lemma_without_first_at(w, id, a.len() as int);
    assert(w.remove(a.len() as int) =~= a + b);
}

/// Taking a client out of a queue altogether leaves the others in their order.
pub proof fn law_without(a: Seq<ClientId>, id: ClientId, b: Seq<ClientId>)
    ensures
        without(a.push(id) + b, id) == without(a, id) + without(b, id),
        !a.contains(id) ==> without(a, id) == a,
        !without(a, id).contains(id),
    decreases a.len(), b.len(),
{
    reveal(Seq::filter);
    let f = |x: ClientId| x != id;
    lemma_without_absent(a, id);
    if b.len() == 0 {
        assert(a.push(id) + b =~= a.push(id));
        assert(a.push(id).drop_last() =~= a);
        assert(without(a, id) + without(b, id) =~= without(a, id));
    } else {
        let w = a.push(id) + b;
        let c = b.drop_last();
        law_without(a, id, c);
        assert(w.drop_last() =~= a.push(id) + c);
        assert(w.last() == b.last());
        assert(without(w, id) =~= without(a, id) + without(b, id));
    }
}

proof fn lemma_without_absent(a: Seq<ClientId>, id: ClientId)
    ensures
        !a.contains(id) ==> without(a, id) == a,
        !without(a, id).contains(id),
    decreases a.len(),
{
    reveal(Seq::filter);
    if a.len() > 0 {
        let c = a.drop_last();
        lemma_without_absent(c, id);
        assert(c.push(a.last()) =~= a);
        assert(a.contains(a.last()));
        if c.contains(id) {
            let i = choose|i: int| 0 <= i < c.len() && c[i] == id;
            assert(a[i] == id);
        }
        if without(a, id).contains(id) {
            let r = without(a, id);
            let i = choose|i: int| 0 <= i < r.len() && r[i] == id;
            if i < without(c, id).len() {
                assert(without(c, id)[i] == id);
            }
        }
    }
}

/// A client that leaves the queues leaves every queue in which it waits, and no
/// lock changes its holder.
pub proof fn law_queues_left(t: TableModel, id: ClientId, n: Seq<char>)
    ensures
        queues_without(t, id).dom() == t.dom(),
        queues_without_first(t, id).dom() == t.dom(),
        t.dom().contains(n) ==> {
            &&& queues_without(t, id)[n].holder == t[n].holder
            &&& queues_without_first(t, id)[n].holder == t[n].holder
            &&& !queues_without(t, id)[n].waiters.contains(id)
            &&& !t[n].waiters.contains(id) ==> queues_without(t, id)[n] == t[n]
                && queues_without_first(t, id)[n] == t[n]
        },
        t.dom().contains(n) && t[n].waiters.contains(id) ==> waits_somewhere(t, id),
        waits_somewhere(t, id) ==> exists|x: Seq<char>, i: int|
            t.dom().contains(x) && 0 <= i < t[x].waiters.len() && #[trigger] t[x].waiters[i] == id,
{
    assert(queues_without(t, id).dom() =~= t.dom());
    assert(queues_without_first(t, id).dom() =~= t.dom());
    if t.dom().contains(n) {
        lemma_without_absent(t[n].waiters, id);
        if !t[n].waiters.contains(id) {
            lemma_without_first_absent(t[n].waiters, id);
        }
    }
    if waits_somewhere(t, id) {
        let x = choose|x: Seq<char>| #[trigger] t.dom().contains(x) && t[x].waiters.contains(id);
        let i = choose|i: int| 0 <= i < t[x].waiters.len() && t[x].waiters[i] == id;
        assert(t[x].waiters[i] == id);
    }
}

/// Giving up a lock touches no other lock, and none at all unless the client holds
/// it; else it passes to whoever has waited longest.
pub proof fn law_give_up(t: TableModel, n: Seq<char>, id: ClientId, other: Seq<char>)
    ensures
        !(t.dom().contains(n) && t[n].holder == Some(id)) ==> given_up(t, n, id) == t
            && next_holder(t, n, id) == None::<ClientId>,
        t.dom().contains(n) && t[n].holder == Some(id) ==> {
            let w = t[n].waiters;
            &&& given_up(t, n, id).dom() == t.dom()
            &&& other != n && t.dom().contains(other) ==> given_up(t, n, id)[other] == t[other]
            &&& w.len() == 0 ==> given_up(t, n, id)[n].holder == None::<ClientId> && given_up(
                t,
                n,
                id,
            )[n].waiters.len() == 0 && next_holder(t, n, id) == None::<ClientId>
            &&& w.len() > 0 ==> given_up(t, n, id)[n].holder == Some(w[0]) && given_up(
                t,
                n,
                id,
            )[n].waiters == w.skip(1) && next_holder(t, n, id) == Some(w[0])
        },
{
    if t.dom().contains(n) && t[n].holder == Some(id) {
        assert(given_up(t, n, id).dom() =~= t.dom());
    }
}

/// Connection ids start at 1 and go up by one.
pub proof fn law_ids_count_up()
    ensures
        forall|r: LockStore| #[trigger]
            call_ensures(LockStore::new, (), r) ==> r.next_id() == 1 && r@.dom() == Set::<
                Seq<char>,
            >::empty(),
        forall|s: &mut LockStore, r: ClientId| #[trigger]
            call_ensures(LockStore::alloc_id, (s,), r) ==> {
                &&& r == s.next_id()
                &&& (*final(s)).next_id() == r + 1
                &&& (*final(s))@ == s@
            },
        forall|s: &LockStore, r: bool| #[trigger]
            call_ensures(LockStore::has_id_left, (s,), r) ==> (r <==> s.next_id() < u64::MAX),
{
}

/// Taking a client out of the queues takes it out of each, and changes nothing else.
pub proof fn law_each_queue(t: TableModel, id: ClientId, n: Seq<char>)
    requires
        t.dom().contains(n),
    ensures
        queues_without(t, id)[n].waiters == without(t[n].waiters, id),
        queues_without_first(t, id)[n].waiters == without_first(t[n].waiters, id),
        queues_without(t, id)[n].holder == t[n].holder,
        queues_without_first(t, id)[n].holder == t[n].holder,
{
}

/// What the functions of an entry and of the table return and leave behind.
pub proof fn law_table_calls()
    ensures
        forall|e: &LockEntry, r: Option<ClientId>| #[trigger]
            call_ensures(LockEntry::holder, (e,), r) ==> r == e@.holder,
        forall|e: &LockEntry, r: usize| #[trigger]
            call_ensures(LockEntry::waiter_count, (e,), r) ==> r == e@.waiters.len(),
        forall|e: &LockEntry, id: ClientId, r: bool| #[trigger]
            call_ensures(LockEntry::is_waiting, (e, id), r) ==> (r <==> e@.waiters.contains(id)),
        forall|e: &mut LockEntry, id: ClientId, r: bool| #[trigger]
            call_ensures(LockEntry::evict_waiter, (e, id), r) ==> {
                &&& r <==> e@.waiters.contains(id)
                &&& (*final(e))@.holder == e@.holder
                &&& (*final(e))@.waiters == without_first(e@.waiters, id)
            },
        forall|e: &mut LockEntry, id: ClientId, r: ()| #[trigger]
            call_ensures(LockEntry::forget_waiter, (e, id), r) ==> {
                &&& (*final(e))@.holder == e@.holder
                &&& (*final(e))@.waiters == without(e@.waiters, id)
            },
        forall|s: &mut LockStore, n: &str, id: ClientId, r: ()| #[trigger]
            call_ensures(LockStore::vacate, (s, n, id), r) ==> {
                let now = (*final(s))@;
                if s@.dom().contains(n@) && s@[n@].holder == Some(id) {
                    now == s@.insert(n@, LockModel { holder: None, waiters: s@[n@].waiters })
                } else {
                    now == s@
                }
            },
        forall|s: &mut LockStore, id: ClientId, r: ()| #[trigger]
            call_ensures(LockStore::forget_waiter, (s, id), r) ==> (*final(s))@ == queues_without(
                s@,
                id,
            ),
        forall|s: &mut LockStore, id: ClientId, r: bool| #[trigger]
            call_ensures(LockStore::evict_waiter, (s, id), r) ==> {
                &&& (*final(s))@ == queues_without_first(s@, id)
                &&& r <==> exists|n: Seq<char>| #[trigger]
                    s@.dom().contains(n) && s@[n].waiters.contains(id)
            },
        forall|s: &mut LockStore, n: &str, id: ClientId, r: Option<ClientId>| #[trigger]
            call_ensures(LockStore::give_up, (s, n, id), r) ==> {
                &&& (*final(s))@ == given_up(s@, n@, id)
                &&& r == next_holder(s@, n@, id)
            },
        forall|s: &LockStore, r: Vec<String>| #[trigger]
            call_ensures(LockStore::known_names, (s,), r) ==> texts(r@) == known_names_of(s@),
{
}

} // verus!
