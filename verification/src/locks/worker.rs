//! The decisions of the server that runs one thread per connection.
//!
//! The lock table is shared behind a monitor; each function here runs while the
//! monitor is held. Threads are parked and woken outside: a step says whom to
//! wake, and whether its own thread has to wait.

use vstd::prelude::*;

use crate::locks::event::list_reply;
use crate::locks::event::names_without;
use crate::locks::event::without_name;
use crate::locks::intake::already_held;
use crate::locks::intake::catalogued;
use crate::locks::intake::law_catalogue;
use crate::locks::intake::not_held;
use crate::locks::intake::read_request;
use crate::locks::intake::refusal;
use crate::locks::intake::trim_cr;
use crate::locks::intake::trim_line;
use crate::locks::protocol::law_request_lines;
use crate::locks::protocol::request_of;
use crate::locks::protocol::response_text;
use crate::locks::protocol::valid_name;
use crate::locks::protocol::ClientId;
use crate::locks::protocol::Request;
use crate::locks::protocol::RequestModel;
use crate::locks::protocol::Response;
use crate::locks::protocol::ResponseModel;
use crate::locks::protocol::ERR_ALREADY_HELD;
use crate::locks::protocol::ERR_NOT_HELD;
use crate::locks::safety::lemma_without_name;
use crate::locks::table::acquire_outcome;
use crate::locks::table::after_acquire;
use crate::locks::table::after_try_acquire;
use crate::locks::table::given_up;
use crate::locks::table::known_names_of;
use crate::locks::table::law_acquire;
use crate::locks::table::law_try_acquire;
use crate::locks::table::lock_at;
use crate::locks::table::next_holder;
use crate::locks::table::promoted;
use crate::locks::table::queues_without_first;
use crate::locks::table::status_response;
use crate::locks::table::waits_somewhere;
use crate::locks::table::without_first;
use crate::locks::table::Acquired;
use crate::locks::table::LockEntry;
use crate::locks::table::LockModel;
use crate::locks::table::LockStore;
use crate::locks::table::TableModel;
use crate::ordmap::lemma_sorted_keys_lists;
use crate::text::has_text;
use crate::text::texts;

verus! {

/// Why a thread that waits for a lock is woken.
#[derive(Clone, Copy, PartialEq, Eq, Structural, Debug)]
pub enum WakeState {
    /// It is not; it goes on waiting.
    Waiting,
    /// The lock was transferred to its client.
    Granted,
    /// Its client was taken out of the queue without receiving the lock.
    Evicted,
}

/// What one line comes to.
pub struct Outcome {
    /// The replies to send, in order.
    pub replies: Vec<Response>,
    /// The lock for which the thread has to wait before it goes on.
    pub parked: Option<String>,
    /// The client whose thread is to be woken with [`WakeState::Granted`].
    pub woken: Option<ClientId>,
}

/// What one line comes to, and the state that it leaves behind.
#[verifier::ext_equal]
pub struct OutcomeModel {
    pub locks: TableModel,
    /// The names of the locks that the client holds.
    pub held: Seq<Seq<char>>,
    pub replies: Seq<ResponseModel>,
    pub parked: Option<Seq<char>>,
    pub woken: Option<ClientId>,
}

/// The views of a list of replies.
pub open spec fn replies_of(v: Seq<Response>) -> Seq<ResponseModel> {
    v.map_values(|r: Response| r@)
}

/// `held` with the name `n`, listed once.
pub open spec fn with_name(held: Seq<Seq<char>>, n: Seq<char>) -> Seq<Seq<char>> {
    if held.contains(n) {
        held
    } else {
        held.push(n)
    }
}

/// What a line from the client `id`, which holds `held`, comes to. Trailing
/// `\r`s are dropped, and an empty line is skipped.
pub open spec fn handled(
    t: TableModel,
    held: Seq<Seq<char>>,
    id: ClientId,
    line: Seq<char>,
) -> OutcomeModel {
    let quiet = OutcomeModel {
        locks: t,
        held,
        replies: Seq::empty(),
        parked: None,
        woken: None,
    };
    let s = trim_cr(line);
    if s.len() == 0 {
        quiet
    } else {
        match request_of(s) {
            None => OutcomeModel { replies: seq![refusal(s)], ..quiet },
            Some(RequestModel::Acquire(n)) => {
                let m = lock_at(t, n);
                let after = OutcomeModel { locks: t.insert(n, after_acquire(m, id)), ..quiet };
                match acquire_outcome(m, id) {
                    Acquired::AlreadyHeld => OutcomeModel {
                        replies: seq![catalogued(ERR_ALREADY_HELD@)],
                        ..after
                    },
                    Acquired::Granted => OutcomeModel {
                        held: with_name(held, n),
                        replies: seq![ResponseModel::Granted(n)],
                        ..after
                    },
                    Acquired::Queued => OutcomeModel { parked: Some(n), ..after },
                }
            },
            Some(RequestModel::TryAcquire(n)) => {
                let m = lock_at(t, n);
                let after = OutcomeModel { locks: t.insert(n, after_try_acquire(m, id)), ..quiet };
                if m.holder is None {
                    OutcomeModel {
                        held: with_name(held, n),
                        replies: seq![ResponseModel::Granted(n)],
                        ..after
                    }
                } else {
                    OutcomeModel { replies: seq![ResponseModel::Denied(n)], ..after }
                }
            },
            Some(RequestModel::Release(n)) => {
                let m = lock_at(t, n);
                let named = t.insert(n, m);
                if m.holder == Some(id) {
                    OutcomeModel {
                        locks: given_up(named, n, id),
                        held: without_name(held, n),
                        replies: seq![ResponseModel::Okay],
                        woken: next_holder(named, n, id),
                        ..quiet
                    }
                } else {
                    OutcomeModel {
                        locks: named,
                        replies: seq![catalogued(ERR_NOT_HELD@)],
                        ..quiet
                    }
                }
            },
            Some(RequestModel::Status(n)) => {
                let m = lock_at(t, n);
                OutcomeModel {
                    locks: t.insert(n, m),
                    replies: seq![status_response(n, m)],
                    ..quiet
                }
            },
            Some(RequestModel::List) => OutcomeModel {
                replies: list_reply(known_names_of(t)),
                ..quiet
            },
        }
    }
}

impl Outcome {
    fn quiet() -> (r: Self)
        ensures
            replies_of(r.replies@) == Seq::<ResponseModel>::empty(),
            r.parked is None,
            r.woken is None,
    {
        let r = Outcome { replies: Vec::new(), parked: None, woken: None };
        assert(replies_of(r.replies@) =~= Seq::<ResponseModel>::empty());
        r
    }

    fn reply(resp: Response) -> (r: Self)
        ensures
            replies_of(r.replies@) == seq![resp@],
            r.parked is None,
            r.woken is None,
    {
        let mut replies: Vec<Response> = Vec::new();
        replies.push(resp);
        assert(replies_of(replies@) =~= seq![resp@]);
        Outcome { replies, parked: None, woken: None }
    }
}

fn add_name(held: &mut Vec<String>, name: &str)
    ensures
        texts(final(held)@) == with_name(texts(old(held)@), name@),
{
    if !has_text(held, name) {
        let ghost before = held@;
        held.push(name.to_owned());
        assert(texts(held@) =~= texts(before).push(name@));
    }
}

fn drop_name(held: &mut Vec<String>, name: &str)
    ensures
        texts(final(held)@) == without_name(texts(old(held)@), name@),
{
    let kept: Vec<String> = names_without(held, name);
    *held = kept;
}

fn list_replies(names: &Vec<String>) -> (r: Outcome)
    ensures
        replies_of(r.replies@) == list_reply(texts(names@)),
        r.parked is None,
        r.woken is None,
{
    let ghost all = list_reply(texts(names@));
    let mut replies: Vec<Response> = Vec::new();
    replies.push(Response::ListBegin);
    let mut i: usize = 0;
    assert(replies_of(replies@) =~= all.take(1));
    while i < names.len()
        invariant
            i <= names@.len(),
            all == list_reply(texts(names@)),
            replies_of(replies@) == all.take(i + 1),
        decreases names@.len() - i,
    {
        let ghost before = replies@;
        replies.push(Response::ListEntry(names[i].clone()));
        assert(replies_of(replies@) =~= replies_of(before).push(
            ResponseModel::ListEntry(names@[i as int]@),
        ));
        assert(replies_of(replies@) =~= all.take(i + 2));
        i += 1;
    }
    let ghost before = replies@;
    replies.push(Response::ListEnd);
    assert(replies_of(replies@) =~= replies_of(before).push(ResponseModel::ListEnd));
    assert(replies_of(replies@) =~= all);
    Outcome { replies, parked: None, woken: None }
}

/// Handles one line of the client `id`, which holds the locks `held`.
pub fn handle_line(
    store: &mut LockStore,
    held: &mut Vec<String>,
    id: ClientId,
    line: &str,
) -> (r: Outcome)
    requires
        old(store).wf(),
    ensures
        final(store).wf(),
        final(store).next_id() == old(store).next_id(),
        (OutcomeModel {
            locks: final(store)@,
            held: texts(final(held)@),
            replies: replies_of(r.replies@),
            parked: match r.parked {
                Some(n) => Some(n@),
                None => None,
            },
            woken: r.woken,
        }) == handled(old(store)@, texts(old(held)@), id, line@),
{
    let line: &str = trim_line(line);
    if line.is_empty() {
        return Outcome::quiet();
    }
    let req: Request = match read_request(line) {
        Ok(req) => req,
        Err(resp) => {
            return Outcome::reply(resp);
        },
    };
    match req {
        Request::Acquire(name) => {
            let n: &str = name.as_str();
            let entry: &mut LockEntry = store.entry(n);
            match entry.acquire(id) {
                Acquired::AlreadyHeld => Outcome::reply(already_held()),
                Acquired::Granted => {
                    add_name(held, n);
                    Outcome::reply(Response::Granted(name.clone()))
                },
                Acquired::Queued => {
                    let mut r: Outcome = Outcome::quiet();
                    r.parked = Some(name);
                    r
                },
            }
        },
        Request::TryAcquire(name) => {
            let n: &str = name.as_str();
            let entry: &mut LockEntry = store.entry(n);
            if entry.try_acquire(id) {
                add_name(held, n);
                Outcome::reply(Response::Granted(name.clone()))
            } else {
                Outcome::reply(Response::Denied(name.clone()))
            }
        },
        Request::Release(name) => {
            let n: &str = name.as_str();
            let entry: &mut LockEntry = store.entry(n);
            if entry.holder() != Some(id) {
                return Outcome::reply(not_held());
            }
            let woken: Option<ClientId> = store.give_up(n, id);
            drop_name(held, n);
            let mut r: Outcome = Outcome::reply(Response::Okay);
            r.woken = woken;
            r
        },
        Request::Status(name) => {
            let n: &str = name.as_str();
            let entry: &mut LockEntry = store.entry(n);
            let resp: Response = entry.status(n);
            Outcome::reply(resp)
        },
        Request::List => {
            let names: Vec<String> = store.known_names();
            list_replies(&names)
        },
    }
}

/// What a thread does once it no longer waits for the lock `name`. Returns the
/// reply to send.
pub fn resume(held: &mut Vec<String>, name: &str, state: WakeState) -> (r: Option<Response>)
    ensures
        match state {
            WakeState::Granted => {
                &&& texts(final(held)@) == with_name(texts(old(held)@), name@)
                &&& r is Some
                &&& r->0@ == ResponseModel::Granted(name@)
            },
            _ => {
                &&& final(held)@ == old(held)@
                &&& r is None
            },
        },
{
    match state {
        WakeState::Granted => {
            add_name(held, name);
            Some(Response::Granted(name.to_owned()))
        },
        _ => None,
    }
}

/// The table and the clients to wake, once a client that has left every queue
/// has given up the first `k` of the locks `held`.
pub open spec fn handed_back(
    t: TableModel,
    id: ClientId,
    held: Seq<Seq<char>>,
    k: int,
) -> (TableModel, Seq<ClientId>)
    decreases k,
{
    if k <= 0 {
        (t, Seq::empty())
    } else {
        let (t1, woken) = handed_back(t, id, held, k - 1);
        (
            given_up(t1, held[k - 1], id),
            match next_holder(t1, held[k - 1], id) {
                Some(next) => woken.push(next),
                None => woken,
            },
        )
    }
}

/// What a client that leaves has set free.
pub struct Parting {
    /// Whether it waited for a lock: its own wait ends with
    /// [`WakeState::Evicted`].
    pub evicted: bool,
    /// The clients whose threads are to be woken with [`WakeState::Granted`].
    pub woken: Vec<ClientId>,
}

/// Cleans up after the client `id`, which held the locks `held`, has gone.
pub fn disconnect(store: &mut LockStore, id: ClientId, held: &Vec<String>) -> (r: Parting)
    requires
        old(store).wf(),
    ensures
        final(store).wf(),
        final(store).next_id() == old(store).next_id(),
        r.evicted == waits_somewhere(old(store)@, id),
        (final(store)@, r.woken@) == handed_back(
            queues_without_first(old(store)@, id),
            id,
            texts(held@),
            held@.len() as int,
        ),
{
    let evicted: bool = store.evict_waiter(id);
    let ghost t = store@;
    let mut woken: Vec<ClientId> = Vec::new();
    let mut i: usize = 0;
    while i < held.len()
        invariant
            i <= held@.len(),
            store.wf(),
            store.next_id() == old(store).next_id(),
            (store@, woken@) == handed_back(t, id, texts(held@), i as int),
        decreases held@.len() - i,
    {
        assert(texts(held@)[i as int] == held@[i as int]@);
        match store.give_up(held[i].as_str(), id) {
            Some(next) => {
                woken.push(next);
            },
            None => {},
        }
        i += 1;
    }
    Parting { evicted, woken }
}

// What every step keeps.

/// A lock that nobody holds is waited for by nobody, nobody waits twice, and a
/// holder does not wait.
pub open spec fn lock_in_order(m: LockModel) -> bool {
    &&& m.waiters.no_duplicates()
    &&& match m.holder {
        None => m.waiters.len() == 0,
        Some(id) => !m.waiters.contains(id),
    }
}

/// Every lock is in order.
pub open spec fn table_in_order(t: TableModel) -> bool {
    forall|n: Seq<char>| #[trigger] t.dom().contains(n) ==> lock_in_order(t[n])
}

/// Whether `held` lists exactly the locks that `id` holds, each once.
pub open spec fn tracks(t: TableModel, id: ClientId, held: Seq<Seq<char>>) -> bool {
    &&& held.no_duplicates()
    &&& forall|n: Seq<char>| #[trigger] held.contains(n) <==> lock_at(t, n).holder == Some(id)
}

proof fn lemma_with_name(held: Seq<Seq<char>>, n: Seq<char>)
    requires
        held.no_duplicates(),
    ensures
        with_name(held, n).no_duplicates(),
        forall|x: Seq<char>| #[trigger]
            with_name(held, n).contains(x) <==> held.contains(x) || x == n,
{
    let r = with_name(held, n);
    assert forall|x: Seq<char>| #[trigger] r.contains(x) <==> held.contains(x) || x == n by {
        if !held.contains(n) {
            if held.contains(x) {
                let i = choose|i: int| 0 <= i < held.len() && held[i] == x;
                assert(r[i] == x);
            }
            assert(r[held.len() as int] == n);
            if r.contains(x) && x != n {
                let i = choose|i: int| 0 <= i < r.len() && r[i] == x;
                assert(held[i] == x);
            }
        }
    }
    if !held.contains(n) {
        assert forall|a: int, b: int| 0 <= a < r.len() && 0 <= b < r.len() && a != b implies r[a]
            != r[b] by {
            if a < held.len() {
                assert(held.contains(held[a]));
            }
            if b < held.len() {
                assert(held.contains(held[b]));
            }
        }
    }
}

proof fn lemma_promoted_in_order(m: LockModel)
    requires
        m.waiters.no_duplicates(),
    ensures
        lock_in_order(promoted(m)),
        match promoted(m).holder {
            Some(next) => m.waiters.len() > 0 && next == m.waiters[0],
            None => m.waiters.len() == 0,
        },
{
    if m.waiters.len() > 0 {
        let rest = m.waiters.skip(1);
        if rest.contains(m.waiters[0]) {
            let k = choose|k: int| 0 <= k < rest.len() && rest[k] == m.waiters[0];
            assert(m.waiters[k + 1] == m.waiters[0]);
        }
    }
}

proof fn lemma_pushed_in_order(m: LockModel, id: ClientId)
    requires
        lock_in_order(m),
        acquire_outcome(m, id) is Queued,
    ensures
        lock_in_order(after_acquire(m, id)),
{
    let w = m.waiters.push(id);
    assert forall|a: int, b: int| 0 <= a < w.len() && 0 <= b < w.len() && a != b implies w[a]
        != w[b] by {
        if a < m.waiters.len() {
            assert(m.waiters.contains(m.waiters[a]));
        }
        if b < m.waiters.len() {
            assert(m.waiters.contains(m.waiters[b]));
        }
    }
    if w.contains(m.holder->0) {
        let k = choose|k: int| 0 <= k < w.len() && w[k] == m.holder->0;
        if k < m.waiters.len() {
            assert(m.waiters[k] == m.holder->0);
        }
    }
}

/// Every line keeps every lock in order.
pub proof fn law_line_keeps_table_in_order(
    t: TableModel,
    held: Seq<Seq<char>>,
    id: ClientId,
    line: Seq<char>,
)
    requires
        table_in_order(t),
    ensures
        table_in_order(handled(t, held, id, line).locks),
{
    let t2 = handled(t, held, id, line).locks;
    assert forall|n: Seq<char>| #[trigger] t2.dom().contains(n) implies lock_in_order(t2[n]) by {
        let m = lock_at(t, n);
        assert(lock_in_order(m));
        lemma_promoted_in_order(m);
        if acquire_outcome(m, id) is Queued {
            lemma_pushed_in_order(m, id);
        }
    }
}

/// A client's list of its locks stays exact over its own lines.
pub proof fn law_own_line_tracks(
    t: TableModel,
    held: Seq<Seq<char>>,
    id: ClientId,
    line: Seq<char>,
)
    requires
        table_in_order(t),
        tracks(t, id, held),
    ensures
        tracks(handled(t, held, id, line).locks, id, handled(t, held, id, line).held),
{
    let r = handled(t, held, id, line);
    match request_of(trim_cr(line)) {
        Some(RequestModel::Acquire(n)) => {
            lemma_with_name(held, n);
        },
        Some(RequestModel::TryAcquire(n)) => {
            lemma_with_name(held, n);
        },
        Some(RequestModel::Release(n)) => {
            lemma_without_name(held, n);
            let m = lock_at(t, n);
            if m.holder == Some(id) {
                assert(lock_in_order(m));
                lemma_promoted_in_order(m);
                if m.waiters.len() > 0 {
                    assert(m.waiters.contains(m.waiters[0]));
                }
            }
        },
        _ => {},
    }
    assert forall|x: Seq<char>| #[trigger] r.held.contains(x) <==> lock_at(r.locks, x).holder
        == Some(id) by {
        assert(held.contains(x) <==> lock_at(t, x).holder == Some(id));
    }
}

/// Another client's list stays exact over a line, unless the line wakes that
/// client; then it is exact again once the client has resumed.
pub proof fn law_other_line_tracks(
    t: TableModel,
    held: Seq<Seq<char>>,
    id: ClientId,
    line: Seq<char>,
    other: ClientId,
    others: Seq<Seq<char>>,
)
    requires
        table_in_order(t),
        other != id,
        tracks(t, other, others),
    ensures
        ({
            let r = handled(t, held, id, line);
            if r.woken == Some(other) {
                match request_of(trim_cr(line)) {
                    Some(RequestModel::Release(n)) => tracks(
                        r.locks,
                        other,
                        with_name(others, n),
                    ),
                    _ => false,
                }
            } else {
                tracks(r.locks, other, others)
            }
        }),
{
    let r = handled(t, held, id, line);
    match request_of(trim_cr(line)) {
        Some(RequestModel::Release(n)) => {
            lemma_with_name(others, n);
            let now = if r.woken == Some(other) {
                with_name(others, n)
            } else {
                others
            };
            assert forall|x: Seq<char>| #[trigger] now.contains(x) <==> lock_at(r.locks, x).holder
                == Some(other) by {
                assert(others.contains(x) <==> lock_at(t, x).holder == Some(other));
            }
            assert(tracks(r.locks, other, now));
        },
        _ => {
            assert forall|x: Seq<char>| #[trigger] others.contains(x) <==> lock_at(
                r.locks,
                x,
            ).holder == Some(other) by {
                assert(others.contains(x) <==> lock_at(t, x).holder == Some(other));
            }
        },
    }
}

proof fn lemma_without_first_of(w: Seq<ClientId>, id: ClientId)
    requires
        w.no_duplicates(),
    ensures
        without_first(w, id).no_duplicates(),
        forall|x: ClientId| #[trigger]
            without_first(w, id).contains(x) <==> w.contains(x) && x != id,
    decreases w.len(),
{
    let r = without_first(w, id);
    if w.len() > 0 {
        let rest = w.skip(1);
        assert forall|x: ClientId| #[trigger] w.contains(x) <==> x == w[0] || rest.contains(x) by {
            if w.contains(x) && x != w[0] {
                let k = choose|k: int| 0 <= k < w.len() && w[k] == x;
                assert(rest[k - 1] == x);
            }
            if rest.contains(x) {
                let k = choose|k: int| 0 <= k < rest.len() && rest[k] == x;
                assert(w[k + 1] == x);
            }
        }
        assert(!rest.contains(w[0])) by {
            if rest.contains(w[0]) {
                let k = choose|k: int| 0 <= k < rest.len() && rest[k] == w[0];
                assert(w[k + 1] == w[0]);
            }
        }
        if w[0] != id {
            lemma_without_first_of(rest, id);
            let f = without_first(rest, id);
            assert forall|x: ClientId| #[trigger] r.contains(x) <==> x == w[0] || f.contains(x) by {
                if f.contains(x) {
                    let k = choose|k: int| 0 <= k < f.len() && f[k] == x;
                    assert(r[k + 1] == x);
                }
                assert(r[0] == w[0]);
                if r.contains(x) && x != w[0] {
                    let k = choose|k: int| 0 <= k < r.len() && r[k] == x;
                    assert(f[k - 1] == x);
                }
            }
            assert forall|a: int, b: int| 0 <= a < r.len() && 0 <= b < r.len() && a != b implies r[a]
                != r[b] by {
                if a > 0 {
                    assert(r[a] == f[a - 1]);
                    assert(f.contains(f[a - 1]));
                }
                if b > 0 {
                    assert(r[b] == f[b - 1]);
                    assert(f.contains(f[b - 1]));
                }
            }
        }
    }
}

proof fn lemma_handed_back(
    t: TableModel,
    id: ClientId,
    held: Seq<Seq<char>>,
    k: int,
    n: Seq<char>,
)
    requires
        0 <= k <= held.len(),
        held.no_duplicates(),
        forall|x: Seq<char>| #[trigger] t.dom().contains(x) ==> !t[x].waiters.contains(id),
    ensures
        lock_at(handed_back(t, id, held, k).0, n) == (if held.take(k).contains(n) && lock_at(
            t,
            n,
        ).holder == Some(id) {
            promoted(lock_at(t, n))
        } else {
            lock_at(t, n)
        }),
        handed_back(t, id, held, k).0.dom() == t.dom(),
    decreases k,
{
    if k > 0 {
        lemma_handed_back(t, id, held, k - 1, n);
        lemma_handed_back(t, id, held, k - 1, held[k - 1]);
        let before = held.take(k - 1);
        let now = held.take(k);
        assert(now[k - 1] == held[k - 1]);
        assert(now.contains(n) <==> before.contains(n) || n == held[k - 1]) by {
            if before.contains(n) {
                let i = choose|i: int| 0 <= i < before.len() && before[i] == n;
                assert(now[i] == n);
            }
            if now.contains(n) && n != held[k - 1] {
                let i = choose|i: int| 0 <= i < now.len() && now[i] == n;
                assert(before[i] == n);
            }
        }
        assert(!before.contains(held[k - 1])) by {
            if before.contains(held[k - 1]) {
                let i = choose|i: int| 0 <= i < before.len() && before[i] == held[k - 1];
                assert(held[i] == held[k - 1]);
            }
        }
        assert(handed_back(t, id, held, k).0.dom() =~= t.dom());
    } else {
        assert(!held.take(0).contains(n));
    }
}

/// A client that leaves, and that knew its locks, holds no lock afterwards and
/// waits for none. Every lock that it held has passed to the oldest other waiter
/// or is free, and every other lock has its holder still.
pub proof fn law_parting_gives_up_everything(
    t: TableModel,
    id: ClientId,
    held: Seq<Seq<char>>,
    n: Seq<char>,
)
    requires
        table_in_order(t),
        tracks(t, id, held),
    ensures
        ({
            let t2 = handed_back(
                queues_without_first(t, id),
                id,
                held,
                held.len() as int,
            ).0;
            let m = lock_at(t, n);
            let left = LockModel { waiters: without_first(m.waiters, id), ..m };
            &&& table_in_order(t2)
            &&& lock_at(t2, n).holder != Some(id)
            &&& !lock_at(t2, n).waiters.contains(id)
            &&& lock_at(t2, n) == (if m.holder == Some(id) {
                promoted(left)
            } else {
                left
            })
        }),
{
    let t1 = queues_without_first(t, id);
    let k = held.len() as int;
    let t2 = handed_back(t1, id, held, k).0;
    assert(held.take(k) =~= held);
    assert forall|x: Seq<char>| #[trigger] t1.dom().contains(x) implies !t1[x].waiters.contains(
        id,
    ) by {
        assert(t.dom().contains(x));
        lemma_without_first_of(t[x].waiters, id);
    }
    assert forall|x: Seq<char>| lock_in_order(#[trigger] lock_at(t2, x)) && lock_at(t2, x).holder
        != Some(id) && !lock_at(t2, x).waiters.contains(id) && lock_at(t2, x) == ({
        let m = lock_at(t, x);
        let left = LockModel { waiters: without_first(m.waiters, id), ..m };
        if m.holder == Some(id) {
            promoted(left)
        } else {
            left
        }
    }) by {
        let m = lock_at(t, x);
        let left = LockModel { waiters: without_first(m.waiters, id), ..m };
        lemma_handed_back(t1, id, held, k, x);
        assert(lock_in_order(m));
        assert(held.contains(x) <==> m.holder == Some(id));
        lemma_without_first_of(m.waiters, id);
        lemma_promoted_in_order(left);
        if t.dom().contains(x) {
            assert(t1[x] == left);
        } else {
            assert(without_first(m.waiters, id) =~= m.waiters);
        }
        assert(lock_at(t1, x) == left);
        if left.waiters.len() > 0 {
            assert(left.waiters.contains(left.waiters[0]));
            if promoted(left).waiters.contains(id) {
                let j = choose|j: int|
                    0 <= j < promoted(left).waiters.len() && promoted(left).waiters[j] == id;
                assert(left.waiters[j + 1] == id);
                assert(left.waiters.contains(id));
            }
        }
        if m.holder is None {
            if left.waiters.len() > 0 {
                assert(left.waiters.contains(left.waiters[0]));
            }
        }
    }
    assert forall|x: Seq<char>| #[trigger] t2.dom().contains(x) implies lock_in_order(t2[x]) by {
        assert(lock_in_order(lock_at(t2, x)));
    }
    assert(lock_in_order(lock_at(t2, n)));
}

/// A table that knows no lock is in order, and a client that has just connected
/// holds nothing.
pub proof fn law_start_in_order(id: ClientId)
    ensures
        table_in_order(Map::empty()),
        tracks(Map::empty(), id, Seq::empty()),
{
}

/// Mutual exclusion: no lock is on the lists of two clients.
pub proof fn law_no_lock_on_two_lists(
    t: TableModel,
    id: ClientId,
    held: Seq<Seq<char>>,
    other: ClientId,
    others: Seq<Seq<char>>,
    n: Seq<char>,
)
    requires
        tracks(t, id, held),
        tracks(t, other, others),
        held.contains(n),
        others.contains(n),
    ensures
        id == other,
{
    assert(lock_at(t, n).holder == Some(id));
    assert(lock_at(t, n).holder == Some(other));
}

proof fn lemma_handed_back_wakes(
    t: TableModel,
    id: ClientId,
    held: Seq<Seq<char>>,
    k: int,
    c: ClientId,
)
    requires
        0 <= k <= held.len(),
        held.no_duplicates(),
        forall|x: Seq<char>| #[trigger] t.dom().contains(x) ==> !t[x].waiters.contains(id),
    ensures
        handed_back(t, id, held, k).1.contains(c) <==> exists|i: int|
            0 <= i < k && next_holder(t, #[trigger] held[i], id) == Some(c),
    decreases k,
{
    if k > 0 {
        lemma_handed_back_wakes(t, id, held, k - 1, c);
        lemma_handed_back(t, id, held, k - 1, held[k - 1]);
        let before = held.take(k - 1);
        assert(!before.contains(held[k - 1])) by {
            if before.contains(held[k - 1]) {
                let i = choose|i: int| 0 <= i < before.len() && before[i] == held[k - 1];
                assert(held[i] == held[k - 1]);
            }
        }
        let (t1, woken) = handed_back(t, id, held, k - 1);
        let now = handed_back(t, id, held, k).1;
        let next = next_holder(t1, held[k - 1], id);
        assert(next == next_holder(t, held[k - 1], id));
        if woken.contains(c) {
            let j = choose|j: int| 0 <= j < woken.len() && woken[j] == c;
            assert(now[j] == c);
        }
        if next == Some(c) {
            assert(now[woken.len() as int] == c);
        }
        if now.contains(c) {
            let j = choose|j: int| 0 <= j < now.len() && now[j] == c;
            if j < woken.len() {
                assert(woken[j] == c);
            }
        }
    }
}

/// When a client leaves, those are woken that have got one of its locks, and
/// nobody else.
pub proof fn law_parting_wakes_the_new_holders(
    t: TableModel,
    id: ClientId,
    held: Seq<Seq<char>>,
    c: ClientId,
)
    requires
        table_in_order(t),
        tracks(t, id, held),
    ensures
        ({
            let (t2, woken) = handed_back(
                queues_without_first(t, id),
                id,
                held,
                held.len() as int,
            );
            woken.contains(c) <==> exists|n: Seq<char>| #[trigger]
                held.contains(n) && lock_at(t2, n).holder == Some(c)
        }),
{
    let t1 = queues_without_first(t, id);
    let k = held.len() as int;
    let (t2, woken) = handed_back(t1, id, held, k);
    assert forall|x: Seq<char>| #[trigger] t1.dom().contains(x) implies !t1[x].waiters.contains(
        id,
    ) by {
        assert(t.dom().contains(x));
        lemma_without_first_of(t[x].waiters, id);
    }
    assert(held.take(k) =~= held);
    lemma_handed_back_wakes(t1, id, held, k, c);
    assert forall|n: Seq<char>| #[trigger] held.contains(n) implies lock_at(t2, n).holder
        == next_holder(t1, n, id) by {
        assert(lock_at(t, n).holder == Some(id));
        assert(lock_at(t1, n).holder == Some(id));
        lemma_handed_back(t1, id, held, k, n);
    }
    if woken.contains(c) {
        let i = choose|i: int| 0 <= i < k && next_holder(t1, #[trigger] held[i], id) == Some(c);
        assert(held.contains(held[i]));
    }
    if exists|n: Seq<char>| #[trigger] held.contains(n) && lock_at(t2, n).holder == Some(c) {
        let n = choose|n: Seq<char>| #[trigger]
            held.contains(n) && lock_at(t2, n).holder == Some(c);
        let i = choose|i: int| 0 <= i < held.len() && held[i] == n;
        assert(next_holder(t1, held[i], id) == Some(c));
    }
}

/// A lock stays known over every line, and one that a request names is known
/// from then on, free or not: `LIST` names it.
pub proof fn law_locks_stay_known(
    t: TableModel,
    held: Seq<Seq<char>>,
    id: ClientId,
    line: Seq<char>,
    n: Seq<char>,
)
    requires
        t.dom().finite(),
        t.dom().contains(n) || trim_cr(line).len() > 0 && (match request_of(trim_cr(line)) {
            Some(RequestModel::Acquire(x)) => x == n,
            Some(RequestModel::TryAcquire(x)) => x == n,
            Some(RequestModel::Release(x)) => x == n,
            Some(RequestModel::Status(x)) => x == n,
            _ => false,
        }),
    ensures
        handled(t, held, id, line).locks.dom().finite(),
        handled(t, held, id, line).locks.dom().contains(n),
        known_names_of(handled(t, held, id, line).locks).contains(n),
{
    lemma_sorted_keys_lists::<String, LockModel>(handled(t, held, id, line).locks);
}

/// A client that leaves takes no lock with it: those that were known stay known.
pub proof fn law_leaving_keeps_locks_known(
    t: TableModel,
    id: ClientId,
    held: Seq<Seq<char>>,
    k: int,
)
    ensures
        handed_back(queues_without_first(t, id), id, held, k).0.dom() == t.dom(),
    decreases k,
{
    if k <= 0 {
        assert(queues_without_first(t, id).dom() =~= t.dom());
    } else {
        law_leaving_keeps_locks_known(t, id, held, k - 1);
        let t1 = handed_back(queues_without_first(t, id), id, held, k - 1).0;
        assert(given_up(t1, held[k - 1], id).dom() =~= t1.dom());
    }
}

// What each request does.

/// Whether only the lock `n` may differ in `a` and `b`, and is known in `b`.
pub open spec fn only_lock(a: TableModel, b: TableModel, n: Seq<char>) -> bool {
    &&& b.dom().contains(n)
    &&& forall|x: Seq<char>| x != n ==> (#[trigger] b.dom().contains(x) <==> a.dom().contains(x))
    &&& forall|x: Seq<char>| x != n && #[trigger] a.dom().contains(x) ==> b[x] == a[x]
}

/// `ACQUIRE n`, with any number of carriage returns behind it: an error for a client that
/// holds the lock or waits for it; `GRANTED` if nobody holds it; else no reply, and the
/// thread waits at the end of the queue.
pub proof fn law_acquire_line(
    t: TableModel,
    held: Seq<Seq<char>>,
    id: ClientId,
    line: Seq<char>,
    n: Seq<char>,
)
    requires
        trim_cr(line) == "ACQUIRE "@ + n,
        valid_name(n),
    ensures
        ({
            let m = lock_at(t, n);
            let mine = m.holder == Some(id) || exists|i: int|
                0 <= i < m.waiters.len() && m.waiters[i] == id;
            let out = handled(t, held, id, line);
            let l = out.locks[n];
            &&& only_lock(t, out.locks, n)
            &&& out.woken is None
            &&& mine ==> {
                &&& out.replies.len() == 1
                &&& response_text(out.replies[0]) == "ERR already held"@
                &&& out.held == held && out.parked is None
                &&& l.holder == m.holder && l.waiters == m.waiters
            }
            &&& !mine && m.holder is None ==> {
                &&& out.replies == seq![ResponseModel::Granted(n)]
                &&& held.contains(n) ==> out.held == held
                &&& !held.contains(n) ==> out.held == held.push(n)
                &&& out.parked is None
                &&& l.holder == Some(id) && l.waiters == m.waiters
            }
            &&& !mine && m.holder is Some ==> {
                &&& out.replies.len() == 0
                &&& out.held == held && out.parked == Some(n)
                &&& l.holder == m.holder && l.waiters == m.waiters.push(id)
            }
        }),
{
    law_request_lines("ACQUIRE "@ + n, n);
    law_catalogue(n);
    let m = lock_at(t, n);
    law_acquire(m, id);
    if acquire_outcome(m, id) is Queued {
        assert(after_acquire(m, id).waiters =~= m.waiters.push(id));
    }
}

/// `TRY_ACQUIRE n`: `GRANTED` if nobody holds the lock, else `DENIED`. Nobody waits.
pub proof fn law_try_acquire_line(
    t: TableModel,
    held: Seq<Seq<char>>,
    id: ClientId,
    line: Seq<char>,
    n: Seq<char>,
)
    requires
        trim_cr(line) == "TRY_ACQUIRE "@ + n,
        valid_name(n),
    ensures
        ({
            let m = lock_at(t, n);
            let out = handled(t, held, id, line);
            let l = out.locks[n];
            &&& only_lock(t, out.locks, n)
            &&& out.woken is None && out.parked is None
            &&& l.waiters == m.waiters
            &&& m.holder is None ==> {
                &&& out.replies == seq![ResponseModel::Granted(n)]
                &&& held.contains(n) ==> out.held == held
                &&& !held.contains(n) ==> out.held == held.push(n)
                &&& l.holder == Some(id)
            }
            &&& m.holder is Some ==> {
                &&& out.replies == seq![ResponseModel::Denied(n)]
                &&& out.held == held
                &&& l.holder == m.holder
            }
        }),
{
    law_request_lines("TRY_ACQUIRE "@ + n, n);
    law_try_acquire(lock_at(t, n), id);
}

/// `RELEASE n`: an error for a client that does not hold the lock. From the holder it is
/// answered `OK`; the lock goes to the first waiter, whose thread is woken, or is free.
pub proof fn law_release_line(
    t: TableModel,
    held: Seq<Seq<char>>,
    id: ClientId,
    line: Seq<char>,
    n: Seq<char>,
)
    requires
        trim_cr(line) == "RELEASE "@ + n,
        valid_name(n),
    ensures
        ({
            let m = lock_at(t, n);
            let out = handled(t, held, id, line);
            let l = out.locks[n];
            &&& only_lock(t, out.locks, n)
            &&& out.parked is None
            &&& m.holder != Some(id) ==> {
                &&& out.replies.len() == 1
                &&& response_text(out.replies[0]) == "ERR not held"@
                &&& out.held == held && out.woken is None
                &&& l.holder == m.holder && l.waiters == m.waiters
            }
            &&& m.holder == Some(id) ==> {
                &&& out.replies == seq![ResponseModel::Okay]
                &&& out.held == without_name(held, n)
                &&& m.waiters.len() == 0 ==> l.holder is None && l.waiters.len() == 0
                    && out.woken is None
                &&& m.waiters.len() > 0 ==> l.holder == Some(m.waiters[0]) && l.waiters
                    == m.waiters.skip(1) && out.woken == Some(m.waiters[0])
            }
        }),
{
    law_request_lines("RELEASE "@ + n, n);
    law_catalogue(n);
}

/// `STATUS n` and `LIST` change nothing, but that a name that was asked about is known;
/// and so does a line that is no request. An empty line is skipped.
pub proof fn law_other_lines(
    t: TableModel,
    held: Seq<Seq<char>>,
    id: ClientId,
    line: Seq<char>,
    n: Seq<char>,
)
    ensures
        ({
            let m = lock_at(t, n);
            let out = handled(t, held, id, line);
            let names = known_names_of(t);
            &&& trim_cr(line) == "STATUS "@ + n && valid_name(n) ==> {
                &&& only_lock(t, out.locks, n)
                &&& out.locks[n].holder == m.holder && out.locks[n].waiters == m.waiters
                &&& out.held == held && out.parked is None && out.woken is None
                &&& m.holder is None ==> out.replies == seq![
                    (ResponseModel::StatusFree { name: n, waiters: m.waiters.len() as usize }),
                ]
                &&& m.holder matches Some(h) ==> out.replies == seq![
                    (ResponseModel::StatusHeld {
                        name: n,
                        holder: h,
                        waiters: m.waiters.len() as usize,
                    }),
                ]
            }
            &&& trim_cr(line) == "LIST"@ ==> {
                &&& out.locks == t && out.held == held && out.parked is None && out.woken is None
                &&& out.replies.len() == names.len() + 2
                &&& out.replies[0] == ResponseModel::ListBegin
                &&& forall|i: int|
                    0 <= i < names.len() ==> #[trigger] out.replies[i + 1]
                        == ResponseModel::ListEntry(names[i])
                &&& out.replies[names.len() as int + 1] == ResponseModel::ListEnd
            }
            &&& trim_cr(line).len() > 0 && request_of(trim_cr(line)) is None ==> {
                &&& out.locks == t && out.held == held && out.parked is None && out.woken is None
                &&& out.replies == seq![refusal(trim_cr(line))]
            }
            &&& trim_cr(line).len() == 0 ==> {
                &&& out.locks == t && out.held == held && out.parked is None && out.woken is None
                &&& out.replies.len() == 0
            }
        }),
{
    law_request_lines("STATUS "@ + n, n);
    law_request_lines("LIST"@, n);
    reveal_strlit("LIST");
    reveal_strlit("STATUS ");
}

/// What the steps of a thread return and leave behind.
pub proof fn law_worker_calls()
    ensures
        forall|
            s: &mut LockStore,
            held: &mut Vec<String>,
            id: ClientId,
            line: &str,
            r: Outcome,
        | #[trigger]
            call_ensures(handle_line, (s, held, id, line), r) ==> {
                let m = handled(s@, texts(held@), id, line@);
                &&& (*final(s))@ == m.locks
                &&& texts((*final(held))@) == m.held
                &&& replies_of(r.replies@) == m.replies
                &&& (r.parked is None <==> m.parked is None)
                &&& (r.parked matches Some(n) ==> m.parked == Some(n@))
                &&& r.woken == m.woken
            },
        forall|held: &mut Vec<String>, name: &str, state: WakeState, r: Option<Response>| #[trigger]
            call_ensures(resume, (held, name, state), r) ==> {
                &&& state != WakeState::Granted ==> r is None && (*final(held))@ == held@
                &&& state == WakeState::Granted ==> r is Some && r->0@ == ResponseModel::Granted(
                    name@,
                )
                &&& state == WakeState::Granted && texts(held@).contains(name@) ==> texts(
                    (*final(held))@,
                ) == texts(held@)
                &&& state == WakeState::Granted && !texts(held@).contains(name@) ==> texts(
                    (*final(held))@,
                ) == texts(held@).push(name@)
            },
        forall|s: &mut LockStore, id: ClientId, held: &Vec<String>, r: Parting| #[trigger]
            call_ensures(disconnect, (s, id, held), r) ==> {
                let m = handed_back(
                    queues_without_first(s@, id),
                    id,
                    texts(held@),
                    held@.len() as int,
                );
                &&& r.evicted <==> exists|n: Seq<char>| #[trigger]
                    s@.dom().contains(n) && s@[n].waiters.contains(id)
                &&& (*final(s))@ == m.0
                &&& r.woken@ == m.1
            },
{
}

} // verus!
