//! The decisions of the single-threaded event server: what each line does to
//! the connected clients and to the lock table.
//!
//! Sockets are polled, registered and closed outside. A step returns the slot
//! whose socket has to be watched for writability.

use std::io::Read;
use std::io::Write;
use vstd::prelude::*;
use vstd::string::*;
use vstd::utf8::*;

use crate::locks::framer::after_line;
use crate::locks::framer::is_chain;
use crate::locks::framer::is_flush;
use crate::locks::framer::is_next_offer;
use crate::locks::framer::lemma_line_shortens;
use crate::locks::framer::line_of;
use crate::locks::framer::may_read;
use crate::locks::framer::may_say;
use crate::locks::framer::taken_by;
use crate::locks::framer::FrameError;
use crate::locks::framer::LineFramer;
use crate::locks::framer::LineModel;
use crate::locks::framer::Offered;
use crate::locks::framer::ReadEnd;
use crate::locks::framer::StreamError;
use crate::locks::intake::already_held;
use crate::locks::intake::catalogued;
use crate::locks::intake::law_catalogue;
use crate::locks::intake::line_too_long;
use crate::locks::intake::not_held;
use crate::locks::intake::read_request;
use crate::locks::intake::refusal;
use crate::locks::intake::trim_cr;
use crate::locks::intake::trim_line;
use crate::locks::protocol::law_request_lines;
use crate::locks::protocol::request_of;
use crate::locks::protocol::response_text;
use crate::locks::protocol::valid_name;
use crate::locks::protocol::ClientId;
use crate::locks::protocol::Request;
use crate::locks::protocol::RequestModel;
use crate::locks::protocol::Response;
use crate::locks::protocol::ResponseModel;
use crate::locks::protocol::ERR_ALREADY_HELD;
use crate::locks::protocol::ERR_LINE_TOO_LONG;
use crate::locks::protocol::ERR_NOT_HELD;
use crate::locks::table::acquire_outcome;
use crate::locks::table::after_acquire;
use crate::locks::table::after_try_acquire;
use crate::locks::table::free_lock;
use crate::locks::table::known_names_of;
use crate::locks::table::law_acquire;
use crate::locks::table::law_try_acquire;
use crate::locks::table::lock_at;
use crate::locks::table::promoted;
use crate::locks::table::queues_without;
use crate::locks::table::status_response;
use crate::locks::table::Acquired;
use crate::locks::table::LockEntry;
use crate::locks::table::LockModel;
use crate::locks::table::LockStore;
use crate::locks::table::TableModel;
use crate::text::digits;
use crate::text::same_text;
use crate::text::texts;

verus! {

// Clients.

/// The abstract state of one connection.
#[verifier::ext_equal]
pub struct ClientModel<S> {
    pub id: ClientId,
    pub stream: S,
    /// Bytes that have arrived and not been taken as lines.
    pub unread: Seq<u8>,
    /// Bytes to be sent.
    pub pending: Seq<u8>,
    /// Bytes that have been sent.
    pub handed: Seq<u8>,
    pub waiting_for: Option<Seq<char>>,
    pub held: Seq<Seq<char>>,
    pub wants_write: bool,
}

/// The bytes that carry a response: its line and a `\n`.
pub open spec fn response_bytes(m: ResponseModel) -> Seq<u8> {
    encode_utf8(response_text(m)) + seq![10u8]
}

/// `held` without the name `n`.
pub open spec fn without_name(held: Seq<Seq<char>>, n: Seq<char>) -> Seq<Seq<char>> {
    held.filter(|x: Seq<char>| x != n)
}

impl<S> ClientModel<S> {
    /// The client once `m` has been queued for it.
    pub open spec fn told(self, m: ResponseModel) -> Self {
        ClientModel { pending: self.pending + response_bytes(m), wants_write: true, ..self }
    }

    /// The client once the lock `n` has been granted to it at once.
    pub open spec fn granted(self, n: Seq<char>) -> Self {
        (ClientModel { held: self.held.push(n), ..self }).told(ResponseModel::Granted(n))
    }

    /// The client once the lock `n`, which it waited for, has been granted to it.
    pub open spec fn promoted(self, n: Seq<char>) -> Self {
        (ClientModel { waiting_for: None, ..self }).granted(n)
    }

    /// The client once it has given up the lock `n`.
    pub open spec fn released(self, n: Seq<char>) -> Self {
        (ClientModel { held: without_name(self.held, n), ..self }).told(ResponseModel::Okay)
    }
}

/// A client that has just connected.
pub open spec fn new_client<S>(id: ClientId, stream: S) -> ClientModel<S> {
    ClientModel {
        id,
        stream,
        unread: Seq::empty(),
        pending: Seq::empty(),
        handed: Seq::empty(),
        waiting_for: None,
        held: Seq::empty(),
        wants_write: false,
    }
}

/// All state associated with one connection.
pub struct ClientState<S> {
    /// Unique connection id assigned at accept time.
    id: ClientId,
    framer: LineFramer<S>,
    /// The last contended lock that this client asked for and was not granted
    /// since.
    waiting_for: Option<String>,
    /// Names of the locks currently held by this client.
    held: Vec<String>,
    /// Whether there is output to be flushed.
    wants_write: bool,
}

impl<S> View for ClientState<S> {
    type V = ClientModel<S>;

    closed spec fn view(&self) -> ClientModel<S> {
        ClientModel {
            id: self.id,
            stream: self.framer.stream(),
            unread: self.framer.unread(),
            pending: self.framer.pending(),
            handed: self.framer.handed(),
            waiting_for: match self.waiting_for {
                Some(n) => Some(n@),
                None => None,
            },
            held: texts(self.held@),
            wants_write: self.wants_write,
        }
    }
}

impl<S> ClientState<S> {
    pub closed spec fn wf(&self) -> bool {
        self.framer.wf()
    }

    pub fn new(id: ClientId, stream: S) -> (r: Self)
        ensures
            r.wf(),
            r@ == new_client(id, stream),
    {
        let r = ClientState {
            id,
            framer: LineFramer::new(stream),
            waiting_for: None,
            held: Vec::new(),
            wants_write: false,
        };
        assert(texts(r.held@) =~= Seq::<Seq<char>>::empty());
        r
    }

    pub fn id(&self) -> (r: ClientId)
        ensures
            r == self@.id,
    {
        self.id
    }

    pub fn wants_write(&self) -> (r: bool)
        ensures
            r == self@.wants_write,
    {
        self.wants_write
    }

    /// The framer, for the side that reads from and registers the socket.
    pub fn framer_mut<'a>(&'a mut self) -> (r: &'a mut LineFramer<S>)
        requires
            old(self).wf(),
        ensures
            r.wf(),
            r.stream() == old(self)@.stream,
            r.unread() == old(self)@.unread,
            r.pending() == old(self)@.pending,
            r.handed() == old(self)@.handed,
            (*final(r)).wf() ==> final(self).wf(),
            final(self)@ == (ClientModel {
                stream: (*final(r)).stream(),
                unread: (*final(r)).unread(),
                pending: (*final(r)).pending(),
                handed: (*final(r)).handed(),
                ..old(self)@
            }),
    {
        &mut self.framer
    }

    /// Appends a formatted response to the write buffer.
    pub fn enqueue(&mut self, resp: Response)
        requires
            old(self).wf(),
        ensures
            final(self).wf(),
            final(self)@ == old(self)@.told(resp@),
    {
        let line: String = resp.to_string();
        let _sent = self.framer.write(line.as_str().as_bytes());
        let newline: Vec<u8> = vec![10u8];
        assert(newline@ =~= seq![10u8]);
        let _sent = self.framer.write(newline.as_slice());
        self.wants_write = true;
        assert(self@.pending =~= old(self)@.pending + response_bytes(resp@));
    }

    fn grant(&mut self, name: &str)
        requires
            old(self).wf(),
        ensures
            final(self).wf(),
            final(self)@ == old(self)@.granted(name@),
    {
        self.held.push(name.to_owned());
        assert(texts(self.held@) =~= texts(old(self).held@).push(name@));
        self.enqueue(Response::Granted(name.to_owned()));
    }

    fn promote(&mut self, name: &str)
        requires
            old(self).wf(),
        ensures
            final(self).wf(),
            final(self)@ == old(self)@.promoted(name@),
    {
        self.waiting_for = None;
        self.grant(name);
    }

    fn release(&mut self, name: &str)
        requires
            old(self).wf(),
        ensures
            final(self).wf(),
            final(self)@ == old(self)@.released(name@),
    {
        let kept: Vec<String> = names_without(&self.held, name);
        self.held = kept;
        self.enqueue(Response::Okay);
    }

    fn wait_for(&mut self, name: &str)
        requires
            old(self).wf(),
        ensures
            final(self).wf(),
            final(self)@ == (ClientModel { waiting_for: Some(name@), ..old(self)@ }),
    {
        self.waiting_for = Some(name.to_owned());
    }
}

/// `held` without the name `name`.
pub fn names_without(held: &Vec<String>, name: &str) -> (r: Vec<String>)
    ensures
        texts(r@) == without_name(texts(held@), name@),
{
    let ghost all = texts(held@);
    let mut out: Vec<String> = Vec::new();
    let mut i: usize = 0;
    proof {
        assert(all.take(0) =~= Seq::<Seq<char>>::empty());
        assert(texts(out@) =~= Seq::<Seq<char>>::empty());
        reveal(Seq::filter);
    }
    while i < held.len()
        invariant
            i <= held@.len(),
            all == texts(held@),
            texts(out@) == without_name(all.take(i as int), name@),
        decreases held@.len() - i,
    {
        proof {
            reveal(Seq::filter);
            assert(all.take(i + 1).drop_last() =~= all.take(i as int));
            assert(all.take(i + 1).last() == held@[i as int]@);
        }
        if !same_text(held[i].as_str(), name) {
            let ghost before = out@;
            let n: String = held[i].clone();
            out.push(n);
            assert(texts(out@) =~= texts(before).push(n@));
        }
        i += 1;
    }
    assert(all.take(all.len() as int) =~= all);
    out
}

// The slab.

/// The connections by slot.
pub type SlabModel<S> = Seq<Option<ClientModel<S>>>;

/// The first empty slot, or the number of slots when there is none.
pub open spec fn free_slot<S>(cs: SlabModel<S>) -> int
    decreases cs.len(),
{
    if cs.len() == 0 || cs[0] is None {
        0
    } else {
        1 + free_slot(cs.drop_first())
    }
}

/// The first slot of the client `id`, or the number of slots when it has none.
pub open spec fn slot_of<S>(cs: SlabModel<S>, id: ClientId) -> int
    decreases cs.len(),
{
    if cs.len() == 0 || (cs[0] is Some && cs[0]->0.id == id) {
        0
    } else {
        1 + slot_of(cs.drop_first(), id)
    }
}

/// The slab once a client has been put into the first free slot, or a new one.
pub open spec fn seated<S>(cs: SlabModel<S>, c: ClientModel<S>) -> SlabModel<S> {
    let p = free_slot(cs);
    if p < cs.len() {
        cs.update(p, Some(c))
    } else {
        cs.push(Some(c))
    }
}

/// `free_slot` finds an empty slot, if there is one.
pub proof fn lemma_free_slot<S>(cs: SlabModel<S>)
    ensures
        0 <= free_slot(cs) <= cs.len(),
        free_slot(cs) < cs.len() ==> cs[free_slot(cs)] is None,
    decreases cs.len(),
{
    if cs.len() > 0 && cs[0] is Some {
        lemma_free_slot(cs.drop_first());
    }
}

proof fn lemma_free_slot_is<S>(cs: SlabModel<S>, p: int)
    requires
        0 <= p <= cs.len(),
        forall|i: int| 0 <= i < p ==> (#[trigger] cs[i]) is Some,
        p < cs.len() ==> cs[p] is None,
    ensures
        free_slot(cs) == p,
    decreases cs.len(),
{
    if p > 0 {
        let t = cs.drop_first();
        assert(cs[0] is Some);
        assert forall|i: int| 0 <= i < p - 1 implies (#[trigger] t[i]) is Some by {
            assert(t[i] == cs[i + 1]);
        }
        lemma_free_slot_is(t, p - 1);
    }
}

/// Whether slot `i` belongs to the client `id`.
pub open spec fn is_slot_of<S>(cs: SlabModel<S>, i: int, id: ClientId) -> bool {
    0 <= i < cs.len() && cs[i] is Some && cs[i]->0.id == id
}

proof fn lemma_slot_is<S>(cs: SlabModel<S>, id: ClientId, p: int)
    requires
        0 <= p <= cs.len(),
        forall|i: int| 0 <= i < p ==> !is_slot_of(cs, i, id),
        p < cs.len() ==> is_slot_of(cs, p, id),
    ensures
        slot_of(cs, id) == p,
    decreases cs.len(),
{
    if p > 0 {
        let t = cs.drop_first();
        assert(!is_slot_of(cs, 0, id));
        assert forall|i: int| 0 <= i < p - 1 implies !is_slot_of(t, i, id) by {
            assert(t[i] == cs[i + 1]);
            assert(!is_slot_of(cs, i + 1, id));
        }
        if p < cs.len() {
            assert(t[p - 1] == cs[p]);
        }
        lemma_slot_is(t, id, p - 1);
    }
}

/// `slot_of` finds the first slot of the client, if it has one.
pub proof fn lemma_slot_of<S>(cs: SlabModel<S>, id: ClientId)
    ensures
        0 <= slot_of(cs, id) <= cs.len(),
        slot_of(cs, id) < cs.len() ==> is_slot_of(cs, slot_of(cs, id), id),
        forall|i: int| 0 <= i < slot_of(cs, id) ==> !is_slot_of(cs, i, id),
    decreases cs.len(),
{
    if cs.len() > 0 && !(cs[0] is Some && cs[0]->0.id == id) {
        let t = cs.drop_first();
        lemma_slot_of(t, id);
        let p = slot_of(cs, id);
        if p < cs.len() {
            assert(t[p - 1] == cs[p]);
            assert(is_slot_of(t, p - 1, id));
        }
        assert forall|i: int| 0 <= i < p implies !is_slot_of(cs, i, id) by {
            if i > 0 {
                assert(t[i - 1] == cs[i]);
                assert(!is_slot_of(t, i - 1, id));
            }
        }
    }
}

/// Slab of connections. Slot indices are stable while a client is connected.
pub struct ClientSlab<S> {
    slots: Vec<Option<ClientState<S>>>,
}

impl<S> View for ClientSlab<S> {
    type V = SlabModel<S>;

    closed spec fn view(&self) -> SlabModel<S> {
        self.slots@.map_values(
            |s: Option<ClientState<S>>|
                match s {
                    Some(c) => Some(c@),
                    None => None,
                },
        )
    }
}

impl<S> ClientSlab<S> {
    pub closed spec fn wf(&self) -> bool {
        forall|i: int| 0 <= i < self.slots@.len() && (#[trigger] self.slots@[i]) is Some
            ==> self.slots@[i]->0.wf()
    }

    pub fn new() -> (r: Self)
        ensures
            r.wf(),
            r@ == Seq::<Option<ClientModel<S>>>::empty(),
    {
        let r = ClientSlab { slots: Vec::new() };
        assert(r@ =~= Seq::<Option<ClientModel<S>>>::empty());
        r
    }

    /// The number of slots, empty ones included.
    pub fn slot_count(&self) -> (r: usize)
        ensures
            r == self@.len(),
    {
        self.slots.len()
    }

    /// Inserts a client and returns its slot: the first empty one, or a new one.
    pub fn insert(&mut self, client: ClientState<S>) -> (r: usize)
        requires
            old(self).wf(),
            client.wf(),
        ensures
            final(self).wf(),
            r == free_slot(old(self)@),
            final(self)@ == seated(old(self)@, client@),
    {
        let mut i: usize = 0;
        while i < self.slots.len() && self.slots[i].is_some()
            invariant
                i <= self.slots@.len(),
                forall|k: int| 0 <= k < i ==> (#[trigger] self.slots@[k]) is Some,
            decreases self.slots@.len() - i,
        {
            i += 1;
        }
        proof {
            assert forall|k: int| 0 <= k < i implies (#[trigger] self@[k]) is Some by {
                assert(self.slots@[k] is Some);
            }
            if i < self.slots@.len() {
                assert(self@[i as int] is None);
            }
            lemma_free_slot_is(self@, i as int);
        }
        if i < self.slots.len() {
            self.slots[i] = Some(client);
            assert(self@ =~= old(self)@.update(i as int, Some(client@)));
        } else {
            self.slots.push(Some(client));
            assert(self@ =~= old(self)@.push(Some(client@)));
        }
        i
    }

    pub fn get<'a>(&'a self, idx: usize) -> (r: Option<&'a ClientState<S>>)
        requires
            self.wf(),
        ensures
            match r {
                Some(c) => idx < self@.len() && self@[idx as int] == Some(c@) && c.wf(),
                None => idx < self@.len() ==> self@[idx as int] is None,
            },
    {
        if idx < self.slots.len() {
            assert(self@[idx as int] == match self.slots@[idx as int] {
                Some(c) => Some(c@),
                None => None,
            });
            match &self.slots[idx] {
                Some(c) => Some(c),
                None => None,
            }
        } else {
            None
        }
    }

    pub fn get_mut<'a>(&'a mut self, idx: usize) -> (r: Option<&'a mut ClientState<S>>)
        requires
            old(self).wf(),
        ensures
            match r {
                Some(c) => {
                    &&& idx < old(self)@.len()
                    &&& old(self)@[idx as int] == Some(c@)
                    &&& c.wf()
                    &&& final(self)@ == old(self)@.update(idx as int, Some((*final(c))@))
                    &&& (*final(c)).wf() ==> final(self).wf()
                },
                None => {
                    &&& idx < old(self)@.len() ==> old(self)@[idx as int] is None
                    &&& final(self)@ == old(self)@
                    &&& final(self).wf()
                },
            },
    {
        if idx < self.slots.len() {
            assert(self@[idx as int] == match self.slots@[idx as int] {
                Some(c) => Some(c@),
                None => None,
            });
            let slot: &mut Option<ClientState<S>> = &mut self.slots[idx];
            match slot {
                Some(c) => {
                    proof {
                        let after = after_borrow(self.slots);
                        assert(after@.map_values(
                            |s: Option<ClientState<S>>|
                                match s {
                                    Some(c) => Some(c@),
                                    None => None,
                                },
                        ) =~= old(self)@.update(idx as int, Some((*final(c))@)));
                    }
                    Some(c)
                },
                None => None,
            }
        } else {
            None
        }
    }

    /// Removes and returns the client at `idx`, freeing the slot for reuse.
    pub fn remove(&mut self, idx: usize) -> (r: Option<ClientState<S>>)
        requires
            old(self).wf(),
        ensures
            final(self).wf(),
            match r {
                Some(c) => {
                    &&& idx < old(self)@.len()
                    &&& old(self)@[idx as int] == Some(c@)
                    &&& c.wf()
                    &&& final(self)@ == old(self)@.update(idx as int, None)
                },
                None => {
                    &&& idx < old(self)@.len() ==> old(self)@[idx as int] is None
                    &&& final(self)@ == old(self)@
                },
            },
    {
        if idx < self.slots.len() {
            assert(self@[idx as int] == match self.slots@[idx as int] {
                Some(c) => Some(c@),
                None => None,
            });
            let mut out: Option<ClientState<S>> = None;
            let slot: &mut Option<ClientState<S>> = &mut self.slots[idx];
            std::mem::swap(slot, &mut out);
            assert(self@ =~= old(self)@.update(idx as int, None));
            out
        } else {
            None
        }
    }

    /// The slot of the client with the given id.
    pub fn find(&self, id: ClientId) -> (r: Option<usize>)
        ensures
            match r {
                Some(i) => i == slot_of(self@, id) && i < self@.len(),
                None => slot_of(self@, id) == self@.len(),
            },
    {
        let mut i: usize = 0;
        while i < self.slots.len()
            invariant
                i <= self.slots@.len(),
                forall|k: int| 0 <= k < i ==> !is_slot_of(self@, k, id),
            decreases self.slots@.len() - i,
        {
            assert(self@[i as int] == match self.slots@[i as int] {
                Some(c) => Some(c@),
                None => None,
            });
            match &self.slots[i] {
                Some(c) => {
                    if c.id == id {
                        proof {
                            lemma_slot_is(self@, id, i as int);
                        }
                        return Some(i);
                    }
                },
                None => {},
            }
            i += 1;
        }
        proof {
            lemma_slot_is(self@, id, self@.len() as int);
        }
        None
    }
}

/// Takes in a new connection. Returns its slot.
pub fn accept_client<S>(
    stream: S,
    clients: &mut ClientSlab<S>,
    locks: &mut LockStore,
) -> (r: usize)
    requires
        old(clients).wf(),
        old(locks).wf(),
        old(locks).next_id() < u64::MAX,
    ensures
        final(clients).wf(),
        final(locks).wf(),
        final(locks)@ == old(locks)@,
        final(locks).next_id() == old(locks).next_id() + 1,
        r == free_slot(old(clients)@),
        final(clients)@ == seated(old(clients)@, new_client(old(locks).next_id(), stream)),
{
    let id: ClientId = locks.alloc_id();
    clients.insert(ClientState::new(id, stream))
}

// Steps.

/// The connections once `m` has been queued for the client at `slot`.
pub open spec fn told<S>(cs: SlabModel<S>, slot: int, m: ResponseModel) -> SlabModel<S> {
    if 0 <= slot < cs.len() && cs[slot] is Some {
        cs.update(slot, Some(cs[slot]->0.told(m)))
    } else {
        cs
    }
}

/// The connections once all of `ms` have been queued for the client at `slot`.
pub open spec fn told_all<S>(cs: SlabModel<S>, slot: int, ms: Seq<ResponseModel>) -> SlabModel<S>
    decreases ms.len(),
{
    if ms.len() == 0 {
        cs
    } else {
        told(told_all(cs, slot, ms.drop_last()), slot, ms.last())
    }
}

/// The id of the client at `slot`; 0, which no client has, if there is none.
pub open spec fn id_at<S>(cs: SlabModel<S>, slot: int) -> ClientId {
    if 0 <= slot < cs.len() && cs[slot] is Some {
        cs[slot]->0.id
    } else {
        0
    }
}

/// The lines of a `LIST` reply.
pub open spec fn list_reply(names: Seq<Seq<char>>) -> Seq<ResponseModel> {
    seq![ResponseModel::ListBegin] + names.map_values(|n: Seq<char>| ResponseModel::ListEntry(n))
        + seq![ResponseModel::ListEnd]
}

/// The state that a step works on and leaves behind.
pub struct ServerModel<S> {
    pub clients: SlabModel<S>,
    pub locks: TableModel,
    /// The slot whose socket has to be watched for writability, if the step
    /// queued output for a client other than the one that it is about.
    pub rearm: Option<int>,
}

/// Who gets a lock that is given up while `queue` waits for it: the oldest
/// waiter that is still connected.
pub open spec fn handed_over<S>(cs: SlabModel<S>, queue: Seq<ClientId>) -> LockModel
    decreases queue.len(),
{
    if queue.len() == 0 {
        free_lock()
    } else if slot_of(cs, queue[0]) < cs.len() {
        LockModel { holder: Some(queue[0]), waiters: queue.skip(1) }
    } else {
        handed_over(cs, queue.skip(1))
    }
}

/// The lock `name` is given up and passes on; its new holder is told.
pub open spec fn passed_on<S>(cs: SlabModel<S>, t: TableModel, name: Seq<char>) -> ServerModel<S> {
    if t.dom().contains(name) {
        let m = handed_over(cs, t[name].waiters);
        let t2 = t.insert(name, m);
        match m.holder {
            Some(id) => {
                let i = slot_of(cs, id);
                ServerModel {
                    clients: cs.update(i, Some(cs[i]->0.promoted(name))),
                    locks: t2,
                    rearm: Some(i),
                }
            },
            None => ServerModel { clients: cs, locks: t2, rearm: None },
        }
    } else {
        ServerModel { clients: cs, locks: t, rearm: None }
    }
}

/// What a line from the client at `slot` does.
pub open spec fn processed<S>(
    cs: SlabModel<S>,
    t: TableModel,
    slot: int,
    line: Seq<char>,
) -> ServerModel<S> {
    let id = id_at(cs, slot);
    let here = 0 <= slot < cs.len() && cs[slot] is Some;
    match request_of(line) {
        None => ServerModel { clients: told(cs, slot, refusal(line)), locks: t, rearm: None },
        Some(RequestModel::Acquire(n)) => {
            let m = lock_at(t, n);
            ServerModel {
                clients: match acquire_outcome(m, id) {
                    Acquired::AlreadyHeld => told(cs, slot, catalogued(ERR_ALREADY_HELD@)),
                    Acquired::Granted => if here {
                        cs.update(slot, Some(cs[slot]->0.granted(n)))
                    } else {
                        cs
                    },
                    Acquired::Queued => if here {
                        cs.update(
                            slot,
                            Some((ClientModel { waiting_for: Some(n), ..cs[slot]->0 })),
                        )
                    } else {
                        cs
                    },
                },
                locks: t.insert(n, after_acquire(m, id)),
                rearm: None,
            }
        },
        Some(RequestModel::TryAcquire(n)) => {
            let m = lock_at(t, n);
            ServerModel {
                clients: if m.holder is Some {
                    told(cs, slot, ResponseModel::Denied(n))
                } else if here {
                    cs.update(slot, Some(cs[slot]->0.granted(n)))
                } else {
                    cs
                },
                locks: t.insert(n, after_try_acquire(m, id)),
                rearm: None,
            }
        },
        Some(RequestModel::Release(n)) => {
            let m = lock_at(t, n);
            if m.holder == Some(id) {
                let cs2 = if here {
                    cs.update(slot, Some(cs[slot]->0.released(n)))
                } else {
                    cs
                };
                passed_on(cs2, t.insert(n, m), n)
            } else {
                ServerModel {
                    clients: told(cs, slot, catalogued(ERR_NOT_HELD@)),
                    locks: t.insert(n, m),
                    rearm: None,
                }
            }
        },
        Some(RequestModel::Status(n)) => {
            let m = lock_at(t, n);
            ServerModel {
                clients: told(cs, slot, status_response(n, m)),
                locks: t.insert(n, m),
                rearm: None,
            }
        },
        Some(RequestModel::List) => ServerModel {
            clients: told_all(cs, slot, list_reply(known_names_of(t))),
            locks: t,
            rearm: None,
        },
    }
}

/// Whether two slabs hold the same clients, apart from what the clients wait
/// for, hold and are yet to be sent.
pub open spec fn same_clients<S>(a: SlabModel<S>, b: SlabModel<S>) -> bool {
    &&& a.len() == b.len()
    &&& forall|i: int|
        0 <= i < a.len() ==> {
            &&& ((#[trigger] a[i]) is Some <==> b[i] is Some)
            &&& a[i] is Some ==> {
                &&& a[i]->0.id == b[i]->0.id
                &&& a[i]->0.stream == b[i]->0.stream
                &&& a[i]->0.unread == b[i]->0.unread
                &&& a[i]->0.handed == b[i]->0.handed
            }
        }
}

proof fn lemma_told_all_same<S>(cs: SlabModel<S>, slot: int, ms: Seq<ResponseModel>)
    ensures
        same_clients(cs, told_all(cs, slot, ms)),
    decreases ms.len(),
{
    if ms.len() > 0 {
        lemma_told_all_same(cs, slot, ms.drop_last());
    }
}

/// Whoever gets a lock that is given up is connected and waited for it.
pub proof fn lemma_handed_over<S>(cs: SlabModel<S>, queue: Seq<ClientId>)
    ensures
        match handed_over(cs, queue).holder {
            Some(id) => slot_of(cs, id) < cs.len() && queue.contains(id),
            None => handed_over(cs, queue).waiters.len() == 0,
        },
    decreases queue.len(),
{
    if queue.len() > 0 && !(slot_of(cs, queue[0]) < cs.len()) {
        lemma_handed_over(cs, queue.skip(1));
        match handed_over(cs, queue).holder {
            Some(id) => {
                let i = choose|i: int| 0 <= i < queue.skip(1).len() && queue.skip(1)[i] == id;
                assert(queue[i + 1] == id);
            },
            None => {},
        }
    }
}

proof fn lemma_passed_on_same<S>(cs: SlabModel<S>, t: TableModel, name: Seq<char>)
    ensures
        same_clients(cs, passed_on(cs, t, name).clients),
{
    if t.dom().contains(name) {
        let m = handed_over(cs, t[name].waiters);
        lemma_handed_over(cs, t[name].waiters);
        match m.holder {
            Some(id) => {
                lemma_slot_of(cs, id);
            },
            None => {},
        }
    }
}

/// A line changes nothing but what clients wait for, hold and are yet to be
/// sent: no connection comes or goes, and nothing that has arrived is lost.
pub proof fn lemma_processed_same<S>(cs: SlabModel<S>, t: TableModel, slot: int, line: Seq<char>)
    ensures
        same_clients(cs, processed(cs, t, slot, line).clients),
{
    let id = id_at(cs, slot);
    match request_of(line) {
        Some(RequestModel::Release(n)) => {
            let m = lock_at(t, n);
            if m.holder == Some(id) {
                let cs2 = if 0 <= slot < cs.len() && cs[slot] is Some {
                    cs.update(slot, Some(cs[slot]->0.released(n)))
                } else {
                    cs
                };
                lemma_passed_on_same(cs2, t.insert(n, m), n);
            }
        },
        Some(RequestModel::List) => {
            lemma_told_all_same(cs, slot, list_reply(known_names_of(t)));
        },
        _ => {},
    }
}

/// Whether a returned slot is the one of the model.
pub open spec fn rearms<S>(r: Option<usize>, m: ServerModel<S>) -> bool {
    match r {
        Some(i) => m.rearm == Some(i as int),
        None => m.rearm is None,
    }
}

fn tell<S>(clients: &mut ClientSlab<S>, slot: usize, resp: Response)
    requires
        old(clients).wf(),
    ensures
        final(clients).wf(),
        final(clients)@ == told(old(clients)@, slot as int, resp@),
{
    match clients.get_mut(slot) {
        Some(c) => {
            c.enqueue(resp);
        },
        None => {},
    }
}

fn grant_to<S>(clients: &mut ClientSlab<S>, slot: usize, name: &str)
    requires
        old(clients).wf(),
    ensures
        final(clients).wf(),
        final(clients)@ == (if slot < old(clients)@.len() && old(clients)@[slot as int] is Some {
            old(clients)@.update(slot as int, Some(old(clients)@[slot as int]->0.granted(name@)))
        } else {
            old(clients)@
        }),
{
    match clients.get_mut(slot) {
        Some(c) => {
            c.grant(name);
        },
        None => {},
    }
}

/// Promotes the next connected waiter for a lock that is given up, and queues
/// `GRANTED` for it. Returns its slot.
pub fn promote_and_notify<S>(
    name: &str,
    locks: &mut LockStore,
    clients: &mut ClientSlab<S>,
) -> (r: Option<usize>)
    requires
        old(locks).wf(),
        old(clients).wf(),
    ensures
        final(locks).wf(),
        final(clients).wf(),
        final(locks).next_id() == old(locks).next_id(),
        final(clients)@ == passed_on(old(clients)@, old(locks)@, name@).clients,
        final(locks)@ == passed_on(old(clients)@, old(locks)@, name@).locks,
        rearms(r, passed_on(old(clients)@, old(locks)@, name@)),
{
    let ghost t = locks@;
    let ghost cs = clients@;
    let ghost mut queue: Seq<ClientId> = if t.dom().contains(name@) {
        t[name@].waiters
    } else {
        Seq::empty()
    };
    loop
        invariant
            locks.wf(),
            clients.wf(),
            locks.next_id() == old(locks).next_id(),
            t == old(locks)@,
            cs == old(clients)@,
            clients@ == cs,
            locks@.dom() == t.dom(),
            t.dom().contains(name@) ==> {
                &&& locks@[name@].waiters == queue
                &&& handed_over(cs, queue) == handed_over(cs, t[name@].waiters)
                &&& forall|x: LockModel| #[trigger] locks@.insert(name@, x) == t.insert(name@, x)
            },
            !t.dom().contains(name@) ==> locks@ == t,
        decreases queue.len(),
    {
        let ghost before = locks@;
        match locks.promote_next(name) {
            None => {
                proof {
                    if t.dom().contains(name@) {
                        assert(queue.len() == 0);
                        assert(locks@ == t.insert(name@, free_lock()));
                    }
                }
                return None;
            },
            Some(next) => {
                proof {
                    lemma_slot_of(cs, next);
                }
                match clients.find(next) {
                    Some(slot) => {
                        match clients.get_mut(slot) {
                            Some(c) => {
                                c.promote(name);
                            },
                            None => {},
                        }
                        return Some(slot);
                    },
                    None => {
                        // The client has gone; try the next one.
                        proof {
                            queue = queue.skip(1);
                            assert(locks@.dom() =~= t.dom());
                            assert forall|x: LockModel| #[trigger] locks@.insert(name@, x)
                                == t.insert(name@, x) by {
                                assert(locks@.insert(name@, x) =~= before.insert(name@, x));
                            }
                        }
                    },
                }
            },
        }
    }
}

/// Processes one complete request line from the client at `slot_idx`. Returns
/// the slot of another client for which output was queued.
pub fn process_line<S>(
    slot_idx: usize,
    line: &str,
    clients: &mut ClientSlab<S>,
    locks: &mut LockStore,
) -> (r: Option<usize>)
    requires
        old(locks).wf(),
        old(clients).wf(),
    ensures
        final(locks).wf(),
        final(clients).wf(),
        final(locks).next_id() == old(locks).next_id(),
        final(clients)@ == processed(old(clients)@, old(locks)@, slot_idx as int, line@).clients,
        final(locks)@ == processed(old(clients)@, old(locks)@, slot_idx as int, line@).locks,
        rearms(r, processed(old(clients)@, old(locks)@, slot_idx as int, line@)),
{
    let client_id: ClientId = match clients.get(slot_idx) {
        Some(c) => c.id(),
        None => 0,
    };
    let req: Request = match read_request(line) {
        Ok(req) => req,
        Err(resp) => {
            tell(clients, slot_idx, resp);
            return None;
        },
    };
    match req {
        Request::Acquire(name) => {
            let n: &str = name.as_str();
            let entry: &mut LockEntry = locks.entry(n);
            match entry.acquire(client_id) {
                Acquired::AlreadyHeld => {
                    tell(clients, slot_idx, already_held());
                },
                Acquired::Granted => {
                    grant_to(clients, slot_idx, n);
                },
                Acquired::Queued => {
                    // No reply yet: GRANTED follows when the holder gives up.
                    match clients.get_mut(slot_idx) {
                        Some(c) => {
                            c.wait_for(n);
                        },
                        None => {},
                    }
                },
            }
            None
        },
        Request::TryAcquire(name) => {
            let n: &str = name.as_str();
            let entry: &mut LockEntry = locks.entry(n);
            if entry.try_acquire(client_id) {
                grant_to(clients, slot_idx, n);
            } else {
                tell(clients, slot_idx, Response::Denied(name.clone()));
            }
            None
        },
        Request::Release(name) => {
            let n: &str = name.as_str();
            let entry: &mut LockEntry = locks.entry(n);
            if entry.holder() != Some(client_id) {
                tell(clients, slot_idx, not_held());
                return None;
            }
            match clients.get_mut(slot_idx) {
                Some(c) => {
                    c.release(n);
                },
                None => {},
            }
            promote_and_notify(n, locks, clients)
        },
        Request::Status(name) => {
            let n: &str = name.as_str();
            let entry: &mut LockEntry = locks.entry(n);
            let resp: Response = entry.status(n);
            tell(clients, slot_idx, resp);
            None
        },
        Request::List => {
            let names: Vec<String> = locks.known_names();
            tell_list(clients, slot_idx, &names);
            None
        },
    }
}

fn tell_list<S>(clients: &mut ClientSlab<S>, slot: usize, names: &Vec<String>)
    requires
        old(clients).wf(),
    ensures
        final(clients).wf(),
        final(clients)@ == told_all(old(clients)@, slot as int, list_reply(texts(names@))),
{
    let ghost cs = clients@;
    let ghost all = list_reply(texts(names@));
    let ghost at = slot as int;
    tell(clients, slot, Response::ListBegin);
    proof {
        reveal_with_fuel(told_all, 2);
        assert(all.take(1).drop_last() =~= Seq::<ResponseModel>::empty());
        assert(all.take(1).last() == ResponseModel::ListBegin);
    }
    let mut i: usize = 0;
    while i < names.len()
        invariant
            i <= names@.len(),
            clients.wf(),
            at == slot,
            all == list_reply(texts(names@)),
            clients@ == told_all(cs, at, all.take(i + 1)),
        decreases names@.len() - i,
    {
        tell(clients, slot, Response::ListEntry(names[i].clone()));
        proof {
            assert(all.take(i + 2).drop_last() =~= all.take(i + 1));
            assert(all.take(i + 2).last() == ResponseModel::ListEntry(names@[i as int]@));
        }
        i += 1;
    }
    tell(clients, slot, Response::ListEnd);
    proof {
        assert(all.drop_last() =~= all.take(i + 1));
        assert(all.last() == ResponseModel::ListEnd);
    }
}

// Leaving.

/// The table once `id` no longer holds `name`; nobody has been promoted yet.
pub open spec fn vacated(t: TableModel, name: Seq<char>, id: ClientId) -> TableModel {
    if t.dom().contains(name) && t[name].holder == Some(id) {
        t.insert(name, (LockModel { holder: None, ..t[name] }))
    } else {
        t
    }
}

/// The first `n` of the locks `held` by a leaving client `id` pass on, in order.
/// The slots to be watched for writability are listed.
pub open spec fn gave_up<S>(
    cs: SlabModel<S>,
    t: TableModel,
    id: ClientId,
    held: Seq<Seq<char>>,
    n: int,
) -> (SlabModel<S>, TableModel, Seq<int>)
    decreases n,
{
    if n <= 0 {
        (cs, t, Seq::empty())
    } else {
        let (cs1, t1, slots) = gave_up(cs, t, id, held, n - 1);
        let m = passed_on(cs1, vacated(t1, held[n - 1], id), held[n - 1]);
        (
            m.clients,
            m.locks,
            match m.rearm {
                Some(i) => slots.push(i),
                None => slots,
            },
        )
    }
}

/// The client at `slot` leaves: its slot is freed, it waits for nothing any
/// more, and every lock that it held passes on.
pub open spec fn departed<S>(cs: SlabModel<S>, t: TableModel, slot: int) -> (
    SlabModel<S>,
    TableModel,
    Seq<int>,
) {
    if 0 <= slot < cs.len() && cs[slot] is Some {
        let c = cs[slot]->0;
        gave_up(
            cs.update(slot, None),
            queues_without(t, c.id),
            c.id,
            c.held,
            c.held.len() as int,
        )
    } else {
        (cs, t, Seq::empty())
    }
}

/// The numbers of a list of slots.
pub open spec fn slot_numbers(v: Seq<usize>) -> Seq<int> {
    v.map_values(|i: usize| i as int)
}

/// Whether `framer` is the one of the client `c`.
pub open spec fn is_framer_of<S>(framer: LineFramer<S>, c: ClientModel<S>) -> bool {
    &&& framer.wf()
    &&& framer.stream() == c.stream
    &&& framer.unread() == c.unread
    &&& framer.pending() == c.pending
    &&& framer.handed() == c.handed
}

/// Disconnects the client at `slot_idx`. Returns its framer, so that the socket
/// can be flushed and closed, and the slots for which output was queued.
pub fn disconnect_client<S>(
    slot_idx: usize,
    clients: &mut ClientSlab<S>,
    locks: &mut LockStore,
) -> (r: Option<(LineFramer<S>, Vec<usize>)>)
    requires
        old(locks).wf(),
        old(clients).wf(),
    ensures
        final(locks).wf(),
        final(clients).wf(),
        final(locks).next_id() == old(locks).next_id(),
        final(clients)@ == departed(old(clients)@, old(locks)@, slot_idx as int).0,
        final(locks)@ == departed(old(clients)@, old(locks)@, slot_idx as int).1,
        match r {
            Some((framer, slots)) => {
                &&& slot_idx < old(clients)@.len()
                &&& old(clients)@[slot_idx as int] is Some
                &&& is_framer_of(framer, old(clients)@[slot_idx as int]->0)
                &&& slot_numbers(slots@) == departed(
                    old(clients)@,
                    old(locks)@,
                    slot_idx as int,
                ).2
            },
            None => slot_idx < old(clients)@.len() ==> old(clients)@[slot_idx as int] is None,
        },
{
    let client: ClientState<S> = match clients.remove(slot_idx) {
        Some(c) => c,
        None => return None,
    };
    let client_id: ClientId = client.id;
    locks.forget_waiter(client_id);
    let ghost cs = clients@;
    let ghost t = locks@;
    let ghost held = client@.held;
    let mut slots: Vec<usize> = Vec::new();
    let mut i: usize = 0;
    assert(slot_numbers(slots@) =~= Seq::<int>::empty());
    while i < client.held.len()
        invariant
            i <= client.held@.len(),
            held == texts(client.held@),
            locks.wf(),
            clients.wf(),
            locks.next_id() == old(locks).next_id(),
            clients@ == gave_up(cs, t, client_id, held, i as int).0,
            locks@ == gave_up(cs, t, client_id, held, i as int).1,
            slot_numbers(slots@) == gave_up(cs, t, client_id, held, i as int).2,
        decreases client.held@.len() - i,
    {
        let name: &str = client.held[i].as_str();
        assert(held[i as int] == name@);
        locks.vacate(name, client_id);
        match promote_and_notify(name, locks, clients) {
            Some(slot) => {
                let ghost before = slots@;
                slots.push(slot);
                assert(slot_numbers(slots@) =~= slot_numbers(before).push(slot as int));
            },
            None => {},
        }
        i += 1;
    }
    Some((client.framer, slots))
}

// Reading and writing.

/// What became of the next line of a client.
pub enum Intake<S> {
    /// There is no complete line yet, or no such client.
    Idle,
    /// A line was dealt with; there may be more. Output was queued for the
    /// client at this other slot, if any.
    Handled(Option<usize>),
    /// The client broke the protocol and was disconnected.
    Dropped(LineFramer<S>, Vec<usize>),
}

/// The connections once the client at `slot` has taken its next line out of
/// what has arrived.
pub open spec fn line_taken<S>(cs: SlabModel<S>, slot: int) -> SlabModel<S> {
    cs.update(
        slot,
        Some((ClientModel { unread: after_line(cs[slot]->0.unread), ..cs[slot]->0 })),
    )
}

/// Deals with the next line that has arrived from the client at `slot_idx`. An
/// empty line is skipped. An overlong line is answered and ends the connection;
/// so does one that is not UTF-8, without an answer.
pub fn take_line<S>(
    slot_idx: usize,
    clients: &mut ClientSlab<S>,
    locks: &mut LockStore,
) -> (r: Intake<S>)
    requires
        old(locks).wf(),
        old(clients).wf(),
    ensures
        final(locks).wf(),
        final(clients).wf(),
        final(locks).next_id() == old(locks).next_id(),
        ({
            let cs = old(clients)@;
            let t = old(locks)@;
            let slot = slot_idx as int;
            let cs1 = line_taken(cs, slot);
            if slot < cs.len() && cs[slot] is Some {
                match line_of(cs[slot]->0.unread) {
                    LineModel::Incomplete => {
                        &&& r is Idle
                        &&& final(clients)@ == cs
                        &&& final(locks)@ == t
                    },
                    LineModel::Line(s) => if trim_cr(s).len() == 0 {
                        &&& r == Intake::<S>::Handled(None)
                        &&& final(clients)@ == cs1
                        &&& final(locks)@ == t
                    } else {
                        let m = processed(cs1, t, slot, trim_cr(s));
                        &&& r is Handled
                        &&& rearms(r->Handled_0, m)
                        &&& final(clients)@ == m.clients
                        &&& final(locks)@ == m.locks
                    },
                    LineModel::TooLong => {
                        let cs2 = told(cs1, slot, catalogued(ERR_LINE_TOO_LONG@));
                        let (cs3, t3, slots) = departed(cs2, t, slot);
                        &&& r is Dropped
                        &&& is_framer_of(r->Dropped_0, cs2[slot]->0)
                        &&& slot_numbers(r->Dropped_1@) == slots
                        &&& final(clients)@ == cs3
                        &&& final(locks)@ == t3
                    },
                    LineModel::InvalidUtf8 => {
                        let (cs3, t3, slots) = departed(cs1, t, slot);
                        &&& r is Dropped
                        &&& is_framer_of(r->Dropped_0, cs1[slot]->0)
                        &&& slot_numbers(r->Dropped_1@) == slots
                        &&& final(clients)@ == cs3
                        &&& final(locks)@ == t3
                    },
                }
            } else {
                &&& r is Idle
                &&& final(clients)@ == cs
                &&& final(locks)@ == t
            }
        }),
{
    let ghost cs = clients@;
    let ghost slot = slot_idx as int;
    let line = match clients.get_mut(slot_idx) {
        Some(c) => c.framer.next_line(),
        None => return Intake::Idle,
    };
    assert(clients@ =~= line_taken(cs, slot));
    match line {
        Ok(None) => {
            assert(clients@ =~= cs);
            Intake::Idle
        },
        Ok(Some(s)) => {
            let trimmed: &str = trim_line(s.as_str());
            if trimmed.is_empty() {
                Intake::Handled(None)
            } else {
                Intake::Handled(process_line(slot_idx, trimmed, clients, locks))
            }
        },
        Err(e) => {
            match e {
                FrameError::LineTooLong => {
                    tell(clients, slot_idx, line_too_long());
                },
                _ => {},
            }
            match disconnect_client(slot_idx, clients, locks) {
                Some((framer, slots)) => Intake::Dropped(framer, slots),
                None => Intake::Idle,
            }
        },
    }
}

/// What is left once every complete line of a client has been dealt with.
#[verifier::ext_equal]
pub struct DrainModel<S> {
    pub clients: SlabModel<S>,
    pub locks: TableModel,
    /// The other slots for which output was queued, in order.
    pub rearm: Seq<int>,
    /// The client as it was when it left, if it did.
    pub dropped: Option<ClientModel<S>>,
}

/// `first` in front of the slots of `m`.
pub open spec fn rearmed_before<S>(first: Option<int>, m: DrainModel<S>) -> DrainModel<S> {
    match first {
        Some(i) => DrainModel { rearm: seq![i] + m.rearm, ..m },
        None => m,
    }
}

/// The client at `slot` leaves because it broke the protocol.
pub open spec fn expelled<S>(cs: SlabModel<S>, t: TableModel, slot: int) -> DrainModel<S> {
    let (cs3, t3, slots) = departed(cs, t, slot);
    DrainModel { clients: cs3, locks: t3, rearm: slots, dropped: Some(cs[slot]->0) }
}

/// The number of bytes that wait to be taken as lines from the client at `slot`.
pub open spec fn unread_at<S>(cs: SlabModel<S>, slot: int) -> nat {
    if 0 <= slot < cs.len() && cs[slot] is Some {
        cs[slot]->0.unread.len()
    } else {
        0
    }
}

/// Deals with every complete line that has arrived from the client at `slot`.
pub open spec fn drained<S>(cs: SlabModel<S>, t: TableModel, slot: int) -> DrainModel<S>
    decreases unread_at(cs, slot),
{
    proof {
        lemma_line_shortens(cs[slot]->0.unread);
    }
    if 0 <= slot < cs.len() && cs[slot] is Some {
        let cs1 = line_taken(cs, slot);
        match line_of(cs[slot]->0.unread) {
            LineModel::Incomplete => DrainModel {
                clients: cs,
                locks: t,
                rearm: Seq::empty(),
                dropped: None,
            },
            LineModel::Line(s) => if trim_cr(s).len() == 0 {
                drained(cs1, t, slot)
            } else {
                let m = processed(cs1, t, slot, trim_cr(s));
                proof {
                    lemma_processed_same(cs1, t, slot, trim_cr(s));
                    assert(cs1[slot] is Some);
                }
                rearmed_before(m.rearm, drained(m.clients, m.locks, slot))
            },
            LineModel::TooLong => expelled(
                told(cs1, slot, catalogued(ERR_LINE_TOO_LONG@)),
                t,
                slot,
            ),
            LineModel::InvalidUtf8 => expelled(cs1, t, slot),
        }
    } else {
        DrainModel { clients: cs, locks: t, rearm: Seq::empty(), dropped: None }
    }
}

/// What became of a client whose socket was readable.
pub enum Served<S> {
    /// It stays, or there was no such client. Output was queued for the clients
    /// at these other slots.
    Kept(Vec<usize>),
    /// It was disconnected. Its framer is handed out, so that what is left in it
    /// can be flushed and the socket closed.
    Gone(LineFramer<S>, Vec<usize>),
}

/// Whether a result is the one of the model.
pub open spec fn served_as<S>(r: Served<S>, m: DrainModel<S>) -> bool {
    match r {
        Served::Kept(slots) => m.dropped is None && slot_numbers(slots@) == m.rearm,
        Served::Gone(framer, slots) => {
            &&& m.dropped is Some
            &&& is_framer_of(framer, m.dropped->0)
            &&& slot_numbers(slots@) == m.rearm
        },
    }
}

/// The first line that is dealt with, and the rest.
pub proof fn lemma_drain_step<S>(cs: SlabModel<S>, t: TableModel, slot: int)
    requires
        0 <= slot < cs.len(),
        cs[slot] is Some,
    ensures
        match line_of(cs[slot]->0.unread) {
            LineModel::Line(s) => if trim_cr(s).len() == 0 {
                &&& drained(cs, t, slot) == drained(line_taken(cs, slot), t, slot)
                &&& unread_at(line_taken(cs, slot), slot) < unread_at(cs, slot)
            } else {
                let m = processed(line_taken(cs, slot), t, slot, trim_cr(s));
                &&& drained(cs, t, slot) == rearmed_before(
                    m.rearm,
                    drained(m.clients, m.locks, slot),
                )
                &&& unread_at(m.clients, slot) < unread_at(cs, slot)
            },
            _ => true,
        },
{
    lemma_line_shortens(cs[slot]->0.unread);
    match line_of(cs[slot]->0.unread) {
        LineModel::Line(s) => {
            let cs1 = line_taken(cs, slot);
            lemma_processed_same(cs1, t, slot, trim_cr(s));
            assert(cs1[slot] is Some);
        },
        _ => {},
    }
}

/// Deals with every complete line that has arrived from the client at `slot_idx`.
#[verifier::rlimit(60)]
pub fn drain_lines<S>(
    slot_idx: usize,
    clients: &mut ClientSlab<S>,
    locks: &mut LockStore,
) -> (r: Served<S>)
    requires
        old(locks).wf(),
        old(clients).wf(),
    ensures
        final(locks).wf(),
        final(clients).wf(),
        final(locks).next_id() == old(locks).next_id(),
        final(clients)@ == drained(old(clients)@, old(locks)@, slot_idx as int).clients,
        final(locks)@ == drained(old(clients)@, old(locks)@, slot_idx as int).locks,
        served_as(r, drained(old(clients)@, old(locks)@, slot_idx as int)),
{
    let ghost slot = slot_idx as int;
    let ghost whole = drained(clients@, locks@, slot);
    let mut slots: Vec<usize> = Vec::new();
    assert(slot_numbers(slots@) + whole.rearm =~= whole.rearm);
    loop
        invariant
            locks.wf(),
            clients.wf(),
            locks.next_id() == old(locks).next_id(),
            slot == slot_idx,
            whole == (DrainModel {
                rearm: slot_numbers(slots@) + drained(clients@, locks@, slot).rearm,
                ..drained(clients@, locks@, slot)
            }),
            whole == drained(old(clients)@, old(locks)@, slot),
        decreases unread_at(clients@, slot),
    {
        let ghost before = drained(clients@, locks@, slot);
        proof {
            if unread_at(clients@, slot) > 0 {
                lemma_drain_step(clients@, locks@, slot);
            }
        }
        match take_line(slot_idx, clients, locks) {
            Intake::Idle => {
                assert(slot_numbers(slots@) + before.rearm =~= slot_numbers(slots@));
                return Served::Kept(slots);
            },
            Intake::Handled(rearm) => {
                let ghost sofar = slots@;
                let ghost now = drained(clients@, locks@, slot);
                match rearm {
                    Some(i) => {
                        slots.push(i);
                        assert(slot_numbers(slots@) =~= slot_numbers(sofar).push(i as int));
                        assert(slot_numbers(slots@) + now.rearm =~= slot_numbers(sofar) + (
                        seq![i as int] + now.rearm));
                    },
                    None => {},
                }
            },
            Intake::Dropped(framer, more) => {
                let ghost sofar = slots@;
                let mut more = more;
                let ghost added = more@;
                slots.append(&mut more);
                assert(slot_numbers(slots@) =~= slot_numbers(sofar) + slot_numbers(added));
                return Served::Gone(framer, slots);
            },
        }
    }
}

/// The connections once `data` has arrived from the client at `slot`.
pub open spec fn arrived<S>(cs: SlabModel<S>, slot: int, data: Seq<u8>) -> SlabModel<S> {
    cs.update(slot, Some((ClientModel { unread: cs[slot]->0.unread + data, ..cs[slot]->0 })))
}

/// What bytes from the client at `slot`, and how the read of them ended, come
/// to: at the end of the stream, or on a failure, the client leaves; else its
/// lines are dealt with.
pub open spec fn served<S>(
    cs: SlabModel<S>,
    t: TableModel,
    slot: int,
    data: Seq<u8>,
    end: ReadEnd,
) -> DrainModel<S> {
    if 0 <= slot < cs.len() && cs[slot] is Some {
        let cs1 = arrived(cs, slot, data);
        match end {
            ReadEnd::Failed(_) => expelled(cs1, t, slot),
            ReadEnd::Count(0) => expelled(cs1, t, slot),
            _ => drained(cs1, t, slot),
        }
    } else {
        DrainModel { clients: cs, locks: t, rearm: Seq::empty(), dropped: None }
    }
}

/// Takes in what was read from the client at `slot_idx` and deals with it.
pub fn serve_input<S>(
    slot_idx: usize,
    data: Vec<u8>,
    end: ReadEnd,
    clients: &mut ClientSlab<S>,
    locks: &mut LockStore,
) -> (r: Served<S>)
    requires
        old(locks).wf(),
        old(clients).wf(),
    ensures
        final(locks).wf(),
        final(clients).wf(),
        final(locks).next_id() == old(locks).next_id(),
        final(clients)@ == served(
            old(clients)@,
            old(locks)@,
            slot_idx as int,
            data@,
            end,
        ).clients,
        final(locks)@ == served(old(clients)@, old(locks)@, slot_idx as int, data@, end).locks,
        served_as(r, served(old(clients)@, old(locks)@, slot_idx as int, data@, end)),
{
    let ghost got = data@;
    let ghost cs = clients@;
    let taken = match clients.get_mut(slot_idx) {
        Some(c) => c.framer.absorb(data, end),
        None => {
            let slots: Vec<usize> = Vec::new();
            assert(slot_numbers(slots@) =~= Seq::<int>::empty());
            return Served::Kept(slots);
        },
    };
    assert(clients@ =~= arrived(cs, slot_idx as int, got));
    match taken {
        Ok(_) => drain_lines(slot_idx, clients, locks),
        Err(_) => match disconnect_client(slot_idx, clients, locks) {
            Some((framer, slots)) => Served::Gone(framer, slots),
            None => Served::Kept(Vec::new()),
        },
    }
}

/// Reads what is available from the client at `slot_idx` and deals with it.
pub fn serve_readable<S: Read>(
    slot_idx: usize,
    clients: &mut ClientSlab<S>,
    locks: &mut LockStore,
) -> (r: Served<S>)
    requires
        old(locks).wf(),
        old(clients).wf(),
    ensures
        final(locks).wf(),
        final(clients).wf(),
        final(locks).next_id() == old(locks).next_id(),
        if slot_idx < old(clients)@.len() && old(clients)@[slot_idx as int] is Some {
            exists|stream: S, data: Vec<u8>, end: ReadEnd|
                {
                    let m = #[trigger] served(
                        with_stream(old(clients)@, slot_idx as int, stream),
                        old(locks)@,
                        slot_idx as int,
                        data@,
                        end,
                    );
                    &&& may_read(old(clients)@[slot_idx as int]->0.stream, (data, end), stream)
                    &&& final(clients)@ == m.clients
                    &&& final(locks)@ == m.locks
                    &&& served_as(r, m)
                }
        } else {
            &&& final(clients)@ == old(clients)@
            &&& final(locks)@ == old(locks)@
            &&& r is Kept
            &&& r->Kept_0@.len() == 0
        },
{
    let ghost cs = clients@;
    let (data, end) = match clients.get_mut(slot_idx) {
        Some(c) => c.framer.pull(),
        None => {
            return Served::Kept(Vec::new());
        },
    };
    let ghost stream = clients@[slot_idx as int]->0.stream;
    assert(clients@ =~= with_stream(cs, slot_idx as int, stream));
    serve_input(slot_idx, data, end, clients, locks)
}

/// The connections with the stream at `slot` in another state.
pub open spec fn with_stream<S>(cs: SlabModel<S>, slot: int, stream: S) -> SlabModel<S> {
    cs.update(slot, Some((ClientModel { stream, ..cs[slot]->0 })))
}

/// What became of an attempt to flush a client's output.
#[derive(Clone, Copy, PartialEq, Eq, Structural, Debug)]
pub enum Flushed {
    /// Everything is sent.
    Drained,
    /// Bytes remain.
    Pending,
    /// The stream failed; the client is to be disconnected.
    Broken,
    /// There is no such client.
    Absent,
}

/// What a flush of a client's output comes to.
pub open spec fn flush_verdict(r: Result<bool, StreamError>) -> Flushed {
    match r {
        Ok(true) => Flushed::Drained,
        Ok(false) => Flushed::Pending,
        Err(_) => Flushed::Broken,
    }
}

/// Whether an attempt to flush that ended in `r`, in which the stream answered as
/// in `run`, turns a client `a` into `b`: what the answers took has been handed
/// over, in order, and the rest is still to be sent.
pub open spec fn flushed_with<S: Write>(
    a: ClientModel<S>,
    b: ClientModel<S>,
    r: Flushed,
    run: Seq<Offered<S>>,
    end: Result<bool, StreamError>,
) -> bool {
    &&& is_flush(a.pending, run, b.pending, end)
    &&& r == flush_verdict(end)
    &&& b == (ClientModel {
        stream: b.stream,
        pending: b.pending,
        handed: a.handed + a.pending.take(taken_by(run, run.len() as int) as int),
        wants_write: a.wants_write && r != Flushed::Drained,
        ..a
    })
    &&& is_chain(a.stream, run, b.stream)
}

/// Whether an attempt to flush that ended in `r` may turn a client `a` into `b`.
pub open spec fn flushed_into<S: Write>(a: ClientModel<S>, b: ClientModel<S>, r: Flushed) -> bool {
    exists|run: Seq<Offered<S>>, end: Result<bool, StreamError>| #[trigger]
        flushed_with(a, b, r, run, end)
}

/// A flush loses, repeats and reorders nothing, and ends well exactly when nothing
/// is left to be sent. Between the stream as it was and as it is left stand only
/// the offers of a run, each of the bytes that the answers before it left.
pub proof fn law_flush_keeps_bytes<S: Write>(a: ClientModel<S>, b: ClientModel<S>, r: Flushed)
    requires
        flushed_into(a, b, r),
    ensures
        exists|run: Seq<Offered<S>>|
            {
                &&& #[trigger] is_chain(a.stream, run, b.stream)
                &&& forall|i: int|
                    0 <= i < run.len() ==> #[trigger] may_say(run[i]) && is_next_offer(
                        a.pending,
                        run,
                        i,
                    )
                &&& b.handed == a.handed + a.pending.take(taken_by(run, run.len() as int) as int)
                &&& b.pending == a.pending.skip(taken_by(run, run.len() as int) as int)
            },
        a.handed + a.pending == b.handed + b.pending,
        a.handed.len() <= b.handed.len(),
        r is Drained <==> b.pending.len() == 0,
        !(r is Absent),
{
    let (run, end) = choose|run: Seq<Offered<S>>, end: Result<bool, StreamError>| #[trigger]
        flushed_with(a, b, r, run, end);
    assert(is_chain(a.stream, run, b.stream));
    assert(a.handed + a.pending =~= b.handed + b.pending);
}

/// Sends what the stream of the client at `slot_idx` will take.
pub fn flush_client<S: Write>(slot_idx: usize, clients: &mut ClientSlab<S>) -> (r: Flushed)
    requires
        old(clients).wf(),
    ensures
        final(clients).wf(),
        final(clients)@.len() == old(clients)@.len(),
        forall|i: int|
            0 <= i < old(clients)@.len() && i != slot_idx ==> (#[trigger] final(clients)@[i])
                == old(clients)@[i],
        if slot_idx < old(clients)@.len() && old(clients)@[slot_idx as int] is Some {
            &&& final(clients)@[slot_idx as int] is Some
            &&& flushed_into(
                old(clients)@[slot_idx as int]->0,
                final(clients)@[slot_idx as int]->0,
                r,
            )
        } else {
            &&& r is Absent
            &&& final(clients)@ == old(clients)@
        },
{
    match clients.get_mut(slot_idx) {
        Some(c) => {
            let ghost a = c@;
            let end = c.framer.flush_nonblocking();
            let ghost run = choose|run: Seq<Offered<S>>|
                {
                    &&& #[trigger] is_flush(a.pending, run, c.framer.pending(), end)
                    &&& c.framer.handed() == a.handed + a.pending.take(
                        taken_by(run, run.len() as int) as int,
                    )
                    &&& is_chain(a.stream, run, c.framer.stream())
                };
            let r: Flushed = match &end {
                Ok(done) => {
                    if *done {
                        c.wants_write = false;
                        Flushed::Drained
                    } else {
                        Flushed::Pending
                    }
                },
                Err(_) => Flushed::Broken,
            };
            assert(flushed_with(a, c@, r, run, end));
            r
        },
        None => Flushed::Absent,
    }
}

/// Whether the client at slot `i` has output to be flushed.
pub open spec fn wants_flush<S>(cs: SlabModel<S>, i: int) -> bool {
    0 <= i < cs.len() && cs[i] is Some && cs[i]->0.wants_write
}

/// The slots below `n` whose clients have output to be flushed, in order.
pub open spec fn flush_list<S>(cs: SlabModel<S>, n: int) -> Seq<int>
    decreases n,
{
    if n <= 0 {
        Seq::empty()
    } else if wants_flush(cs, n - 1) {
        flush_list(cs, n - 1).push(n - 1)
    } else {
        flush_list(cs, n - 1)
    }
}

/// Sends, for every client with output to be flushed, what its stream will take.
/// Returns these clients' slots, and what became of each attempt.
pub fn flush_all<S: Write>(clients: &mut ClientSlab<S>) -> (r: Vec<(usize, Flushed)>)
    requires
        old(clients).wf(),
    ensures
        final(clients).wf(),
        final(clients)@.len() == old(clients)@.len(),
        r@.map_values(|x: (usize, Flushed)| x.0 as int) == flush_list(
            old(clients)@,
            old(clients)@.len() as int,
        ),
        forall|i: int|
            0 <= i < old(clients)@.len() && !wants_flush(old(clients)@, i) ==> (
            #[trigger] final(clients)@[i]) == old(clients)@[i],
        forall|k: int|
            0 <= k < r@.len() ==> flush_outcome(
                old(clients)@,
                final(clients)@,
                #[trigger] r@[k],
            ),
{
    let ghost cs = clients@;
    let n: usize = clients.slot_count();
    let mut out: Vec<(usize, Flushed)> = Vec::new();
    let mut i: usize = 0;
    assert(out@.map_values(|x: (usize, Flushed)| x.0 as int) =~= Seq::<int>::empty());
    while i < n
        invariant
            i <= n,
            n == cs.len(),
            clients.wf(),
            clients@.len() == n,
            cs == old(clients)@,
            out@.map_values(|x: (usize, Flushed)| x.0 as int) == flush_list(cs, i as int),
            forall|k: int|
                0 <= k < n && (k >= i || !wants_flush(cs, k)) ==> (#[trigger] clients@[k])
                    == cs[k],
            forall|k: int|
                0 <= k < out@.len() ==> (#[trigger] out@[k]).0 < i && flush_outcome(
                    cs,
                    clients@,
                    out@[k],
                ),
        decreases n - i,
    {
        let wants: bool = match clients.get(i) {
            Some(c) => c.wants_write,
            None => false,
        };
        assert(clients@[i as int] == cs[i as int]);
        if wants {
            let ghost mid = clients@;
            let ghost sofar = out@;
            let done: Flushed = flush_client(i, clients);
            assert(forall|k: int| 0 <= k < n && k != i ==> (#[trigger] clients@[k]) == mid[k]);
            out.push((i, done));
            assert(out@.map_values(|x: (usize, Flushed)| x.0 as int) =~= sofar.map_values(
                |x: (usize, Flushed)| x.0 as int,
            ).push(i as int));
        }
        i += 1;
    }
    out
}

/// Whether `x` tells what became of the attempt to flush the client at its slot.
pub open spec fn flush_outcome<S: Write>(
    before: SlabModel<S>,
    after: SlabModel<S>,
    x: (usize, Flushed),
) -> bool {
    &&& wants_flush(before, x.0 as int)
    &&& x.0 < after.len()
    &&& after[x.0 as int] is Some
    &&& flushed_into(before[x.0 as int]->0, after[x.0 as int]->0, x.1)
}

// Tokens.

/// The token of the listening socket; the sockets of clients follow it.
pub const LISTENER_TOKEN: usize = 0;

/// The token of the socket of the client at `slot_idx`.
pub fn client_token(slot_idx: usize) -> (r: usize)
    requires
        slot_idx < usize::MAX,
    ensures
        r == slot_idx + 1,
        r != LISTENER_TOKEN,
{
    slot_idx + 1
}

/// The slot of the client whose socket has the token `t`.
pub fn token_to_client_idx(t: usize) -> (r: usize)
    requires
        t != LISTENER_TOKEN,
    ensures
        r + 1 == t,
{
    t - 1
}

// What each request does.

/// Whether `a` and `b` are the same but for what is held, waited for and to be sent.
pub open spec fn same_connection<S>(a: ClientModel<S>, b: ClientModel<S>) -> bool {
    a.id == b.id && a.stream == b.stream && a.unread == b.unread && a.handed == b.handed
}

/// Whether only slot `i` differs in `a` and `b`.
pub open spec fn only_slot<S>(a: SlabModel<S>, b: SlabModel<S>, i: int) -> bool {
    &&& a.len() == b.len()
    &&& forall|k: int| 0 <= k < a.len() && k != i ==> #[trigger] b[k] == a[k]
}

/// Whether only the lock `n` may differ in `a` and `b`, and is known in `b`.
pub open spec fn only_lock(a: TableModel, b: TableModel, n: Seq<char>) -> bool {
    &&& b.dom().contains(n)
    &&& forall|x: Seq<char>| x != n ==> (#[trigger] b.dom().contains(x) <==> a.dom().contains(x))
    &&& forall|x: Seq<char>| x != n && #[trigger] a.dom().contains(x) ==> b[x] == a[x]
}

/// `ACQUIRE n`: an error for a client that holds the lock or waits for it; `GRANTED` if
/// nobody holds it; else no answer, and the client waits at the end of the queue.
pub proof fn law_acquire_line<S>(cs: SlabModel<S>, t: TableModel, slot: int, n: Seq<char>)
    requires
        0 <= slot < cs.len(),
        cs[slot] is Some,
        valid_name(n),
    ensures
        ({
            let c = cs[slot]->0;
            let m = lock_at(t, n);
            let mine = m.holder == Some(c.id) || exists|i: int|
                0 <= i < m.waiters.len() && m.waiters[i] == c.id;
            let out = processed(cs, t, slot, "ACQUIRE "@ + n);
            let d = out.clients[slot]->0;
            let l = out.locks[n];
            &&& out.rearm is None
            &&& only_slot(cs, out.clients, slot)
            &&& out.clients[slot] is Some
            &&& same_connection(c, d)
            &&& only_lock(t, out.locks, n)
            &&& mine ==> {
                &&& d.pending == c.pending + (encode_utf8("ERR already held"@) + seq![10u8])
                &&& d.wants_write
                &&& d.held == c.held && d.waiting_for == c.waiting_for
                &&& l.holder == m.holder && l.waiters == m.waiters
            }
            &&& !mine && m.holder is None ==> {
                &&& d.pending == c.pending + (encode_utf8("GRANTED "@ + n) + seq![10u8])
                &&& d.wants_write
                &&& d.held == c.held.push(n) && d.waiting_for == c.waiting_for
                &&& l.holder == Some(c.id) && l.waiters == m.waiters
            }
            &&& !mine && m.holder is Some ==> {
                &&& d.pending == c.pending
                &&& d.wants_write == c.wants_write
                &&& d.held == c.held && d.waiting_for == Some(n)
                &&& l.holder == m.holder && l.waiters == m.waiters.push(c.id)
            }
        }),
{
    law_request_lines("ACQUIRE "@ + n, n);
    law_catalogue(n);
    law_acquire(lock_at(t, n), cs[slot]->0.id);
    let m = lock_at(t, n);
    let id = cs[slot]->0.id;
    if acquire_outcome(m, id) is Queued {
        assert(after_acquire(m, id).waiters =~= m.waiters.push(id));
    }
}

/// `TRY_ACQUIRE n`: `GRANTED` if nobody holds the lock, else `DENIED`. Nobody is queued.
pub proof fn law_try_acquire_line<S>(cs: SlabModel<S>, t: TableModel, slot: int, n: Seq<char>)
    requires
        0 <= slot < cs.len(),
        cs[slot] is Some,
        valid_name(n),
    ensures
        ({
            let c = cs[slot]->0;
            let m = lock_at(t, n);
            let out = processed(cs, t, slot, "TRY_ACQUIRE "@ + n);
            let d = out.clients[slot]->0;
            let l = out.locks[n];
            &&& out.rearm is None
            &&& only_slot(cs, out.clients, slot)
            &&& out.clients[slot] is Some
            &&& same_connection(c, d)
            &&& only_lock(t, out.locks, n)
            &&& d.wants_write
            &&& d.waiting_for == c.waiting_for
            &&& l.waiters == m.waiters
            &&& m.holder is Some ==> {
                &&& d.pending == c.pending + (encode_utf8("DENIED "@ + n) + seq![10u8])
                &&& d.held == c.held
                &&& l.holder == m.holder
            }
            &&& m.holder is None ==> {
                &&& d.pending == c.pending + (encode_utf8("GRANTED "@ + n) + seq![10u8])
                &&& d.held == c.held.push(n)
                &&& l.holder == Some(c.id)
            }
        }),
{
    law_request_lines("TRY_ACQUIRE "@ + n, n);
    law_try_acquire(lock_at(t, n), cs[slot]->0.id);
}

/// `STATUS n`: the holder, if there is one, and the number of waiters. Nothing changes,
/// but that the name is known from now on.
pub proof fn law_status_line<S>(cs: SlabModel<S>, t: TableModel, slot: int, n: Seq<char>)
    requires
        0 <= slot < cs.len(),
        cs[slot] is Some,
        valid_name(n),
    ensures
        ({
            let c = cs[slot]->0;
            let m = lock_at(t, n);
            let out = processed(cs, t, slot, "STATUS "@ + n);
            let d = out.clients[slot]->0;
            let l = out.locks[n];
            &&& out.rearm is None
            &&& only_slot(cs, out.clients, slot)
            &&& out.clients[slot] is Some
            &&& same_connection(c, d)
            &&& only_lock(t, out.locks, n)
            &&& d.wants_write
            &&& d.held == c.held && d.waiting_for == c.waiting_for
            &&& l.holder == m.holder && l.waiters == m.waiters
            &&& m.waiters.len() <= usize::MAX ==> match m.holder {
                None => d.pending == c.pending + (encode_utf8(
                    "STATUS "@ + n + " FREE "@ + digits(m.waiters.len()),
                ) + seq![10u8]),
                Some(h) => d.pending == c.pending + (encode_utf8(
                    "STATUS "@ + n + " HELD "@ + digits(h as nat) + " "@ + digits(m.waiters.len()),
                ) + seq![10u8]),
            }
        }),
{
    law_request_lines("STATUS "@ + n, n);
}

/// `RELEASE n` by a client that does not hold the lock is an error and changes nothing.
/// By the holder it is answered `OK`; the lock is free if nobody waits, and else goes to
/// the first waiter, here connected at slot `j`, who is told `GRANTED`.
pub proof fn law_release_line<S>(cs: SlabModel<S>, t: TableModel, slot: int, n: Seq<char>, j: int)
    requires
        0 <= slot < cs.len(),
        cs[slot] is Some,
        valid_name(n),
    ensures
        ({
            let c = cs[slot]->0;
            let m = lock_at(t, n);
            let out = processed(cs, t, slot, "RELEASE "@ + n);
            let d = out.clients[slot]->0;
            let l = out.locks[n];
            &&& m.holder != Some(c.id) ==> {
                &&& out.rearm is None
                &&& only_slot(cs, out.clients, slot)
                &&& out.clients[slot] is Some
                &&& same_connection(c, d)
                &&& only_lock(t, out.locks, n)
                &&& d.pending == c.pending + (encode_utf8("ERR not held"@) + seq![10u8])
                &&& d.wants_write
                &&& d.held == c.held && d.waiting_for == c.waiting_for
                &&& l.holder == m.holder && l.waiters == m.waiters
            }
            &&& m.holder == Some(c.id) && m.waiters.len() == 0 ==> {
                &&& out.rearm is None
                &&& only_slot(cs, out.clients, slot)
                &&& out.clients[slot] is Some
                &&& same_connection(c, d)
                &&& only_lock(t, out.locks, n)
                &&& d.pending == c.pending + (encode_utf8("OK"@) + seq![10u8])
                &&& d.wants_write
                &&& d.held == without_name(c.held, n) && d.waiting_for == c.waiting_for
                &&& l.holder is None && l.waiters.len() == 0
            }
            &&& m.holder == Some(c.id) && m.waiters.len() > 0 && 0 <= j < cs.len() && j != slot
                && cs[j] is Some && cs[j]->0.id == m.waiters[0] && m.waiters[0] != c.id && (forall|
                i: int,
            |
                0 <= i < j && (#[trigger] cs[i]) is Some ==> cs[i]->0.id != m.waiters[0]) ==> {
                let w = cs[j]->0;
                let x = out.clients[j]->0;
                &&& out.rearm == Some(j)
                &&& out.clients.len() == cs.len()
                &&& forall|i: int|
                    0 <= i < cs.len() && i != slot && i != j ==> #[trigger] out.clients[i] == cs[i]
                &&& out.clients[slot] is Some && out.clients[j] is Some
                &&& same_connection(c, d) && same_connection(w, x)
                &&& only_lock(t, out.locks, n)
                &&& d.pending == c.pending + (encode_utf8("OK"@) + seq![10u8])
                &&& d.wants_write
                &&& d.held == without_name(c.held, n) && d.waiting_for == c.waiting_for
                &&& x.pending == w.pending + (encode_utf8("GRANTED "@ + n) + seq![10u8])
                &&& x.wants_write
                &&& x.held == w.held.push(n) && x.waiting_for is None
                &&& l.holder == Some(m.waiters[0]) && l.waiters == m.waiters.skip(1)
            }
        }),
{
    law_request_lines("RELEASE "@ + n, n);
    law_catalogue(n);
    let m = lock_at(t, n);
    let c = cs[slot]->0;
    let cs2 = cs.update(slot, Some(c.released(n)));
    if m.holder == Some(c.id) && m.waiters.len() > 0 && 0 <= j < cs.len() && j != slot
        && cs[j] is Some && cs[j]->0.id == m.waiters[0] && m.waiters[0] != c.id && (forall|i: int|
        0 <= i < j && (#[trigger] cs[i]) is Some ==> cs[i]->0.id != m.waiters[0]) {
        assert forall|i: int| 0 <= i < j implies !is_slot_of(cs2, i, m.waiters[0]) by {
            if i != slot {
                assert(cs2[i] == cs[i]);
            }
        }
        lemma_slot_is(cs2, m.waiters[0], j);
    }
}

/// A lock that is given up is not handed to a waiter who is gone: the next one counts.
pub proof fn law_gone_waiters_are_skipped<S>(cs: SlabModel<S>, queue: Seq<ClientId>)
    requires
        queue.len() > 0,
    ensures
        (forall|i: int| 0 <= i < cs.len() && (#[trigger] cs[i]) is Some ==> cs[i]->0.id != queue[0])
            ==> handed_over(cs, queue) == handed_over(cs, queue.skip(1)),
        (exists|i: int| 0 <= i < cs.len() && (#[trigger] cs[i]) is Some && cs[i]->0.id == queue[0])
            ==> handed_over(cs, queue).holder == Some(queue[0]) && handed_over(cs, queue).waiters
            == queue.skip(1),
        handed_over(cs, Seq::empty()).holder is None,
        handed_over(cs, Seq::empty()).waiters.len() == 0,
{
    lemma_slot_of(cs, queue[0]);
    if exists|i: int| 0 <= i < cs.len() && (#[trigger] cs[i]) is Some && cs[i]->0.id == queue[0] {
        let i = choose|i: int|
            0 <= i < cs.len() && (#[trigger] cs[i]) is Some && cs[i]->0.id == queue[0];
        assert(is_slot_of(cs, i, queue[0]));
    }
}

/// A name that is taken off a list is gone from it; the other names stay in order.
pub proof fn law_name_taken_off(held: Seq<Seq<char>>, n: Seq<char>, x: Seq<char>)
    ensures
        without_name(Seq::empty(), n) == Seq::<Seq<char>>::empty(),
        without_name(held.push(n), n) == without_name(held, n),
        x != n ==> without_name(held.push(x), n) == without_name(held, n).push(x),
{
    reveal(Seq::filter);
    assert(held.push(n).drop_last() =~= held);
    assert(held.push(x).drop_last() =~= held);
}

/// `LIST`: a line `LIST`, one line per known name, and a line `END`. Nothing else changes.
pub proof fn law_list_line<S>(cs: SlabModel<S>, t: TableModel, slot: int)
    requires
        0 <= slot < cs.len(),
        cs[slot] is Some,
    ensures
        ({
            let c = cs[slot]->0;
            let names = known_names_of(t);
            let out = processed(cs, t, slot, "LIST"@);
            let d = out.clients[slot]->0;
            &&& out.rearm is None
            &&& out.locks == t
            &&& only_slot(cs, out.clients, slot)
            &&& out.clients[slot] is Some
            &&& same_connection(c, d)
            &&& d.wants_write
            &&& d.held == c.held && d.waiting_for == c.waiting_for
            &&& d.pending == c.pending + (encode_utf8("LIST"@) + seq![10u8]) + name_lines(names) + (
            encode_utf8("END"@) + seq![10u8])
        }),
{
    law_request_lines("LIST"@, "LIST"@);
    let c = cs[slot]->0;
    let names = known_names_of(t);
    lemma_list_told(cs, slot, names);
    let ms = list_reply(names);
    let f = |n: Seq<char>| ResponseModel::ListEntry(n);
    assert(ms.drop_last() =~= seq![ResponseModel::ListBegin] + names.map_values(f));
    assert(ms.last() == ResponseModel::ListEnd);
}

/// The lines that carry `names`, one each.
pub open spec fn name_lines(names: Seq<Seq<char>>) -> Seq<u8>
    decreases names.len(),
{
    if names.len() == 0 {
        Seq::empty()
    } else {
        name_lines(names.drop_last()) + (encode_utf8(names.last()) + seq![10u8])
    }
}

proof fn lemma_list_told<S>(cs: SlabModel<S>, slot: int, names: Seq<Seq<char>>)
    requires
        0 <= slot < cs.len(),
        cs[slot] is Some,
    ensures
        ({
            let c = cs[slot]->0;
            let f = |n: Seq<char>| ResponseModel::ListEntry(n);
            let after = told_all(cs, slot, seq![ResponseModel::ListBegin] + names.map_values(f));
            let d = after[slot]->0;
            &&& only_slot(cs, after, slot)
            &&& after[slot] is Some
            &&& same_connection(c, d)
            &&& d.wants_write
            &&& d.held == c.held && d.waiting_for == c.waiting_for
            &&& d.pending == c.pending + (encode_utf8("LIST"@) + seq![10u8]) + name_lines(names)
        }),
    decreases names.len(),
{
    let c = cs[slot]->0;
    let f = |n: Seq<char>| ResponseModel::ListEntry(n);
    let ms = seq![ResponseModel::ListBegin] + names.map_values(f);
    if names.len() == 0 {
        assert(ms =~= seq![ResponseModel::ListBegin]);
        assert(ms.drop_last() =~= Seq::<ResponseModel>::empty());
        assert(told_all(cs, slot, ms.drop_last()) == cs);
        assert(told_all(cs, slot, ms) == told(cs, slot, ResponseModel::ListBegin));
        assert(c.pending + (encode_utf8("LIST"@) + seq![10u8]) + name_lines(names) =~= c.pending + (
        encode_utf8("LIST"@) + seq![10u8]));
    } else {
        let front = names.drop_last();
        lemma_list_told(cs, slot, front);
        assert(ms.drop_last() =~= seq![ResponseModel::ListBegin] + front.map_values(f));
        assert(ms.last() == ResponseModel::ListEntry(names.last()));
        let before = told_all(cs, slot, ms.drop_last());
        assert(told_all(cs, slot, ms) == told(before, slot, ms.last()));
        let head = c.pending + (encode_utf8("LIST"@) + seq![10u8]);
        let last = encode_utf8(names.last()) + seq![10u8];
        assert(head + name_lines(front) + last =~= head + (name_lines(front) + last));
    }
}

/// A line that is no request is answered with its refusal and changes nothing else.
pub proof fn law_refused_line<S>(cs: SlabModel<S>, t: TableModel, slot: int, line: Seq<char>)
    requires
        0 <= slot < cs.len(),
        cs[slot] is Some,
        request_of(line) is None,
    ensures
        ({
            let c = cs[slot]->0;
            let out = processed(cs, t, slot, line);
            let d = out.clients[slot]->0;
            &&& out.rearm is None
            &&& out.locks == t
            &&& only_slot(cs, out.clients, slot)
            &&& out.clients[slot] is Some
            &&& same_connection(c, d)
            &&& d.wants_write
            &&& d.held == c.held && d.waiting_for == c.waiting_for
            &&& d.pending == c.pending + (encode_utf8(response_text(refusal(line))) + seq![10u8])
        }),
{
}

/// A new client sits in the first slot that is empty, or in a new one behind all others;
/// nobody else moves.
pub proof fn law_seating<S>(cs: SlabModel<S>, c: ClientModel<S>)
    ensures
        ({
            let p = free_slot(cs);
            let after = seated(cs, c);
            &&& 0 <= p <= cs.len()
            &&& after[p] == Some(c)
            &&& forall|i: int| 0 <= i < p ==> (#[trigger] cs[i]) is Some
            &&& p < cs.len() ==> cs[p] is None && after.len() == cs.len()
            &&& p == cs.len() ==> after.len() == cs.len() + 1
            &&& forall|i: int| 0 <= i < cs.len() && i != p ==> #[trigger] after[i] == cs[i]
        }),
    decreases cs.len(),
{
    lemma_free_slot(cs);
    if cs.len() > 0 && cs[0] is Some {
        let rest = cs.drop_first();
        law_seating(rest, c);
        assert forall|i: int| 0 <= i < free_slot(cs) implies (#[trigger] cs[i]) is Some by {
            if i > 0 {
                assert(rest[i - 1] == cs[i]);
            }
        }
    }
}

/// A client that leaves frees its slot, waits for nothing any more, and if it held no
/// lock, nothing else changes.
pub proof fn law_departure<S>(cs: SlabModel<S>, t: TableModel, slot: int)
    ensures
        0 <= slot < cs.len() && cs[slot] is Some && cs[slot]->0.held.len() == 0 ==> {
            let (after, locks, slots) = departed(cs, t, slot);
            &&& after[slot] is None
            &&& only_slot(cs, after, slot)
            &&& locks == queues_without(t, cs[slot]->0.id)
            &&& slots.len() == 0
        },
        !(0 <= slot < cs.len() && cs[slot] is Some) ==> {
            let (after, locks, slots) = departed(cs, t, slot);
            after == cs && locks == t && slots.len() == 0
        },
{
}

/// What a client that leaves gives up: each lock on its list in turn passes on.
pub proof fn law_locks_given_up_in_turn<S>(
    cs: SlabModel<S>,
    t: TableModel,
    id: ClientId,
    held: Seq<Seq<char>>,
    n: int,
)
    requires
        0 <= n < held.len(),
    ensures
        ({
            let (cs1, t1, slots) = gave_up(cs, t, id, held, n);
            let (cs2, t2, more) = gave_up(cs, t, id, held, n + 1);
            let name = held[n];
            let free = if t1.dom().contains(name) && t1[name].holder == Some(id) {
                t1.insert(name, LockModel { holder: None, waiters: t1[name].waiters })
            } else {
                t1
            };
            let m = passed_on(cs1, free, name);
            &&& cs2 == m.clients
            &&& t2 == m.locks
            &&& m.rearm is None ==> more == slots
            &&& m.rearm is Some ==> more == slots.push(m.rearm->0)
        }),
{
}

/// What the next line of a client does. An unfinished line does nothing. A line of
/// carriage returns does nothing but be taken. Any other is dealt with as a request,
/// and the lines behind it after it. An overlong line is answered `ERR line too long`,
/// and the client leaves; one that is not UTF-8 makes it leave unanswered.
pub proof fn law_drained<S>(cs: SlabModel<S>, t: TableModel, slot: int)
    requires
        0 <= slot < cs.len(),
        cs[slot] is Some,
    ensures
        ({
            let c = cs[slot]->0;
            let took = ClientModel { unread: after_line(c.unread), ..c };
            let cs1 = cs.update(slot, Some(took));
            let out = drained(cs, t, slot);
            match line_of(c.unread) {
                LineModel::Incomplete => {
                    &&& out.clients == cs
                    &&& out.locks == t
                    &&& out.rearm.len() == 0
                    &&& out.dropped is None
                },
                LineModel::Line(s) => {
                    &&& trim_cr(s).len() == 0 ==> out == drained(cs1, t, slot)
                    &&& trim_cr(s).len() > 0 ==> {
                        let m = processed(cs1, t, slot, trim_cr(s));
                        let next = drained(m.clients, m.locks, slot);
                        &&& out.clients == next.clients
                        &&& out.locks == next.locks
                        &&& out.dropped == next.dropped
                        &&& m.rearm is None ==> out.rearm == next.rearm
                        &&& m.rearm is Some ==> out.rearm == seq![m.rearm->0] + next.rearm
                    }
                },
                LineModel::TooLong => {
                    let told = ClientModel {
                        pending: took.pending + (encode_utf8("ERR line too long"@) + seq![10u8]),
                        wants_write: true,
                        ..took
                    };
                    let left = departed(cs.update(slot, Some(told)), t, slot);
                    &&& out.dropped == Some(told)
                    &&& out.clients == left.0
                    &&& out.locks == left.1
                    &&& out.rearm == left.2
                },
                LineModel::InvalidUtf8 => {
                    let left = departed(cs1, t, slot);
                    &&& out.dropped == Some(took)
                    &&& out.clients == left.0
                    &&& out.locks == left.1
                    &&& out.rearm == left.2
                },
            }
        }),
{
    lemma_drain_step(cs, t, slot);
    law_catalogue(Seq::empty());
    let c = cs[slot]->0;
    let took = ClientModel { unread: after_line(c.unread), ..c };
    let cs1 = cs.update(slot, Some(took));
    assert(line_taken(cs, slot) == cs1);
    if line_of(c.unread) is TooLong {
        let m = catalogued(ERR_LINE_TOO_LONG@);
        assert(told(cs1, slot, m) =~= cs.update(slot, Some(took.told(m))));
    }
}

/// What arrives from a client is put behind what is unread. At the end of the stream, and
/// when the stream fails, the client leaves; else its lines are dealt with.
pub proof fn law_served<S>(
    cs: SlabModel<S>,
    t: TableModel,
    slot: int,
    data: Seq<u8>,
    n: usize,
    e: std::io::Error,
)
    requires
        0 <= slot < cs.len(),
        cs[slot] is Some,
    ensures
        ({
            let c = ClientModel { unread: cs[slot]->0.unread + data, ..cs[slot]->0 };
            let cs1 = cs.update(slot, Some(c));
            let left = departed(cs1, t, slot);
            let gone = DrainModel {
                clients: left.0,
                locks: left.1,
                rearm: left.2,
                dropped: Some(c),
            };
            &&& served(cs, t, slot, data, ReadEnd::Count(0)) == gone
            &&& served(cs, t, slot, data, ReadEnd::Failed(e)) == gone
            &&& served(cs, t, slot, data, ReadEnd::WouldBlock) == drained(cs1, t, slot)
            &&& n > 0 ==> served(cs, t, slot, data, ReadEnd::Count(n)) == drained(cs1, t, slot)
        }),
{
}

/// Promoting the next waiter of a lock that nobody knows does nothing; of a known one it
/// hands the lock over and tells the new holder, if there is one.
pub proof fn law_passed_on<S>(cs: SlabModel<S>, t: TableModel, n: Seq<char>)
    ensures
        ({
            let out = passed_on(cs, t, n);
            let m = handed_over(cs, t[n].waiters);
            &&& !t.dom().contains(n) ==> out.clients == cs && out.locks == t && out.rearm is None
            &&& t.dom().contains(n) ==> only_lock(t, out.locks, n) && out.locks[n] == m
            &&& t.dom().contains(n) && m.holder is None ==> out.clients == cs && out.rearm is None
            &&& t.dom().contains(n) && m.holder is Some ==> {
                let i = out.rearm->0;
                let w = cs[i]->0;
                let x = out.clients[i]->0;
                &&& out.rearm is Some
                &&& 0 <= i < cs.len() && cs[i] is Some && w.id == m.holder->0
                &&& only_slot(cs, out.clients, i)
                &&& out.clients[i] is Some
                &&& same_connection(w, x)
                &&& x.pending == w.pending + (encode_utf8("GRANTED "@ + n) + seq![10u8])
                &&& x.wants_write
                &&& x.held == w.held.push(n) && x.waiting_for is None
            }
        }),
{
    lemma_handed_over(cs, t[n].waiters);
    match handed_over(cs, t[n].waiters).holder {
        Some(id) => {
            lemma_slot_of(cs, id);
        },
        None => {},
    }
}

/// A flush changes what is to be sent, what has been sent, and, once everything is sent,
/// that the client has output to be sent; nothing else.
pub proof fn law_flush_keeps_client<S: Write>(a: ClientModel<S>, b: ClientModel<S>, r: Flushed)
    requires
        flushed_into(a, b, r),
    ensures
        b.id == a.id,
        b.unread == a.unread,
        b.held == a.held,
        b.waiting_for == a.waiting_for,
        b.wants_write <==> a.wants_write && !(r is Drained),
{
}

/// The clients that are flushed are those with output to be sent, each once, in the order
/// of their slots.
pub proof fn law_flush_list<S>(cs: SlabModel<S>, n: int, i: int, x: int, y: int)
    requires
        0 <= n <= cs.len(),
    ensures
        flush_list(cs, n).contains(i) <==> 0 <= i < n && cs[i] is Some && cs[i]->0.wants_write,
        0 <= x < y < flush_list(cs, n).len() ==> flush_list(cs, n)[x] < flush_list(cs, n)[y],
        0 <= x < flush_list(cs, n).len() ==> flush_list(cs, n)[x] < n,
    decreases n,
{
    if n > 0 {
        let l = flush_list(cs, n);
        let m = flush_list(cs, n - 1);
        law_flush_list(cs, n - 1, i, x, y);
        law_flush_list(cs, n - 1, i, x, x);
        if m.contains(i) {
            let k = choose|k: int| 0 <= k < m.len() && m[k] == i;
            assert(l[k] == i);
        }
        if wants_flush(cs, n - 1) {
            assert(l[m.len() as int] == n - 1);
        }
        if l.contains(i) && i != n - 1 {
            let k = choose|k: int| 0 <= k < l.len() && l[k] == i;
            assert(m[k] == i);
        }
    }
}

/// Where a client is found: in the first slot that has its id, and nowhere if none has.
pub proof fn law_found<S>(cs: SlabModel<S>, id: ClientId)
    ensures
        ({
            let p = slot_of(cs, id);
            &&& 0 <= p <= cs.len()
            &&& p < cs.len() ==> cs[p] is Some && cs[p]->0.id == id
            &&& forall|i: int| 0 <= i < p && (#[trigger] cs[i]) is Some ==> cs[i]->0.id != id
        }),
    decreases cs.len(),
{
    lemma_slot_of(cs, id);
    if cs.len() > 0 && !(cs[0] is Some && cs[0]->0.id == id) {
        let rest = cs.drop_first();
        law_found(rest, id);
        assert forall|i: int|
            0 <= i < slot_of(cs, id) && (#[trigger] cs[i]) is Some implies cs[i]->0.id != id by {
            if i > 0 {
                assert(rest[i - 1] == cs[i]);
            }
        }
    }
}

/// What a flush that ends well, early or with an error comes to.
pub proof fn law_flush_verdicts(e: StreamError)
    ensures
        flush_verdict(Ok(true)) == Flushed::Drained,
        flush_verdict(Ok(false)) == Flushed::Pending,
        flush_verdict(Err(e)) == Flushed::Broken,
{
}

} // verus!
