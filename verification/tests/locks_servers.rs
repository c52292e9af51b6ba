use coordkit::locks::event::accept_client;
use coordkit::locks::event::client_token;
use coordkit::locks::event::flush_all;
use coordkit::locks::event::flush_client;
use coordkit::locks::event::serve_readable;
use coordkit::locks::event::take_line;
use coordkit::locks::event::token_to_client_idx;
use coordkit::locks::event::ClientSlab;
use coordkit::locks::event::Flushed;
use coordkit::locks::event::Intake;
use coordkit::locks::event::Served;
use coordkit::locks::event::LISTENER_TOKEN;
use coordkit::locks::protocol::ClientId;
use coordkit::locks::protocol::MAX_LINE;
use coordkit::locks::table::Acquired;
use coordkit::locks::table::LockEntry;
use coordkit::locks::table::LockStore;
use coordkit::locks::worker::disconnect;
use coordkit::locks::worker::handle_line;
use coordkit::locks::worker::resume;
use coordkit::locks::worker::WakeState;
use std::io::ErrorKind;
use std::io::Read;
use std::io::Write;

// The event server.

/// A socket in memory: what the peer has sent, and what has been sent to it.
struct Wire {
    incoming: Vec<u8>,
    closed: bool,
    outgoing: Vec<u8>,
}

impl Read for Wire {
    fn read(&mut self, buf: &mut [u8]) -> std::io::Result<usize> {
        if self.incoming.is_empty() {
            return if self.closed { Ok(0) } else { Err(ErrorKind::WouldBlock.into()) };
        }
        let n = buf.len().min(self.incoming.len());
        buf[..n].copy_from_slice(&self.incoming[..n]);
        self.incoming.drain(..n);
        Ok(n)
    }
}

impl Write for Wire {
    fn write(&mut self, data: &[u8]) -> std::io::Result<usize> {
        self.outgoing.extend_from_slice(data);
        Ok(data.len())
    }

    fn flush(&mut self) -> std::io::Result<()> {
        Ok(())
    }
}

struct Server {
    clients: ClientSlab<Wire>,
    locks: LockStore,
}

impl Server {
    fn new() -> Server {
        Server { clients: ClientSlab::new(), locks: LockStore::new() }
    }

    fn connect(&mut self) -> usize {
        let wire = Wire { incoming: Vec::new(), closed: false, outgoing: Vec::new() };
        accept_client(wire, &mut self.clients, &mut self.locks)
    }

    fn wire(&mut self, slot: usize) -> &mut Wire {
        self.clients.get_mut(slot).unwrap().framer_mut().as_mut()
    }

    /// Lets the client at `slot` send `text`. Returns the other clients for whom
    /// there is output.
    fn send(&mut self, slot: usize, text: &str) -> Vec<usize> {
        self.wire(slot).incoming.extend_from_slice(text.as_bytes());
        match serve_readable(slot, &mut self.clients, &mut self.locks) {
            Served::Kept(rearm) => rearm,
            Served::Gone(_, _) => panic!("the client is gone"),
        }
    }

    /// What has been sent to the client at `slot` since the last call.
    fn received(&mut self, slot: usize) -> String {
        flush_client(slot, &mut self.clients);
        let out = std::mem::take(&mut self.wire(slot).outgoing);
        String::from_utf8(out).unwrap()
    }

    fn hang_up(&mut self, slot: usize) -> Vec<usize> {
        self.wire(slot).closed = true;
        match serve_readable(slot, &mut self.clients, &mut self.locks) {
            Served::Gone(_, rearm) => rearm,
            Served::Kept(_) => panic!("the client is still there"),
        }
    }
}

#[test]
fn event_protocol_smoke() {
    let mut s = Server::new();
    let c = s.connect();
    s.send(c, "ACQUIRE foo\n");
    assert_eq!(s.received(c), "GRANTED foo\n");
    s.send(c, "STATUS foo\n");
    assert_eq!(s.received(c), "STATUS foo HELD 1 0\n");
    s.send(c, "LIST\n");
    assert_eq!(s.received(c), "LIST\nfoo\nEND\n");
    s.send(c, "RELEASE foo\n");
    assert_eq!(s.received(c), "OK\n");
    s.send(c, "STATUS foo\n");
    assert_eq!(s.received(c), "STATUS foo FREE 0\n");
    s.send(c, "LIST\n");
    assert_eq!(s.received(c), "LIST\nfoo\nEND\n");
}

#[test]
fn event_try_acquire_contention() {
    let mut s = Server::new();
    let a = s.connect();
    let b = s.connect();
    s.send(a, "ACQUIRE x\n");
    assert_eq!(s.received(a), "GRANTED x\n");
    s.send(b, "TRY_ACQUIRE x\n");
    assert_eq!(s.received(b), "DENIED x\n");
    s.send(b, "ACQUIRE x\n");
    assert_eq!(s.received(b), "");
    assert_eq!(s.send(a, "RELEASE x\n"), vec![b]);
    assert_eq!(s.received(a), "OK\n");
    assert_eq!(s.received(b), "GRANTED x\n");
}

#[test]
fn event_fifo_two_waiters() {
    let mut s = Server::new();
    let a = s.connect();
    let b = s.connect();
    let c = s.connect();
    let obs = s.connect();
    s.send(a, "ACQUIRE x\n");
    s.send(b, "ACQUIRE x\n");
    s.send(c, "ACQUIRE x\n");
    s.send(obs, "STATUS x\n");
    assert_eq!(s.received(obs), "STATUS x HELD 1 2\n");
    assert_eq!(s.send(a, "RELEASE x\n"), vec![b]);
    assert_eq!(s.received(b), "GRANTED x\n");
    assert_eq!(s.received(c), "");
    assert_eq!(s.send(b, "RELEASE x\n"), vec![c]);
    assert_eq!(s.received(b), "OK\n");
    assert_eq!(s.received(c), "GRANTED x\n");
}

#[test]
fn event_disconnect_releases_held() {
    let mut s = Server::new();
    let a = s.connect();
    let b = s.connect();
    s.send(a, "ACQUIRE x\nACQUIRE y\n");
    assert_eq!(s.received(a), "GRANTED x\nGRANTED y\n");
    s.send(b, "ACQUIRE y\n");
    assert_eq!(s.hang_up(a), vec![b]);
    assert_eq!(s.received(b), "GRANTED y\n");
    s.send(b, "STATUS x\nACQUIRE x\n");
    assert_eq!(s.received(b), "STATUS x FREE 0\nGRANTED x\n");
    // The slot is used again, under a new id.
    let c = s.connect();
    assert_eq!(c, a);
    s.send(c, "TRY_ACQUIRE z\nSTATUS z\n");
    assert_eq!(s.received(c), "GRANTED z\nSTATUS z HELD 3 0\n");
}

#[test]
fn event_disconnect_removes_waiter() {
    let mut s = Server::new();
    let a = s.connect();
    let b = s.connect();
    let c = s.connect();
    s.send(a, "ACQUIRE x\n");
    s.send(b, "ACQUIRE x\n");
    assert!(s.hang_up(b).is_empty());
    s.send(c, "ACQUIRE x\n");
    assert_eq!(s.send(a, "RELEASE x\n"), vec![c]);
    assert_eq!(s.received(c), "GRANTED x\n");
}

#[test]
fn event_refusals() {
    let mut s = Server::new();
    let c = s.connect();
    s.send(c, "RELEASE foo\n");
    assert_eq!(s.received(c), "ERR not held\n");
    s.send(c, "ACQUIRE foo\nACQUIRE foo\n");
    assert_eq!(s.received(c), "GRANTED foo\nERR already held\n");
    s.send(c, "ACQUIRE ../etc/passwd\nACQUIRE \n");
    assert_eq!(s.received(c), "ERR invalid lock name\nERR invalid lock name\n");
    s.send(c, "FROB\n\r\n\n");
    assert_eq!(s.received(c), "ERR unknown command FROB\n");
    let d = s.connect();
    s.send(d, "ACQUIRE foo\nACQUIRE foo\n");
    assert_eq!(s.received(d), "ERR already held\n");
    s.send(d, "STATUS foo\n");
    assert_eq!(s.received(d), "STATUS foo HELD 1 1\n");
}

#[test]
fn event_fragments_are_put_together() {
    let mut s = Server::new();
    let c = s.connect();
    s.send(c, "ACQ");
    s.send(c, "UIRE foo\r");
    assert_eq!(s.received(c), "");
    s.send(c, "\nSTATUS ");
    assert_eq!(s.received(c), "GRANTED foo\n");
    s.send(c, "foo\n");
    assert_eq!(s.received(c), "STATUS foo HELD 1 0\n");
}

#[test]
fn event_overlong_line_is_answered_and_ends_the_connection() {
    let mut s = Server::new();
    let a = s.connect();
    let b = s.connect();
    s.send(a, "ACQUIRE x\n");
    assert_eq!(s.received(a), "GRANTED x\n");
    s.send(b, "ACQUIRE x\n");
    s.wire(a).incoming = vec![b'A'; MAX_LINE];
    match serve_readable(a, &mut s.clients, &mut s.locks) {
        Served::Gone(mut framer, rearm) => {
            assert_eq!(rearm, vec![b]);
            assert!(framer.flush_nonblocking().unwrap());
            assert_eq!(framer.as_ref().outgoing, b"ERR line too long\n");
        }
        Served::Kept(_) => panic!("the client is still there"),
    }
    assert_eq!(s.received(b), "GRANTED x\n");
    assert!(s.clients.get(a).is_none());
}

#[test]
fn event_invalid_utf8_ends_the_connection_without_an_answer() {
    let mut s = Server::new();
    let a = s.connect();
    s.wire(a).incoming = b"\xff\n".to_vec();
    match serve_readable(a, &mut s.clients, &mut s.locks) {
        Served::Gone(framer, rearm) => {
            assert!(rearm.is_empty());
            assert!(framer.write_buffer_empty());
        }
        Served::Kept(_) => panic!("the client is still there"),
    }
}

#[test]
fn event_absent_clients_are_ignored() {
    let mut s = Server::new();
    assert!(matches!(take_line(4, &mut s.clients, &mut s.locks), Intake::Idle));
    assert!(matches!(
        serve_readable(4, &mut s.clients, &mut s.locks),
        Served::Kept(rearm) if rearm.is_empty()
    ));
    assert_eq!(flush_client(4, &mut s.clients), Flushed::Absent);
}

#[test]
fn event_list_names_free_locks_too() {
    let mut s = Server::new();
    let c = s.connect();
    s.send(c, "ACQUIRE foo\nRELEASE foo\nLIST\n");
    assert_eq!(s.received(c), "GRANTED foo\nOK\nLIST\nfoo\nEND\n");
    s.send(c, "STATUS bar\nLIST\n");
    assert_eq!(s.received(c), "STATUS bar FREE 0\nLIST\nbar\nfoo\nEND\n");
}

#[test]
fn event_flush_all_reaches_everyone_with_output() {
    let mut s = Server::new();
    let a = s.connect();
    let b = s.connect();
    let c = s.connect();
    s.send(a, "LIST\n");
    s.send(c, "LIST\n");
    assert!(s.clients.get(a).unwrap().wants_write());
    assert_eq!(
        flush_all(&mut s.clients),
        vec![(a, Flushed::Drained), (c, Flushed::Drained)]
    );
    assert!(!s.clients.get(a).unwrap().wants_write());
    assert_eq!(s.wire(a).outgoing, b"LIST\nEND\n");
    assert!(s.wire(b).outgoing.is_empty());
    assert!(flush_all(&mut s.clients).is_empty());
}

#[test]
fn tokens_follow_the_listener() {
    assert_eq!(LISTENER_TOKEN, 0);
    assert_eq!(client_token(0), 1);
    assert_eq!(token_to_client_idx(client_token(41)), 41);
}

// The threaded server.

struct Worker {
    id: ClientId,
    held: Vec<String>,
}

impl Worker {
    fn new(store: &mut LockStore) -> Worker {
        Worker { id: store.alloc_id(), held: Vec::new() }
    }

    /// The replies to `line`, the lock that is waited for and who is woken.
    fn says(
        &mut self,
        store: &mut LockStore,
        line: &str,
    ) -> (Vec<String>, Option<String>, Option<ClientId>) {
        let out = handle_line(store, &mut self.held, self.id, line);
        (out.replies.iter().map(|r| r.to_string()).collect(), out.parked, out.woken)
    }
}

fn replied(text: &str) -> (Vec<String>, Option<String>, Option<ClientId>) {
    (vec![text.to_string()], None, None)
}

#[test]
fn worker_protocol_smoke() {
    let mut store = LockStore::new();
    let mut c = Worker::new(&mut store);
    assert_eq!(c.says(&mut store, "ACQUIRE foo\r"), replied("GRANTED foo"));
    assert_eq!(c.says(&mut store, "ACQUIRE foo"), replied("ERR already held"));
    assert_eq!(c.says(&mut store, "STATUS foo"), replied("STATUS foo HELD 1 0"));
    assert_eq!(
        c.says(&mut store, "LIST").0,
        vec!["LIST".to_string(), "foo".to_string(), "END".to_string()]
    );
    assert_eq!(c.says(&mut store, ""), (vec![], None, None));
    assert_eq!(c.says(&mut store, "RELEASE foo"), replied("OK"));
    assert!(c.held.is_empty());
    assert_eq!(c.says(&mut store, "RELEASE foo"), replied("ERR not held"));
    assert_eq!(c.says(&mut store, "STATUS foo"), replied("STATUS foo FREE 0"));
    assert_eq!(c.says(&mut store, "LIST").0, vec!["LIST", "foo", "END"]);
    assert_eq!(c.says(&mut store, "NOPE 1"), replied("ERR unknown command NOPE"));
}

#[test]
fn worker_waits_and_is_woken_in_order() {
    let mut store = LockStore::new();
    let mut a = Worker::new(&mut store);
    let mut b = Worker::new(&mut store);
    let mut c = Worker::new(&mut store);
    a.says(&mut store, "ACQUIRE x");
    assert_eq!(b.says(&mut store, "TRY_ACQUIRE x"), replied("DENIED x"));
    assert_eq!(b.says(&mut store, "ACQUIRE x"), (vec![], Some("x".to_string()), None));
    assert_eq!(c.says(&mut store, "ACQUIRE x"), (vec![], Some("x".to_string()), None));
    assert_eq!(
        a.says(&mut store, "RELEASE x"),
        (vec!["OK".to_string()], None, Some(b.id))
    );
    let reply = resume(&mut b.held, "x", WakeState::Granted).unwrap();
    assert_eq!(reply.to_string(), "GRANTED x");
    assert_eq!(b.held, vec!["x".to_string()]);
    let parting = disconnect(&mut store, b.id, &b.held);
    assert!(!parting.evicted);
    assert_eq!(parting.woken, vec![c.id]);
    assert_eq!(c.says(&mut store, "STATUS x"), replied("STATUS x HELD 3 0"));
}

#[test]
fn worker_that_leaves_while_waiting_is_evicted() {
    let mut store = LockStore::new();
    let mut a = Worker::new(&mut store);
    let mut b = Worker::new(&mut store);
    a.says(&mut store, "ACQUIRE x");
    b.says(&mut store, "ACQUIRE x");
    let parting = disconnect(&mut store, b.id, &b.held);
    assert!(parting.evicted);
    assert!(parting.woken.is_empty());
    assert!(resume(&mut b.held, "x", WakeState::Evicted).is_none());
    assert!(resume(&mut b.held, "x", WakeState::Waiting).is_none());
    assert!(b.held.is_empty());
    assert_eq!(a.says(&mut store, "RELEASE x"), replied("OK"));
}

#[test]
fn worker_that_leaves_frees_everything() {
    let mut store = LockStore::new();
    let mut a = Worker::new(&mut store);
    let mut b = Worker::new(&mut store);
    a.says(&mut store, "ACQUIRE x");
    a.says(&mut store, "TRY_ACQUIRE y");
    disconnect(&mut store, a.id, &a.held);
    assert_eq!(b.says(&mut store, "LIST").0, vec!["LIST", "x", "y", "END"]);
    assert_eq!(b.says(&mut store, "ACQUIRE x"), replied("GRANTED x"));
    assert_eq!(b.says(&mut store, "ACQUIRE y"), replied("GRANTED y"));
}

// The table.

#[test]
fn lock_entry_steps() {
    let mut e = LockEntry::new();
    assert_eq!(e.acquire(1), Acquired::Granted);
    assert_eq!(e.acquire(1), Acquired::AlreadyHeld);
    assert_eq!(e.acquire(2), Acquired::Queued);
    assert_eq!(e.acquire(3), Acquired::Queued);
    assert_eq!(e.acquire(3), Acquired::AlreadyHeld);
    assert!(!e.try_acquire(4));
    assert_eq!(e.waiter_count(), 2);
    assert!(e.evict_waiter(2));
    assert!(!e.evict_waiter(2));
    assert_eq!(e.promote_next(), Some(3));
    assert_eq!(e.holder(), Some(3));
    assert_eq!(e.promote_next(), None);
    assert_eq!(e.holder(), None);
    assert!(e.try_acquire(4));
}

#[test]
fn known_names_come_in_ascending_order() {
    let mut store = LockStore::new();
    for name in ["b", "a", "c", "aa"] {
        assert_eq!(store.entry(name).acquire(1), Acquired::Granted);
    }
    store.entry("free");
    assert_eq!(store.promote_next("b"), None);
    assert_eq!(store.promote_next("absent"), None);
    assert_eq!(store.known_names(), vec!["a", "aa", "b", "c", "free"]);
}

#[test]
fn connection_ids_count_up() {
    let mut store = LockStore::new();
    assert!(store.has_id_left());
    assert_eq!(store.alloc_id(), 1);
    assert_eq!(store.alloc_id(), 2);
}

#[test]
fn worker_parting_wakes_the_new_holders_only() {
    let mut store = LockStore::new();
    let mut a = Worker::new(&mut store);
    let mut b = Worker::new(&mut store);
    let mut c = Worker::new(&mut store);
    let mut d = Worker::new(&mut store);
    for line in ["ACQUIRE x", "ACQUIRE y", "ACQUIRE z"] {
        a.says(&mut store, line);
    }
    b.says(&mut store, "ACQUIRE z");
    c.says(&mut store, "ACQUIRE x");
    d.says(&mut store, "ACQUIRE x");
    let parting = disconnect(&mut store, a.id, &a.held);
    assert_eq!(parting.woken, vec![c.id, b.id]);
    assert_eq!(d.says(&mut store, "STATUS x"), replied("STATUS x HELD 3 1"));
    assert_eq!(d.says(&mut store, "STATUS y"), replied("STATUS y FREE 0"));
    assert_eq!(d.says(&mut store, "STATUS z"), replied("STATUS z HELD 2 0"));
}
