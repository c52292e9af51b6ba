use coordkit::gfs::chunk::apply_drops;
use coordkit::gfs::chunk::chunk_report;
use coordkit::gfs::chunk::finish_forward;
use coordkit::gfs::chunk::handle_request;
use coordkit::gfs::chunk::ChunkStore;
use coordkit::gfs::chunk::Forwarded;
use coordkit::gfs::chunk::Step;
use coordkit::gfs::client::after_primary;
use coordkit::gfs::client::after_secondary;
use coordkit::gfs::client::assemble;
use coordkit::gfs::client::check_read;
use coordkit::gfs::client::check_written;
use coordkit::gfs::client::chunk_payload;
use coordkit::gfs::client::summary;
use coordkit::gfs::client::write_request;
use coordkit::gfs::client::ReadStep;
use coordkit::gfs::data::Addr;
use coordkit::gfs::data::Endpoint;
use coordkit::gfs::data::ChunkId;
use coordkit::gfs::data::DataRequest;
use coordkit::gfs::data::DataResponse;
use coordkit::gfs::master::MasterServer;
use coordkit::gfs::store::Store;
use coordkit::gfs::types::chunk_count;
use coordkit::gfs::types::HeartbeatResponse;
use coordkit::gfs::types::MasterError;
use coordkit::gfs::types::ReplicaSet;
use coordkit::gfs::types::ServerId;
use coordkit::gfs::types::CHUNK_SIZE;
use coordkit::gfs::types::HEARTBEAT_INTERVAL;
use coordkit::gfs::types::MISSED_HEARTBEATS;
use coordkit::gfs::types::REPLICATION_FACTOR;
use coordkit::ordmap::Bound;

fn addr(port: u16) -> Addr {
    Addr::V4 { ip: [127, 0, 0, 1], port }
}

fn at(port: u16) -> Endpoint {
    Endpoint { addr: addr(port), scope: 0 }
}

fn addr_text(a: Addr) -> String {
    match a {
        Addr::V4 { ip, port } => format!("{}.{}.{}.{}:{}", ip[0], ip[1], ip[2], ip[3], port),
        Addr::V6 { port, .. } => format!("[..]:{}", port),
    }
}

struct Node {
    id: ServerId,
    addr: Addr,
    store: ChunkStore,
    up: bool,
}

/// A master and some chunk servers in one process, without sockets or clocks.
struct Cluster {
    master: MasterServer,
    nodes: Vec<Node>,
    now: u64,
}

impl Cluster {
    fn new(n_servers: usize) -> Cluster {
        let mut master = MasterServer::new();
        let mut nodes = Vec::new();
        for i in 0..n_servers {
            let a = addr(9000 + i as u16);
            let id = master.register(Endpoint { addr: a, scope: 0 }, 0);
            let store = Store::open("").unwrap();
            nodes.push(Node { id, addr: a, store, up: true });
        }
        Cluster { master, nodes, now: 0 }
    }

    fn node_at(&mut self, a: Addr) -> Option<&mut Node> {
        self.nodes.iter_mut().find(|n| n.addr == a && n.up)
    }

    fn kill(&mut self, a: Addr) {
        self.nodes.iter_mut().find(|n| n.addr == a).unwrap().up = false;
    }

    /// Sends a request to a server, which forwards it if it has to.
    fn ask(&mut self, a: Addr, req: DataRequest) -> Result<DataResponse, String> {
        let step = match self.node_at(a) {
            Some(node) => handle_request(&mut node.store, req),
            None => return Err("connection refused".to_string()),
        };
        match step {
            Step::Reply(resp) => Ok(resp),
            Step::Forward(next, req) => {
                let came_back = match self.ask(next, req) {
                    Ok(resp) => Forwarded::Reply(resp),
                    Err(why) => Forwarded::Failed(why),
                };
                Ok(finish_forward(&addr_text(next), came_back))
            }
        }
    }

    fn write_chunk(
        &mut self,
        id: ChunkId,
        replicas: &ReplicaSet,
        payload: Vec<u8>,
    ) -> Result<(), String> {
        let (to, req) = write_request(id, replicas, payload);
        let reply = self.ask(to.addr, req)?;
        check_written(&addr_text(to.addr), &reply)
    }

    fn read_from(&mut self, a: Addr, id: ChunkId) -> Result<Vec<u8>, String> {
        let reply = self.ask(a, DataRequest::Read { chunk_id: id })?;
        check_read(&addr_text(a), id, reply)
    }

    fn read_chunk(&mut self, id: ChunkId, replicas: &ReplicaSet) -> Result<Vec<u8>, String> {
        let first = self.read_from(replicas.primary.addr, id);
        match after_primary(first, replicas) {
            ReadStep::Done(r) => r,
            ReadStep::TrySecondary(a, why) => {
                let second = self.read_from(a.addr, id);
                after_secondary(&why, second)
            }
        }
    }

    fn put(&mut self, path: &str, data: &[u8], chunk_size: u64) {
        let chunks =
            self.master.allocate(path.to_string(), data.len() as u64, chunk_size).unwrap();
        assert_eq!(chunks.len() as u64, chunk_count(data.len() as u64, chunk_size));
        for (i, (id, replicas)) in chunks.iter().enumerate() {
            let payload = chunk_payload(data, chunk_size, i as u64);
            self.write_chunk(*id, replicas, payload).unwrap();
        }
    }

    fn lookup(&self, path: &str) -> Result<Vec<(ChunkId, ReplicaSet)>, MasterError> {
        self.master.lookup(&path.to_string())
    }

    fn get(&mut self, path: &str) -> Vec<u8> {
        let chunks = self.lookup(path).unwrap();
        let mut parts = Vec::new();
        for (id, replicas) in &chunks {
            parts.push(self.read_chunk(*id, replicas).unwrap());
        }
        assemble(&parts)
    }

    /// One heartbeat interval passes.
    fn beat(&mut self) {
        self.now += HEARTBEAT_INTERVAL;
        for i in 0..self.nodes.len() {
            if self.nodes[i].up {
                let held = chunk_report(&self.nodes[i].store);
                let resp = self.master.heartbeat(self.nodes[i].id, &held, self.now);
                apply_drops(&mut self.nodes[i].store, &resp);
            }
        }
        self.master.detect_timeouts(self.now);
    }
}

#[test]
fn put_get_roundtrip_small() {
    let mut cluster = Cluster::new(2);
    let data = b"hello gfs".to_vec();
    cluster.put("/small", &data, 1024);
    assert_eq!(cluster.get("/small"), data);
}

#[test]
fn put_get_roundtrip_multi_chunk() {
    let mut cluster = Cluster::new(2);
    let data: Vec<u8> = (0..3000u32).map(|i| (i % 251) as u8).collect();
    cluster.put("/multi", &data, 1024);
    // ceil(3000 / 1024) = 3 chunks
    let chunks = cluster.lookup("/multi").unwrap();
    assert_eq!(chunks.len(), 3);
    assert_eq!(cluster.get("/multi"), data);
}

#[test]
fn secondary_crash_during_write() {
    let mut cluster = Cluster::new(2);
    let chunks = cluster.master.allocate("/sec-crash".to_string(), 512, 1024).unwrap();
    assert_eq!(chunks.len(), 1);
    let (chunk_id, replicas) = chunks[0];
    let secondary = replicas.secondary.expect("allocate returns two replicas");
    cluster.kill(secondary.addr);

    let result = cluster.write_chunk(chunk_id, &replicas, vec![0xAB; 512]);
    assert!(
        result.is_err(),
        "chain-replicated write should fail when secondary is down"
    );
    assert_eq!(
        result.unwrap_err(),
        "primary 127.0.0.1:9000: forward to 127.0.0.1:9001: connection refused"
    );
}

#[test]
fn primary_crash_between_allocate_and_write() {
    let mut cluster = Cluster::new(2);
    let chunks = cluster.master.allocate("/prim-crash".to_string(), 256, 1024).unwrap();
    let (chunk_id, replicas) = chunks[0];
    cluster.kill(replicas.primary.addr);

    let result = cluster.write_chunk(chunk_id, &replicas, vec![0xCD; 256]);
    assert!(result.is_err(), "write should fail when primary is down");
}

#[test]
fn heartbeat_timeout_marks_offline() {
    let mut cluster = Cluster::new(2);
    cluster.put("/timeout", b"payload", 1024);
    let before = cluster.lookup("/timeout").unwrap()[0].1;
    cluster.kill(before.primary.addr);
    cluster.beat();
    cluster.beat();
    // Two missed heartbeats are not enough.
    assert_eq!(cluster.lookup("/timeout").unwrap()[0].1, before);
    cluster.beat();

    let chunks = cluster.lookup("/timeout").unwrap();
    assert_eq!(chunks.len(), 1);
    let (_, replicas) = &chunks[0];
    assert!(
        replicas.secondary.is_none(),
        "timed-out replica should be filtered out of lookup"
    );
    // The survivor took over.
    assert_eq!(Some(replicas.primary), before.secondary);
    assert_eq!(cluster.get("/timeout"), b"payload");
}

#[test]
fn byte_range_read() {
    let mut cluster = Cluster::new(2);
    let data: Vec<u8> = (0..500u32).map(|i| (i % 251) as u8).collect();
    // One chunk (chunk_size > len) keeps the offsets aligned with `data`.
    cluster.put("/ranged", &data, 4096);
    let chunks = cluster.lookup("/ranged").unwrap();
    assert_eq!(chunks.len(), 1);
    let (chunk_id, replicas) = chunks[0];
    let mut read_range = |offset: u64, len: u64| -> Vec<u8> {
        match cluster.ask(replicas.primary.addr, DataRequest::ReadRange { chunk_id, offset, len }) {
            Ok(DataResponse::Data(b)) => b,
            other => panic!("expected Data, got {other:?}"),
        }
    };

    // A range strictly inside the chunk returns exactly that slice.
    assert_eq!(read_range(100, 50), data[100..150]);
    // A range running past the end is clamped to the chunk length.
    assert_eq!(read_range(480, 100), data[480..500]);
    // An offset at/after the end yields an empty slice, not an error.
    assert!(read_range(500, 10).is_empty());
    assert!(read_range(u64::MAX, u64::MAX).is_empty());
    assert_eq!(read_range(0, u64::MAX), data);
}

#[test]
fn delete_propagates_via_heartbeat() {
    let mut cluster = Cluster::new(2);
    cluster.put("/doomed", b"bye", 1024);
    let chunks = cluster.lookup("/doomed").unwrap();
    let (chunk_id, replicas) = chunks[0];
    let primary = replicas.primary.addr;

    cluster.master.delete(&"/doomed".to_string()).unwrap();
    // Lazy GC takes one heartbeat to deliver `drop_chunks` and one more for the
    // master to observe the chunk's absence and prune.
    cluster.beat();
    cluster.beat();
    cluster.beat();

    let resp = cluster.ask(primary, DataRequest::Read { chunk_id }).unwrap();
    assert!(
        matches!(resp, DataResponse::NotFound),
        "expected NotFound after lazy GC, got {resp:?}"
    );
    assert_eq!(cluster.lookup("/doomed"), Err(MasterError::NotFound));
}

#[test]
fn allocation_is_refused_for_each_reason() {
    let mut master = MasterServer::new();
    assert_eq!(
        master.allocate("/f".to_string(), 1, 0).unwrap_err(),
        MasterError::InvalidChunkSize
    );
    master.register(at(1), 0);
    assert_eq!(
        master.allocate("/f".to_string(), 1, 1).unwrap_err(),
        MasterError::NotEnoughServers
    );
    master.register(at(2), 0);
    assert!(master.allocate("/f".to_string(), 1, 1).is_ok());
    assert_eq!(
        master.allocate("/f".to_string(), 1, 1).unwrap_err(),
        MasterError::AlreadyExists
    );
    assert_eq!(master.delete(&"/g".to_string()).unwrap_err(), MasterError::NotFound);
    assert_eq!(REPLICATION_FACTOR, 2);
}

#[test]
fn replicas_are_spread_evenly() {
    for servers in 2..6u16 {
        for chunks in 0..12u64 {
            let mut master = MasterServer::new();
            for port in 1..=servers {
                master.register(at(port), 0);
            }
            master.allocate("/before".to_string(), 3, 1).unwrap();
            let placed = master.allocate("/f".to_string(), chunks, 1).unwrap();
            let count = |port: u16| {
                placed.iter().filter(|(_, r)| r.primary == at(port)).count()
                    + placed.iter().filter(|(_, r)| r.secondary == Some(at(port))).count()
            };
            let counts: Vec<usize> = (1..=servers).map(count).collect();
            assert_eq!(counts.iter().sum::<usize>() as u64, 2 * chunks);
            assert!(counts.iter().max().unwrap() - counts.iter().min().unwrap() <= 1);
        }
    }
}

#[test]
fn scope_of_an_address_is_handed_back() {
    let mut master = MasterServer::new();
    let link = |scope: u32| Endpoint { addr: Addr::V6 { ip: [0xfe; 16], port: 7 }, scope };
    master.register(link(3), 0);
    master.register(link(4), 0);
    let placed = master.allocate("/f".to_string(), 1, 1).unwrap();
    assert_eq!(placed[0].1, ReplicaSet { primary: link(3), secondary: Some(link(4)) });
    assert_eq!(master.lookup(&"/f".to_string()).unwrap(), placed);
    // The data plane's form of an address has no scope.
    let (to, req) = write_request(0, &placed[0].1, vec![1]);
    assert_eq!(to, link(3));
    assert!(matches!(
        req,
        DataRequest::Write { forward_to: Some(a), .. } if a == link(4).addr
    ));
}

#[test]
fn placement_goes_round_the_servers() {
    let mut master = MasterServer::new();
    for port in 1..=3 {
        master.register(at(port), 0);
    }
    let placed = master.allocate("/f".to_string(), 30, 10).unwrap();
    let ports: Vec<(ChunkId, Endpoint, Option<Endpoint>)> =
        placed.iter().map(|(c, r)| (*c, r.primary, r.secondary)).collect();
    assert_eq!(
        ports,
        vec![
            (0, at(1), Some(at(2))),
            (1, at(3), Some(at(1))),
            (2, at(2), Some(at(3))),
        ]
    );
    assert_eq!(master.lookup(&"/f".to_string()).unwrap(), placed);
    // An empty file has a name and no chunks.
    assert!(master.allocate("/empty".to_string(), 0, 10).unwrap().is_empty());
    assert!(master.lookup(&"/empty".to_string()).unwrap().is_empty());
    // Ids go on where they stopped, also after a deletion.
    master.delete(&"/f".to_string()).unwrap();
    assert_eq!(master.allocate("/f".to_string(), 1, 10).unwrap()[0].0, 3);
    assert_eq!(master.next_chunk_id(), 4);
    assert_eq!(master.next_server_id(), 3);
    assert_eq!(master.online_server_ids(), vec![0, 1, 2]);
}

#[test]
fn lookup_fails_when_both_replicas_are_gone_and_recovers() {
    let mut master = MasterServer::new();
    let a = master.register(at(1), 0);
    master.register(at(2), 0);
    let placed = master.allocate("/f".to_string(), 1, 1).unwrap();
    let timeout = HEARTBEAT_INTERVAL * MISSED_HEARTBEATS;
    master.detect_timeouts(timeout - 1);
    assert_eq!(master.lookup(&"/f".to_string()).unwrap(), placed);
    master.detect_timeouts(timeout);
    assert_eq!(
        master.lookup(&"/f".to_string()).unwrap_err(),
        MasterError::NoLiveReplicas
    );
    assert!(master.heartbeat(a, &vec![0], timeout).drop_chunks.is_empty());
    let found = master.lookup(&"/f".to_string()).unwrap();
    assert_eq!(found, vec![(0, ReplicaSet { primary: at(1), secondary: None })]);
}

#[test]
fn heartbeat_drops_what_is_unknown_deleted_or_misplaced() {
    let mut master = MasterServer::new();
    let a = master.register(at(1), 0);
    let b = master.register(at(2), 0);
    let c = master.register(at(3), 0);
    master.allocate("/f".to_string(), 1, 1).unwrap();
    // Chunk 0 belongs to the first two servers.
    assert_eq!(master.heartbeat(a, &vec![0, 77], 1).drop_chunks, vec![77]);
    assert_eq!(master.heartbeat(c, &vec![0], 1).drop_chunks, vec![0]);
    master.delete(&"/f".to_string()).unwrap();
    // The command is repeated as long as the chunk is reported.
    assert_eq!(master.heartbeat(a, &vec![0], 2).drop_chunks, vec![0]);
    assert_eq!(master.heartbeat(a, &vec![0], 3).drop_chunks, vec![0]);
    assert!(master.heartbeat(a, &vec![], 4).drop_chunks.is_empty());
    assert_eq!(master.heartbeat(b, &vec![0], 4).drop_chunks, vec![0]);
    assert!(master.heartbeat(b, &vec![], 5).drop_chunks.is_empty());
    assert_eq!(master.heartbeat(b, &vec![0], 6).drop_chunks, vec![0]);
    // A server that never registered changes nothing but is told to drop.
    assert_eq!(master.heartbeat(99, &vec![5], 6).drop_chunks, vec![5]);
    assert_eq!(master.online_server_ids(), vec![a, b, c]);
    assert!(HeartbeatResponse::default().drop_chunks.is_empty());
}

#[test]
fn replies_to_a_forward() {
    let text = |came_back| match finish_forward("a:1", came_back) {
        DataResponse::Error(m) => m,
        other => panic!("expected Error, got {other:?}"),
    };
    assert_eq!(
        finish_forward("a:1", Forwarded::Reply(DataResponse::Written)),
        DataResponse::Written
    );
    assert_eq!(
        text(Forwarded::Reply(DataResponse::Error("disk full".into()))),
        "forward to a:1: disk full"
    );
    assert_eq!(
        text(Forwarded::Reply(DataResponse::NotFound)),
        format!("forward to a:1: unexpected reply: {:?}", DataResponse::NotFound)
    );
    let data = DataResponse::Data(vec![1, 20, 255]);
    let shown = format!("{:?}", data);
    assert_eq!(
        text(Forwarded::Reply(data)),
        format!("forward to a:1: unexpected reply: {shown}")
    );
    assert_eq!(
        text(Forwarded::Reply(DataResponse::Data(vec![]))),
        "forward to a:1: unexpected reply: Data([])"
    );
    assert_eq!(text(Forwarded::Failed("refused".into())), "forward to a:1: refused");
}

#[test]
fn replies_to_a_write_and_a_read() {
    assert!(check_written("p", &DataResponse::Written).is_ok());
    assert_eq!(
        check_written("p", &DataResponse::NotFound).unwrap_err(),
        "primary returned NotFound for write"
    );
    assert_eq!(
        check_written("p", &DataResponse::Data(vec![])).unwrap_err(),
        "primary returned Data for write"
    );
    assert_eq!(check_read("p", 12, DataResponse::Data(vec![7])).unwrap(), vec![7]);
    assert_eq!(
        check_read("p", 12, DataResponse::NotFound).unwrap_err(),
        "p: chunk 12 not found"
    );
    assert_eq!(
        check_read("p", 12, DataResponse::Error("no".into())).unwrap_err(),
        "p: no"
    );
    assert_eq!(
        check_read("p", 12, DataResponse::Written).unwrap_err(),
        "p: returned Written for read"
    );
}

#[test]
fn read_falls_back_to_the_secondary() {
    let both = ReplicaSet { primary: at(1), secondary: Some(at(2)) };
    let alone = ReplicaSet { primary: at(1), secondary: None };
    assert!(matches!(after_primary(Ok(vec![1]), &both), ReadStep::Done(Ok(_))));
    assert!(matches!(
        after_primary(Err("x".into()), &both),
        ReadStep::TrySecondary(a, why) if a == at(2) && why == "x"
    ));
    assert!(matches!(
        after_primary(Err("x".into()), &alone),
        ReadStep::Done(Err(why)) if why == "x"
    ));
    assert_eq!(after_secondary("x", Ok(vec![2])).unwrap(), vec![2]);
    assert_eq!(
        after_secondary("x", Err("y".into())).unwrap_err(),
        "primary x; secondary y"
    );
    let mut cluster = Cluster::new(2);
    cluster.put("/f", b"abc", 2);
    let first = cluster.lookup("/f").unwrap()[0].1;
    cluster.kill(first.primary.addr);
    assert_eq!(cluster.get("/f"), b"abc");
}

#[test]
fn files_are_cut_and_put_together() {
    let data: Vec<u8> = (0..10).collect();
    let parts: Vec<Vec<u8>> = (0..chunk_count(10, 4)).map(|k| chunk_payload(&data, 4, k)).collect();
    assert_eq!(parts, vec![vec![0, 1, 2, 3], vec![4, 5, 6, 7], vec![8, 9]]);
    assert_eq!(assemble(&parts), data);
    assert_eq!(chunk_count(0, 4), 0);
    assert_eq!(chunk_count(8, 4), 2);
    assert_eq!(chunk_count(u64::MAX, 1), u64::MAX);
    assert_eq!(chunk_payload(&data, u64::MAX, 0), data);
    assert_eq!(CHUNK_SIZE, 4 * 1024 * 1024);
}

#[test]
fn transfers_are_summed_up() {
    assert_eq!(summary("wrote", "/f", 3000, 3), "wrote /f (3000 bytes, 3 chunk(s))");
    assert_eq!(summary("read", "/e", 0, 0), "read /e (0 bytes, 0 chunk(s))");
}

#[test]
fn memory_store_keeps_entries_in_order() {
    let mut store: Store<u64, Vec<u8>> = Store::open("ignored").unwrap();
    assert!(store.is_empty());
    store.set(5, vec![5]).unwrap();
    store.set(1, vec![1]).unwrap();
    store.set(5, vec![6]).unwrap();
    assert_eq!(store.len(), 2);
    assert_eq!(store.get(&5), Some(&vec![6]));
    let keys: Vec<u64> =
        store.scan(Bound::Unbounded, Bound::Unbounded).into_iter().map(|(k, _)| *k).collect();
    assert_eq!(keys, vec![1, 5]);
    store.delete(&1).unwrap();
    store.delete(&1).unwrap();
    assert_eq!(store.get(&1), None);
}

#[test]
fn master_error_texts() {
    assert_eq!(MasterError::NotFound.message(), "path not found");
    assert_eq!(MasterError::AlreadyExists.message(), "path already exists");
    assert_eq!(MasterError::NotEnoughServers.message(), "not enough chunk servers online");
    assert_eq!(
        MasterError::NoLiveReplicas.message(),
        "at least one chunk has no live replicas"
    );
    assert_eq!(
        MasterError::InvalidChunkSize.message(),
        "chunk size must be greater than zero"
    );
}

#[test]
fn chunk_ids_run_out_only_for_what_is_allocated() {
    let mut master = MasterServer::new();
    let path = "/f".to_string();
    // Refused requests need no ids.
    assert!(master.has_ids_for(&path, u64::MAX, 0));
    assert!(master.has_ids_for(&path, u64::MAX, 1));
    master.register(at(1), 0);
    master.register(at(2), 0);
    assert!(master.has_ids_for(&path, u64::MAX, 1));
    master.allocate(path.clone(), 1, 1).unwrap();
    let other = "/g".to_string();
    assert!(!master.has_ids_for(&other, u64::MAX, 1));
    assert!(master.has_ids_for(&other, u64::MAX - 1, 1));
    assert!(master.has_ids_for(&path, u64::MAX, 1));
}

#[test]
fn a_put_file_is_got_through_everything_that_happens_to_others() {
    let mut cluster = Cluster::new(3);
    let data: Vec<u8> = (0..100).collect();
    cluster.put("/kept", &data, 7);
    cluster.put("/doomed", &data, 9);
    let a = addr(9100);
    let id = cluster.master.register(at(9100), cluster.now);
    cluster.nodes.push(Node { id, addr: a, store: Store::open("").unwrap(), up: true });
    cluster.beat();
    cluster.master.delete(&"/doomed".to_string()).unwrap();
    cluster.put("/new", b"xyz", 1);
    for _ in 0..3 {
        cluster.beat();
        assert_eq!(cluster.get("/kept"), data);
    }
    cluster.kill(addr(9001));
    for _ in 0..4 {
        cluster.beat();
        assert_eq!(cluster.get("/kept"), data);
        assert_eq!(cluster.get("/new"), b"xyz");
    }
}
