//! The master: namespace, chunk placement and heartbeat tracking.
//!
//! Placement is round-robin over the servers that are online; the cursor advances
//! once per replica. Everything that the master learns from chunk servers after
//! their registration comes with heartbeats.

use vstd::arithmetic::div_mod::*;
use vstd::prelude::*;

use crate::gfs::data::Addr;
use crate::gfs::data::ChunkId;
use crate::gfs::data::Endpoint;
use crate::gfs::data::EndpointModel;
use crate::gfs::types::chunk_count;
use crate::gfs::types::chunks_in;
use crate::gfs::types::placement_views;
use crate::gfs::types::HeartbeatResponse;
use crate::gfs::types::MasterError;
use crate::gfs::types::ReplicaModel;
use crate::gfs::types::ReplicaSet;
use crate::gfs::types::ServerId;
use crate::gfs::types::HEARTBEAT_INTERVAL;
use crate::gfs::types::MISSED_HEARTBEATS;
use crate::gfs::types::REPLICATION_FACTOR;
use crate::ordmap::ascending;
use crate::ordmap::lemma_filtered;
use crate::ordmap::lemma_sorted_keys_lists;
use crate::ordmap::sorted_keys;
use crate::ordmap::OrdMap;

verus! {

// The model.

/// What the master knows about one registered chunk server.
#[verifier::ext_equal]
pub struct ServerModel {
    pub addr: EndpointModel,
    /// When the server was last heard of, in milliseconds.
    pub last_seen: u64,
    pub online: bool,
}

/// What the master knows about one chunk.
#[verifier::ext_equal]
pub struct ChunkModel {
    /// The servers expected to hold the chunk, in write order.
    pub replicas: Seq<ServerId>,
    /// Whether the owning file was deleted.
    pub deleted: bool,
}

/// The state of the master.
#[verifier::ext_equal]
pub struct MasterModel {
    /// The chunks of each file, in file order.
    pub files: Map<Seq<char>, Seq<ChunkId>>,
    pub chunks: Map<ChunkId, ChunkModel>,
    pub servers: Map<ServerId, ServerModel>,
    pub next_chunk_id: ChunkId,
    pub next_server_id: ServerId,
    /// Where the next replica is placed.
    pub cursor: usize,
}

/// The servers that are online, in ascending order.
pub open spec fn online_ids(servers: Map<ServerId, ServerModel>) -> Seq<ServerId> {
    sorted_keys::<u64, ServerModel>(servers).filter(|id: ServerId| servers[id].online)
}

/// `x` as far as it fits into a `usize`, wrapping around.
pub open spec fn wrapped(x: int) -> int {
    x % (usize::MAX + 1)
}

/// The server that the cursor is at after `steps` steps.
pub open spec fn pick(online: Seq<ServerId>, cursor: usize, steps: int) -> ServerId {
    online[wrapped(cursor + steps) % online.len() as int]
}

/// The replicas of the `k`-th chunk that is allocated: the next two servers.
pub open spec fn replicas_for(online: Seq<ServerId>, cursor: usize, k: int) -> Seq<ServerId> {
    seq![pick(online, cursor, 2 * k), pick(online, cursor, 2 * k + 1)]
}

/// The chunks once `n` new ones have been placed.
pub open spec fn chunks_with(m: MasterModel, n: int) -> Map<ChunkId, ChunkModel> {
    Map::new(
        |c: ChunkId| m.chunks.dom().contains(c) || m.next_chunk_id <= c < m.next_chunk_id + n,
        |c: ChunkId|
            if m.next_chunk_id <= c < m.next_chunk_id + n {
                ChunkModel {
                    replicas: replicas_for(
                        online_ids(m.servers),
                        m.cursor,
                        c - m.next_chunk_id,
                    ),
                    deleted: false,
                }
            } else {
                m.chunks[c]
            },
    )
}

/// The next `n` chunk ids.
pub open spec fn fresh_ids(m: MasterModel, n: int) -> Seq<ChunkId> {
    Seq::new(n as nat, |k: int| (m.next_chunk_id + k) as u64)
}

/// The master once a file of `n` chunks has been allocated under `path`.
pub open spec fn after_allocate(m: MasterModel, path: Seq<char>, n: int) -> MasterModel {
    MasterModel {
        files: m.files.insert(path, fresh_ids(m, n)),
        chunks: chunks_with(m, n),
        next_chunk_id: (m.next_chunk_id + n) as u64,
        cursor: wrapped(m.cursor + 2 * n) as usize,
        ..m
    }
}

/// The addresses of two replicas.
pub open spec fn both_addresses(
    servers: Map<ServerId, ServerModel>,
    replicas: Seq<ServerId>,
) -> ReplicaModel {
    ReplicaModel {
        primary: servers[replicas[0]].addr,
        secondary: Some(servers[replicas[1]].addr),
    }
}

/// What is told to the client that allocates `n` chunks.
pub open spec fn placements(m: MasterModel, n: int) -> Seq<(ChunkId, ReplicaModel)> {
    Seq::new(
        n as nat,
        |k: int|
            (
                (m.next_chunk_id + k) as u64,
                both_addresses(m.servers, replicas_for(online_ids(m.servers), m.cursor, k)),
            ),
    )
}

/// Why an allocation is refused, if it is.
pub open spec fn allocate_refusal(
    m: MasterModel,
    path: Seq<char>,
    chunk_size: u64,
) -> Option<MasterError> {
    if chunk_size == 0 {
        Some(MasterError::InvalidChunkSize)
    } else if m.files.dom().contains(path) {
        Some(MasterError::AlreadyExists)
    } else if online_ids(m.servers).len() < REPLICATION_FACTOR {
        Some(MasterError::NotEnoughServers)
    } else {
        None
    }
}

/// Whether a server is registered and online.
pub open spec fn is_online(servers: Map<ServerId, ServerModel>, s: ServerId) -> bool {
    servers.dom().contains(s) && servers[s].online
}

/// The addresses of those of `replicas` that are online, in order.
pub open spec fn live_addresses(
    servers: Map<ServerId, ServerModel>,
    replicas: Seq<ServerId>,
) -> Seq<EndpointModel> {
    replicas.filter(|s: ServerId| is_online(servers, s)).map_values(
        |s: ServerId| servers[s].addr,
    )
}

/// The addresses under which a chunk can be read and written, in order.
pub open spec fn chunk_addresses(m: MasterModel, c: ChunkId) -> Seq<EndpointModel> {
    if m.chunks.dom().contains(c) {
        live_addresses(m.servers, m.chunks[c].replicas)
    } else {
        Seq::empty()
    }
}

/// The first of some live addresses as the primary, the next as the secondary.
pub open spec fn in_write_order(live: Seq<EndpointModel>) -> ReplicaModel {
    ReplicaModel {
        primary: live[0],
        secondary: if live.len() > 1 {
            Some(live[1])
        } else {
            None
        },
    }
}

/// Whether every chunk of `ids` has a live replica.
pub open spec fn all_live(m: MasterModel, ids: Seq<ChunkId>) -> bool {
    forall|k: int| 0 <= k < ids.len() ==> chunk_addresses(m, #[trigger] ids[k]).len() > 0
}

/// What is told to a client that looks up `path`.
pub open spec fn looked_up(m: MasterModel, path: Seq<char>) -> Result<
    Seq<(ChunkId, ReplicaModel)>,
    MasterError,
> {
    if !m.files.dom().contains(path) {
        Err(MasterError::NotFound)
    } else if !all_live(m, m.files[path]) {
        Err(MasterError::NoLiveReplicas)
    } else {
        Ok(
            m.files[path].map_values(
                |c: ChunkId| (c, in_write_order(chunk_addresses(m, c))),
            ),
        )
    }
}

/// The master once the file `path` has been deleted: its chunks are marked.
pub open spec fn after_delete(m: MasterModel, path: Seq<char>) -> MasterModel {
    MasterModel {
        files: m.files.remove(path),
        chunks: m.chunks.map_entries(
            |c: ChunkId, info: ChunkModel|
                ChunkModel { deleted: info.deleted || m.files[path].contains(c), ..info },
        ),
        ..m
    }
}

/// The master once a server at `addr` has registered.
pub open spec fn after_register(m: MasterModel, addr: EndpointModel, now: u64) -> MasterModel {
    MasterModel {
        servers: m.servers.insert(
            m.next_server_id,
            ServerModel { addr, last_seen: now, online: true },
        ),
        next_server_id: (m.next_server_id + 1) as u64,
        ..m
    }
}

/// The servers once `s` has been heard of.
pub open spec fn seen(
    servers: Map<ServerId, ServerModel>,
    s: ServerId,
    now: u64,
) -> Map<ServerId, ServerModel> {
    if servers.dom().contains(s) {
        servers.insert(s, ServerModel { last_seen: now, online: true, ..servers[s] })
    } else {
        servers
    }
}

/// Whether the master wants the chunk `c` on the server `s`.
pub open spec fn wanted(m: MasterModel, c: ChunkId, s: ServerId) -> bool {
    m.chunks.dom().contains(c) && !m.chunks[c].deleted && m.chunks[c].replicas.contains(s)
}

/// The chunks that a server which reports `held` is told to drop.
pub open spec fn to_drop(m: MasterModel, s: ServerId, held: Seq<ChunkId>) -> Seq<ChunkId> {
    held.filter(|c: ChunkId| !wanted(m, c, s))
}

/// Whether a report of `held` shows that `s` has dropped a deleted chunk.
pub open spec fn has_dropped(info: ChunkModel, c: ChunkId, s: ServerId, held: Seq<ChunkId>) -> bool {
    info.deleted && !held.contains(c) && info.replicas.contains(s)
}

/// `replicas` without `s`.
pub open spec fn replicas_without(replicas: Seq<ServerId>, s: ServerId) -> Seq<ServerId> {
    replicas.filter(|x: ServerId| x != s)
}

/// A chunk after a report of `held` by `s`.
pub open spec fn after_report(
    info: ChunkModel,
    c: ChunkId,
    s: ServerId,
    held: Seq<ChunkId>,
) -> ChunkModel {
    if has_dropped(info, c, s, held) {
        ChunkModel { replicas: replicas_without(info.replicas, s), ..info }
    } else {
        info
    }
}

/// Whether a chunk is forgotten after a report of `held` by `s`: its last replica
/// is gone.
pub open spec fn is_forgotten(
    info: ChunkModel,
    c: ChunkId,
    s: ServerId,
    held: Seq<ChunkId>,
) -> bool {
    has_dropped(info, c, s, held) && replicas_without(info.replicas, s).len() == 0
}

/// The chunks after a report of `held` by `s`.
pub open spec fn chunks_after_report(
    chunks: Map<ChunkId, ChunkModel>,
    s: ServerId,
    held: Seq<ChunkId>,
) -> Map<ChunkId, ChunkModel> {
    Map::new(
        |c: ChunkId| chunks.dom().contains(c) && !is_forgotten(chunks[c], c, s, held),
        |c: ChunkId| after_report(chunks[c], c, s, held),
    )
}

/// The master once `s` has reported that it holds `held`.
pub open spec fn after_heartbeat(
    m: MasterModel,
    s: ServerId,
    held: Seq<ChunkId>,
    now: u64,
) -> MasterModel {
    MasterModel {
        servers: seen(m.servers, s, now),
        chunks: chunks_after_report(m.chunks, s, held),
        ..m
    }
}

/// Whether a server has not been heard of for too long.
pub open spec fn is_overdue(info: ServerModel, now: u64) -> bool {
    now - info.last_seen >= HEARTBEAT_INTERVAL * MISSED_HEARTBEATS
}

/// The master once the servers that are overdue have been marked offline.
pub open spec fn after_timeouts(m: MasterModel, now: u64) -> MasterModel {
    MasterModel {
        servers: m.servers.map_values(
            |info: ServerModel|
                ServerModel { online: info.online && !is_overdue(info, now), ..info },
        ),
        ..m
    }
}

// The state.

struct ServerInfo {
    /// Data-plane address handed out to clients.
    addr: Endpoint,
    last_seen: u64,
    /// Offline servers are kept, so that a returning server can come back.
    online: bool,
}

impl View for ServerInfo {
    type V = ServerModel;

    closed spec fn view(&self) -> ServerModel {
        ServerModel { addr: self.addr@, last_seen: self.last_seen, online: self.online }
    }
}

struct ChunkInfo {
    replicas: Vec<ServerId>,
    deleted: bool,
}

impl View for ChunkInfo {
    type V = ChunkModel;

    closed spec fn view(&self) -> ChunkModel {
        ChunkModel { replicas: self.replicas@, deleted: self.deleted }
    }
}

/// The master's state.
pub struct MasterServer {
    files: OrdMap<String, Vec<ChunkId>>,
    chunks: OrdMap<u64, ChunkInfo>,
    servers: OrdMap<u64, ServerInfo>,
    next_chunk_id: ChunkId,
    next_server_id: ServerId,
    rr_cursor: usize,
}

impl View for MasterServer {
    type V = MasterModel;

    closed spec fn view(&self) -> MasterModel {
        MasterModel {
            files: self.files@,
            chunks: self.chunks@,
            servers: self.servers@,
            next_chunk_id: self.next_chunk_id,
            next_server_id: self.next_server_id,
            cursor: self.rr_cursor,
        }
    }
}

/// The state of a master that knows nothing yet.
pub open spec fn new_master() -> MasterModel {
    MasterModel {
        files: Map::empty(),
        chunks: Map::empty(),
        servers: Map::empty(),
        next_chunk_id: 0,
        next_server_id: 0,
        cursor: 0,
    }
}

proof fn lemma_wrapped_next(x: int)
    requires
        x >= 0,
    ensures
        0 <= wrapped(x) <= usize::MAX,
        wrapped(x + 1) == (if wrapped(x) == usize::MAX {
            0
        } else {
            wrapped(x) + 1
        }),
{
    let w = usize::MAX + 1;
    let q = x / w;
    let r = x % w;
    lemma_fundamental_div_mod(x, w);
    lemma_mod_bound(x, w);
    if r + 1 < w {
        assert(x + 1 == q * w + (r + 1)) by (nonlinear_arith)
            requires
                x == w * q + r,
        ;
        lemma_fundamental_div_mod_converse(x + 1, w, q, r + 1);
    } else {
        assert(x + 1 == (q + 1) * w + 0) by (nonlinear_arith)
            requires
                x == w * q + r,
                r + 1 == w,
        ;
        lemma_fundamental_div_mod_converse(x + 1, w, q + 1, 0);
    }
}

proof fn lemma_wrapped_small(x: int)
    requires
        0 <= x <= usize::MAX,
    ensures
        wrapped(x) == x,
{
    lemma_small_mod(x as nat, (usize::MAX + 1) as nat);
}

fn has_id(list: &Vec<u64>, id: u64) -> (r: bool)
    ensures
        r == list@.contains(id),
{
    let mut i: usize = 0;
    while i < list.len()
        invariant
            i <= list@.len(),
            forall|k: int| 0 <= k < i ==> list@[k] != id,
        decreases list@.len() - i,
    {
        if list[i] == id {
            return true;
        }
        i += 1;
    }
    false
}

fn ids_without(list: &Vec<u64>, id: u64) -> (r: Vec<u64>)
    ensures
        r@ == replicas_without(list@, id),
{
    let mut out: Vec<u64> = Vec::new();
    let mut i: usize = 0;
    proof {
        reveal(Seq::filter);
        assert(list@.take(0) =~= Seq::<u64>::empty());
    }
    while i < list.len()
        invariant
            i <= list@.len(),
            out@ == replicas_without(list@.take(i as int), id),
        decreases list@.len() - i,
    {
        proof {
            reveal(Seq::filter);
            assert(list@.take(i + 1).drop_last() =~= list@.take(i as int));
            assert(list@.take(i + 1).last() == list@[i as int]);
        }
        if list[i] != id {
            out.push(list[i]);
        }
        i += 1;
    }
    assert(list@.take(list@.len() as int) =~= list@);
    out
}

impl Default for MasterServer {
    fn default() -> (r: Self)
        ensures
            r.wf(),
            r@ == new_master(),
    {
        MasterServer::new()
    }
}

impl MasterServer {
    pub closed spec fn wf(&self) -> bool {
        &&& self.files.wf()
        &&& self.chunks.wf()
        &&& self.servers.wf()
    }

    /// A master knows finitely many servers.
    pub proof fn lemma_finite(&self)
        requires
            self.wf(),
        ensures
            self@.servers.dom().finite(),
    {
        self.servers.lemma_keys();
    }

    pub fn new() -> (r: Self)
        ensures
            r.wf(),
            r@ == new_master(),
    {
        let r = MasterServer {
            files: OrdMap::new(),
            chunks: OrdMap::new(),
            servers: OrdMap::new(),
            next_chunk_id: 0,
            next_server_id: 0,
            rr_cursor: 0,
        };
        assert(r@ =~= new_master());
        r
    }

    /// The next chunk id to be handed out.
    pub fn next_chunk_id(&self) -> (r: ChunkId)
        ensures
            r == self@.next_chunk_id,
    {
        self.next_chunk_id
    }

    /// The next server id to be handed out.
    pub fn next_server_id(&self) -> (r: ServerId)
        ensures
            r == self@.next_server_id,
    {
        self.next_server_id
    }

    /// The servers that are online, in ascending order.
    pub fn online_server_ids(&self) -> (r: Vec<ServerId>)
        requires
            self.wf(),
        ensures
            r@ == online_ids(self@.servers),
    {
        let ghost ks = self.servers.keys();
        let ghost f = |id: ServerId| self@.servers[id].online;
        proof {
            self.servers.lemma_keys();
            reveal(Seq::filter);
            assert(ks.take(0) =~= Seq::<u64>::empty());
        }
        let n: usize = self.servers.len();
        let mut out: Vec<ServerId> = Vec::new();
        let mut i: usize = 0;
        while i < n
            invariant
                i <= n,
                self.wf(),
                ks == self.servers.keys(),
                n == ks.len(),
                f == (|id: ServerId| self@.servers[id].online),
                out@ == ks.take(i as int).filter(f),
            decreases n - i,
        {
            let id: u64 = *self.servers.key_at(i);
            let info: &ServerInfo = self.servers.value_at(i);
            proof {
                reveal(Seq::filter);
                assert(ks.take(i + 1).drop_last() =~= ks.take(i as int));
                assert(ks.take(i + 1).last() == id);
                assert(f(id) == info.online);
            }
            if info.online {
                out.push(id);
            }
            i += 1;
        }
        assert(ks.take(n as int) =~= ks);
        out
    }

    /// Why no chunks can be allocated at `path`, if so.
    fn refusal(&self, path: &String, chunk_size: u64) -> (r: Option<MasterError>)
        requires
            self.wf(),
        ensures
            r == allocate_refusal(self@, path@, chunk_size),
    {
        if chunk_size == 0 {
            return Some(MasterError::InvalidChunkSize);
        }
        if self.files.contains_key(path) {
            return Some(MasterError::AlreadyExists);
        }
        if self.online_server_ids().len() < REPLICATION_FACTOR {
            return Some(MasterError::NotEnoughServers);
        }
        None
    }

    /// Whether there are chunk ids left for a file of `len` bytes at `path`. A
    /// request that is refused needs none.
    pub fn has_ids_for(&self, path: &String, len: u64, chunk_size: u64) -> (r: bool)
        requires
            self.wf(),
        ensures
            r == (allocate_refusal(self@, path@, chunk_size) is None ==> self@.next_chunk_id
                + chunks_in(len as nat, chunk_size as nat) <= u64::MAX),
    {
        match self.refusal(path, chunk_size) {
            Some(_) => true,
            None => chunk_count(len, chunk_size) <= u64::MAX - self.next_chunk_id,
        }
    }

    /// Allocates the chunks of a new file of `len` bytes at `path`. Returns their
    /// ids and replicas in file order.
    pub fn allocate(&mut self, path: String, len: u64, chunk_size: u64) -> (r: Result<
        Vec<(ChunkId, ReplicaSet)>,
        MasterError,
    >)
        requires
            old(self).wf(),
            allocate_refusal(old(self)@, path@, chunk_size) is None ==> old(self)@.next_chunk_id
                + chunks_in(len as nat, chunk_size as nat) <= u64::MAX,
        ensures
            final(self).wf(),
            match allocate_refusal(old(self)@, path@, chunk_size) {
                Some(e) => {
                    &&& r == Err::<Vec<(ChunkId, ReplicaSet)>, MasterError>(e)
                    &&& final(self)@ == old(self)@
                },
                None => {
                    let n = chunks_in(len as nat, chunk_size as nat) as int;
                    &&& r is Ok
                    &&& placement_views(r->Ok_0@) == placements(old(self)@, n)
                    &&& final(self)@ == after_allocate(old(self)@, path@, n)
                },
            },
    {
        if let Some(e) = self.refusal(&path, chunk_size) {
            return Err(e);
        }
        let online: Vec<ServerId> = self.online_server_ids();
        let n: u64 = chunk_count(len, chunk_size);
        let ghost m = self@;
        let ghost ids = online@;
        let mut chunk_ids: Vec<ChunkId> = Vec::new();
        let mut result: Vec<(ChunkId, ReplicaSet)> = Vec::new();
        proof {
            lemma_wrapped_small(m.cursor as int);
            assert(chunks_with(m, 0) =~= m.chunks);
            assert(placement_views(result@) =~= placements(m, 0));
            assert(chunk_ids@ =~= fresh_ids(m, 0));
            self.servers.lemma_keys();
            lemma_online_ids(m.servers);
        }
        let mut k: u64 = 0;
        while k < n
            invariant
                k <= n,
                self.wf(),
                m.next_chunk_id + n <= u64::MAX,
                ids == online@,
                ids == online_ids(m.servers),
                ids.len() >= 2,
                forall|i: int|
                    0 <= i < ids.len() ==> m.servers.dom().contains(#[trigger] ids[i]),
                self.files@ == m.files,
                self.servers@ == m.servers,
                self.next_server_id == m.next_server_id,
                self.next_chunk_id == m.next_chunk_id + k,
                self.rr_cursor == wrapped(m.cursor + 2 * k),
                self.chunks@ == chunks_with(m, k as int),
                chunk_ids@ == fresh_ids(m, k as int),
                placement_views(result@) == placements(m, k as int),
            decreases n - k,
        {
            let ghost sofar = result@;
            let id: ChunkId = self.next_chunk_id;
            proof {
                lemma_wrapped_next(m.cursor + 2 * k);
                lemma_wrapped_next(m.cursor + 2 * k + 1);
                lemma_picks_in_range(ids, m.cursor, 2 * k);
                lemma_picks_in_range(ids, m.cursor, 2 * k + 1);
            }
            let first: ServerId = online[self.rr_cursor % online.len()];
            self.rr_cursor = self.rr_cursor.wrapping_add(1);
            let second: ServerId = online[self.rr_cursor % online.len()];
            self.rr_cursor = self.rr_cursor.wrapping_add(1);
            assert(first == pick(ids, m.cursor, 2 * k));
            assert(second == pick(ids, m.cursor, 2 * k + 1));
            let primary: Endpoint = self.address_of(first);
            let secondary: Endpoint = self.address_of(second);
            let mut replicas: Vec<ServerId> = Vec::new();
            replicas.push(first);
            replicas.push(second);
            assert(replicas@ =~= replicas_for(ids, m.cursor, k as int));
            let info = ChunkInfo { replicas, deleted: false };
            self.next_chunk_id = id + 1;
            let _old = self.chunks.insert(id, info);
            let set = ReplicaSet { primary, secondary: Some(secondary) };
            chunk_ids.push(id);
            result.push((id, set));
            k += 1;
            proof {
                assert(self.chunks@ =~= chunks_with(m, k as int));
                assert(chunk_ids@ =~= fresh_ids(m, k as int));
                assert(placement_views(result@) =~= placement_views(sofar).push((id, set@)));
                assert(placements(m, k as int) =~= placements(m, k - 1).push(
                    placements(m, k as int)[k - 1],
                ));
            }
        }
        let _old = self.files.insert(path, chunk_ids);
        Ok(result)
    }

    fn address_of(&self, s: ServerId) -> (r: Endpoint)
        requires
            self.wf(),
            self@.servers.dom().contains(s),
        ensures
            r@ == self@.servers[s].addr,
    {
        match self.servers.get(&s) {
            Some(info) => info.addr,
            None => Endpoint { addr: Addr::V4 { ip: [0, 0, 0, 0], port: 0 }, scope: 0 },
        }
    }

    fn live_replicas(&self, replicas: &Vec<ServerId>) -> (r: Vec<Endpoint>)
        requires
            self.wf(),
        ensures
            r@.map_values(|a: Endpoint| a@) == live_addresses(self@.servers, replicas@),
    {
        let ghost servers = self@.servers;
        let ghost f = |s: ServerId| is_online(servers, s);
        let ghost g = |s: ServerId| servers[s].addr;
        let ghost h = |a: Endpoint| a@;
        let ghost all = replicas@;
        let mut out: Vec<Endpoint> = Vec::new();
        let mut i: usize = 0;
        proof {
            reveal(Seq::filter);
            assert(all.take(0).filter(f).map_values(g) =~= Seq::<EndpointModel>::empty());
            assert(out@.map_values(h) =~= Seq::<EndpointModel>::empty());
        }
        while i < replicas.len()
            invariant
                i <= replicas@.len(),
                self.wf(),
                all == replicas@,
                servers == self@.servers,
                f == (|s: ServerId| is_online(servers, s)),
                g == (|s: ServerId| servers[s].addr),
                h == (|a: Endpoint| a@),
                out@.map_values(h) == all.take(i as int).filter(f).map_values(g),
            decreases replicas@.len() - i,
        {
            let s: ServerId = replicas[i];
            proof {
                reveal(Seq::filter);
                assert(all.take(i + 1).drop_last() =~= all.take(i as int));
                assert(all.take(i + 1).last() == s);
            }
            match self.servers.get(&s) {
                Some(info) => {
                    assert(f(s) == info.online);
                    if info.online {
                        let ghost before = out@;
                        out.push(info.addr);
                        proof {
                            let kept = all.take(i as int).filter(f);
                            assert(out@.map_values(h) =~= before.map_values(h).push(g(s)));
                            assert(kept.push(s).map_values(g) =~= kept.map_values(g).push(g(s)));
                        }
                    }
                },
                None => {
                    assert(!f(s));
                },
            }
            i += 1;
        }
        assert(all.take(all.len() as int) =~= all);
        out
    }

    /// Looks up the chunks of a file and the replicas of each that are online.
    pub fn lookup(&self, path: &String) -> (r: Result<Vec<(ChunkId, ReplicaSet)>, MasterError>)
        requires
            self.wf(),
        ensures
            match looked_up(self@, path@) {
                Ok(v) => r is Ok && placement_views(r->Ok_0@) == v,
                Err(e) => r == Err::<Vec<(ChunkId, ReplicaSet)>, MasterError>(e),
            },
    {
        let ids: &Vec<ChunkId> = match self.files.get(path) {
            Some(ids) => ids,
            None => {
                return Err(MasterError::NotFound);
            },
        };
        let ghost m = self@;
        let ghost f = |c: ChunkId| (c, in_write_order(chunk_addresses(m, c)));
        let mut result: Vec<(ChunkId, ReplicaSet)> = Vec::new();
        let mut i: usize = 0;
        assert(placement_views(result@) =~= ids@.take(0).map_values(f));
        while i < ids.len()
            invariant
                i <= ids@.len(),
                self.wf(),
                m == self@,
                m.files.dom().contains(path@),
                ids@ == m.files[path@],
                f == (|c: ChunkId| (c, in_write_order(chunk_addresses(m, c)))),
                forall|k: int| 0 <= k < i ==> chunk_addresses(m, #[trigger] ids@[k]).len() > 0,
                placement_views(result@) == ids@.take(i as int).map_values(f),
            decreases ids@.len() - i,
        {
            let c: ChunkId = ids[i];
            let info: &ChunkInfo = match self.chunks.get(&c) {
                Some(info) => info,
                None => {
                    assert(chunk_addresses(m, ids@[i as int]).len() == 0);
                    return Err(MasterError::NoLiveReplicas);
                },
            };
            let live: Vec<Endpoint> = self.live_replicas(&info.replicas);
            let ghost views = live@.map_values(|a: Endpoint| a@);
            assert(chunk_addresses(m, c) == views);
            if live.len() == 0 {
                assert(chunk_addresses(m, ids@[i as int]).len() == 0);
                return Err(MasterError::NoLiveReplicas);
            }
            let primary: Endpoint = live[0];
            let secondary: Option<Endpoint> = if live.len() > 1 {
                Some(live[1])
            } else {
                None
            };
            let set = ReplicaSet { primary, secondary };
            let ghost sofar = result@;
            result.push((c, set));
            proof {
                assert(views[0] == primary@);
                assert(set@ == in_write_order(views));
                assert(placement_views(result@) =~= placement_views(sofar).push((c, set@)));
                assert(ids@.take(i + 1).map_values(f) =~= ids@.take(i as int).map_values(f).push(
                    f(c),
                ));
            }
            i += 1;
        }
        assert(ids@.take(i as int) =~= ids@);
        Ok(result)
    }

    /// Removes a path from the namespace. Its chunks are marked, and dropped by
    /// their holders once they hear of it.
    pub fn delete(&mut self, path: &String) -> (r: Result<(), MasterError>)
        requires
            old(self).wf(),
        ensures
            final(self).wf(),
            if old(self)@.files.dom().contains(path@) {
                &&& r is Ok
                &&& final(self)@ == after_delete(old(self)@, path@)
            } else {
                &&& r == Err::<(), MasterError>(MasterError::NotFound)
                &&& final(self)@ == old(self)@
            },
    {
        let ghost m = self@;
        let ids: Vec<ChunkId> = match self.files.remove(path) {
            Some(ids) => ids,
            None => {
                assert(self.files@ =~= m.files);
                return Err(MasterError::NotFound);
            },
        };
        let mut i: usize = 0;
        assert(self.chunks@ =~= marked(m.chunks, ids@.take(0)));
        while i < ids.len()
            invariant
                i <= ids@.len(),
                self.wf(),
                ids@ == m.files[path@],
                self.files@ == m.files.remove(path@),
                self.servers@ == m.servers,
                self.next_chunk_id == m.next_chunk_id,
                self.next_server_id == m.next_server_id,
                self.rr_cursor == m.cursor,
                self.chunks@ == marked(m.chunks, ids@.take(i as int)),
            decreases ids@.len() - i,
        {
            let c: ChunkId = ids[i];
            match self.chunks.get_mut(&c) {
                Some(info) => {
                    info.deleted = true;
                },
                None => {},
            }
            proof {
                lemma_take_contains(ids@, i as int);
                assert(self.chunks@ =~= marked(m.chunks, ids@.take(i + 1)));
            }
            i += 1;
        }
        assert(ids@.take(i as int) =~= ids@);
        assert(self@ =~= after_delete(m, path@));
        Ok(())
    }

    /// Registers a new chunk server under its data-plane address.
    pub fn register(&mut self, addr: Endpoint, now: u64) -> (r: ServerId)
        requires
            old(self).wf(),
            old(self)@.next_server_id < u64::MAX,
        ensures
            final(self).wf(),
            r == old(self)@.next_server_id,
            final(self)@ == after_register(old(self)@, addr@, now),
    {
        let id: ServerId = self.next_server_id;
        self.next_server_id = id + 1;
        let _old = self.servers.insert(id, ServerInfo { addr, last_seen: now, online: true });
        id
    }

    /// Takes in the report of a chunk server: the ids of all chunks that it
    /// holds. A server that was thought to be offline is online again.
    pub fn heartbeat(
        &mut self,
        server_id: ServerId,
        chunks_held: &Vec<ChunkId>,
        now: u64,
    ) -> (r: HeartbeatResponse)
        requires
            old(self).wf(),
        ensures
            final(self).wf(),
            r.drop_chunks@ == to_drop(old(self)@, server_id, chunks_held@),
            final(self)@ == after_heartbeat(old(self)@, server_id, chunks_held@, now),
    {
        let ghost m = self@;
        match self.servers.get_mut(&server_id) {
            Some(info) => {
                info.last_seen = now;
                info.online = true;
            },
            None => {},
        }
        assert(self.servers@ =~= seen(m.servers, server_id, now));
        let drop_chunks: Vec<ChunkId> = self.unwanted(server_id, chunks_held);
        proof {
            let f = |c: ChunkId| !wanted(m, c, server_id);
            let g = |c: ChunkId| !wanted(self@, c, server_id);
            assert(f =~= g);
        }
        self.prune(server_id, chunks_held);
        assert(self@ =~= after_heartbeat(m, server_id, chunks_held@, now));
        HeartbeatResponse { drop_chunks }
    }

    fn unwanted(&self, server_id: ServerId, chunks_held: &Vec<ChunkId>) -> (r: Vec<ChunkId>)
        requires
            self.wf(),
        ensures
            r@ == to_drop(self@, server_id, chunks_held@),
    {
        let ghost all = chunks_held@;
        let ghost f = |c: ChunkId| !wanted(self@, c, server_id);
        let mut out: Vec<ChunkId> = Vec::new();
        let mut i: usize = 0;
        proof {
            reveal(Seq::filter);
            assert(all.take(0) =~= Seq::<ChunkId>::empty());
        }
        while i < chunks_held.len()
            invariant
                i <= chunks_held@.len(),
                self.wf(),
                all == chunks_held@,
                f == (|c: ChunkId| !wanted(self@, c, server_id)),
                out@ == all.take(i as int).filter(f),
            decreases chunks_held@.len() - i,
        {
            let c: ChunkId = chunks_held[i];
            proof {
                reveal(Seq::filter);
                assert(all.take(i + 1).drop_last() =~= all.take(i as int));
                assert(all.take(i + 1).last() == c);
            }
            let keep: bool = match self.chunks.get(&c) {
                Some(info) => !info.deleted && has_id(&info.replicas, server_id),
                None => false,
            };
            assert(f(c) == !keep);
            if !keep {
                out.push(c);
            }
            i += 1;
        }
        assert(all.take(all.len() as int) =~= all);
        out
    }

    /// Takes note of the deleted chunks that a server no longer reports, and
    /// forgets those that nobody holds any more.
    fn prune(&mut self, server_id: ServerId, chunks_held: &Vec<ChunkId>)
        requires
            old(self).wf(),
        ensures
            final(self).wf(),
            final(self)@ == (MasterModel {
                chunks: chunks_after_report(old(self)@.chunks, server_id, chunks_held@),
                ..old(self)@
            }),
    {
        let ghost held = chunks_held@;
        let ghost before = self.chunks@;
        let ghost ks = self.chunks.keys();
        proof {
            self.chunks.lemma_keys();
        }
        let n: usize = self.chunks.len();
        let mut forget: Vec<ChunkId> = Vec::new();
        let mut i: usize = 0;
        while i < n
            invariant
                i <= n,
                n == ks.len(),
                held == chunks_held@,
                before == old(self)@.chunks,
                self.wf(),
                self.chunks.keys() == ks,
                self@ == (MasterModel { chunks: self.chunks@, ..old(self)@ }),
                self.chunks@.dom() == before.dom(),
                forall|k: int|
                    0 <= k < ks.len() ==> before.dom().contains(#[trigger] ks[k])
                        && self.chunks@[ks[k]] == (if k < i {
                        after_report(before[ks[k]], ks[k], server_id, held)
                    } else {
                        before[ks[k]]
                    }),
                forall|k: int, j: int|
                    0 <= k < j < ks.len() ==> #[trigger] ks[k] != #[trigger] ks[j],
                forall|x: ChunkId| before.dom().contains(x) ==> ks.contains(x),
                forall|k: int|
                    0 <= k < i ==> (forget@.contains(#[trigger] ks[k]) <==> is_forgotten(
                        before[ks[k]],
                        ks[k],
                        server_id,
                        held,
                    )),
                forall|x: ChunkId| #[trigger]
                    forget@.contains(x) ==> exists|k: int| 0 <= k < i && #[trigger] ks[k] == x,
            decreases n - i,
        {
            let c: ChunkId = *self.chunks.key_at(i);
            let gone: bool = !has_id(chunks_held, c);
            let ghost listed = forget@;
            let info: &mut ChunkInfo = self.chunks.value_at_mut(i);
            let mut empty: bool = false;
            if info.deleted && gone && has_id(&info.replicas, server_id) {
                let left: Vec<ServerId> = ids_without(&info.replicas, server_id);
                empty = left.len() == 0;
                info.replicas = left;
            }
            if empty {
                forget.push(c);
            }
            proof {
                assert(self.chunks@.dom() =~= before.dom());
                assert(empty == is_forgotten(before[c], c, server_id, held));
                assert forall|x: ChunkId| #[trigger] forget@.contains(x) <==> listed.contains(x)
                    || (empty && x == c) by {
                    if listed.contains(x) {
                        let j = choose|j: int| 0 <= j < listed.len() && listed[j] == x;
                        assert(forget@[j] == x);
                    }
                    if empty {
                        assert(forget@[listed.len() as int] == c);
                    }
                    if forget@.contains(x) && !listed.contains(x) {
                        let j = choose|j: int| 0 <= j < forget@.len() && forget@[j] == x;
                        if j < listed.len() {
                            assert(listed[j] == x);
                        }
                    }
                }
                assert(ks[i as int] == c);
                assert(!listed.contains(c)) by {
                    if listed.contains(c) {
                        let k = choose|k: int| 0 <= k < i && #[trigger] ks[k] == c;
                        assert(ks[k] != ks[i as int]);
                    }
                }
            }
            i += 1;
        }
        let ghost pruned = self.chunks@;
        let mut j: usize = 0;
        while j < forget.len()
            invariant
                j <= forget@.len(),
                self.wf(),
                self@ == (MasterModel { chunks: self.chunks@, ..old(self)@ }),
                forall|x: ChunkId| #[trigger]
                    self.chunks@.dom().contains(x) <==> pruned.dom().contains(x)
                        && !forget@.take(j as int).contains(x),
                forall|x: ChunkId| #[trigger]
                    self.chunks@.dom().contains(x) ==> self.chunks@[x] == pruned[x],
            decreases forget@.len() - j,
        {
            let c: ChunkId = forget[j];
            let _old = self.chunks.remove(&c);
            proof {
                lemma_take_contains(forget@, j as int);
            }
            j += 1;
        }
        proof {
            assert(forget@.take(j as int) =~= forget@);
            let want = chunks_after_report(before, server_id, held);
            assert forall|x: ChunkId| self.chunks@.dom().contains(x) <==> want.dom().contains(x) by {
                if before.dom().contains(x) {
                    let k = choose|k: int| 0 <= k < ks.len() && ks[k] == x;
                    assert(forget@.contains(ks[k]) <==> is_forgotten(
                        before[ks[k]],
                        ks[k],
                        server_id,
                        held,
                    ));
                }
            }
            assert forall|x: ChunkId| want.dom().contains(x) implies self.chunks@[x] == want[x] by {
                let k = choose|k: int| 0 <= k < ks.len() && ks[k] == x;
                assert(pruned[ks[k]] == after_report(before[ks[k]], ks[k], server_id, held));
            }
            assert(self.chunks@ =~= want);
        }
    }

    /// Marks the servers offline that have missed too many heartbeats.
    pub fn detect_timeouts(&mut self, now: u64)
        requires
            old(self).wf(),
        ensures
            final(self).wf(),
            final(self)@ == after_timeouts(old(self)@, now),
    {
        let ghost m = self@;
        let ghost before = self.servers@;
        let ghost ks = self.servers.keys();
        proof {
            self.servers.lemma_keys();
        }
        let n: usize = self.servers.len();
        let mut i: usize = 0;
        while i < n
            invariant
                i <= n,
                n == ks.len(),
                m == old(self)@,
                before == m.servers,
                self.wf(),
                self.servers.keys() == ks,
                self@ == (MasterModel { servers: self.servers@, ..m }),
                self.servers@.dom() == before.dom(),
                forall|k: int|
                    0 <= k < ks.len() ==> before.dom().contains(#[trigger] ks[k])
                        && self.servers@[ks[k]] == (if k < i {
                        (ServerModel {
                            online: before[ks[k]].online && !is_overdue(before[ks[k]], now),
                            ..before[ks[k]]
                        })
                    } else {
                        before[ks[k]]
                    }),
                forall|k: int, j: int|
                    0 <= k < j < ks.len() ==> #[trigger] ks[k] != #[trigger] ks[j],
                forall|x: ServerId| before.dom().contains(x) ==> ks.contains(x),
            decreases n - i,
        {
            let info: &mut ServerInfo = self.servers.value_at_mut(i);
            if info.online && now >= info.last_seen && now - info.last_seen >= HEARTBEAT_INTERVAL
                * MISSED_HEARTBEATS {
                info.online = false;
            }
            assert(self.servers@.dom() =~= before.dom());
            i += 1;
        }
        assert(self.servers@ =~= after_timeouts(m, now).servers);
    }
}

/// The chunks with those of `ids` marked as deleted.
spec fn marked(chunks: Map<ChunkId, ChunkModel>, ids: Seq<ChunkId>) -> Map<ChunkId, ChunkModel> {
    chunks.map_entries(
        |c: ChunkId, info: ChunkModel|
            ChunkModel { deleted: info.deleted || ids.contains(c), ..info },
    )
}

proof fn lemma_take_contains(s: Seq<u64>, i: int)
    requires
        0 <= i < s.len(),
    ensures
        forall|x: u64| #[trigger]
            s.take(i + 1).contains(x) <==> s.take(i).contains(x) || x == s[i],
{
    let a = s.take(i);
    let b = s.take(i + 1);
    assert forall|x: u64| #[trigger] b.contains(x) <==> a.contains(x) || x == s[i] by {
        if a.contains(x) {
            let j = choose|j: int| 0 <= j < a.len() && a[j] == x;
            assert(b[j] == x);
        }
        assert(b[i] == s[i]);
        if b.contains(x) && x != s[i] {
            let j = choose|j: int| 0 <= j < b.len() && b[j] == x;
            assert(a[j] == x);
        }
    }
}

proof fn lemma_picks_in_range(online: Seq<ServerId>, cursor: usize, steps: int)
    requires
        online.len() > 0,
        steps >= 0,
    ensures
        0 <= wrapped(cursor + steps) % online.len() as int,
        wrapped(cursor + steps) % (online.len() as int) < online.len(),
{
    lemma_mod_bound(wrapped(cursor + steps), online.len() as int);
}

/// The list of online servers names those that are online, each once.
pub proof fn lemma_online_ids(servers: Map<ServerId, ServerModel>)
    requires
        servers.dom().finite(),
    ensures
        ascending::<u64>(online_ids(servers)),
        forall|s: ServerId| #[trigger] online_ids(servers).contains(s) <==> is_online(servers, s),
        forall|i: int|
            0 <= i < online_ids(servers).len() ==> is_online(servers, #[trigger] online_ids(
                servers,
            )[i]),
{
    let ks = sorted_keys::<u64, ServerModel>(servers);
    let f = |id: ServerId| servers[id].online;
    lemma_sorted_keys_lists::<u64, ServerModel>(servers);
    lemma_filtered::<u64>(ks, f);
    let on = online_ids(servers);
    assert forall|s: ServerId| #[trigger] on.contains(s) <==> is_online(servers, s) by {
        assert(ks.contains(s) <==> servers.dom().contains(s));
    }
    assert forall|i: int| 0 <= i < on.len() implies is_online(servers, #[trigger] on[i]) by {
        assert(on.contains(on[i]));
    }
}

} // verus!
