//! What a client gets back of a file that it put, over the master and all chunk
//! servers.

use vstd::prelude::*;

use crate::gfs::chunk::after_request;
use crate::gfs::chunk::step_of;
use crate::gfs::chunk::ChunkMap;
use crate::gfs::chunk::StepModel;
use crate::gfs::client::in_a_row;
use crate::gfs::client::law_pieces_make_the_file;
use crate::gfs::client::pieces;
use crate::gfs::data::hop_of;
use crate::gfs::data::AddrModel;
use crate::gfs::data::ChunkId;
use crate::gfs::data::DataRequestModel;
use crate::gfs::data::DataResponseModel;
use crate::gfs::data::EndpointModel;
use crate::gfs::master::after_allocate;
use crate::gfs::master::after_delete;
use crate::gfs::master::after_heartbeat;
use crate::gfs::master::after_register;
use crate::gfs::master::after_timeouts;
use crate::gfs::master::allocate_refusal;
use crate::gfs::master::chunk_addresses;
use crate::gfs::master::fresh_ids;
use crate::gfs::master::in_write_order;
use crate::gfs::master::is_online;
use crate::gfs::master::looked_up;
use crate::gfs::master::online_ids;
use crate::gfs::master::placements;
use crate::gfs::master::replicas_for;
use crate::gfs::master::to_drop;
use crate::gfs::master::MasterModel;
use crate::gfs::rules::chunk_sound;
use crate::gfs::rules::file_sound;
use crate::gfs::rules::law_chunks_of_files_are_kept;
use crate::gfs::rules::law_failover;
use crate::gfs::rules::lemma_pick_online;
use crate::gfs::rules::sound;
use crate::gfs::types::chunks_in;
use crate::gfs::types::ReplicaModel;
use crate::gfs::types::ServerId;

verus! {

// The chunk servers together.

/// What the chunk servers hold, by address.
pub type Holdings = Map<AddrModel, ChunkMap>;

/// What the server at `a` holds. Where nobody listens there is nothing.
pub open spec fn held_at(h: Holdings, a: AddrModel) -> ChunkMap {
    if h.dom().contains(a) {
        h[a]
    } else {
        Map::empty()
    }
}

/// What the servers hold once the server at `a` has taken in a request.
pub open spec fn asked(h: Holdings, a: AddrModel, req: DataRequestModel) -> Holdings {
    h.insert(a, after_request(held_at(h, a), req))
}

/// What the servers hold once a chunk has been written to its primary, which
/// forwarded it to its secondary.
pub open spec fn after_write(
    h: Holdings,
    id: ChunkId,
    replicas: ReplicaModel,
    payload: Seq<u8>,
) -> Holdings {
    let first = asked(
        h,
        replicas.primary.addr,
        DataRequestModel::Write(id, hop_of(replicas.secondary), payload),
    );
    match hop_of(replicas.secondary) {
        Some(a) => asked(first, a, DataRequestModel::Write(id, None, payload)),
        None => first,
    }
}

/// What the servers hold once each of `parts` has been written where it is placed.
pub open spec fn after_put(
    h: Holdings,
    placed: Seq<(ChunkId, ReplicaModel)>,
    parts: Seq<Seq<u8>>,
) -> Holdings
    decreases placed.len(),
{
    if placed.len() == 0 {
        h
    } else {
        after_write(
            after_put(h, placed.drop_last(), parts.drop_last()),
            placed.last().0,
            placed.last().1,
            parts.last(),
        )
    }
}

/// The bytes that the server at `a` answers a read of a chunk with, if it does.
pub open spec fn read_at(h: Holdings, a: AddrModel, id: ChunkId) -> Option<Seq<u8>> {
    match step_of(held_at(h, a), DataRequestModel::Read(id)) {
        StepModel::Reply(DataResponseModel::Data(d)) => Some(d),
        _ => None,
    }
}

/// Whether a chunk can be read from all of its replicas.
pub open spec fn readable(h: Holdings, id: ChunkId, replicas: ReplicaModel, d: Seq<u8>) -> bool {
    &&& read_at(h, replicas.primary.addr, id) == Some(d)
    &&& hop_of(replicas.secondary) matches Some(a) ==> read_at(h, a, id) == Some(d)
}

proof fn lemma_put_is_readable(
    h: Holdings,
    placed: Seq<(ChunkId, ReplicaModel)>,
    parts: Seq<Seq<u8>>,
    j: int,
)
    requires
        placed.len() == parts.len(),
        0 <= j < placed.len(),
        forall|i: int, k: int|
            0 <= i < k < placed.len() ==> (#[trigger] placed[i]).0 != (#[trigger] placed[k]).0,
    ensures
        readable(after_put(h, placed, parts), placed[j].0, placed[j].1, parts[j]),
    decreases placed.len(),
{
    let front = placed.drop_last();
    let last = placed.last();
    if j < front.len() {
        lemma_put_is_readable(h, front, parts.drop_last(), j);
        assert(front[j] == placed[j]);
        assert(placed[j].0 != placed[placed.len() - 1].0);
    }
}

// What the master remembers.

/// Whether `later` has the file `path` as `m` has it: the same chunks on the same
/// servers, and those under the same addresses. Which of them are online may
/// differ.
pub open spec fn same_file(m: MasterModel, later: MasterModel, path: Seq<char>) -> bool {
    &&& m.files.dom().contains(path)
    &&& later.files.dom().contains(path)
    &&& later.files[path] == m.files[path]
    &&& forall|i: int|
        0 <= i < m.files[path].len() ==> {
            let c = #[trigger] m.files[path][i];
            later.chunks.dom().contains(c) && later.chunks[c] == m.chunks[c]
        }
    &&& forall|s: ServerId| #[trigger]
        m.servers.dom().contains(s) ==> later.servers.dom().contains(s) && later.servers[s].addr
            == m.servers[s].addr
}

/// Nothing that happens to the master changes a file: not an allocation or
/// deletion of another file, nor a registration, a heartbeat of any server with
/// any report, or the passing of time.
pub proof fn law_file_stays(
    m: MasterModel,
    path: Seq<char>,
    other: Seq<char>,
    n: int,
    addr: EndpointModel,
    s: ServerId,
    held: Seq<ChunkId>,
    now: u64,
)
    requires
        sound(m),
        m.files.dom().contains(path),
        other != path,
        0 <= n,
        m.next_chunk_id + n <= u64::MAX,
        m.next_server_id < u64::MAX,
    ensures
        same_file(m, after_allocate(m, other, n), path),
        m.files.dom().contains(other) ==> same_file(m, after_delete(m, other), path),
        same_file(m, after_register(m, addr, now), path),
        same_file(m, after_heartbeat(m, s, held, now), path),
        same_file(m, after_timeouts(m, now), path),
{
    let ids = m.files[path];
    assert(file_sound(m, path));
    assert forall|i: int| 0 <= i < ids.len() implies {
        let c = #[trigger] ids[i];
        &&& m.chunks.dom().contains(c)
        &&& !m.chunks[c].deleted
        &&& c < m.next_chunk_id
        &&& m.files.dom().contains(other) ==> !m.files[other].contains(c)
    } by {
        assert(chunk_sound(m, ids[i]));
        if m.files.dom().contains(other) && m.files[other].contains(ids[i]) {
            let j = choose|j: int| 0 <= j < m.files[other].len() && m.files[other][j] == ids[i];
            assert(m.files[path][i] == m.files[other][j]);
        }
    }
    assert forall|sid: ServerId| #[trigger] m.servers.dom().contains(sid) implies sid
        != m.next_server_id by {}
    if m.files.dom().contains(other) {
        let later = after_delete(m, other);
        assert forall|i: int| 0 <= i < ids.len() implies {
            let c = #[trigger] ids[i];
            later.chunks.dom().contains(c) && later.chunks[c] == m.chunks[c]
        } by {
            assert(!m.files[other].contains(ids[i]));
        }
        assert(same_file(m, later, path));
    }
}

/// A file that stayed the same twice stayed the same.
pub proof fn law_file_stays_on(
    m: MasterModel,
    between: MasterModel,
    later: MasterModel,
    path: Seq<char>,
)
    requires
        same_file(m, between, path),
        same_file(between, later, path),
    ensures
        same_file(m, later, path),
{
    assert forall|i: int| 0 <= i < m.files[path].len() implies {
        let c = #[trigger] m.files[path][i];
        later.chunks.dom().contains(c) && later.chunks[c] == m.chunks[c]
    } by {
        let c = between.files[path][i];
        assert(later.chunks[c] == between.chunks[c]);
    }
    assert forall|s: ServerId| #[trigger] m.servers.dom().contains(s) implies later.servers.dom()
        .contains(s) && later.servers[s].addr == m.servers[s].addr by {
        assert(between.servers.dom().contains(s));
    }
}

/// A server that does what the master tells it on a heartbeat can still be read
/// for every chunk of a file that it should hold.
pub proof fn law_drops_spare_files(
    m: MasterModel,
    path: Seq<char>,
    i: int,
    s: ServerId,
    held: Seq<ChunkId>,
    chunks: ChunkMap,
)
    requires
        sound(m),
        m.files.dom().contains(path),
        0 <= i < m.files[path].len(),
        m.chunks[m.files[path][i]].replicas.contains(s),
    ensures
        ({
            let left = chunks.remove_keys(to_drop(m, s, held).to_set());
            step_of(left, DataRequestModel::Read(m.files[path][i])) == step_of(
                chunks,
                DataRequestModel::Read(m.files[path][i]),
            )
        }),
{
    law_chunks_of_files_are_kept(m, path, i, s, held, 0);
}

// Put, then get.

/// Whether one of the servers that should hold a chunk is online.
pub open spec fn some_replica_online(m: MasterModel, c: ChunkId) -> bool {
    exists|s: ServerId| #[trigger]
        m.chunks[c].replicas.contains(s) && is_online(m.servers, s)
}

/// A file that was put is got back. The client cuts the file, allocates it and
/// writes each chunk where the master placed it. Whatever the master hears after
/// that, as long as it has the file: it finds the file exactly if one replica of
/// each chunk is online, and each replica that it names then answers with the bytes
/// of the chunk, so that the answers in a row are the file.
pub proof fn law_put_file_is_got(
    m: MasterModel,
    h: Holdings,
    path: Seq<char>,
    chunk_size: u64,
    bytes: Seq<u8>,
    later: MasterModel,
)
    requires
        sound(m),
        allocate_refusal(m, path, chunk_size) is None,
        m.next_chunk_id + chunks_in(bytes.len(), chunk_size as nat) <= u64::MAX,
        same_file(
            after_allocate(m, path, chunks_in(bytes.len(), chunk_size as nat) as int),
            later,
            path,
        ),
    ensures
        ({
            let n = chunks_in(bytes.len(), chunk_size as nat) as int;
            let parts = pieces(bytes, chunk_size as int);
            let h2 = after_put(h, placements(m, n), parts);
            let ids = fresh_ids(m, n);
            &&& looked_up(later, path) is Ok <==> (forall|k: int|
                0 <= k < n ==> some_replica_online(later, #[trigger] ids[k]))
            &&& looked_up(later, path) matches Ok(found) ==> {
                &&& found.len() == n
                &&& forall|k: int|
                    0 <= k < n ==> readable(
                        h2,
                        (#[trigger] found[k]).0,
                        found[k].1,
                        parts[k],
                    )
                &&& in_a_row(
                    found.map_values(
                        |e: (ChunkId, ReplicaModel)| read_at(h2, e.1.primary.addr, e.0)->Some_0,
                    ),
                ) == bytes
            }
        }),
{
    let n = chunks_in(bytes.len(), chunk_size as nat) as int;
    let parts = pieces(bytes, chunk_size as int);
    let placed = placements(m, n);
    let h2 = after_put(h, placed, parts);
    let ids = fresh_ids(m, n);
    let m2 = after_allocate(m, path, n);
    assert(later.files[path] == ids);
    assert forall|k: int| 0 <= k < n implies {
        let c = #[trigger] ids[k];
        let live = chunk_addresses(later, c);
        &&& live.len() > 0 <==> some_replica_online(later, c)
        &&& live.len() > 0 ==> readable(h2, c, in_write_order(live), parts[k])
    } by {
        let c = ids[k];
        assert(m2.files[path][k] == c);
        let r = replicas_for(online_ids(m.servers), m.cursor, k);
        assert(later.chunks[c].replicas == r);
        lemma_pick_online(m, 2 * k);
        lemma_pick_online(m, 2 * k + 1);
        assert(m.servers.dom().contains(r[0]) && m.servers.dom().contains(r[1]));
        assert(m2.servers.dom().contains(r[0]) && m2.servers.dom().contains(r[1]));
        law_failover(later, c);
        lemma_put_is_readable(h, placed, parts, k);
        assert(placed[k].0 == c);
        assert(r.contains(r[0]) && r.contains(r[1]));
        if some_replica_online(later, c) {
            let s = choose|s: ServerId| r.contains(s) && is_online(later.servers, s);
            let i = choose|i: int| 0 <= i < r.len() && r[i] == s;
        }
    }
    if looked_up(later, path) is Ok {
        let found = looked_up(later, path)->Ok_0;
        let f = |e: (ChunkId, ReplicaModel)| read_at(h2, e.1.primary.addr, e.0)->Some_0;
        assert forall|k: int| 0 <= k < n implies readable(
            h2,
            (#[trigger] found[k]).0,
            found[k].1,
            parts[k],
        ) by {
            assert(found[k].0 == ids[k]);
            assert(chunk_addresses(later, later.files[path][k]).len() > 0);
        }
        assert(found.map_values(f) =~= parts);
        law_pieces_make_the_file(bytes, chunk_size as int);
    } else {
        let k = choose|k: int|
            0 <= k < ids.len() && chunk_addresses(later, #[trigger] ids[k]).len() == 0;
        assert(!some_replica_online(later, ids[k]));
    }
    assert forall|k: int|
        looked_up(later, path) is Ok && 0 <= k < n implies some_replica_online(
        later,
        #[trigger] ids[k],
    ) by {
        assert(chunk_addresses(later, later.files[path][k]).len() > 0);
    }
}

} // verus!
