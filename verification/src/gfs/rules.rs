//! What every operation of the master keeps, and what the operations do to each
//! other.

use vstd::arithmetic::div_mod::*;
use vstd::prelude::*;

use crate::gfs::data::ChunkId;
use crate::gfs::data::Endpoint;
use crate::gfs::data::EndpointModel;
use crate::gfs::master::after_allocate;
use crate::gfs::master::after_delete;
use crate::gfs::master::after_heartbeat;
use crate::gfs::master::after_register;
use crate::gfs::master::after_timeouts;
use crate::gfs::master::all_live;
use crate::gfs::master::allocate_refusal;
use crate::gfs::master::both_addresses;
use crate::gfs::master::chunk_addresses;
use crate::gfs::master::fresh_ids;
use crate::gfs::master::in_write_order;
use crate::gfs::master::is_online;
use crate::gfs::master::is_overdue;
use crate::gfs::master::lemma_online_ids;
use crate::gfs::master::live_addresses;
use crate::gfs::master::looked_up;
use crate::gfs::master::new_master;
use crate::gfs::master::online_ids;
use crate::gfs::master::pick;
use crate::gfs::master::placements;
use crate::gfs::master::replicas_for;
use crate::gfs::master::replicas_without;
use crate::gfs::master::to_drop;
use crate::gfs::master::wanted;
use crate::gfs::master::wrapped;
use crate::gfs::master::MasterModel;
use crate::gfs::master::MasterServer;
use crate::gfs::master::ServerModel;
use crate::gfs::types::chunks_in;
use crate::gfs::types::placement_views;
use crate::gfs::types::HeartbeatResponse;
use crate::gfs::types::MasterError;
use crate::gfs::types::ReplicaModel;
use crate::gfs::types::ReplicaSet;
use crate::gfs::types::ServerId;
use crate::gfs::types::CHUNK_SIZE;
use crate::gfs::types::HEARTBEAT_INTERVAL;
use crate::gfs::types::MISSED_HEARTBEATS;
use crate::gfs::types::REPLICATION_FACTOR;

verus! {

// The invariant.

/// A chunk was handed out, its replicas are registered servers, and unless it is
/// deleted it has two of them.
pub open spec fn chunk_sound(m: MasterModel, c: ChunkId) -> bool {
    let info = m.chunks[c];
    &&& c < m.next_chunk_id
    &&& info.replicas.len() > 0
    &&& !info.deleted ==> info.replicas.len() == 2
    &&& forall|i: int|
        0 <= i < info.replicas.len() ==> m.servers.dom().contains(#[trigger] info.replicas[i])
}

/// The chunks of a file are known and not deleted.
pub open spec fn file_sound(m: MasterModel, path: Seq<char>) -> bool {
    let ids = m.files[path];
    forall|i: int|
        0 <= i < ids.len() ==> m.chunks.dom().contains(#[trigger] ids[i])
            && !m.chunks[ids[i]].deleted
}

/// No chunk belongs to two files, or twice to one.
pub open spec fn chunks_unshared(files: Map<Seq<char>, Seq<ChunkId>>) -> bool {
    forall|p: Seq<char>, q: Seq<char>, i: int, j: int|
        #![trigger files[p][i], files[q][j]]
        files.dom().contains(p) && files.dom().contains(q) && 0 <= i < files[p].len() && 0 <= j
            < files[q].len() && files[p][i] == files[q][j] ==> p == q && i == j
}

/// Whether `c` is the `i`-th chunk of the file `p`.
pub open spec fn file_has(
    files: Map<Seq<char>, Seq<ChunkId>>,
    p: Seq<char>,
    i: int,
    c: ChunkId,
) -> bool {
    files.dom().contains(p) && 0 <= i < files[p].len() && files[p][i] == c
}

/// Whether a chunk belongs to a file.
pub open spec fn in_a_file(files: Map<Seq<char>, Seq<ChunkId>>, c: ChunkId) -> bool {
    exists|p: Seq<char>, i: int| #[trigger] file_has(files, p, i, c)
}

/// The invariant of the master.
pub open spec fn sound(m: MasterModel) -> bool {
    &&& m.servers.dom().finite()
    &&& forall|s: ServerId| #[trigger] m.servers.dom().contains(s) ==> s < m.next_server_id
    &&& forall|c: ChunkId| #[trigger] m.chunks.dom().contains(c) ==> chunk_sound(m, c)
    &&& forall|p: Seq<char>| #[trigger] m.files.dom().contains(p) ==> file_sound(m, p)
    &&& chunks_unshared(m.files)
    &&& forall|c: ChunkId| #[trigger]
        m.chunks.dom().contains(c) && !m.chunks[c].deleted ==> in_a_file(m.files, c)
}

/// A master that knows nothing yet satisfies the invariant.
pub proof fn law_start_is_sound()
    ensures
        sound(new_master()),
{
}

/// The cursor points at a server that is online.
pub proof fn lemma_pick_online(m: MasterModel, steps: int)
    requires
        m.servers.dom().finite(),
        online_ids(m.servers).len() > 0,
    ensures
        is_online(m.servers, pick(online_ids(m.servers), m.cursor, steps)),
{
    let online = online_ids(m.servers);
    let at = wrapped(m.cursor + steps);
    lemma_online_ids(m.servers);
    lemma_mod_bound(at, online.len() as int);
    assert(is_online(m.servers, online[at % online.len() as int]));
}

/// Allocating a file keeps the invariant.
pub proof fn law_allocate_keeps_sound(m: MasterModel, path: Seq<char>, chunk_size: u64, n: int)
    requires
        sound(m),
        allocate_refusal(m, path, chunk_size) is None,
        0 <= n,
        m.next_chunk_id + n <= u64::MAX,
    ensures
        sound(after_allocate(m, path, n)),
{
    let m2 = after_allocate(m, path, n);
    let online = online_ids(m.servers);
    assert forall|c: ChunkId| #[trigger] m2.chunks.dom().contains(c) implies chunk_sound(
        m2,
        c,
    ) by {
        let k = c - m.next_chunk_id;
        if 0 <= k < n {
            lemma_pick_online(m, 2 * k);
            lemma_pick_online(m, 2 * k + 1);
            assert(m2.chunks[c].replicas == replicas_for(online, m.cursor, k));
        } else {
            assert(m.chunks.dom().contains(c));
            assert(chunk_sound(m, c));
            assert(m2.chunks[c] == m.chunks[c]);
        }
    }
    assert forall|p: Seq<char>| #[trigger] m2.files.dom().contains(p) implies file_sound(
        m2,
        p,
    ) by {
        let ids = m2.files[p];
        assert forall|i: int| 0 <= i < ids.len() implies m2.chunks.dom().contains(
            #[trigger] ids[i],
        ) && !m2.chunks[ids[i]].deleted by {
            if p != path {
                assert(m.files.dom().contains(p));
                assert(m.chunks.dom().contains(m.files[p][i]));
                assert(chunk_sound(m, m.files[p][i]));
            }
        }
    }
    assert forall|c: ChunkId| #[trigger]
        m2.chunks.dom().contains(c) && !m2.chunks[c].deleted implies in_a_file(m2.files, c) by {
        let k = c - m.next_chunk_id;
        if 0 <= k < n {
            assert(file_has(m2.files, path, k, c));
        } else {
            assert(m.chunks.dom().contains(c));
            let (p, i) = choose|p: Seq<char>, i: int| #[trigger] file_has(m.files, p, i, c);
            assert(file_has(m2.files, p, i, c));
        }
    }
    assert(chunks_unshared(m2.files)) by {
        assert forall|p: Seq<char>, q: Seq<char>, i: int, j: int|
            #![trigger m2.files[p][i], m2.files[q][j]]
            m2.files.dom().contains(p) && m2.files.dom().contains(q) && 0 <= i
                < m2.files[p].len() && 0 <= j < m2.files[q].len() && m2.files[p][i]
                == m2.files[q][j] implies p == q && i == j by {
            if p != path {
                assert(m.files.dom().contains(p));
                assert(m2.files[p] == m.files[p]);
                assert(m.chunks.dom().contains(m.files[p][i]));
                assert(chunk_sound(m, m.files[p][i]));
            }
            if q != path {
                assert(m.files.dom().contains(q));
                assert(m2.files[q] == m.files[q]);
                assert(m.chunks.dom().contains(m.files[q][j]));
                assert(chunk_sound(m, m.files[q][j]));
            }
        }
    }
}

/// Deleting a file keeps the invariant.
pub proof fn law_delete_keeps_sound(m: MasterModel, path: Seq<char>)
    requires
        sound(m),
        m.files.dom().contains(path),
    ensures
        sound(after_delete(m, path)),
{
    let m2 = after_delete(m, path);
    assert forall|c: ChunkId| #[trigger] m2.chunks.dom().contains(c) implies chunk_sound(
        m2,
        c,
    ) by {
        assert(m.chunks.dom().contains(c));
        assert(chunk_sound(m, c));
    }
    assert forall|p: Seq<char>| #[trigger] m2.files.dom().contains(p) implies file_sound(
        m2,
        p,
    ) by {
        let ids = m.files[p];
        assert(m.files.dom().contains(p));
        assert forall|i: int| 0 <= i < ids.len() implies m2.chunks.dom().contains(
            #[trigger] ids[i],
        ) && !m2.chunks[ids[i]].deleted by {
            assert(m.chunks.dom().contains(ids[i]));
            if m.files[path].contains(ids[i]) {
                let j = choose|j: int| 0 <= j < m.files[path].len() && m.files[path][j] == ids[i];
                assert(m.files[p][i] == m.files[path][j]);
            }
        }
    }
    assert forall|c: ChunkId| #[trigger]
        m2.chunks.dom().contains(c) && !m2.chunks[c].deleted implies in_a_file(m2.files, c) by {
        assert(m.chunks.dom().contains(c));
        let (p, i) = choose|p: Seq<char>, i: int| #[trigger] file_has(m.files, p, i, c);
        assert(m.files[path].contains(c) || p != path);
        assert(file_has(m2.files, p, i, c));
    }
}

/// Registering a server keeps the invariant.
pub proof fn law_register_keeps_sound(m: MasterModel, addr: EndpointModel, now: u64)
    requires
        sound(m),
        m.next_server_id < u64::MAX,
    ensures
        sound(after_register(m, addr, now)),
        !m.servers.dom().contains(m.next_server_id),
{
    let m2 = after_register(m, addr, now);
    assert forall|c: ChunkId| #[trigger] m2.chunks.dom().contains(c) implies chunk_sound(
        m2,
        c,
    ) by {
        assert(chunk_sound(m, c));
        let r = m.chunks[c].replicas;
        assert forall|i: int| 0 <= i < r.len() implies m2.servers.dom().contains(
            #[trigger] r[i],
        ) by {
            assert(m.servers.dom().contains(r[i]));
        }
    }
    assert forall|p: Seq<char>| #[trigger] m2.files.dom().contains(p) implies file_sound(
        m2,
        p,
    ) by {
        assert(file_sound(m, p));
    }
}

/// A filtered list holds those that pass.
proof fn lemma_without(replicas: Seq<ServerId>, s: ServerId)
    ensures
        replicas_without(replicas, s).len() <= replicas.len(),
        forall|x: ServerId| #[trigger]
            replicas_without(replicas, s).contains(x) <==> replicas.contains(x) && x != s,
    decreases replicas.len(),
{
    reveal(Seq::filter);
    let r = replicas_without(replicas, s);
    if replicas.len() > 0 {
        let front = replicas.drop_last();
        let f = replicas_without(front, s);
        lemma_without(front, s);
        assert forall|x: ServerId| #[trigger] r.contains(x) <==> replicas.contains(x) && x != s by {
            if replicas.contains(x) && x != s {
                let k = choose|k: int| 0 <= k < replicas.len() && replicas[k] == x;
                if k < front.len() {
                    assert(front[k] == x);
                    assert(f.contains(x));
                    let j = choose|j: int| 0 <= j < f.len() && f[j] == x;
                    assert(r[j] == x);
                } else {
                    assert(r[f.len() as int] == x);
                }
            }
            if r.contains(x) {
                let j = choose|j: int| 0 <= j < r.len() && r[j] == x;
                if j < f.len() {
                    assert(f[j] == x);
                    assert(f.contains(x));
                    let k = choose|k: int| 0 <= k < front.len() && front[k] == x;
                    assert(replicas[k] == x);
                } else {
                    assert(replicas[replicas.len() - 1] == x);
                }
            }
        }
    }
}

/// A heartbeat keeps the invariant.
pub proof fn law_heartbeat_keeps_sound(m: MasterModel, s: ServerId, held: Seq<ChunkId>, now: u64)
    requires
        sound(m),
    ensures
        sound(after_heartbeat(m, s, held, now)),
{
    let m2 = after_heartbeat(m, s, held, now);
    assert(m2.servers.dom() =~= m.servers.dom());
    assert forall|c: ChunkId| #[trigger] m2.chunks.dom().contains(c) implies chunk_sound(
        m2,
        c,
    ) by {
        assert(m.chunks.dom().contains(c));
        assert(chunk_sound(m, c));
        let r = m.chunks[c].replicas;
        let r2 = m2.chunks[c].replicas;
        lemma_without(r, s);
        assert forall|i: int| 0 <= i < r2.len() implies m2.servers.dom().contains(
            #[trigger] r2[i],
        ) by {
            assert(r2.contains(r2[i]));
            let j = choose|j: int| 0 <= j < r.len() && r[j] == r2[i];
            assert(m.servers.dom().contains(r[j]));
        }
    }
    assert forall|p: Seq<char>| #[trigger] m2.files.dom().contains(p) implies file_sound(
        m2,
        p,
    ) by {
        assert(file_sound(m, p));
        let ids = m.files[p];
        assert forall|i: int| 0 <= i < ids.len() implies m2.chunks.dom().contains(
            #[trigger] ids[i],
        ) && !m2.chunks[ids[i]].deleted by {
            assert(m.chunks.dom().contains(ids[i]));
        }
    }
    assert forall|c: ChunkId| #[trigger]
        m2.chunks.dom().contains(c) && !m2.chunks[c].deleted implies in_a_file(m2.files, c) by {
        assert(m.chunks.dom().contains(c));
    }
}

/// Marking servers offline keeps the invariant.
pub proof fn law_timeouts_keep_sound(m: MasterModel, now: u64)
    requires
        sound(m),
    ensures
        sound(after_timeouts(m, now)),
{
    let m2 = after_timeouts(m, now);
    assert(m2.servers.dom() =~= m.servers.dom());
    assert forall|c: ChunkId| #[trigger] m2.chunks.dom().contains(c) implies chunk_sound(
        m2,
        c,
    ) by {
        assert(chunk_sound(m, c));
    }
    assert forall|p: Seq<char>| #[trigger] m2.files.dom().contains(p) implies file_sound(
        m2,
        p,
    ) by {
        assert(file_sound(m, p));
    }
}

// Placement.

/// Round-robin: two picks that are less than a round apart are different servers.
/// So every server that is online is picked once per round. The cursor may start
/// over between the two, unless it then comes out a whole number of rounds away.
pub proof fn law_round_robin(servers: Map<ServerId, ServerModel>, cursor: usize, j: int, k: int)
    requires
        servers.dom().finite(),
        online_ids(servers).len() <= usize::MAX,
        0 <= j < k < j + online_ids(servers).len(),
        wrapped(cursor + j) + (k - j) <= usize::MAX || (usize::MAX + 1 - (k - j))
            % (online_ids(servers).len() as int) != 0,
    ensures
        pick(online_ids(servers), cursor, j) != pick(online_ids(servers), cursor, k),
{
    let online = online_ids(servers);
    let n = online.len() as int;
    let w = usize::MAX + 1;
    let a = wrapped(cursor + j);
    let b = wrapped(cursor + k);
    lemma_online_ids(servers);
    lemma_mod_bound(cursor + j, w);
    lemma_mod_bound(cursor + k, w);
    lemma_mod_bound(a, n);
    lemma_mod_bound(b, n);
    // The second pick is at `a + (k - j)`, or that far less one turn of the cursor.
    lemma_add_mod_noop(cursor + j, k - j, w);
    lemma_small_mod((k - j) as nat, w as nat);
    if a + (k - j) < w {
        lemma_small_mod((a + (k - j)) as nat, w as nat);
        lemma_small_mod((k - j) as nat, n as nat);
        lemma_apart(a, b, n);
    } else {
        lemma_mod_sub_multiples_vanish(a + (k - j), w);
        lemma_small_mod((a + (k - j) - w) as nat, w as nat);
        lemma_apart(b, a, n);
    }
    let x = a % n;
    let y = b % n;
    assert(online[x] != online[y]);
}

/// Two numbers leave the same remainder only if they are whole rounds apart.
proof fn lemma_apart(a: int, b: int, n: int)
    requires
        n > 0,
        (b - a) % n != 0,
    ensures
        a % n != b % n,
{
    if a % n == b % n {
        lemma_fundamental_div_mod(a, n);
        lemma_fundamental_div_mod(b, n);
        let d = b / n - a / n;
        assert(b - a == d * n + 0) by (nonlinear_arith)
            requires
                a == n * (a / n) + a % n,
                b == n * (b / n) + b % n,
                a % n == b % n,
                d == b / n - a / n,
        ;
        lemma_fundamental_div_mod_converse(b - a, n, d, 0);
    }
}

/// The two replicas of an allocated chunk are on different servers, unless the
/// cursor starts over between them and comes out at the same server.
pub proof fn law_replicas_are_distinct(m: MasterModel, k: int)
    requires
        m.servers.dom().finite(),
        2 <= online_ids(m.servers).len() <= usize::MAX,
        0 <= k,
        wrapped(m.cursor + 2 * k) < usize::MAX || usize::MAX as int % (online_ids(
            m.servers,
        ).len() as int) != 0,
    ensures
        ({
            let r = replicas_for(online_ids(m.servers), m.cursor, k);
            r[0] != r[1]
        }),
{
    law_round_robin(m.servers, m.cursor, 2 * k, 2 * k + 1);
}

/// How many of the first `n` steps of the cursor pick the server `s`.
pub open spec fn picks_of(online: Seq<ServerId>, cursor: usize, s: ServerId, n: int) -> nat
    decreases n,
{
    if n <= 0 {
        0
    } else {
        picks_of(online, cursor, s, n - 1) + (if pick(online, cursor, n - 1) == s {
            1nat
        } else {
            0nat
        })
    }
}

/// How many replicas of the first `n` chunks that are allocated are on the server
/// `s`.
pub open spec fn replicas_on(m: MasterModel, s: ServerId, n: int) -> nat
    decreases n,
{
    if n <= 0 {
        0
    } else {
        let r = replicas_for(online_ids(m.servers), m.cursor, n - 1);
        replicas_on(m, s, n - 1) + (if r[0] == s {
            1nat
        } else {
            0nat
        }) + (if r[1] == s {
            1nat
        } else {
            0nat
        })
    }
}

proof fn lemma_replicas_are_picks(m: MasterModel, s: ServerId, n: int)
    requires
        0 <= n,
    ensures
        replicas_on(m, s, n) == picks_of(online_ids(m.servers), m.cursor, s, 2 * n),
    decreases n,
{
    if n > 0 {
        let online = online_ids(m.servers);
        lemma_replicas_are_picks(m, s, n - 1);
        assert(picks_of(online, m.cursor, s, 2 * n) == picks_of(online, m.cursor, s, 2 * n - 1) + (
        if pick(online, m.cursor, 2 * n - 1) == s {
            1nat
        } else {
            0nat
        }));
        assert(2 * (n - 1) == 2 * n - 2);
    }
}

/// In `n` steps a server is picked once per whole round, and once more if its place
/// `x` lies in the part of a round that is left.
proof fn lemma_picks_per_round(online: Seq<ServerId>, cursor: usize, x: int, n: int)
    requires
        0 <= x < online.len(),
        online.no_duplicates(),
        0 <= n,
        cursor + n <= usize::MAX + 1,
    ensures
        ({
            let l = online.len() as int;
            picks_of(online, cursor, online[x], n) == n / l + (if n % l > (x - cursor) % l {
                1int
            } else {
                0int
            })
        }),
    decreases n,
{
    let l = online.len() as int;
    let d = (x - cursor) % l;
    lemma_mod_bound(x - cursor, l);
    if n == 0 {
        lemma_small_mod(0, l as nat);
        lemma_div_basics(l);
    } else {
        lemma_picks_per_round(online, cursor, x, n - 1);
        let q = (n - 1) / l;
        let r = (n - 1) % l;
        let at = cursor + (n - 1);
        lemma_fundamental_div_mod(n - 1, l);
        lemma_mod_bound(n - 1, l);
        lemma_small_mod(at as nat, (usize::MAX + 1) as nat);
        lemma_mod_bound(at, l);
        lemma_small_mod(x as nat, l as nat);
        // The pick is the one at `x` exactly if the step is `d` into its round.
        lemma_mod_equivalence(at, x, l);
        lemma_mod_equivalence(n - 1, x - cursor, l);
        assert(at - x == (n - 1) - (x - cursor));
        assert(at % l == x <==> r == d);
        assert(pick(online, cursor, n - 1) == online[at % l]);
        assert(online[at % l] == online[x] <==> at % l == x);
        if r + 1 < l {
            assert(n == q * l + (r + 1)) by (nonlinear_arith)
                requires
                    n - 1 == l * q + r,
            ;
            lemma_fundamental_div_mod_converse(n, l, q, r + 1);
        } else {
            assert(n == (q + 1) * l + 0) by (nonlinear_arith)
                requires
                    n - 1 == l * q + r,
                    r + 1 == l,
            ;
            lemma_fundamental_div_mod_converse(n, l, q + 1, 0);
        }
    }
}

/// Even spread: over one allocation, the numbers of replicas that any two servers
/// that are online get differ by at most one, unless the cursor starts over in
/// between.
pub proof fn law_replicas_spread_evenly(m: MasterModel, n: int, s: ServerId, t: ServerId)
    requires
        m.servers.dom().finite(),
        is_online(m.servers, s),
        is_online(m.servers, t),
        0 <= n,
        m.cursor + 2 * n <= usize::MAX + 1,
    ensures
        replicas_on(m, s, n) <= replicas_on(m, t, n) + 1,
{
    let online = online_ids(m.servers);
    lemma_online_ids(m.servers);
    assert(online.contains(s) && online.contains(t));
    let x = choose|x: int| 0 <= x < online.len() && online[x] == s;
    let y = choose|y: int| 0 <= y < online.len() && online[y] == t;
    lemma_replicas_are_picks(m, s, n);
    lemma_replicas_are_picks(m, t, n);
    lemma_picks_per_round(online, m.cursor, x, 2 * n);
    lemma_picks_per_round(online, m.cursor, y, 2 * n);
}

/// What an allocation that is not refused comes to: as many chunks as asked for,
/// under new ids that go up, each on two servers that are online.
pub proof fn law_allocation(m: MasterModel, path: Seq<char>, chunk_size: u64, n: int, k: int)
    requires
        sound(m),
        allocate_refusal(m, path, chunk_size) is None,
        0 <= k < n,
        m.next_chunk_id + n <= u64::MAX,
    ensures
        placements(m, n).len() == n,
        placements(m, n)[k].0 == m.next_chunk_id + k,
        !m.chunks.dom().contains(placements(m, n)[k].0),
        after_allocate(m, path, n).files[path][k] == placements(m, n)[k].0,
        ({
            let r = after_allocate(m, path, n).chunks[placements(m, n)[k].0].replicas;
            &&& r.len() == 2
            &&& is_online(m.servers, r[0]) && is_online(m.servers, r[1])
            &&& placements(m, n)[k].1.primary == m.servers[r[0]].addr
            &&& placements(m, n)[k].1.secondary == Some(m.servers[r[1]].addr)
        }),
{
    law_fresh_ids_are_new(m, path, n, k);
    lemma_pick_online(m, 2 * k);
    lemma_pick_online(m, 2 * k + 1);
}

/// Chunk ids are never reused: the ids of a new file belong to no known chunk,
/// and are below every id that is handed out later.
pub proof fn law_fresh_ids_are_new(m: MasterModel, path: Seq<char>, n: int, k: int)
    requires
        sound(m),
        0 <= k < n,
        m.next_chunk_id + n <= u64::MAX,
    ensures
        !m.chunks.dom().contains(fresh_ids(m, n)[k]),
        m.next_chunk_id <= fresh_ids(m, n)[k] < after_allocate(m, path, n).next_chunk_id,
{
    let c = fresh_ids(m, n)[k];
    if m.chunks.dom().contains(c) {
        assert(chunk_sound(m, c));
    }
}

/// No operation hands chunk ids or server ids back.
pub proof fn law_counters_never_go_back(
    m: MasterModel,
    path: Seq<char>,
    n: int,
    addr: EndpointModel,
    s: ServerId,
    held: Seq<ChunkId>,
    now: u64,
)
    requires
        0 <= n,
        m.next_chunk_id + n <= u64::MAX,
        m.next_server_id < u64::MAX,
    ensures
        after_allocate(m, path, n).next_chunk_id == m.next_chunk_id + n,
        after_allocate(m, path, n).next_server_id == m.next_server_id,
        after_register(m, addr, now).next_server_id == m.next_server_id + 1,
        after_register(m, addr, now).next_chunk_id == m.next_chunk_id,
        after_delete(m, path).next_chunk_id == m.next_chunk_id,
        after_delete(m, path).next_server_id == m.next_server_id,
        after_heartbeat(m, s, held, now).next_chunk_id == m.next_chunk_id,
        after_heartbeat(m, s, held, now).next_server_id == m.next_server_id,
        after_timeouts(m, now).next_chunk_id == m.next_chunk_id,
        after_timeouts(m, now).next_server_id == m.next_server_id,
{
}

// Looking up.

proof fn lemma_live_two(servers: Map<ServerId, ServerModel>, r: Seq<ServerId>)
    requires
        r.len() == 2,
    ensures
        live_addresses(servers, r) == (if is_online(servers, r[0]) {
            if is_online(servers, r[1]) {
                seq![servers[r[0]].addr, servers[r[1]].addr]
            } else {
                seq![servers[r[0]].addr]
            }
        } else if is_online(servers, r[1]) {
            seq![servers[r[1]].addr]
        } else {
            Seq::empty()
        }),
{
    reveal(Seq::filter);
    let f = |s: ServerId| is_online(servers, s);
    let g = |s: ServerId| servers[s].addr;
    let one = r.drop_last();
    let none = one.drop_last();
    assert(none =~= Seq::<ServerId>::empty());
    assert(one.last() == r[0]);
    assert(r.last() == r[1]);
    assert(none.filter(f) =~= Seq::<ServerId>::empty());
    assert(one.filter(f) =~= (if f(r[0]) {
        seq![r[0]]
    } else {
        Seq::empty()
    }));
    assert(r.filter(f) =~= (if f(r[0]) {
        if f(r[1]) {
            seq![r[0], r[1]]
        } else {
            seq![r[0]]
        }
    } else if f(r[1]) {
        seq![r[1]]
    } else {
        Seq::empty()
    }));
    assert(live_addresses(servers, r) =~= r.filter(f).map_values(g));
    assert(live_addresses(servers, r) =~= (if f(r[0]) {
        if f(r[1]) {
            seq![servers[r[0]].addr, servers[r[1]].addr]
        } else {
            seq![servers[r[0]].addr]
        }
    } else if f(r[1]) {
        seq![servers[r[1]].addr]
    } else {
        Seq::empty()
    }));
}

/// A file is found right after it was allocated, with the same chunks and
/// replicas.
pub proof fn law_allocated_file_is_found(
    m: MasterModel,
    path: Seq<char>,
    chunk_size: u64,
    n: int,
)
    requires
        sound(m),
        allocate_refusal(m, path, chunk_size) is None,
        0 <= n,
        m.next_chunk_id + n <= u64::MAX,
    ensures
        looked_up(after_allocate(m, path, n), path) == Ok::<
            Seq<(ChunkId, ReplicaModel)>,
            MasterError,
        >(placements(m, n)),
{
    let m2 = after_allocate(m, path, n);
    let ids = fresh_ids(m, n);
    let online = online_ids(m.servers);
    assert forall|k: int| 0 <= k < ids.len() implies chunk_addresses(m2, #[trigger] ids[k]).len()
        == 2 && in_write_order(chunk_addresses(m2, ids[k])) == both_addresses(
        m.servers,
        replicas_for(online, m.cursor, k),
    ) by {
        let r = replicas_for(online, m.cursor, k);
        lemma_pick_online(m, 2 * k);
        lemma_pick_online(m, 2 * k + 1);
        assert(m2.chunks[ids[k]].replicas == r);
        lemma_live_two(m.servers, r);
    }
    assert(m2.files[path] == ids);
    assert(ids.map_values(|c: ChunkId| (c, in_write_order(chunk_addresses(m2, c))))
        =~= placements(m, n)) by {
        assert forall|k: int| 0 <= k < n implies (#[trigger] placements(m, n)[k]) == (
            ids[k],
            in_write_order(chunk_addresses(m2, ids[k])),
        ) by {
            assert(chunk_addresses(m2, ids[k]).len() == 2);
        }
    }
}

/// A downed primary is replaced by its secondary, a downed secondary is left out,
/// and only when both are down is there nothing to read or write.
pub proof fn law_failover(m: MasterModel, c: ChunkId)
    requires
        m.chunks.dom().contains(c),
        m.chunks[c].replicas.len() == 2,
    ensures
        ({
            let a = m.chunks[c].replicas[0];
            let b = m.chunks[c].replicas[1];
            let live = chunk_addresses(m, c);
            let up = in_write_order(live);
            &&& is_online(m.servers, a) && is_online(m.servers, b) ==> live.len() == 2
                && up.primary == m.servers[a].addr && up.secondary == Some(m.servers[b].addr)
            &&& is_online(m.servers, a) && !is_online(m.servers, b) ==> live.len() == 1
                && up.primary == m.servers[a].addr && up.secondary is None
            &&& !is_online(m.servers, a) && is_online(m.servers, b) ==> live.len() == 1
                && up.primary == m.servers[b].addr && up.secondary is None
            &&& !is_online(m.servers, a) && !is_online(m.servers, b) ==> live.len() == 0
        }),
{
    lemma_live_two(m.servers, m.chunks[c].replicas);
}

/// A deleted file is not found any more; every other file is found as before.
pub proof fn law_deleted_file_is_gone(m: MasterModel, path: Seq<char>, other: Seq<char>)
    requires
        m.files.dom().contains(path),
        other != path,
    ensures
        looked_up(after_delete(m, path), path) == Err::<
            Seq<(ChunkId, ReplicaModel)>,
            MasterError,
        >(MasterError::NotFound),
        looked_up(after_delete(m, path), other) == looked_up(m, other),
{
    let m2 = after_delete(m, path);
    assert forall|c: ChunkId| #[trigger] chunk_addresses(m2, c) == chunk_addresses(m, c) by {}
    if m.files.dom().contains(other) {
        let ids = m.files[other];
        assert(all_live(m2, ids) <==> all_live(m, ids)) by {
            assert forall|k: int| 0 <= k < ids.len() implies chunk_addresses(
                m2,
                #[trigger] ids[k],
            ) == chunk_addresses(m, ids[k]) by {}
        }
        assert(ids.map_values(|c: ChunkId| (c, in_write_order(chunk_addresses(m2, c))))
            =~= ids.map_values(|c: ChunkId| (c, in_write_order(chunk_addresses(m, c)))));
    }
}

/// Allocating a file leaves every other file as it was.
pub proof fn law_other_files_unchanged_by_allocate(
    m: MasterModel,
    path: Seq<char>,
    n: int,
    other: Seq<char>,
)
    requires
        sound(m),
        0 <= n,
        m.next_chunk_id + n <= u64::MAX,
        other != path,
    ensures
        looked_up(after_allocate(m, path, n), other) == looked_up(m, other),
{
    let m2 = after_allocate(m, path, n);
    if m.files.dom().contains(other) {
        let ids = m.files[other];
        assert(file_sound(m, other));
        assert forall|k: int| 0 <= k < ids.len() implies chunk_addresses(m2, #[trigger] ids[k])
            == chunk_addresses(m, ids[k]) by {
            assert(m.chunks.dom().contains(ids[k]));
            assert(chunk_sound(m, ids[k]));
        }
        assert(ids.map_values(|c: ChunkId| (c, in_write_order(chunk_addresses(m2, c))))
            =~= ids.map_values(|c: ChunkId| (c, in_write_order(chunk_addresses(m, c)))));
    }
}

// Heartbeats.

/// A server is told to drop what it reports and the master does not want on it,
/// and nothing else.
pub proof fn law_drop_list_is_exact(m: MasterModel, s: ServerId, held: Seq<ChunkId>, c: ChunkId)
    ensures
        to_drop(m, s, held).contains(c) <==> held.contains(c) && !wanted(m, c, s),
    decreases held.len(),
{
    reveal(Seq::filter);
    let r = to_drop(m, s, held);
    if held.len() > 0 {
        let front = held.drop_last();
        let f = to_drop(m, s, front);
        law_drop_list_is_exact(m, s, front, c);
        if held.contains(c) && !wanted(m, c, s) {
            let k = choose|k: int| 0 <= k < held.len() && held[k] == c;
            if k < front.len() {
                assert(front[k] == c);
                let j = choose|j: int| 0 <= j < f.len() && f[j] == c;
                assert(r[j] == c);
            } else {
                assert(r[f.len() as int] == c);
            }
        }
        if r.contains(c) {
            let j = choose|j: int| 0 <= j < r.len() && r[j] == c;
            if j < f.len() {
                assert(f[j] == c);
                let k = choose|k: int| 0 <= k < front.len() && front[k] == c;
                assert(held[k] == c);
            } else {
                assert(held[held.len() - 1] == c);
            }
        }
    }
}

/// A server is told to drop what it reports, but for the chunks of files that it
/// is a replica of.
pub proof fn law_drop_list_spares_files(
    m: MasterModel,
    s: ServerId,
    held: Seq<ChunkId>,
    c: ChunkId,
)
    requires
        sound(m),
    ensures
        to_drop(m, s, held).contains(c) <==> held.contains(c) && !(in_a_file(m.files, c)
            && m.chunks[c].replicas.contains(s)),
{
    law_drop_list_is_exact(m, s, held, c);
    if in_a_file(m.files, c) {
        let (p, i) = choose|p: Seq<char>, i: int| #[trigger] file_has(m.files, p, i, c);
        assert(file_sound(m, p));
        assert(m.files[p][i] == c);
    }
}

/// No chunk of a file is ever dropped from a server that should hold it, and
/// whatever servers report, the master keeps what it knows of it.
pub proof fn law_chunks_of_files_are_kept(
    m: MasterModel,
    path: Seq<char>,
    i: int,
    s: ServerId,
    held: Seq<ChunkId>,
    now: u64,
)
    requires
        sound(m),
        m.files.dom().contains(path),
        0 <= i < m.files[path].len(),
    ensures
        ({
            let c = m.files[path][i];
            &&& m.chunks[c].replicas.contains(s) ==> !to_drop(m, s, held).contains(c)
            &&& after_heartbeat(m, s, held, now).chunks.dom().contains(c)
            &&& after_heartbeat(m, s, held, now).chunks[c] == m.chunks[c]
        }),
{
    let c = m.files[path][i];
    assert(file_sound(m, path));
    law_drop_list_is_exact(m, s, held, c);
}

/// Lazy deletion: after a file is deleted, every server that reports one of its
/// chunks is told to drop it, and told again as long as it reports it, whatever
/// else is reported in between.
pub proof fn law_deleted_chunks_are_dropped(
    m: MasterModel,
    path: Seq<char>,
    i: int,
    s: ServerId,
    held: Seq<ChunkId>,
    other: ServerId,
    others: Seq<ChunkId>,
    now: u64,
)
    requires
        sound(m),
        m.files.dom().contains(path),
        0 <= i < m.files[path].len(),
        held.contains(m.files[path][i]),
    ensures
        ({
            let c = m.files[path][i];
            let m2 = after_delete(m, path);
            let m3 = after_heartbeat(m2, other, others, now);
            &&& to_drop(m2, s, held).contains(c)
            &&& to_drop(m3, s, held).contains(c)
        }),
{
    let c = m.files[path][i];
    let m2 = after_delete(m, path);
    let m3 = after_heartbeat(m2, other, others, now);
    assert(m.files[path].contains(c));
    law_drop_list_is_exact(m2, s, held, c);
    law_drop_list_is_exact(m3, s, held, c);
}

/// A deleted chunk is forgotten once both of its servers have reported without
/// it.
pub proof fn law_dropped_chunk_is_forgotten(
    m: MasterModel,
    c: ChunkId,
    first: Seq<ChunkId>,
    second: Seq<ChunkId>,
    then: u64,
    now: u64,
)
    requires
        m.chunks.dom().contains(c),
        m.chunks[c].deleted,
        m.chunks[c].replicas.len() == 2,
        !first.contains(c),
        !second.contains(c),
    ensures
        ({
            let a = m.chunks[c].replicas[0];
            let b = m.chunks[c].replicas[1];
            let m2 = after_heartbeat(m, a, first, then);
            let m3 = after_heartbeat(m2, b, second, now);
            !m3.chunks.dom().contains(c)
        }),
{
    let r = m.chunks[c].replicas;
    let a = r[0];
    let b = r[1];
    let m2 = after_heartbeat(m, a, first, then);
    assert(r.contains(a));
    assert(r.contains(b));
    lemma_without(r, a);
    if m2.chunks.dom().contains(c) {
        let r2 = m2.chunks[c].replicas;
        assert(r2 == replicas_without(r, a));
        assert(r2.len() > 0);
        assert(r2.contains(r2[0]));
        assert(r2.contains(b));
        lemma_without(r2, b);
        let r3 = replicas_without(r2, b);
        if r3.len() > 0 {
            assert(r3.contains(r3[0]));
            assert(r2.contains(r3[0]));
            assert(r.contains(r3[0]));
            let k = choose|k: int| 0 <= k < r.len() && r[k] == r3[0];
            assert(false);
        }
    }
}

/// A server that is overdue is offline after the check; one that is heard of is
/// online again, under the same address.
pub proof fn law_liveness(m: MasterModel, s: ServerId, held: Seq<ChunkId>, now: u64)
    requires
        m.servers.dom().contains(s),
    ensures
        is_overdue(m.servers[s], now) ==> !is_online(after_timeouts(m, now).servers, s),
        !is_overdue(m.servers[s], now) ==> (is_online(after_timeouts(m, now).servers, s)
            <==> is_online(m.servers, s)),
        is_online(after_heartbeat(m, s, held, now).servers, s),
        after_heartbeat(m, s, held, now).servers[s].addr == m.servers[s].addr,
        is_online(after_timeouts(after_heartbeat(m, s, held, now), now).servers, s),
{
}

// What each operation does.

/// The numbers that the file system runs on.
pub proof fn law_numbers()
    ensures
        CHUNK_SIZE == 4194304,
        REPLICATION_FACTOR == 2,
        HEARTBEAT_INTERVAL == 1000,
        MISSED_HEARTBEATS == 3,
{
}

/// A file of `len` bytes has as many chunks of `chunk_size` bytes as hold it, and
/// no more.
pub proof fn law_chunk_count(len: nat, chunk_size: nat)
    requires
        chunk_size > 0,
    ensures
        len <= chunks_in(len, chunk_size) * chunk_size,
        len > 0 ==> (chunks_in(len, chunk_size) - 1) * chunk_size < len,
        len == 0 ==> chunks_in(len, chunk_size) == 0,
{
    if len > 0 {
        let a = (len - 1) as int;
        let b = chunk_size as int;
        let q = a / b;
        lemma_fundamental_div_mod(a, b);
        lemma_mod_bound(a, b);
        assert(len <= (q + 1) * b && q * b < len) by (nonlinear_arith)
            requires
                a == b * q + a % b,
                0 <= a % b < b,
                a == len - 1,
        ;
    }
}

/// The check at `now`: a server that is registered is online afterwards exactly if
/// it was online before and was last heard of less than 3000 milliseconds ago. What
/// else is known of it, and all that has nothing to do with servers, stays.
pub proof fn law_timeouts(m: MasterModel, now: u64, s: ServerId)
    ensures
        after_timeouts(m, now).servers.dom() == m.servers.dom(),
        m.servers.dom().contains(s) ==> {
            let old = m.servers[s];
            let new = after_timeouts(m, now).servers[s];
            &&& new.online <==> old.online && now - old.last_seen < 3000
            &&& new.last_seen == old.last_seen
            &&& new.addr == old.addr
        },
        after_timeouts(m, now).files == m.files,
        after_timeouts(m, now).chunks == m.chunks,
        after_timeouts(m, now).cursor == m.cursor,
{
    assert(after_timeouts(m, now).servers.dom() =~= m.servers.dom());
}

/// What [`MasterServer::detect_timeouts`] does, in the terms of [`law_timeouts`].
pub proof fn law_detect_timeouts()
    ensures
        forall|e: &mut MasterServer, now: u64, r: ()| #[trigger]
            call_ensures(MasterServer::detect_timeouts, (e, now), r) ==> {
                let m = e@;
                let m2 = (*final(e))@;
                &&& m2.servers.dom() == m.servers.dom()
                &&& forall|s: ServerId| #[trigger]
                    m.servers.dom().contains(s) ==> {
                        &&& m2.servers[s].online <==> m.servers[s].online && now
                            - m.servers[s].last_seen < 3000
                        &&& m2.servers[s].last_seen == m.servers[s].last_seen
                        &&& m2.servers[s].addr == m.servers[s].addr
                    }
                &&& m2.files == m.files
                &&& m2.chunks == m.chunks
                &&& m2.cursor == m.cursor
                &&& m2.next_chunk_id == m.next_chunk_id
                &&& m2.next_server_id == m.next_server_id
            },
{
    assert forall|e: &mut MasterServer, now: u64, r: ()| #[trigger]
        call_ensures(MasterServer::detect_timeouts, (e, now), r) implies {
        let m = e@;
        let m2 = (*final(e))@;
        &&& m2.servers.dom() == m.servers.dom()
        &&& forall|s: ServerId| #[trigger]
            m.servers.dom().contains(s) ==> {
                &&& m2.servers[s].online <==> m.servers[s].online && now
                    - m.servers[s].last_seen < 3000
                &&& m2.servers[s].last_seen == m.servers[s].last_seen
                &&& m2.servers[s].addr == m.servers[s].addr
            }
        &&& m2.files == m.files
        &&& m2.chunks == m.chunks
        &&& m2.cursor == m.cursor
        &&& m2.next_chunk_id == m.next_chunk_id
        &&& m2.next_server_id == m.next_server_id
    } by {
        let m = e@;
        let m2 = (*final(e))@;
        assert(m2.servers.dom() =~= m.servers.dom());
        assert forall|s: ServerId| #[trigger] m.servers.dom().contains(s) implies {
            &&& m2.servers[s].online <==> m.servers[s].online && now - m.servers[s].last_seen < 3000
            &&& m2.servers[s].last_seen == m.servers[s].last_seen
            &&& m2.servers[s].addr == m.servers[s].addr
        } by {
            law_timeouts(m, now, s);
        }
    }
}

/// The list of servers that are online: each that is registered and online stands in
/// it once, no other does, and the ids go up.
pub proof fn law_online_servers(servers: Map<ServerId, ServerModel>, s: ServerId, i: int, j: int)
    requires
        servers.dom().finite(),
    ensures
        online_ids(servers).contains(s) <==> servers.dom().contains(s) && servers[s].online,
        0 <= i < j < online_ids(servers).len() ==> online_ids(servers)[i] < online_ids(servers)[j],
{
    lemma_online_ids(servers);
}

/// Whether two different servers are registered and online.
pub open spec fn two_online(servers: Map<ServerId, ServerModel>) -> bool {
    exists|a: ServerId, b: ServerId|
        #![trigger servers.dom().contains(a), servers.dom().contains(b)]
        a != b && servers.dom().contains(a) && servers.dom().contains(b) && servers[a].online
            && servers[b].online
}

proof fn lemma_two_online(servers: Map<ServerId, ServerModel>)
    requires
        servers.dom().finite(),
    ensures
        two_online(servers) <==> online_ids(servers).len() >= 2,
{
    let on = online_ids(servers);
    lemma_online_ids(servers);
    if on.len() >= 2 {
        assert(is_online(servers, on[0]) && is_online(servers, on[1]));
        assert(on[0] < on[1]);
        assert(servers.dom().contains(on[0]) && servers.dom().contains(on[1]));
    }
    if two_online(servers) {
        let (a, b) = choose|a: ServerId, b: ServerId|
            #![trigger servers.dom().contains(a), servers.dom().contains(b)]
            a != b && servers.dom().contains(a) && servers.dom().contains(b) && servers[a].online
                && servers[b].online;
        assert(is_online(servers, a) && is_online(servers, b));
        assert(on.contains(a) && on.contains(b));
        let i = choose|i: int| 0 <= i < on.len() && on[i] == a;
        let j = choose|j: int| 0 <= j < on.len() && on[j] == b;
        assert(i != j);
    }
}

/// When an allocation is refused, and why: for a chunk size of 0 and no other; for a
/// path that is in the namespace; and if no two servers are online. In every other
/// case it is not refused.
pub proof fn law_refusals(m: MasterModel, path: Seq<char>, chunk_size: u64)
    requires
        m.servers.dom().finite(),
    ensures
        allocate_refusal(m, path, chunk_size) is None <==> chunk_size > 0
            && !m.files.dom().contains(path) && two_online(m.servers),
        allocate_refusal(m, path, chunk_size) == Some(MasterError::InvalidChunkSize) <==> chunk_size
            == 0,
        allocate_refusal(m, path, chunk_size) == Some(MasterError::AlreadyExists) <==> chunk_size
            > 0 && m.files.dom().contains(path),
        allocate_refusal(m, path, chunk_size) == Some(MasterError::NotEnoughServers) <==> chunk_size
            > 0 && !m.files.dom().contains(path) && !two_online(m.servers),
{
    lemma_two_online(m.servers);
}

/// What [`MasterServer::allocate`] returns, in the terms of [`law_refusals`]; and
/// what a refusal or a success changes.
pub proof fn law_allocate()
    ensures
        forall|e: &mut MasterServer, path: String, len: u64, cs: u64, r: Result<
            Vec<(ChunkId, ReplicaSet)>,
            MasterError,
        >| #[trigger]
            call_ensures(MasterServer::allocate, (e, path, len, cs), r)
                && e.wf() ==> {
                let m = e@;
                let m2 = (*final(e))@;
                &&& r is Ok <==> cs > 0 && !m.files.dom().contains(path@) && two_online(m.servers)
                &&& r is Err && r->Err_0 == MasterError::InvalidChunkSize <==> cs == 0
                &&& r is Err && r->Err_0 == MasterError::AlreadyExists <==> cs > 0
                    && m.files.dom().contains(path@)
                &&& r is Err && r->Err_0 == MasterError::NotEnoughServers <==> cs > 0
                    && !m.files.dom().contains(path@) && !two_online(m.servers)
                &&& r is Err ==> m2 == m
                &&& r is Ok ==> {
                    let n = r->Ok_0@.len();
                    &&& len <= n * cs
                    &&& n > 0 ==> (n - 1) * cs < len
                    &&& m2.files.dom() == m.files.dom().insert(path@)
                    &&& m2.files[path@].len() == n
                    &&& m2.servers == m.servers
                    &&& m2.next_server_id == m.next_server_id
                }
            },
{
    assert forall|e: &mut MasterServer, path: String, len: u64, cs: u64, r: Result<
        Vec<(ChunkId, ReplicaSet)>,
        MasterError,
    >| #[trigger]
        call_ensures(MasterServer::allocate, (e, path, len, cs), r)
            && e.wf() implies {
        let m = e@;
        let m2 = (*final(e))@;
        &&& r is Ok <==> cs > 0 && !m.files.dom().contains(path@) && two_online(m.servers)
        &&& r is Err && r->Err_0 == MasterError::InvalidChunkSize <==> cs == 0
        &&& r is Err && r->Err_0 == MasterError::AlreadyExists <==> cs > 0
            && m.files.dom().contains(path@)
        &&& r is Err && r->Err_0 == MasterError::NotEnoughServers <==> cs > 0
            && !m.files.dom().contains(path@) && !two_online(m.servers)
        &&& r is Err ==> m2 == m
        &&& r is Ok ==> {
            let n = r->Ok_0@.len();
            &&& len <= n * cs
            &&& n > 0 ==> (n - 1) * cs < len
            &&& m2.files.dom() == m.files.dom().insert(path@)
            &&& m2.files[path@].len() == n
            &&& m2.servers == m.servers
            &&& m2.next_server_id == m.next_server_id
        }
    } by {
        let m = e@;
        e.lemma_finite();
        law_refusals(m, path@, cs);
        if r is Ok {
            let n = chunks_in(len as nat, cs as nat);
            law_chunk_count(len as nat, cs as nat);
            assert(placement_views(r->Ok_0@).len() == r->Ok_0@.len());
            assert(placements(m, n as int).len() == n);
        }
    }
}

/// Where the chunks of a new file go: the `k`-th on the two servers that are `2 * k`
/// and `2 * k + 1` places behind the cursor in the list of those online, which
/// starts over at its end. Nothing that was known before changes.
pub proof fn law_placement(m: MasterModel, path: Seq<char>, n: int, k: int, c: ChunkId)
    requires
        0 <= k < n,
        m.next_chunk_id + n <= u64::MAX,
    ensures
        ({
            let m2 = after_allocate(m, path, n);
            let on = online_ids(m.servers);
            let l = on.len() as int;
            let x = m.next_chunk_id + k;
            &&& m2.files[path].len() == n
            &&& m2.files[path][k] == x
            &&& m2.chunks.dom().contains(x as u64)
            &&& !m2.chunks[x as u64].deleted
            &&& m.cursor + 2 * k + 1 <= usize::MAX ==> m2.chunks[x as u64].replicas == seq![
                on[(m.cursor + 2 * k) % l],
                on[(m.cursor + 2 * k + 1) % l],
            ]
            &&& m.cursor + 2 * n <= usize::MAX ==> m2.cursor == m.cursor + 2 * n
            &&& m2.chunks[x as u64].replicas == seq![
                on[wrapped(m.cursor + 2 * k) % l],
                on[wrapped(m.cursor + 2 * k + 1) % l],
            ]
            &&& m2.cursor == wrapped(m.cursor + 2 * n)
            &&& c < m.next_chunk_id || c >= m.next_chunk_id + n ==> (m2.chunks.dom().contains(c)
                <==> m.chunks.dom().contains(c))
            &&& c < m.next_chunk_id || c >= m.next_chunk_id + n ==> m2.chunks[c] == m.chunks[c]
                || !m.chunks.dom().contains(c)
            &&& m2.next_chunk_id == m.next_chunk_id + n
            &&& m2.servers == m.servers
            &&& placements(m, n).len() == n
            &&& placements(m, n)[k].0 == x
            &&& placements(m, n)[k].1.primary
                == m.servers[m2.chunks[x as u64].replicas[0]].addr
            &&& placements(m, n)[k].1.secondary == Some(
                m.servers[m2.chunks[x as u64].replicas[1]].addr,
            )
        }),
        forall|p: Seq<char>|
            p != path ==> (#[trigger] after_allocate(m, path, n).files.dom().contains(p)
                <==> m.files.dom().contains(p)) && after_allocate(m, path, n).files[p]
                == m.files[p],
{
    let w = usize::MAX + 1;
    lemma_mod_bound(m.cursor + 2 * n, w);
    if m.cursor + 2 * k + 1 <= usize::MAX {
        lemma_small_mod((m.cursor + 2 * k) as nat, w as nat);
        lemma_small_mod((m.cursor + 2 * k + 1) as nat, w as nat);
    }
    if m.cursor + 2 * n <= usize::MAX {
        lemma_small_mod((m.cursor + 2 * n) as nat, w as nat);
    }
}

/// Past the largest cursor the count starts over at 0.
pub proof fn law_cursor_starts_over(x: int)
    requires
        0 <= x,
    ensures
        x <= usize::MAX ==> wrapped(x) == x,
        wrapped(x + (usize::MAX + 1)) == wrapped(x),
{
    let w = usize::MAX + 1;
    if x <= usize::MAX {
        lemma_small_mod(x as nat, w as nat);
    }
    lemma_mod_add_multiples_vanish(x, w);
}

/// What a lookup finds: an error for a path that is not in the namespace; another if
/// both servers of some chunk are offline; and otherwise all chunks of the file in
/// order, each with its first server that is online as the primary, and the second
/// as the secondary if both are.
pub proof fn law_lookup(m: MasterModel, path: Seq<char>, k: int)
    requires
        sound(m),
    ensures
        !m.files.dom().contains(path) <==> looked_up(m, path) == Err::<
            Seq<(ChunkId, ReplicaModel)>,
            MasterError,
        >(MasterError::NotFound),
        m.files.dom().contains(path) && (exists|i: int|
            0 <= i < m.files[path].len() && nothing_online(m, #[trigger] m.files[path][i]))
            <==> looked_up(m, path) == Err::<Seq<(ChunkId, ReplicaModel)>, MasterError>(
            MasterError::NoLiveReplicas,
        ),
        looked_up(m, path) is Err || looked_up(m, path)->Ok_0.len() == m.files[path].len(),
        looked_up(m, path) is Ok && 0 <= k < m.files[path].len() ==> {
            let found = looked_up(m, path)->Ok_0[k];
            let c = m.files[path][k];
            let a = m.servers[m.chunks[c].replicas[0]];
            let b = m.servers[m.chunks[c].replicas[1]];
            &&& found.0 == c
            &&& a.online ==> found.1.primary == a.addr
            &&& !a.online ==> b.online && found.1.primary == b.addr
            &&& a.online && b.online ==> found.1.secondary == Some(b.addr)
            &&& !(a.online && b.online) ==> found.1.secondary is None
        },
{
    if m.files.dom().contains(path) {
        let ids = m.files[path];
        assert(file_sound(m, path));
        assert forall|i: int| 0 <= i < ids.len() implies (chunk_addresses(
            m,
            #[trigger] ids[i],
        ).len() == 0 <==> nothing_online(m, ids[i])) by {
            assert(chunk_sound(m, ids[i]));
            let r = m.chunks[ids[i]].replicas;
            assert(m.servers.dom().contains(r[0]) && m.servers.dom().contains(r[1]));
            law_failover(m, ids[i]);
        }
        if all_live(m, ids) && 0 <= k < ids.len() {
            assert(chunk_addresses(m, ids[k]).len() > 0);
            assert(chunk_sound(m, ids[k]));
            let r = m.chunks[ids[k]].replicas;
            assert(m.servers.dom().contains(r[0]) && m.servers.dom().contains(r[1]));
            law_failover(m, ids[k]);
        }
    }
}

/// Whether both servers of a chunk are offline.
pub open spec fn nothing_online(m: MasterModel, c: ChunkId) -> bool {
    !m.servers[m.chunks[c].replicas[0]].online && !m.servers[m.chunks[c].replicas[1]].online
}

/// What a lookup, a deletion, a registration and a heartbeat return, and what they
/// change.
pub proof fn law_master_calls()
    ensures
        forall|e: &MasterServer, path: &String, r: Result<
            Vec<(ChunkId, ReplicaSet)>,
            MasterError,
        >| #[trigger]
            call_ensures(MasterServer::lookup, (e, path), r) ==> match looked_up(e@, path@) {
                Ok(v) => r is Ok && r->Ok_0@.len() == v.len() && forall|i: int|
                    0 <= i < v.len() ==> (#[trigger] r->Ok_0@[i]).0 == v[i].0
                        && r->Ok_0@[i].1.primary@ == v[i].1.primary
                        && (r->Ok_0@[i].1.secondary is Some <==> v[i].1.secondary is Some)
                        && (v[i].1.secondary is Some ==> r->Ok_0@[i].1.secondary->0@
                        == v[i].1.secondary->0),
                Err(x) => r is Err && r->Err_0 == x,
            },
        forall|e: &mut MasterServer, path: &String, r: Result<(), MasterError>| #[trigger]
            call_ensures(MasterServer::delete, (e, path), r) ==> {
                let m = e@;
                let m2 = (*final(e))@;
                &&& r is Ok <==> m.files.dom().contains(path@)
                &&& r is Err ==> r->Err_0 == MasterError::NotFound && m2 == m
                &&& r is Ok ==> m2 == after_delete(m, path@)
            },
        forall|e: &mut MasterServer, addr: Endpoint, now: u64, r: ServerId| #[trigger]
            call_ensures(MasterServer::register, (e, addr, now), r) ==> {
                let m = e@;
                let m2 = (*final(e))@;
                &&& r == m.next_server_id
                &&& m2 == after_register(m, addr@, now)
            },
        forall|
            e: &mut MasterServer,
            s: ServerId,
            held: &Vec<ChunkId>,
            now: u64,
            r: HeartbeatResponse,
        | #[trigger]
            call_ensures(MasterServer::heartbeat, (e, s, held, now), r) ==> {
                &&& r.drop_chunks@ == to_drop(e@, s, held@)
                &&& (*final(e))@ == after_heartbeat(e@, s, held@, now)
            },
        forall|e: &MasterServer, r: Vec<ServerId>| #[trigger]
            call_ensures(MasterServer::online_server_ids, (e,), r) ==> r@ == online_ids(e@.servers),
{
    assert forall|e: &MasterServer, path: &String, r: Result<
        Vec<(ChunkId, ReplicaSet)>,
        MasterError,
    >| #[trigger]
        call_ensures(MasterServer::lookup, (e, path), r) implies match looked_up(e@, path@) {
        Ok(v) => r is Ok && r->Ok_0@.len() == v.len() && forall|i: int|
            0 <= i < v.len() ==> (#[trigger] r->Ok_0@[i]).0 == v[i].0 && r->Ok_0@[i].1.primary@
                == v[i].1.primary && (r->Ok_0@[i].1.secondary is Some
                <==> v[i].1.secondary is Some) && (v[i].1.secondary is Some
                ==> r->Ok_0@[i].1.secondary->0@ == v[i].1.secondary->0),
        Err(x) => r is Err && r->Err_0 == x,
    } by {
        match looked_up(e@, path@) {
            Ok(v) => {
                assert(placement_views(r->Ok_0@).len() == r->Ok_0@.len());
                assert forall|i: int| 0 <= i < v.len() implies (#[trigger] r->Ok_0@[i]).0 == v[i].0
                    && r->Ok_0@[i].1.primary@ == v[i].1.primary && (
                r->Ok_0@[i].1.secondary is Some <==> v[i].1.secondary is Some) && (
                v[i].1.secondary is Some ==> r->Ok_0@[i].1.secondary->0@
                    == v[i].1.secondary->0) by {
                    assert(placement_views(r->Ok_0@)[i] == v[i]);
                }
            },
            Err(_) => {},
        }
    }
}

/// Deleting a file takes its path out of the namespace and marks its chunks as
/// deleted. Every other file, every other chunk, and the servers stay as they are.
pub proof fn law_delete(m: MasterModel, path: Seq<char>, p: Seq<char>, c: ChunkId)
    requires
        m.files.dom().contains(path),
    ensures
        ({
            let m2 = after_delete(m, path);
            &&& m2.files.dom().contains(p) <==> m.files.dom().contains(p) && p != path
            &&& p != path ==> m2.files[p] == m.files[p]
            &&& m2.chunks.dom().contains(c) <==> m.chunks.dom().contains(c)
            &&& m.chunks.dom().contains(c) ==> m2.chunks[c].replicas == m.chunks[c].replicas
            &&& m.chunks.dom().contains(c) ==> (m2.chunks[c].deleted <==> m.chunks[c].deleted || (
            exists|i: int| 0 <= i < m.files[path].len() && m.files[path][i] == c))
            &&& m2.servers == m.servers
            &&& m2.cursor == m.cursor
        }),
{
}

/// A registered server gets the next id, its address, the time and the state online;
/// what was known of the others stays, and so does all else.
pub proof fn law_register(m: MasterModel, addr: EndpointModel, now: u64, s: ServerId)
    requires
        m.next_server_id < u64::MAX,
    ensures
        ({
            let m2 = after_register(m, addr, now);
            let id = m.next_server_id;
            &&& m2.servers.dom().contains(id)
            &&& m2.servers[id].addr == addr
            &&& m2.servers[id].last_seen == now
            &&& m2.servers[id].online
            &&& s != id ==> (m2.servers.dom().contains(s) <==> m.servers.dom().contains(s))
            &&& s != id ==> m2.servers[s] == m.servers[s]
            &&& m2.next_server_id == id + 1
            &&& m2.files == m.files
            &&& m2.chunks == m.chunks
            &&& m2.cursor == m.cursor
        }),
{
}

/// A heartbeat makes a known server online and notes the time. Every other server, all
/// files and all chunks stay as they are, but for the chunks that were deleted, have
/// the server among their replicas and are not in the report: from these the server
/// is taken, and one that no other server is left for is forgotten.
pub proof fn law_heartbeat(
    m: MasterModel,
    s: ServerId,
    held: Seq<ChunkId>,
    now: u64,
    t: ServerId,
    c: ChunkId,
)
    ensures
        ({
            let m2 = after_heartbeat(m, s, held, now);
            let old = m.chunks[c];
            let new = m2.chunks[c];
            let gone = old.deleted && !held.contains(c) && old.replicas.contains(s);
            &&& m2.servers.dom().contains(t) <==> m.servers.dom().contains(t)
            &&& t != s && m.servers.dom().contains(t) ==> m2.servers[t] == m.servers[t]
            &&& m.servers.dom().contains(s) ==> m2.servers[s].online
            &&& m.servers.dom().contains(s) ==> m2.servers[s].last_seen == now
            &&& m.servers.dom().contains(s) ==> m2.servers[s].addr == m.servers[s].addr
            &&& m2.files == m.files
            &&& m2.cursor == m.cursor
            &&& m2.chunks.dom().contains(c) <==> m.chunks.dom().contains(c) && !(gone && forall|
                i: int,
            |
                0 <= i < old.replicas.len() ==> #[trigger] old.replicas[i] == s)
            &&& m2.chunks.dom().contains(c) ==> new.deleted == old.deleted
            &&& m2.chunks.dom().contains(c) && !gone ==> new.replicas == old.replicas
            &&& m2.chunks.dom().contains(c) && gone ==> (new.replicas.contains(t)
                <==> old.replicas.contains(t) && t != s)
        }),
{
    let old = m.chunks[c];
    let r = replicas_without(old.replicas, s);
    lemma_without(old.replicas, s);
    assert forall|i: int| 0 <= i < old.replicas.len() && r.len() == 0 implies
        #[trigger] old.replicas[i] == s by {
        if old.replicas[i] != s {
            assert(old.replicas.contains(old.replicas[i]));
            assert(r.contains(old.replicas[i]));
        }
    }
    if r.len() > 0 {
        assert(r.contains(r[0]));
        assert(old.replicas.contains(r[0]) && r[0] != s);
    }
}

/// What a server is told to drop: of the chunks that it reports, in the order of the
/// report, those that are unknown, those that are deleted, and those that the server
/// is no replica of.
pub proof fn law_drops(m: MasterModel, s: ServerId, held: Seq<ChunkId>, c: ChunkId)
    ensures
        to_drop(m, s, Seq::empty()) == Seq::<ChunkId>::empty(),
        m.chunks.dom().contains(c) && !m.chunks[c].deleted && m.chunks[c].replicas.contains(s)
            ==> to_drop(m, s, held.push(c)) == to_drop(m, s, held),
        !(m.chunks.dom().contains(c) && !m.chunks[c].deleted && m.chunks[c].replicas.contains(s))
            ==> to_drop(m, s, held.push(c)) == to_drop(m, s, held).push(c),
{
    reveal(Seq::filter);
    assert(held.push(c).drop_last() =~= held);
}

/// What a master says of itself.
pub proof fn law_master_reads()
    ensures
        forall|e: &MasterServer, r: ChunkId| #[trigger]
            call_ensures(MasterServer::next_chunk_id, (e,), r) ==> r == e@.next_chunk_id,
        forall|e: &MasterServer, r: ServerId| #[trigger]
            call_ensures(MasterServer::next_server_id, (e,), r) ==> r == e@.next_server_id,
        forall|e: &MasterServer, path: &String, len: u64, cs: u64, r: bool| #[trigger]
            call_ensures(MasterServer::has_ids_for, (e, path, len, cs), r) && e.wf() ==> (r <==> !(
            cs > 0 && !e@.files.dom().contains(path@) && two_online(e@.servers)
                && e@.next_chunk_id + chunks_in(len as nat, cs as nat) > u64::MAX)),
        forall|r: MasterServer| #[trigger]
            call_ensures(MasterServer::new, (), r) ==> {
                &&& r@.files.dom() == Set::<Seq<char>>::empty()
                &&& r@.chunks.dom() == Set::<ChunkId>::empty()
                &&& r@.servers.dom() == Set::<ServerId>::empty()
                &&& r@.next_chunk_id == 0 && r@.next_server_id == 0 && r@.cursor == 0
            },
{
    assert forall|e: &MasterServer, path: &String, len: u64, cs: u64, r: bool| #[trigger]
        call_ensures(MasterServer::has_ids_for, (e, path, len, cs), r) && e.wf() implies (r <==> !(
    cs > 0 && !e@.files.dom().contains(path@) && two_online(e@.servers) && e@.next_chunk_id
        + chunks_in(len as nat, cs as nat) > u64::MAX)) by {
        e.lemma_finite();
        law_refusals(e@, path@, cs);
    }
}

/// Taking a server from the replicas of a chunk leaves the others in their order.
pub proof fn law_replicas_left(r: Seq<ServerId>, s: ServerId, x: ServerId)
    ensures
        replicas_without(Seq::empty(), s) == Seq::<ServerId>::empty(),
        replicas_without(r.push(s), s) == replicas_without(r, s),
        x != s ==> replicas_without(r.push(x), s) == replicas_without(r, s).push(x),
{
    reveal(Seq::filter);
    assert(r.push(s).drop_last() =~= r);
    assert(r.push(x).drop_last() =~= r);
}

} // verus!
