//! What the roles of the file system exchange over the control plane.

use vstd::prelude::*;

use crate::gfs::data::endpoint_view;
use crate::gfs::data::ChunkId;
use crate::gfs::data::Endpoint;
use crate::gfs::data::EndpointModel;

verus! {

/// Default chunk size (4 MB). Clients may choose another one per file.
pub const CHUNK_SIZE: u64 = 4 * 1024 * 1024;

/// Number of replicas per chunk (one primary, one secondary).
pub const REPLICATION_FACTOR: usize = 2;

/// Milliseconds between two heartbeats of a chunk server.
pub const HEARTBEAT_INTERVAL: u64 = 1000;

/// A chunk server is marked offline once this many consecutive heartbeats are
/// missed.
pub const MISSED_HEARTBEATS: u64 = 3;

/// Identifier that the master assigns to each chunk server on registration.
pub type ServerId = u64;

/// Addresses of the replicas of a chunk, in write order.
#[derive(Clone, Copy, PartialEq, Eq, Debug)]
pub struct ReplicaSet {
    pub primary: Endpoint,
    pub secondary: Option<Endpoint>,
}

/// Addresses of the replicas of a chunk, in write order.
pub struct ReplicaModel {
    pub primary: EndpointModel,
    pub secondary: Option<EndpointModel>,
}

impl View for ReplicaSet {
    type V = ReplicaModel;

    open spec fn view(&self) -> ReplicaModel {
        ReplicaModel { primary: self.primary@, secondary: endpoint_view(self.secondary) }
    }
}

/// The views of a file's chunks and their replicas.
pub open spec fn placement_views(v: Seq<(ChunkId, ReplicaSet)>) -> Seq<(ChunkId, ReplicaModel)> {
    v.map_values(|e: (ChunkId, ReplicaSet)| (e.0, e.1@))
}

/// Reply to a chunk server's heartbeat.
#[derive(Clone, Debug)]
pub struct HeartbeatResponse {
    /// Chunks that the server should delete locally. The command is repeated as
    /// long as the server keeps reporting the chunk.
    pub drop_chunks: Vec<ChunkId>,
}

impl Default for HeartbeatResponse {
    fn default() -> (r: Self)
        ensures
            r.drop_chunks@ == Seq::<ChunkId>::empty(),
    {
        HeartbeatResponse { drop_chunks: Vec::new() }
    }
}

/// Errors reported to clients across the control plane.
#[derive(Clone, Copy, PartialEq, Eq, Structural, Debug)]
pub enum MasterError {
    /// The requested path has no mapping in the namespace.
    NotFound,
    /// The path already exists on `allocate`.
    AlreadyExists,
    /// Fewer than [`REPLICATION_FACTOR`] chunk servers are online.
    NotEnoughServers,
    /// At least one of the file's chunks has zero live replicas.
    NoLiveReplicas,
    /// Client passed a zero chunk size to `allocate`.
    InvalidChunkSize,
}

impl MasterError {
    /// The text shown to a person.
    pub fn message(&self) -> (r: String)
        ensures
            r@ == match self {
                MasterError::NotFound => "path not found"@,
                MasterError::AlreadyExists => "path already exists"@,
                MasterError::NotEnoughServers => "not enough chunk servers online"@,
                MasterError::NoLiveReplicas => "at least one chunk has no live replicas"@,
                MasterError::InvalidChunkSize => "chunk size must be greater than zero"@,
            },
    {
        match self {
            MasterError::NotFound => "path not found".to_owned(),
            MasterError::AlreadyExists => "path already exists".to_owned(),
            MasterError::NotEnoughServers => "not enough chunk servers online".to_owned(),
            MasterError::NoLiveReplicas => "at least one chunk has no live replicas".to_owned(),
            MasterError::InvalidChunkSize => "chunk size must be greater than zero".to_owned(),
        }
    }
}

/// How many chunks a file of `len` bytes has: `len / chunk_size`, rounded up.
pub open spec fn chunks_in(len: nat, chunk_size: nat) -> nat
    recommends
        chunk_size > 0,
{
    if len == 0 {
        0
    } else {
        (len - 1) as nat / chunk_size + 1
    }
}

/// How many chunks a file of `len` bytes has.
pub fn chunk_count(len: u64, chunk_size: u64) -> (r: u64)
    requires
        chunk_size > 0,
    ensures
        r == chunks_in(len as nat, chunk_size as nat),
        r <= len,
{
    if len == 0 {
        0
    } else {
        proof {
            let a = (len - 1) as int;
            let b = chunk_size as int;
            assert(0 <= a / b <= a) by (nonlinear_arith)
                requires
                    a >= 0,
                    b > 0,
            ;
        }
        (len - 1) / chunk_size + 1
    }
}

/// The text of each error, and how many chunks a file has.
pub proof fn law_type_calls()
    ensures
        forall|e: &MasterError, r: String| #[trigger]
            call_ensures(MasterError::message, (e,), r) ==> r@ == (match e {
                MasterError::NotFound => "path not found"@,
                MasterError::AlreadyExists => "path already exists"@,
                MasterError::NotEnoughServers => "not enough chunk servers online"@,
                MasterError::NoLiveReplicas => "at least one chunk has no live replicas"@,
                MasterError::InvalidChunkSize => "chunk size must be greater than zero"@,
            }),
        forall|len: u64, size: u64, r: u64| #[trigger]
            call_ensures(chunk_count, (len, size), r) ==> r == chunks_in(len as nat, size as nat),
        forall|r: ReplicaSet|
            (#[trigger] r@).primary == r.primary@ && (r@.secondary is Some
                <==> r.secondary is Some) && (r.secondary is Some ==> r@.secondary->0
                == r.secondary->0@),
{
}

} // verus!
