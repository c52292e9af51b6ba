//! What a chunk server does with requests, replies and heartbeat answers.
//!
//! Connections are accepted, opened and read from outside. A write that has to be
//! forwarded is handed out as the request to send, and goes on when the reply to
//! it is known.

use vstd::prelude::*;
use vstd::string::*;

use crate::bytes::copy_range;
use crate::gfs::data::Addr;
use crate::gfs::data::AddrModel;
use crate::gfs::data::ChunkId;
use crate::gfs::data::DataRequest;
use crate::gfs::data::DataRequestModel;
use crate::gfs::data::DataResponse;
use crate::gfs::data::DataResponseModel;
use crate::gfs::store::Store;
use crate::gfs::types::HeartbeatResponse;
use crate::ordmap::entry_views;
use crate::ordmap::lemma_sorted_keys_lists;
use crate::ordmap::sorted_keys;
use crate::ordmap::within;
use crate::ordmap::Bound;
use crate::ordmap::BoundModel;
use crate::ordmap::Key;
use crate::text::digits;
use crate::text::joined;
use crate::text::joined3;
use crate::text::number_text;
use crate::wire::Field;

verus! {

/// The chunks that a server holds.
pub type ChunkStore = Store<u64, Vec<u8>>;

/// The chunks that a server holds.
pub type ChunkMap = Map<ChunkId, Seq<u8>>;

/// What a request leads to.
pub enum Step {
    /// It is answered.
    Reply(DataResponse),
    /// The request to send to the next server of the chain, before it is
    /// answered.
    Forward(Addr, DataRequest),
}

/// What a request leads to, over sequences.
pub enum StepModel {
    Reply(DataResponseModel),
    Forward(AddrModel, DataRequestModel),
}

impl View for Step {
    type V = StepModel;

    open spec fn view(&self) -> StepModel {
        match self {
            Step::Reply(r) => StepModel::Reply(r@),
            Step::Forward(a, r) => StepModel::Forward(a@, r@),
        }
    }
}

/// The smaller of two numbers.
pub open spec fn at_most(a: int, b: int) -> int {
    if a < b {
        a
    } else {
        b
    }
}

/// The bytes from `offset` up to `offset + len` of a chunk, as far as there are
/// any.
pub open spec fn clamped(chunk: Seq<u8>, offset: u64, len: u64) -> Seq<u8> {
    let n = chunk.len() as int;
    chunk.subrange(at_most(offset as int, n), at_most(offset + len, n))
}

/// The chunks that a server holds after a request.
pub open spec fn after_request(chunks: ChunkMap, req: DataRequestModel) -> ChunkMap {
    match req {
        DataRequestModel::Write(id, _, payload) => chunks.insert(id, payload),
        _ => chunks,
    }
}

/// The answer to a read of some bytes of a chunk.
pub open spec fn read_reply(chunks: ChunkMap, id: ChunkId, part: Seq<u8>) -> StepModel {
    if chunks.dom().contains(id) {
        StepModel::Reply(DataResponseModel::Data(part))
    } else {
        StepModel::Reply(DataResponseModel::NotFound)
    }
}

/// What a request leads to.
pub open spec fn step_of(chunks: ChunkMap, req: DataRequestModel) -> StepModel {
    match req {
        DataRequestModel::Write(id, hop, payload) => match hop {
            Some(a) => StepModel::Forward(a, DataRequestModel::Write(id, None, payload)),
            None => StepModel::Reply(DataResponseModel::Written),
        },
        DataRequestModel::Read(id) => read_reply(chunks, id, chunks[id]),
        DataRequestModel::ReadRange(id, offset, len) => read_reply(
            chunks,
            id,
            clamped(chunks[id], offset, len),
        ),
    }
}

fn read_part(chunk: &Vec<u8>, offset: u64, len: u64) -> (r: Vec<u8>)
    ensures
        r@ == clamped(chunk@, offset, len),
{
    let n: usize = chunk.len();
    let start: usize = if offset < n as u64 {
        offset as usize
    } else {
        n
    };
    let end: usize = if len < (n - start) as u64 {
        start + len as usize
    } else {
        n
    };
    copy_range(chunk.as_slice(), start, end)
}

/// Applies one request to the local store.
pub fn handle_request(store: &mut ChunkStore, req: DataRequest) -> (r: Step)
    requires
        old(store).wf(),
    ensures
        final(store).wf(),
        final(store)@ == after_request(old(store)@, req@),
        r@ == step_of(old(store)@, req@),
{
    match req {
        DataRequest::Write { chunk_id, forward_to, payload } => {
            let _done = store.set(chunk_id, payload.duplicate());
            match forward_to {
                Some(addr) => Step::Forward(
                    addr,
                    DataRequest::Write { chunk_id, forward_to: None, payload },
                ),
                None => Step::Reply(DataResponse::Written),
            }
        },
        DataRequest::Read { chunk_id } => match store.get(&chunk_id) {
            Some(chunk) => Step::Reply(DataResponse::Data(chunk.duplicate())),
            None => Step::Reply(DataResponse::NotFound),
        },
        DataRequest::ReadRange { chunk_id, offset, len } => match store.get(&chunk_id) {
            Some(chunk) => Step::Reply(DataResponse::Data(read_part(chunk, offset, len))),
            None => Step::Reply(DataResponse::NotFound),
        },
    }
}

// Forwarding.

/// What came back from the next server of the chain.
pub enum Forwarded {
    /// A reply.
    Reply(DataResponse),
    /// It could not be reached, or the connection broke. This is why.
    Failed(String),
}

/// `bytes` as a list of decimal numbers.
pub open spec fn listed(bytes: Seq<u8>) -> Seq<char>
    decreases bytes.len(),
{
    if bytes.len() == 0 {
        Seq::empty()
    } else if bytes.len() == 1 {
        digits(bytes[0] as nat)
    } else {
        listed(bytes.drop_last()) + ", "@ + digits(bytes.last() as nat)
    }
}

fn list_text(bytes: &Vec<u8>) -> (r: String)
    ensures
        r@ == listed(bytes@),
{
    let mut out: String = String::new();
    let mut i: usize = 0;
    assert(out@ =~= listed(bytes@.take(0)));
    while i < bytes.len()
        invariant
            i <= bytes@.len(),
            out@ == listed(bytes@.take(i as int)),
        decreases bytes@.len() - i,
    {
        let number: String = number_text(bytes[i] as u64);
        proof {
            assert(bytes@.take(i + 1).drop_last() =~= bytes@.take(i as int));
            assert(bytes@.take(i + 1).last() == bytes@[i as int]);
        }
        if i == 0 {
            out = number;
        } else {
            out = joined3(out.as_str(), ", ", number.as_str());
        }
        i += 1;
    }
    assert(bytes@.take(bytes@.len() as int) =~= bytes@);
    out
}

/// Why a forward failed, if it did.
pub open spec fn forward_failure(reply: DataResponseModel) -> Option<Seq<char>> {
    match reply {
        DataResponseModel::Written => None,
        DataResponseModel::Error(msg) => Some(msg),
        DataResponseModel::NotFound => Some("unexpected reply: NotFound"@),
        DataResponseModel::Data(d) => Some("unexpected reply: Data(["@ + listed(d) + "])"@),
    }
}

/// The answer to a forwarded write, given the text of the next server's address
/// and why the forward failed, if it did.
pub open spec fn chain_reply(addr: Seq<char>, failure: Option<Seq<char>>) -> DataResponseModel {
    match failure {
        None => DataResponseModel::Written,
        Some(why) => DataResponseModel::Error("forward to "@ + addr + ": "@ + why),
    }
}

/// The answer to a write that was forwarded to the server at `addr`: the write is
/// acknowledged only if that server acknowledged it.
pub fn finish_forward(addr: &str, came_back: Forwarded) -> (r: DataResponse)
    ensures
        r@ == chain_reply(
            addr@,
            match came_back {
                Forwarded::Reply(reply) => forward_failure(reply@),
                Forwarded::Failed(why) => Some(why@),
            },
        ),
{
    let why: String = match came_back {
        Forwarded::Reply(reply) => match reply {
            DataResponse::Written => {
                return DataResponse::Written;
            },
            DataResponse::Error(msg) => msg,
            DataResponse::NotFound => "unexpected reply: NotFound".to_owned(),
            DataResponse::Data(d) => joined3(
                "unexpected reply: Data([",
                list_text(&d).as_str(),
                "])",
            ),
        },
        Forwarded::Failed(why) => why,
    };
    let head: String = joined3("forward to ", addr, ": ");
    DataResponse::Error(joined(head.as_str(), why.as_str()))
}

// Heartbeats.

/// The ids of all chunks in the store, to be reported to the master.
pub fn chunk_report(store: &ChunkStore) -> (r: Vec<ChunkId>)
    requires
        store.wf(),
    ensures
        r@ == sorted_keys::<u64, Seq<u8>>(store@),
{
    let entries: Vec<(&u64, &Vec<u8>)> = store.scan(Bound::Unbounded, Bound::Unbounded);
    let ghost ks = sorted_keys::<u64, Seq<u8>>(store@);
    proof {
        lemma_all_within(ks);
    }
    let mut out: Vec<ChunkId> = Vec::new();
    let mut i: usize = 0;
    assert(entries@.len() == ks.len()) by {
        assert(entry_views(entries@).len() == entries@.len());
    }
    while i < entries.len()
        invariant
            i <= entries@.len(),
            entries@.len() == ks.len(),
            entry_views(entries@) == ks.map_values(|k: u64| (k, store@[k])),
            out@ == ks.take(i as int),
        decreases entries@.len() - i,
    {
        let k: &u64 = entries[i].0;
        assert(entry_views(entries@)[i as int].0 == *k);
        out.push(*k);
        assert(out@ =~= ks.take(i + 1));
        i += 1;
    }
    assert(ks.take(ks.len() as int) =~= ks);
    out
}

proof fn lemma_all_within(ks: Seq<u64>)
    ensures
        ks.filter(
            |k: u64|
                within::<u64>(k, BoundModel::Unbounded, BoundModel::Unbounded),
        ) == ks,
    decreases ks.len(),
{
    reveal(Seq::filter);
    if ks.len() > 0 {
        lemma_all_within(ks.drop_last());
        assert(ks.drop_last().push(ks.last()) =~= ks);
    }
}

proof fn lemma_one_more(drops: Seq<u64>, i: int)
    requires
        0 <= i < drops.len(),
    ensures
        drops.take(i + 1).to_set() == drops.take(i).to_set().insert(drops[i]),
{
    let a = drops.take(i);
    let b = drops.take(i + 1);
    assert forall|x: u64| b.to_set().contains(x) <==> a.to_set().insert(drops[i]).contains(x) by {
        if b.contains(x) && x != drops[i] {
            let j = choose|j: int| 0 <= j < b.len() && b[j] == x;
            assert(a[j] == x);
        }
        if a.contains(x) {
            let j = choose|j: int| 0 <= j < a.len() && a[j] == x;
            assert(b[j] == x);
        }
        assert(b[i] == drops[i]);
    }
    assert(b.to_set() =~= a.to_set().insert(drops[i]));
}

/// Deletes the chunks that the master does not want here.
pub fn apply_drops(store: &mut ChunkStore, resp: &HeartbeatResponse)
    requires
        old(store).wf(),
    ensures
        final(store).wf(),
        final(store)@ == old(store)@.remove_keys(resp.drop_chunks@.to_set()),
{
    let ghost drops = resp.drop_chunks@;
    let mut i: usize = 0;
    assert(store@ =~= old(store)@.remove_keys(drops.take(0).to_set()));
    while i < resp.drop_chunks.len()
        invariant
            i <= drops.len(),
            drops == resp.drop_chunks@,
            store.wf(),
            store@ == old(store)@.remove_keys(drops.take(i as int).to_set()),
        decreases drops.len() - i,
    {
        let c: ChunkId = resp.drop_chunks[i];
        let _done = store.delete(&c);
        proof {
            lemma_one_more(drops, i as int);
            assert(store@ =~= old(store)@.remove_keys(drops.take(i + 1).to_set()));
        }
        i += 1;
    }
    assert(drops.take(drops.len() as int) =~= drops);
}

// What requests do to each other.

/// A chunk that was written is read back whole, and in any part of it.
pub proof fn law_written_chunk_is_read(
    chunks: ChunkMap,
    id: ChunkId,
    hop: Option<AddrModel>,
    payload: Seq<u8>,
    offset: u64,
    len: u64,
)
    ensures
        ({
            let after = after_request(chunks, DataRequestModel::Write(id, hop, payload));
            &&& step_of(after, DataRequestModel::Read(id)) == StepModel::Reply(
                DataResponseModel::Data(payload),
            )
            &&& step_of(after, DataRequestModel::ReadRange(id, offset, len)) == StepModel::Reply(
                DataResponseModel::Data(clamped(payload, offset, len)),
            )
        }),
{
}

/// A range inside a chunk is answered with exactly those bytes; one that runs
/// past the end with those up to the end; one that starts at or behind the end
/// with none.
pub proof fn law_range_is_clamped(chunk: Seq<u8>, offset: u64, len: u64)
    ensures
        offset + len <= chunk.len() ==> clamped(chunk, offset, len) == chunk.subrange(
            offset as int,
            offset + len,
        ),
        offset <= chunk.len() < offset + len ==> clamped(chunk, offset, len) == chunk.skip(
            offset as int,
        ),
        offset >= chunk.len() ==> clamped(chunk, offset, len) == Seq::<u8>::empty(),
{
    let n = chunk.len() as int;
    if offset <= n < offset + len {
        assert(clamped(chunk, offset, len) =~= chunk.skip(offset as int));
    }
    if offset >= n {
        assert(clamped(chunk, offset, len) =~= Seq::<u8>::empty());
    }
}

/// Chain replication: the primary stores a write and forwards it, the secondary
/// stores it and acknowledges it, and so both hold the payload. Whatever comes
/// back to the primary, it acknowledges the write if and only if the secondary
/// did, and not if the secondary could not be reached.
pub proof fn law_acknowledged_write_is_on_both(
    primary: ChunkMap,
    secondary: ChunkMap,
    id: ChunkId,
    hop: AddrModel,
    payload: Seq<u8>,
    addr: Seq<char>,
    reply: DataResponseModel,
    why: Seq<char>,
)
    ensures
        ({
            let req = DataRequestModel::Write(id, Some(hop), payload);
            let next = DataRequestModel::Write(id, None, payload);
            let primary2 = after_request(primary, req);
            let secondary2 = after_request(secondary, next);
            &&& step_of(primary, req) == StepModel::Forward(hop, next)
            &&& step_of(secondary, next) == StepModel::Reply(DataResponseModel::Written)
            &&& chain_reply(addr, forward_failure(reply)) is Written <==> reply is Written
            &&& primary2.dom().contains(id) && primary2[id] == payload
            &&& secondary2.dom().contains(id) && secondary2[id] == payload
            &&& !(chain_reply(addr, Some(why)) is Written)
        }),
{
}

/// A chunk that the master orders to be dropped is not found any more, and every
/// other chunk is untouched. Ordering it again changes nothing.
pub proof fn law_dropped_chunk_is_not_found(chunks: ChunkMap, drops: Seq<ChunkId>, id: ChunkId)
    ensures
        ({
            let after = chunks.remove_keys(drops.to_set());
            &&& drops.contains(id) ==> step_of(after, DataRequestModel::Read(id))
                == StepModel::Reply(DataResponseModel::NotFound)
            &&& !drops.contains(id) ==> step_of(after, DataRequestModel::Read(id)) == step_of(
                chunks,
                DataRequestModel::Read(id),
            )
            &&& after.remove_keys(drops.to_set()) == after
        }),
{
    let after = chunks.remove_keys(drops.to_set());
    assert(after.remove_keys(drops.to_set()) =~= after);
}

/// A write sets its own chunk, whole and for good, and no other; a read changes nothing.
/// A write is acknowledged, or handed on without a further hop; a read of a chunk that is
/// not there says so; any other is answered with the bytes asked for.
pub proof fn law_requests(
    chunks: ChunkMap,
    id: ChunkId,
    hop: AddrModel,
    payload: Seq<u8>,
    offset: u64,
    len: u64,
    other: ChunkId,
)
    ensures
        ({
            let alone = DataRequestModel::Write(id, None, payload);
            let chained = DataRequestModel::Write(id, Some(hop), payload);
            let read = DataRequestModel::Read(id);
            let range = DataRequestModel::ReadRange(id, offset, len);
            &&& after_request(chunks, alone) == after_request(chunks, chained)
            &&& after_request(chunks, alone).dom().contains(id)
            &&& after_request(chunks, alone)[id] == payload
            &&& other != id ==> (after_request(chunks, alone).dom().contains(other)
                <==> chunks.dom().contains(other))
            &&& other != id ==> after_request(chunks, alone)[other] == chunks[other]
            &&& after_request(chunks, read) == chunks
            &&& after_request(chunks, range) == chunks
            &&& step_of(chunks, alone) == StepModel::Reply(DataResponseModel::Written)
            &&& step_of(chunks, chained) == StepModel::Forward(hop, alone)
            &&& !chunks.dom().contains(id) ==> step_of(chunks, read) == StepModel::Reply(
                DataResponseModel::NotFound,
            )
            &&& !chunks.dom().contains(id) ==> step_of(chunks, range) == StepModel::Reply(
                DataResponseModel::NotFound,
            )
            &&& chunks.dom().contains(id) ==> step_of(chunks, read) == StepModel::Reply(
                DataResponseModel::Data(chunks[id]),
            )
            &&& chunks.dom().contains(id) ==> step_of(chunks, range) == StepModel::Reply(
                DataResponseModel::Data(clamped(chunks[id], offset, len)),
            )
        }),
{
}

/// What is said of a forward that failed.
pub proof fn law_forward_texts(addr: Seq<char>, msg: Seq<char>, data: Seq<u8>, last: u8)
    ensures
        chain_reply(addr, None) == DataResponseModel::Written,
        chain_reply(addr, Some(msg)) == DataResponseModel::Error(
            "forward to "@ + addr + ": "@ + msg,
        ),
        forward_failure(DataResponseModel::Written) is None,
        forward_failure(DataResponseModel::Error(msg)) == Some(msg),
        forward_failure(DataResponseModel::NotFound) == Some("unexpected reply: NotFound"@),
        forward_failure(DataResponseModel::Data(data)) == Some(
            "unexpected reply: Data(["@ + listed(data) + "])"@,
        ),
        listed(Seq::empty()) == Seq::<char>::empty(),
        listed(seq![last]) == digits(last as nat),
        data.len() > 0 ==> listed(data.push(last)) == listed(data) + ", "@ + digits(last as nat),
{
    assert(data.push(last).drop_last() =~= data);
}

/// What the functions of this module return and leave behind.
pub proof fn law_chunk_calls()
    ensures
        forall|s: &mut ChunkStore, req: DataRequest, r: Step| #[trigger]
            call_ensures(handle_request, (s, req), r) ==> {
                &&& (*final(s))@ == after_request(s@, req@)
                &&& match r {
                    Step::Reply(x) => step_of(s@, req@) == StepModel::Reply(x@),
                    Step::Forward(a, x) => step_of(s@, req@) == StepModel::Forward(a@, x@),
                }
            },
        forall|addr: &str, why: String, r: DataResponse| #[trigger]
            call_ensures(finish_forward, (addr, Forwarded::Failed(why)), r) ==> r@
                == DataResponseModel::Error("forward to "@ + addr@ + ": "@ + why@),
        forall|addr: &str, reply: DataResponse, r: DataResponse| #[trigger]
            call_ensures(finish_forward, (addr, Forwarded::Reply(reply)), r) ==> {
                &&& r@ is Written <==> reply is Written
                &&& reply matches DataResponse::Error(m) ==> r@ == DataResponseModel::Error(
                    "forward to "@ + addr@ + ": "@ + m@,
                )
            },
        forall|s: &ChunkStore, r: Vec<ChunkId>| #[trigger]
            call_ensures(chunk_report, (s,), r) && s.wf() ==> {
                &&& forall|c: ChunkId| #[trigger] r@.contains(c) <==> s@.dom().contains(c)
                &&& forall|i: int, j: int|
                    0 <= i < j < r@.len() ==> (#[trigger] r@[i]) < (#[trigger] r@[j])
            },
        forall|s: &mut ChunkStore, h: &HeartbeatResponse, r: ()| #[trigger]
            call_ensures(apply_drops, (s, h), r) ==> {
                let now = (*final(s))@;
                &&& forall|c: ChunkId| #[trigger]
                    now.dom().contains(c) <==> s@.dom().contains(c)
                        && !h.drop_chunks@.contains(c)
                &&& forall|c: ChunkId| #[trigger] now.dom().contains(c) ==> now[c] == s@[c]
            },
{
    assert forall|s: &ChunkStore, r: Vec<ChunkId>| #[trigger]
        call_ensures(chunk_report, (s,), r) && s.wf() implies {
        &&& forall|c: ChunkId| #[trigger] r@.contains(c) <==> s@.dom().contains(c)
        &&& forall|i: int, j: int|
            0 <= i < j < r@.len() ==> (#[trigger] r@[i]) < (#[trigger] r@[j])
    } by {
        s.lemma_finite();
        lemma_sorted_keys_lists::<u64, Seq<u8>>(s@);
        let ks = sorted_keys::<u64, Seq<u8>>(s@);
        assert forall|i: int, j: int| 0 <= i < j < r@.len() implies (#[trigger] r@[i]) < (
        #[trigger] r@[j]) by {
            assert(<u64 as Key>::before(ks[i], ks[j]));
        }
    }
}

} // verus!
