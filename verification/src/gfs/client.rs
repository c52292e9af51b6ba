//! What a client does with a file: how it is cut into chunks, what is sent for
//! each, and what the replies come to.

use vstd::prelude::*;
use vstd::string::*;

use crate::bytes::append_bytes;
use crate::bytes::copy_range;
use crate::gfs::data::hop_of;
use crate::gfs::data::Addr;
use crate::gfs::data::ChunkId;
use crate::gfs::data::DataRequest;
use crate::gfs::data::DataRequestModel;
use crate::gfs::data::DataResponse;
use crate::gfs::data::DataResponseModel;
use crate::gfs::data::Endpoint;
use crate::gfs::types::chunks_in;
use crate::gfs::types::ReplicaSet;
use crate::text::digits;
use crate::text::joined;
use crate::text::joined3;
use crate::text::number_text;

verus! {

// Cutting and joining.

/// Where the `k`-th chunk of a file of `len` bytes starts.
pub open spec fn chunk_start(len: int, chunk_size: int, k: int) -> int {
    if k * chunk_size < len {
        k * chunk_size
    } else {
        len
    }
}

/// The bytes of the `k`-th chunk of a file.
pub open spec fn piece(bytes: Seq<u8>, chunk_size: int, k: int) -> Seq<u8> {
    let len = bytes.len() as int;
    bytes.subrange(chunk_start(len, chunk_size, k), chunk_start(len, chunk_size, k + 1))
}

/// The chunks of a file, in file order.
pub open spec fn pieces(bytes: Seq<u8>, chunk_size: int) -> Seq<Seq<u8>> {
    Seq::new(
        chunks_in(bytes.len(), chunk_size as nat),
        |k: int| piece(bytes, chunk_size, k),
    )
}

/// The bytes of `parts` in a row.
pub open spec fn in_a_row(parts: Seq<Seq<u8>>) -> Seq<u8>
    decreases parts.len(),
{
    if parts.len() == 0 {
        Seq::empty()
    } else {
        in_a_row(parts.drop_last()) + parts.last()
    }
}

/// The bytes of the `k`-th chunk of a file.
pub fn chunk_payload(bytes: &[u8], chunk_size: u64, k: u64) -> (r: Vec<u8>)
    requires
        chunk_size > 0,
        k < chunks_in(bytes@.len(), chunk_size as nat),
    ensures
        r@ == piece(bytes@, chunk_size as int, k as int),
{
    let len: usize = bytes.len();
    proof {
        lemma_start_inside(len as int, chunk_size as int, k as int);
    }
    let start: usize = (k * chunk_size) as usize;
    let end: usize = if chunk_size < (len - start) as u64 {
        start + chunk_size as usize
    } else {
        len
    };
    assert((k + 1) * chunk_size == k * chunk_size + chunk_size) by (nonlinear_arith);
    copy_range(bytes, start, end)
}

proof fn lemma_start_inside(len: int, chunk_size: int, k: int)
    requires
        len >= 0,
        chunk_size > 0,
        0 <= k < chunks_in(len as nat, chunk_size as nat),
    ensures
        0 <= k * chunk_size < len,
{
    let q = (len - 1) / chunk_size;
    assert(k <= q);
    vstd::arithmetic::div_mod::lemma_fundamental_div_mod(len - 1, chunk_size);
    vstd::arithmetic::div_mod::lemma_mod_bound(len - 1, chunk_size);
    assert(0 <= k * chunk_size <= q * chunk_size) by (nonlinear_arith)
        requires
            0 <= k <= q,
            chunk_size > 0,
    ;
    assert(q * chunk_size <= len - 1) by (nonlinear_arith)
        requires
            len - 1 == chunk_size * q + (len - 1) % chunk_size,
            0 <= (len - 1) % chunk_size,
    ;
}

proof fn lemma_pieces_so_far(bytes: Seq<u8>, chunk_size: int, k: int)
    requires
        chunk_size > 0,
        0 <= k <= chunks_in(bytes.len(), chunk_size as nat),
    ensures
        in_a_row(pieces(bytes, chunk_size).take(k)) == bytes.take(
            chunk_start(bytes.len() as int, chunk_size, k),
        ),
    decreases k,
{
    let len = bytes.len() as int;
    let ps = pieces(bytes, chunk_size);
    let end = chunk_start(len, chunk_size, k);
    if k == 0 {
        assert(0 * chunk_size == 0) by (nonlinear_arith);
        assert(bytes.take(end) =~= Seq::<u8>::empty());
    } else {
        let start = chunk_start(len, chunk_size, k - 1);
        lemma_pieces_so_far(bytes, chunk_size, k - 1);
        lemma_start_inside(len, chunk_size, k - 1);
        assert((k - 1) * chunk_size + chunk_size == k * chunk_size) by (nonlinear_arith);
        assert(ps.take(k).drop_last() =~= ps.take(k - 1));
        assert(ps.take(k).last() == piece(bytes, chunk_size, k - 1));
        assert(bytes.take(start) + bytes.subrange(start, end) =~= bytes.take(end));
    }
}

/// A file is its chunks in a row: nothing is lost, doubled or reordered.
pub proof fn law_pieces_make_the_file(bytes: Seq<u8>, chunk_size: int)
    requires
        chunk_size > 0,
    ensures
        in_a_row(pieces(bytes, chunk_size)) == bytes,
{
    let len = bytes.len() as int;
    let n = chunks_in(bytes.len(), chunk_size as nat) as int;
    lemma_pieces_so_far(bytes, chunk_size, n);
    let ps = pieces(bytes, chunk_size);
    assert(ps.take(n) =~= ps);
    if len > 0 {
        let q = (len - 1) / chunk_size;
        vstd::arithmetic::div_mod::lemma_fundamental_div_mod(len - 1, chunk_size);
        vstd::arithmetic::div_mod::lemma_mod_bound(len - 1, chunk_size);
        assert(n * chunk_size >= len) by (nonlinear_arith)
            requires
                n == q + 1,
                len - 1 == chunk_size * q + (len - 1) % chunk_size,
                (len - 1) % chunk_size < chunk_size,
        ;
    }
    assert(chunk_start(len, chunk_size, n) == len);
    assert(bytes.take(len) =~= bytes);
}

/// No chunk is empty or longer than the chunk size.
pub proof fn law_piece_length(bytes: Seq<u8>, chunk_size: int, k: int)
    requires
        chunk_size > 0,
        0 <= k < chunks_in(bytes.len(), chunk_size as nat),
    ensures
        0 < piece(bytes, chunk_size, k).len() <= chunk_size,
{
    lemma_start_inside(bytes.len() as int, chunk_size, k);
    assert((k + 1) * chunk_size == k * chunk_size + chunk_size) by (nonlinear_arith);
}

/// The views of a list of byte strings.
pub open spec fn part_views(v: Seq<Vec<u8>>) -> Seq<Seq<u8>> {
    v.map_values(|p: Vec<u8>| p@)
}

/// Puts the chunks of a file together.
pub fn assemble(parts: &Vec<Vec<u8>>) -> (r: Vec<u8>)
    ensures
        r@ == in_a_row(part_views(parts@)),
{
    let ghost all = part_views(parts@);
    let mut out: Vec<u8> = Vec::new();
    let mut i: usize = 0;
    assert(out@ =~= in_a_row(all.take(0)));
    while i < parts.len()
        invariant
            i <= parts@.len(),
            all == part_views(parts@),
            out@ == in_a_row(all.take(i as int)),
        decreases parts@.len() - i,
    {
        append_bytes(&mut out, parts[i].as_slice());
        proof {
            assert(all.take(i + 1).drop_last() =~= all.take(i as int));
            assert(all.take(i + 1).last() == parts@[i as int]@);
        }
        i += 1;
    }
    assert(all.take(all.len() as int) =~= all);
    out
}

// Writing.

/// The request that writes a chunk: it goes to the primary, which forwards it to
/// the secondary, if there is one.
pub fn write_request(chunk_id: ChunkId, replicas: &ReplicaSet, payload: Vec<u8>) -> (r: (
    Endpoint,
    DataRequest,
))
    ensures
        r.0@ == replicas@.primary,
        r.1@ == DataRequestModel::Write(chunk_id, hop_of(replicas@.secondary), payload@),
{
    let forward_to: Option<Addr> = match replicas.secondary {
        Some(e) => Some(e.addr),
        None => None,
    };
    (replicas.primary, DataRequest::Write { chunk_id, forward_to, payload })
}

/// Why a write failed, if it did, given the text of the primary's address.
pub open spec fn write_failure(primary: Seq<char>, reply: DataResponseModel) -> Option<Seq<char>> {
    match reply {
        DataResponseModel::Written => None,
        DataResponseModel::Error(msg) => Some("primary "@ + primary + ": "@ + msg),
        DataResponseModel::NotFound => Some("primary returned NotFound for write"@),
        DataResponseModel::Data(_) => Some("primary returned Data for write"@),
    }
}

/// What the primary's reply to a write comes to.
pub fn check_written(primary: &str, reply: &DataResponse) -> (r: Result<(), String>)
    ensures
        match write_failure(primary@, reply@) {
            None => r is Ok,
            Some(why) => r is Err && r->Err_0@ == why,
        },
{
    match reply {
        DataResponse::Written => Ok(()),
        DataResponse::Error(msg) => {
            let head: String = joined3("primary ", primary, ": ");
            Err(joined(head.as_str(), msg.as_str()))
        },
        DataResponse::NotFound => Err("primary returned NotFound for write".to_owned()),
        DataResponse::Data(_) => Err("primary returned Data for write".to_owned()),
    }
}

// Reading.

/// What a reply to a read comes to, given the text of the server's address.
pub open spec fn read_outcome(
    addr: Seq<char>,
    chunk_id: ChunkId,
    reply: DataResponseModel,
) -> Result<Seq<u8>, Seq<char>> {
    match reply {
        DataResponseModel::Data(d) => Ok(d),
        DataResponseModel::NotFound => Err(
            addr + ": chunk "@ + digits(chunk_id as nat) + " not found"@,
        ),
        DataResponseModel::Error(msg) => Err(addr + ": "@ + msg),
        DataResponseModel::Written => Err(addr + ": returned Written for read"@),
    }
}

/// What a reply to a read comes to.
pub fn check_read(addr: &str, chunk_id: ChunkId, reply: DataResponse) -> (r: Result<
    Vec<u8>,
    String,
>)
    ensures
        match read_outcome(addr@, chunk_id, reply@) {
            Ok(d) => r is Ok && r->Ok_0@ == d,
            Err(why) => r is Err && r->Err_0@ == why,
        },
{
    match reply {
        DataResponse::Data(d) => Ok(d),
        DataResponse::NotFound => {
            let head: String = joined3(addr, ": chunk ", number_text(chunk_id).as_str());
            Err(joined(head.as_str(), " not found"))
        },
        DataResponse::Error(msg) => Err(joined3(addr, ": ", msg.as_str())),
        DataResponse::Written => Err(joined(addr, ": returned Written for read")),
    }
}

/// How a read goes on after the primary was asked.
pub enum ReadStep {
    Done(Result<Vec<u8>, String>),
    /// The secondary is asked. The primary failed for this reason.
    TrySecondary(Endpoint, String),
}

/// What follows from the primary's answer to a read: the secondary, if there is
/// one, is asked after any failure.
pub fn after_primary(answer: Result<Vec<u8>, String>, replicas: &ReplicaSet) -> (r: ReadStep)
    ensures
        match answer {
            Ok(d) => r == ReadStep::Done(Ok(d)),
            Err(why) => match replicas.secondary {
                Some(a) => r == ReadStep::TrySecondary(a, why),
                None => r == ReadStep::Done(Err(why)),
            },
        },
{
    match answer {
        Ok(d) => ReadStep::Done(Ok(d)),
        Err(why) => match replicas.secondary {
            Some(a) => ReadStep::TrySecondary(a, why),
            None => ReadStep::Done(Err(why)),
        },
    }
}

/// What follows from the secondary's answer, after the primary failed.
pub fn after_secondary(primary_failure: &str, answer: Result<Vec<u8>, String>) -> (r: Result<
    Vec<u8>,
    String,
>)
    ensures
        match answer {
            Ok(d) => r == Ok::<Vec<u8>, String>(d),
            Err(why) => r is Err && r->Err_0@ == "primary "@ + primary_failure@ + "; secondary "@
                + why@,
        },
{
    match answer {
        Ok(d) => Ok(d),
        Err(why) => {
            let head: String = joined3("primary ", primary_failure, "; secondary ");
            Err(joined(head.as_str(), why.as_str()))
        },
    }
}

// Reports.

/// What is shown of a finished transfer.
pub open spec fn summary_text(
    verb: Seq<char>,
    remote: Seq<char>,
    len: nat,
    chunks: nat,
) -> Seq<char> {
    verb + " "@ + remote + " ("@ + digits(len) + " bytes, "@ + digits(chunks) + " chunk(s))"@
}

/// What is shown of a finished transfer.
pub fn summary(verb: &str, remote: &str, len: u64, chunks: u64) -> (r: String)
    ensures
        r@ == summary_text(verb@, remote@, len as nat, chunks as nat),
{
    let head: String = joined3(verb, " ", remote);
    let with_len: String = joined3(head.as_str(), " (", number_text(len).as_str());
    let with_count: String = joined3(with_len.as_str(), " bytes, ", number_text(chunks).as_str());
    joined(with_count.as_str(), " chunk(s))")
}

// Laws.

/// The `k`-th chunk of a file holds the bytes from `k * chunk_size` on. Every chunk but
/// the last one is exactly as long as the chunk size.
pub proof fn law_piece(bytes: Seq<u8>, chunk_size: int, k: int, i: int)
    requires
        chunk_size > 0,
        0 <= k < chunks_in(bytes.len(), chunk_size as nat),
    ensures
        pieces(bytes, chunk_size).len() == chunks_in(bytes.len(), chunk_size as nat),
        pieces(bytes, chunk_size)[k] == piece(bytes, chunk_size, k),
        0 <= i < piece(bytes, chunk_size, k).len() ==> piece(bytes, chunk_size, k)[i] == bytes[k
            * chunk_size + i],
        k + 1 < chunks_in(bytes.len(), chunk_size as nat) ==> piece(bytes, chunk_size, k).len()
            == chunk_size,
        k + 1 == chunks_in(bytes.len(), chunk_size as nat) ==> piece(bytes, chunk_size, k).len()
            == bytes.len() - k * chunk_size,
{
    let len = bytes.len() as int;
    lemma_start_inside(len, chunk_size, k);
    assert((k + 1) * chunk_size == k * chunk_size + chunk_size) by (nonlinear_arith);
    if k + 1 < chunks_in(bytes.len(), chunk_size as nat) {
        lemma_start_inside(len, chunk_size, k + 1);
    } else {
        let q = (len - 1) / chunk_size;
        vstd::arithmetic::div_mod::lemma_fundamental_div_mod(len - 1, chunk_size);
        vstd::arithmetic::div_mod::lemma_mod_bound(len - 1, chunk_size);
        assert((k + 1) * chunk_size >= len) by (nonlinear_arith)
            requires
                k == q,
                len - 1 == chunk_size * q + (len - 1) % chunk_size,
                (len - 1) % chunk_size < chunk_size,
        ;
    }
}

/// Parts in a row: a part more is put behind the others.
pub proof fn law_in_a_row(parts: Seq<Seq<u8>>, p: Seq<u8>)
    ensures
        in_a_row(Seq::empty()) == Seq::<u8>::empty(),
        in_a_row(parts.push(p)) == in_a_row(parts) + p,
{
    assert(parts.push(p).drop_last() =~= parts);
}

/// What the replies to a write and to a read come to, and what is shown.
pub proof fn law_client_texts(
    addr: Seq<char>,
    id: ChunkId,
    msg: Seq<char>,
    data: Seq<u8>,
    verb: Seq<char>,
    len: nat,
    n: nat,
)
    ensures
        write_failure(addr, DataResponseModel::Written) is None,
        write_failure(addr, DataResponseModel::Error(msg)) == Some(
            "primary "@ + addr + ": "@ + msg,
        ),
        write_failure(addr, DataResponseModel::NotFound) == Some(
            "primary returned NotFound for write"@,
        ),
        write_failure(addr, DataResponseModel::Data(data)) == Some(
            "primary returned Data for write"@,
        ),
        read_outcome(addr, id, DataResponseModel::Data(data)) == Ok::<Seq<u8>, Seq<char>>(data),
        read_outcome(addr, id, DataResponseModel::NotFound) == Err::<Seq<u8>, Seq<char>>(
            addr + ": chunk "@ + digits(id as nat) + " not found"@,
        ),
        read_outcome(addr, id, DataResponseModel::Error(msg)) == Err::<Seq<u8>, Seq<char>>(
            addr + ": "@ + msg,
        ),
        read_outcome(addr, id, DataResponseModel::Written) == Err::<Seq<u8>, Seq<char>>(
            addr + ": returned Written for read"@,
        ),
        summary_text(verb, msg, len, n) == verb + " "@ + msg + " ("@ + digits(len) + " bytes, "@
            + digits(n) + " chunk(s))"@,
{
}

/// What the functions of this module return.
pub proof fn law_client_calls()
    ensures
        forall|id: ChunkId, rs: &ReplicaSet, data: Vec<u8>, r: (Endpoint, DataRequest)| #[trigger]
            call_ensures(write_request, (id, rs, data), r) ==> {
                &&& r.0@ == rs.primary@
                &&& r.1@ == DataRequestModel::Write(
                    id,
                    match rs.secondary {
                        Some(e) => Some(e.addr@),
                        None => None,
                    },
                    data@,
                )
            },
        forall|p: &str, reply: &DataResponse, r: Result<(), String>| #[trigger]
            call_ensures(check_written, (p, reply), r) ==> {
                &&& r is Ok <==> reply is Written
                &&& r is Err ==> write_failure(p@, reply@) == Some(r->Err_0@)
            },
        forall|a: &str, id: ChunkId, reply: DataResponse, r: Result<Vec<u8>, String>| #[trigger]
            call_ensures(check_read, (a, id, reply), r) ==> {
                &&& r is Ok <==> reply is Data
                &&& reply matches DataResponse::Data(d) ==> r->Ok_0@ == d@
                &&& r is Err ==> read_outcome(a@, id, reply@) == Err::<Seq<u8>, Seq<char>>(
                    r->Err_0@,
                )
            },
        forall|d: Vec<u8>, rs: &ReplicaSet, r: ReadStep| #[trigger]
            call_ensures(after_primary, (Ok::<Vec<u8>, String>(d), rs), r) ==> r
                == ReadStep::Done(Ok(d)),
        forall|why: String, rs: &ReplicaSet, r: ReadStep| #[trigger]
            call_ensures(after_primary, (Err::<Vec<u8>, String>(why), rs), r) ==> match (
            rs.secondary) {
                Some(e) => r == ReadStep::TrySecondary(e, why),
                None => r == ReadStep::Done(Err(why)),
            },
        forall|p: &str, d: Vec<u8>, r: Result<Vec<u8>, String>| #[trigger]
            call_ensures(after_secondary, (p, Ok::<Vec<u8>, String>(d)), r) ==> r == Ok::<
                Vec<u8>,
                String,
            >(d),
        forall|p: &str, why: String, r: Result<Vec<u8>, String>| #[trigger]
            call_ensures(after_secondary, (p, Err::<Vec<u8>, String>(why)), r) ==> r is Err
                && r->Err_0@ == "primary "@ + p@ + "; secondary "@ + why@,
        forall|parts: &Vec<Vec<u8>>, r: Vec<u8>| #[trigger]
            call_ensures(assemble, (parts,), r) ==> r@ == in_a_row(
                parts@.map_values(|p: Vec<u8>| p@),
            ),
        forall|b: &[u8], size: u64, k: u64, r: Vec<u8>| #[trigger]
            call_ensures(chunk_payload, (b, size, k), r) ==> r@ == piece(
                b@,
                size as int,
                k as int,
            ),
        forall|v: &str, t: &str, len: u64, n: u64, r: String| #[trigger]
            call_ensures(summary, (v, t, len, n), r) ==> r@ == v@ + " "@ + t@ + " ("@ + digits(
                len as nat,
            ) + " bytes, "@ + digits(n as nat) + " chunk(s))"@,
{
}

} // verus!
