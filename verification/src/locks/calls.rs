//! What the functions of the framer and of the event server return and leave behind, in the
//! terms of the laws of their modules.

use std::io::Read;
use std::io::Write;
use vstd::prelude::*;
use vstd::utf8::*;

use crate::locks::event::accept_client;
use crate::locks::event::client_token;
use crate::locks::event::departed;
use crate::locks::event::disconnect_client;
use crate::locks::event::drain_lines;
use crate::locks::event::drained;
use crate::locks::event::flush_all;
use crate::locks::event::flush_client;
use crate::locks::event::flush_list;
use crate::locks::event::flushed_into;
use crate::locks::event::free_slot;
use crate::locks::event::names_without;
use crate::locks::event::new_client;
use crate::locks::event::passed_on;
use crate::locks::event::process_line;
use crate::locks::event::processed;
use crate::locks::event::promote_and_notify;
use crate::locks::event::same_connection;
use crate::locks::event::seated;
use crate::locks::event::serve_input;
use crate::locks::event::serve_readable;
use crate::locks::event::served;
use crate::locks::event::slot_of;
use crate::locks::event::token_to_client_idx;
use crate::locks::event::with_stream;
use crate::locks::event::without_name;
use crate::locks::event::ClientModel;
use crate::locks::event::ClientSlab;
use crate::locks::event::ClientState;
use crate::locks::event::Flushed;
use crate::locks::event::Served;
use crate::locks::event::SlabModel;
use crate::locks::event::LISTENER_TOKEN;
use crate::locks::framer::after_line;
use crate::locks::framer::is_chain;
use crate::locks::framer::is_flush;
use crate::locks::framer::line_of;
use crate::locks::framer::may_read;
use crate::locks::framer::read_outcome;
use crate::locks::framer::taken;
use crate::locks::framer::taken_by;
use crate::locks::framer::write_outcome;
use crate::locks::framer::FrameError;
use crate::locks::framer::LineFramer;
use crate::locks::framer::LineModel;
use crate::locks::framer::Offered;
use crate::locks::framer::ReadEnd;
use crate::locks::framer::StreamError;
use crate::locks::framer::WriteEnd;
use crate::locks::protocol::response_text;
use crate::locks::protocol::ClientId;
use crate::locks::protocol::Response;
use crate::locks::table::LockStore;
use crate::text::texts;

verus! {

/// What a framer does with bytes that arrive, with lines that are taken and with bytes
/// that are to be sent.
pub proof fn law_framer_calls<S>()
    ensures
        forall|f: &mut LineFramer<S>, data: Vec<u8>, end: ReadEnd, r: Result<
            (),
            StreamError,
        >| #[trigger]
            call_ensures(LineFramer::<S>::absorb, (f, data, end), r) ==> {
                &&& (*final(f)).unread() == f.unread() + data@
                &&& (*final(f)).pending() == f.pending()
                &&& (*final(f)).handed() == f.handed()
                &&& r == read_outcome(end)
            },
        forall|f: &mut LineFramer<S>, r: Result<Option<String>, FrameError>| #[trigger]
            call_ensures(LineFramer::<S>::next_line, (f,), r) ==> {
                &&& (*final(f)).unread() == after_line(f.unread())
                &&& (*final(f)).pending() == f.pending()
                &&& (*final(f)).handed() == f.handed()
                &&& match line_of(f.unread()) {
                    LineModel::Incomplete => r is Ok && r->Ok_0 is None,
                    LineModel::Line(s) => r is Ok && r->Ok_0 is Some && r->Ok_0->0@ == s,
                    LineModel::TooLong => r is Err && r->Err_0 is LineTooLong,
                    LineModel::InvalidUtf8 => r is Err && r->Err_0 is InvalidUtf8,
                }
            },
        forall|f: &mut LineFramer<S>, buf: &[u8], r: Result<usize, StreamError>| #[trigger]
            call_ensures(LineFramer::<S>::write, (f, buf), r) ==> {
                &&& (*final(f)).pending() == f.pending() + buf@
                &&& (*final(f)).unread() == f.unread()
                &&& (*final(f)).handed() == f.handed()
                &&& r == Ok::<usize, StreamError>(buf@.len() as usize)
            },
        forall|f: &LineFramer<S>, r: bool| #[trigger]
            call_ensures(LineFramer::<S>::write_buffer_empty, (f,), r) ==> (r
                <==> f.pending().len() == 0),
{
}

/// What the steps of the server leave behind is what the laws above speak of.
pub proof fn law_server_calls<S>()
    ensures
        forall|
            i: usize,
            line: &str,
            cs: &mut ClientSlab<S>,
            t: &mut LockStore,
            r: Option<usize>,
        | #[trigger]
            call_ensures(process_line::<S>, (i, line, cs, t), r) ==> {
                let m = processed(cs@, t@, i as int, line@);
                &&& (*final(cs))@ == m.clients
                &&& (*final(t))@ == m.locks
                &&& (r is None <==> m.rearm is None)
                &&& (r matches Some(k) ==> m.rearm == Some(k as int))
                &&& (*final(t)).next_id() == t.next_id()
            },
        forall|
            i: usize,
            cs: &mut ClientSlab<S>,
            t: &mut LockStore,
            r: Option<(LineFramer<S>, Vec<usize>)>,
        | #[trigger]
            call_ensures(disconnect_client::<S>, (i, cs, t), r) ==> {
                let m = departed(cs@, t@, i as int);
                &&& (*final(cs))@ == m.0
                &&& (*final(t))@ == m.1
                &&& r is Some <==> i < cs@.len() && cs@[i as int] is Some
            },
        forall|i: usize, cs: &mut ClientSlab<S>, t: &mut LockStore, r: Served<S>| #[trigger]
            call_ensures(drain_lines::<S>, (i, cs, t), r) ==> {
                let m = drained(cs@, t@, i as int);
                &&& (*final(cs))@ == m.clients
                &&& (*final(t))@ == m.locks
                &&& r is Gone <==> m.dropped is Some
            },
        forall|
            i: usize,
            data: Vec<u8>,
            end: ReadEnd,
            cs: &mut ClientSlab<S>,
            t: &mut LockStore,
            r: Served<S>,
        | #[trigger]
            call_ensures(serve_input::<S>, (i, data, end, cs, t), r) ==> {
                let m = served(cs@, t@, i as int, data@, end);
                &&& (*final(cs))@ == m.clients
                &&& (*final(t))@ == m.locks
                &&& r is Gone <==> m.dropped is Some
            },
{
}

/// What the functions of a client and of the slab return and leave behind.
pub proof fn law_slab_calls<S>()
    ensures
        forall|c: &ClientState<S>, r: ClientId| #[trigger]
            call_ensures(ClientState::<S>::id, (c,), r) ==> r == c@.id,
        forall|c: &ClientState<S>, r: bool| #[trigger]
            call_ensures(ClientState::<S>::wants_write, (c,), r) ==> (r <==> c@.wants_write),
        forall|id: ClientId, stream: S, r: ClientState<S>| #[trigger]
            call_ensures(ClientState::<S>::new, (id, stream), r) ==> {
                &&& r@.id == id && r@.stream == stream
                &&& r@.unread.len() == 0 && r@.pending.len() == 0 && r@.handed.len() == 0
                &&& r@.held.len() == 0 && r@.waiting_for is None && !r@.wants_write
            },
        forall|c: &mut ClientState<S>, m: Response, r: ()| #[trigger]
            call_ensures(ClientState::<S>::enqueue, (c, m), r) ==> {
                let d = (*final(c))@;
                &&& same_connection(c@, d)
                &&& d.pending == c@.pending + (encode_utf8(response_text(m@)) + seq![10u8])
                &&& d.wants_write
                &&& d.held == c@.held && d.waiting_for == c@.waiting_for
            },
        forall|held: &Vec<String>, n: &str, r: Vec<String>| #[trigger]
            call_ensures(names_without, (held, n), r) ==> texts(r@) == without_name(
                texts(held@),
                n@,
            ),
        forall|cs: &ClientSlab<S>, r: usize| #[trigger]
            call_ensures(ClientSlab::<S>::slot_count, (cs,), r) ==> r == cs@.len(),
        forall|cs: &ClientSlab<S>, i: usize, r: Option<&ClientState<S>>| #[trigger]
            call_ensures(ClientSlab::<S>::get, (cs, i), r) ==> {
                &&& r is Some <==> i < cs@.len() && cs@[i as int] is Some
                &&& r matches Some(c) ==> cs@[i as int] == Some(c@)
            },
        forall|cs: &mut ClientSlab<S>, c: ClientState<S>, r: usize| #[trigger]
            call_ensures(ClientSlab::<S>::insert, (cs, c), r) ==> {
                &&& r == free_slot(cs@)
                &&& (*final(cs))@ == seated(cs@, c@)
            },
        forall|cs: &mut ClientSlab<S>, i: usize, r: Option<ClientState<S>>| #[trigger]
            call_ensures(ClientSlab::<S>::remove, (cs, i), r) ==> {
                let there = i < cs@.len() && cs@[i as int] is Some;
                &&& r is Some <==> there
                &&& there ==> (*final(cs))@ == cs@.update(i as int, None)
                &&& !there ==> (*final(cs))@ == cs@
            },
        forall|stream: S, cs: &mut ClientSlab<S>, t: &mut LockStore, r: usize| #[trigger]
            call_ensures(accept_client::<S>, (stream, cs, t), r) ==> {
                &&& r == free_slot(cs@)
                &&& (*final(cs))@ == seated(cs@, new_client(t.next_id(), stream))
                &&& (*final(t))@ == t@
                &&& (*final(t)).next_id() == t.next_id() + 1
            },
        forall|n: &str, t: &mut LockStore, cs: &mut ClientSlab<S>, r: Option<usize>| #[trigger]
            call_ensures(promote_and_notify::<S>, (n, t, cs), r) ==> {
                let m = passed_on(cs@, t@, n@);
                &&& (*final(cs))@ == m.clients
                &&& (*final(t))@ == m.locks
                &&& r is None <==> m.rearm is None
                &&& r matches Some(i) ==> m.rearm == Some(i as int)
            },
        forall|x: &ClientSlab<S>, id: ClientId, r: Option<usize>| #[trigger]
            call_ensures(ClientSlab::<S>::find, (x, id), r) ==> {
                &&& r is None <==> slot_of(x@, id) == x@.len()
                &&& r matches Some(i) ==> i == slot_of(x@, id)
            },
        LISTENER_TOKEN == 0,
        forall|i: usize, r: usize| #[trigger]
            call_ensures(client_token, (i,), r) ==> r == i + 1,
        forall|k: usize, r: usize| #[trigger]
            call_ensures(token_to_client_idx, (k,), r) ==> r == k - 1,
{
}

/// What an answer of the stream to an offer of bytes does to a framer, and how more bytes
/// are queued.
pub proof fn law_writer_calls<S>()
    ensures
        forall|
            f: &mut LineFramer<S>,
            said: WriteEnd,
            r: Option<Result<bool, StreamError>>,
        | #[trigger]
            call_ensures(LineFramer::<S>::settle, (f, said), r) ==> {
                let k = taken(said, f.outgoing().len()) as int;
                &&& r == write_outcome(said)
                &&& (*final(f)).pending() == f.pending().skip(k)
                &&& (*final(f)).handed() == f.handed() + f.pending().take(k)
                &&& (*final(f)).unread() == f.unread()
            },
        forall|f: &mut LineFramer<S>, buf: &[u8], r: Result<(), StreamError>| #[trigger]
            call_ensures(LineFramer::<S>::write_all, (f, buf), r) ==> {
                &&& r is Ok
                &&& (*final(f)).pending() == f.pending() + buf@
                &&& (*final(f)).unread() == f.unread()
                &&& (*final(f)).handed() == f.handed()
            },
        forall|stream: S, r: LineFramer<S>| #[trigger]
            call_ensures(LineFramer::<S>::new, (stream,), r) ==> {
                &&& r.stream() == stream
                &&& r.unread().len() == 0 && r.pending().len() == 0 && r.handed().len() == 0
            },
{
}

/// What a framer takes in when it reads from its stream.
pub proof fn law_reading_calls<S: Read>()
    ensures
        forall|cs: SlabModel<S>, i: int, stream: S| #[trigger]
            with_stream(cs, i, stream) == cs.update(
                i,
                Some((ClientModel { stream, ..cs[i]->0 })),
            ),
        forall|f: &mut LineFramer<S>, r: (Vec<u8>, ReadEnd)| #[trigger]
            call_ensures(LineFramer::<S>::pull, (f,), r) ==> {
                &&& may_read(f.stream(), r, (*final(f)).stream())
                &&& (*final(f)).unread() == f.unread()
                &&& (*final(f)).pending() == f.pending()
                &&& (*final(f)).handed() == f.handed()
            },
        forall|f: &mut LineFramer<S>, r: Result<(), StreamError>| #[trigger]
            call_ensures(LineFramer::<S>::refresh, (f,), r) ==> {
                &&& exists|data: Vec<u8>, end: ReadEnd|
                    {
                        &&& #[trigger] may_read(f.stream(), (data, end), (*final(f)).stream())
                        &&& (*final(f)).unread() == f.unread() + data@
                        &&& r == read_outcome(end)
                    }
                &&& (*final(f)).pending() == f.pending()
                &&& (*final(f)).handed() == f.handed()
            },
        forall|i: usize, cs: &mut ClientSlab<S>, t: &mut LockStore, r: Served<S>| #[trigger]
            call_ensures(serve_readable::<S>, (i, cs, t), r) ==> if i < cs@.len()
                && cs@[i as int] is Some {
                exists|stream: S, data: Vec<u8>, end: ReadEnd|
                    {
                        let m = #[trigger] served(
                            with_stream(cs@, i as int, stream),
                            t@,
                            i as int,
                            data@,
                            end,
                        );
                        &&& may_read(cs@[i as int]->0.stream, (data, end), stream)
                        &&& (*final(cs))@ == m.clients
                        &&& (*final(t))@ == m.locks
                        &&& r is Gone <==> m.dropped is Some
                    }
            } else {
                &&& (*final(cs))@ == cs@
                &&& (*final(t))@ == t@
                &&& r is Kept
            },
{
}

/// What flushing does to a framer and to the clients.
pub proof fn law_flushing_calls<S: Write>()
    ensures
        forall|f: &mut LineFramer<S>, r: Result<bool, StreamError>| #[trigger]
            call_ensures(LineFramer::<S>::flush_nonblocking, (f,), r) ==> {
                &&& (*final(f)).unread() == f.unread()
                &&& exists|run: Seq<Offered<S>>|
                    {
                        &&& #[trigger] is_flush(f.pending(), run, (*final(f)).pending(), r)
                        &&& (*final(f)).handed() == f.handed() + f.pending().take(
                            taken_by(run, run.len() as int) as int,
                        )
                        &&& is_chain(f.stream(), run, (*final(f)).stream())
                    }
            },
        forall|i: usize, cs: &mut ClientSlab<S>, r: Flushed| #[trigger]
            call_ensures(flush_client::<S>, (i, cs), r) ==> {
                let now = (*final(cs))@;
                &&& now.len() == cs@.len()
                &&& forall|k: int| 0 <= k < cs@.len() && k != i ==> #[trigger] now[k] == cs@[k]
                &&& i < cs@.len() && cs@[i as int] is Some ==> now[i as int] is Some
                    && flushed_into(cs@[i as int]->0, now[i as int]->0, r)
                &&& !(i < cs@.len() && cs@[i as int] is Some) ==> r is Absent && now == cs@
            },
        forall|cs: &mut ClientSlab<S>, r: Vec<(usize, Flushed)>| #[trigger]
            call_ensures(flush_all::<S>, (cs,), r) ==> {
                let now = (*final(cs))@;
                &&& now.len() == cs@.len()
                &&& r@.map_values(|x: (usize, Flushed)| x.0 as int) == flush_list(
                    cs@,
                    cs@.len() as int,
                )
                &&& forall|k: int|
                    0 <= k < cs@.len() && !(cs@[k] is Some && cs@[k]->0.wants_write)
                        ==> #[trigger] now[k] == cs@[k]
                &&& forall|x: int|
                    0 <= x < r@.len() ==> {
                        let k = (#[trigger] r@[x]).0 as int;
                        &&& now[k] is Some
                        &&& flushed_into(cs@[k]->0, now[k]->0, r@[x].1)
                    }
            },
{
}

} // verus!
