//! Non-blocking line framing over a byte stream.
//!
//! The reader keeps the bytes that have arrived and hands them out line by line.
//! The writer is double-buffered: new writes go into the back buffer, so that a
//! partial flush of the front buffer can resume without losing or reordering
//! any bytes.

use std::io::ErrorKind;
use std::io::Read;
use std::io::Write;
use vstd::prelude::*;
use vstd::slice::slice_subrange;
use vstd::string::*;
use vstd::utf8::*;

use crate::bytes::append_bytes;
use crate::bytes::copy_range;
use crate::locks::protocol::MAX_LINE;

verus! {

/// The error type of `std::io`, carried but not looked into.
#[verifier::external_type_specification]
#[verifier::external_body]
pub struct ExIoError(std::io::Error);

/// Errors surfaced by [`LineFramer::next_line`].
#[derive(Debug)]
pub enum FrameError {
    /// The underlying stream failed.
    Io(std::io::Error),
    /// A line is longer than [`MAX_LINE`] bytes. The caller is expected to say
    /// so and drop the connection.
    LineTooLong,
    /// A completed line contained bytes that are not valid UTF-8.
    InvalidUtf8,
}

impl From<std::io::Error> for FrameError {
    fn from(e: std::io::Error) -> (r: Self) {
        FrameError::Io(e)
    }
}

impl vstd::std_specs::convert::FromSpecImpl<std::io::Error> for FrameError {
    open spec fn obeys_from_spec() -> bool {
        true
    }

    open spec fn from_spec(e: std::io::Error) -> FrameError {
        FrameError::Io(e)
    }
}

impl FrameError {
    /// The text shown to a person; an I/O error brings its own.
    pub fn message(&self) -> (r: Option<String>)
        ensures
            match self {
                FrameError::Io(_) => r is None,
                FrameError::LineTooLong => r is Some && r->0@
                    == "protocol line exceeds maximum length"@,
                FrameError::InvalidUtf8 => r is Some && r->0@
                    == "protocol line is not valid UTF-8"@,
            },
    {
        match self {
            FrameError::Io(_) => None,
            FrameError::LineTooLong => Some("protocol line exceeds maximum length".to_owned()),
            FrameError::InvalidUtf8 => Some("protocol line is not valid UTF-8".to_owned()),
        }
    }
}

/// Why the stream could not be read from or written to.
#[derive(Debug)]
pub enum StreamError {
    /// The peer has closed the connection.
    UnexpectedEof,
    /// The stream accepted no byte at all.
    WriteZero,
    /// The stream itself failed.
    Io(std::io::Error),
}

/// How a read of all available bytes ended.
pub enum ReadEnd {
    /// The stream ended; it reported this many bytes.
    Count(usize),
    /// Nothing more is available for now.
    WouldBlock,
    Failed(std::io::Error),
}

/// What the stream said to an offer of bytes.
pub enum WriteEnd {
    /// It took this many of them.
    Count(usize),
    /// It was interrupted before it took any.
    Interrupted,
    /// It can take none for now.
    WouldBlock,
    Failed(std::io::Error),
}

/// Calls `Read::read_to_end` on `stream` and returns the bytes that arrived and
/// how the read ended, with the stream as the call leaves it. Nothing is promised
/// of the bytes and the end: both are the stream's.
#[verifier::external_body]
fn read_available<S: Read>(stream: &mut S) -> (r: (Vec<u8>, ReadEnd, Ghost<S>))
    ensures
        r.2@ == *final(stream),
{
    let mut data: Vec<u8> = Vec::new();
    let end = match stream.read_to_end(&mut data) {
        Ok(n) => ReadEnd::Count(n),
        Err(e) => match e.kind() {
            ErrorKind::WouldBlock => ReadEnd::WouldBlock,
            _ => ReadEnd::Failed(e),
        },
    };
    (data, end, Ghost(*stream))
}

/// Calls `Write::write` on `stream` with `data` and returns what it said, with the
/// stream as the call leaves it. Nothing is promised of the answer: it is the
/// stream's.
#[verifier::external_body]
fn offer<S: Write>(stream: &mut S, data: &[u8]) -> (r: (WriteEnd, Ghost<S>))
    ensures
        r.1@ == *final(stream),
{
    let said = match stream.write(data) {
        Ok(n) => WriteEnd::Count(n),
        Err(e) => match e.kind() {
            ErrorKind::Interrupted => WriteEnd::Interrupted,
            ErrorKind::WouldBlock => WriteEnd::WouldBlock,
            _ => WriteEnd::Failed(e),
        },
    };
    (said, Ghost(*stream))
}

/// `String::from_utf8`: the text that `bytes` encode, if they are valid UTF-8.
#[verifier::external_body]
fn text_from_utf8(bytes: Vec<u8>) -> (r: Option<String>)
    ensures
        match r {
            Some(s) => valid_utf8(bytes@) && s@ == decode_utf8(bytes@),
            None => !valid_utf8(bytes@),
        },
{
    String::from_utf8(bytes).ok()
}

/// What is made of the way in which a read ended.
pub open spec fn read_outcome(end: ReadEnd) -> Result<(), StreamError> {
    match end {
        ReadEnd::Count(n) => if n == 0 {
            Err(StreamError::UnexpectedEof)
        } else {
            Ok(())
        },
        ReadEnd::WouldBlock => Ok(()),
        ReadEnd::Failed(e) => Err(StreamError::Io(e)),
    }
}

/// Whether one read from `stream` may come to `r`, that is the bytes that came and
/// how the read ended, and leave the stream as `after`.
pub closed spec fn may_read<S: Read>(stream: S, r: (Vec<u8>, ReadEnd), after: S) -> bool {
    exists|s: &mut S|
        *s == stream && #[trigger] call_ensures(
            read_available::<S>,
            (s,),
            (r.0, r.1, Ghost(after)),
        )
}

// Flushing.

/// Bytes that were offered to a stream, and what it said.
pub struct Offered<S> {
    /// The stream as it was before the offer.
    pub stream: S,
    pub data: Seq<u8>,
    pub said: WriteEnd,
    /// The stream as the offer left it.
    pub after: S,
}

/// Whether one offer of the bytes of `x` to the stream of `x` may be answered so,
/// and leave the stream so.
pub closed spec fn may_say<S: Write>(x: Offered<S>) -> bool {
    exists|s: &mut S, d: &[u8]|
        *s == x.stream && d@ == x.data && #[trigger] call_ensures(
            offer::<S>,
            (s, d),
            (x.said, Ghost(x.after)),
        )
}

/// Whether the offers of `run`, one right after the other and with nothing else in
/// between, take the stream from `before` to `after`.
pub open spec fn is_chain<S>(before: S, run: Seq<Offered<S>>, after: S) -> bool {
    &&& forall|i: int| 0 < i < run.len() ==> (#[trigger] run[i]).stream == run[i - 1].after
    &&& if run.len() > 0 {
        run[0].stream == before && run.last().after == after
    } else {
        after == before
    }
}

/// What an answer of the stream puts an end to flushing with; `None` where more
/// is to be offered.
pub open spec fn write_outcome(said: WriteEnd) -> Option<Result<bool, StreamError>> {
    match said {
        WriteEnd::Count(n) => if n == 0 {
            Some(Err(StreamError::WriteZero))
        } else {
            None
        },
        WriteEnd::Interrupted => None,
        WriteEnd::WouldBlock => Some(Ok(false)),
        WriteEnd::Failed(e) => Some(Err(StreamError::Io(e))),
    }
}

/// How many of `len` bytes an answer to them takes. A stream that reports more
/// than it was offered has taken all.
pub open spec fn taken(said: WriteEnd, len: nat) -> nat {
    match said {
        WriteEnd::Count(n) => if n <= len {
            n as nat
        } else {
            len
        },
        _ => 0,
    }
}

/// How many bytes the first `n` answers of `run` take.
pub open spec fn taken_by<S>(run: Seq<Offered<S>>, n: int) -> nat
    decreases n,
{
    if n <= 0 {
        0
    } else {
        taken_by(run, n - 1) + taken(run[n - 1].said, run[n - 1].data.len())
    }
}

/// Whether the offer `i` of `run` is one that flushing `pending` makes: some
/// bytes, the first of them the first that the answers before it left.
pub open spec fn is_next_offer<S>(pending: Seq<u8>, run: Seq<Offered<S>>, i: int) -> bool {
    let k = taken_by(run, i) as int;
    let x = run[i];
    &&& 0 < x.data.len()
    &&& k + x.data.len() <= pending.len()
    &&& x.data == pending.subrange(k, k + x.data.len())
}

/// Whether a stream that was offered the bytes `pending`, and answered as in
/// `run`, leaves `left` of them, and flushing ends in `r`: with `Ok(true)` once
/// nothing is left, and else with what the last answer comes to. Every answer but
/// the last leads to another offer. An interruption is no end, unless there were
/// more of them than fit into any lifetime.
pub open spec fn is_flush<S: Write>(
    pending: Seq<u8>,
    run: Seq<Offered<S>>,
    left: Seq<u8>,
    r: Result<bool, StreamError>,
) -> bool {
    &&& forall|i: int|
        0 <= i < run.len() ==> #[trigger] may_say(run[i]) && is_next_offer(pending, run, i)
    &&& forall|i: int|
        0 <= i < run.len() - 1 ==> write_outcome((#[trigger] run[i]).said) is None
    &&& taken_by(run, run.len() as int) <= pending.len()
    &&& left == pending.skip(taken_by(run, run.len() as int) as int)
    &&& if left.len() == 0 {
        r == Ok::<bool, StreamError>(true)
    } else {
        &&& run.len() > 0
        &&& match write_outcome(run.last().said) {
            Some(end) => r == end,
            None => run.last().said is Interrupted && r == Ok::<bool, StreamError>(false),
        }
    }
}

// Lines.

/// Place of the first `\n` in `b`, or `b.len()` when there is none.
pub open spec fn newline_at(b: Seq<u8>) -> int
    decreases b.len(),
{
    if b.len() == 0 || b[0] == 10 {
        0
    } else {
        1 + newline_at(b.drop_first())
    }
}

/// `b` without one trailing `\r`.
pub open spec fn without_cr(b: Seq<u8>) -> Seq<u8> {
    if b.len() > 0 && b.last() == 13 {
        b.drop_last()
    } else {
        b
    }
}

/// What is found at the front of the unread bytes.
pub enum LineModel {
    /// No complete line has arrived yet.
    Incomplete,
    Line(Seq<char>),
    TooLong,
    InvalidUtf8,
}

/// The next line of `unread`.
pub open spec fn line_of(unread: Seq<u8>) -> LineModel {
    let p = newline_at(unread);
    if p < unread.len() {
        let body = without_cr(unread.take(p));
        if p > MAX_LINE {
            LineModel::TooLong
        } else if valid_utf8(body) {
            LineModel::Line(decode_utf8(body))
        } else {
            LineModel::InvalidUtf8
        }
    } else if unread.len() >= MAX_LINE {
        LineModel::TooLong
    } else {
        LineModel::Incomplete
    }
}

/// What is left unread once the next line has been taken. An overlong line
/// takes everything with it.
pub open spec fn after_line(unread: Seq<u8>) -> Seq<u8> {
    match line_of(unread) {
        LineModel::Incomplete => unread,
        LineModel::TooLong => Seq::empty(),
        _ => unread.skip(newline_at(unread) + 1),
    }
}

/// Taking a line makes what is unread shorter.
pub proof fn lemma_line_shortens(unread: Seq<u8>)
    ensures
        line_of(unread) is Line ==> after_line(unread).len() < unread.len(),
{
    lemma_newline_bounds(unread);
}

/// A place of a `\n` lies inside the bytes, or right behind them.
pub proof fn lemma_newline_bounds(b: Seq<u8>)
    ensures
        0 <= newline_at(b) <= b.len(),
    decreases b.len(),
{
    if b.len() > 0 && b[0] != 10 {
        lemma_newline_bounds(b.drop_first());
    }
}

proof fn lemma_newline_is(b: Seq<u8>, p: int)
    requires
        0 <= p <= b.len(),
        forall|i: int| 0 <= i < p ==> b[i] != 10,
        p < b.len() ==> b[p] == 10,
    ensures
        newline_at(b) == p,
    decreases b.len(),
{
    if p > 0 {
        let t = b.drop_first();
        assert forall|i: int| 0 <= i < p - 1 implies t[i] != 10 by {
            assert(t[i] == b[i + 1]);
        }
        lemma_newline_is(t, p - 1);
    }
}

struct Reader {
    buf: Vec<u8>,
    /// Index of the next unconsumed byte.
    tail: usize,
}

impl Reader {
    spec fn wf(&self) -> bool {
        self.tail <= self.buf@.len()
    }

    spec fn unread(&self) -> Seq<u8> {
        self.buf@.skip(self.tail as int)
    }

    fn clear(&mut self)
        ensures
            final(self).wf(),
            final(self).buf@ == Seq::<u8>::empty(),
            final(self).tail == 0,
            final(self).unread() == Seq::<u8>::empty(),
    {
        self.buf.clear();
        self.tail = 0;
        assert(self.unread() =~= Seq::<u8>::empty());
    }

    /// Gives up consumed bytes once they make up half of the buffer.
    fn compact(&mut self)
        requires
            old(self).wf(),
        ensures
            final(self).wf(),
            final(self).unread() == old(self).unread(),
            if old(self).buf@.len() == old(self).tail || old(self).buf@.len() / 2 <= old(
                self,
            ).tail {
                &&& final(self).buf@ == old(self).unread()
                &&& final(self).tail == 0
            } else {
                &&& final(self).buf@ == old(self).buf@
                &&& final(self).tail == old(self).tail
            },
    {
        if self.buf.len() == self.tail {
            self.clear();
            assert(self.unread() =~= old(self).unread());
        } else if self.buf.len() / 2 <= self.tail {
            let rest: Vec<u8> = self.buf.split_off(self.tail);
            self.buf = rest;
            self.tail = 0;
            assert(self.unread() =~= old(self).unread());
        }
    }

    /// Place of the first unread `\n`, counted from the first unread byte.
    fn find_newline(&self) -> (r: usize)
        requires
            self.wf(),
        ensures
            r == newline_at(self.unread()),
            r <= self.unread().len(),
    {
        let mut i: usize = self.tail;
        while i < self.buf.len() && self.buf[i] != 10
            invariant
                self.tail <= i <= self.buf@.len(),
                forall|k: int| self.tail <= k < i ==> self.buf@[k] != 10,
            decreases self.buf@.len() - i,
        {
            i += 1;
        }
        proof {
            lemma_newline_is(self.unread(), i - self.tail);
        }
        i - self.tail
    }
}

struct Writer {
    /// The buffer being drained.
    front: Vec<u8>,
    /// How much of `front` the stream has taken.
    cursor: usize,
    /// The buffer that accepts writes.
    back: Vec<u8>,
    /// Everything that was offered to the stream and that it has taken so far.
    handed: Ghost<Seq<u8>>,
}

impl Writer {
    spec fn wf(&self) -> bool {
        self.cursor <= self.front@.len()
    }

    spec fn pending(&self) -> Seq<u8> {
        self.front@.skip(self.cursor as int) + self.back@
    }

    /// The bytes to offer next: what is left of the front buffer, or the back
    /// buffer if nothing is.
    spec fn outgoing(&self) -> Seq<u8> {
        if self.cursor < self.front@.len() {
            self.front@.skip(self.cursor as int)
        } else {
            self.back@
        }
    }

    /// Once the front buffer is drained, the two swap roles.
    fn turn(&mut self)
        requires
            old(self).wf(),
        ensures
            final(self).wf(),
            final(self).pending() == old(self).pending(),
            final(self).handed@ == old(self).handed@,
            old(self).outgoing() == final(self).front@.skip(final(self).cursor as int),
            final(self).outgoing() == old(self).outgoing(),
    {
        if self.cursor >= self.front.len() {
            self.front.clear();
            self.cursor = 0;
            std::mem::swap(&mut self.front, &mut self.back);
        }
        assert(self.pending() =~= old(self).pending());
        assert(self.outgoing() =~= old(self).outgoing());
        assert(self.outgoing() =~= self.front@.skip(self.cursor as int));
    }

    fn next_out<'a>(&'a mut self) -> (r: &'a [u8])
        requires
            old(self).wf(),
        ensures
            final(self).wf(),
            final(self).pending() == old(self).pending(),
            final(self).outgoing() == old(self).outgoing(),
            final(self).handed@ == old(self).handed@,
            r@ == old(self).outgoing(),
    {
        self.turn();
        let r: &[u8] = slice_subrange(self.front.as_slice(), self.cursor, self.front.len());
        assert(r@ =~= self.outgoing());
        r
    }

    /// Records that the stream has taken `n` of the bytes that were to be offered
    /// next, or all of them if that is less.
    fn advance(&mut self, n: usize)
        requires
            old(self).wf(),
        ensures
            final(self).wf(),
            ({
                let k = taken(WriteEnd::Count(n), old(self).outgoing().len()) as int;
                &&& final(self).pending() == old(self).pending().skip(k)
                &&& final(self).handed@ == old(self).handed@ + old(self).pending().take(k)
            }),
    {
        self.turn();
        let left: usize = self.front.len() - self.cursor;
        let k: usize = if n <= left {
            n
        } else {
            left
        };
        self.handed = Ghost(self.handed@ + self.pending().take(k as int));
        self.cursor = self.cursor + k;
        assert(self.pending() =~= old(self).pending().skip(k as int));
    }
}

/// Non-blocking line framer over a byte stream.
pub struct LineFramer<S> {
    stream: S,
    reader: Reader,
    writer: Writer,
}

impl<S> LineFramer<S> {
    /// The framer's positions lie inside its buffers.
    pub closed spec fn wf(&self) -> bool {
        self.reader.wf() && self.writer.wf()
    }

    /// The underlying stream.
    pub closed spec fn stream(&self) -> S {
        self.stream
    }

    /// Bytes that have arrived and not been handed out as lines.
    pub closed spec fn unread(&self) -> Seq<u8> {
        self.reader.unread()
    }

    /// Bytes that were written and that the stream has not taken yet.
    pub closed spec fn pending(&self) -> Seq<u8> {
        self.writer.pending()
    }

    /// Everything that was offered to the stream and that it has taken, in the
    /// order in which it took it.
    pub closed spec fn handed(&self) -> Seq<u8> {
        self.writer.handed@
    }

    /// The bytes that are to be offered to the stream next.
    pub closed spec fn outgoing(&self) -> Seq<u8> {
        self.writer.outgoing()
    }

    /// What is offered next is a front part of what is pending, and not empty
    /// unless nothing is.
    pub proof fn lemma_outgoing(&self)
        requires
            self.wf(),
        ensures
            self.outgoing().len() <= self.pending().len(),
            self.outgoing() == self.pending().take(self.outgoing().len() as int),
            self.outgoing().len() == 0 ==> self.pending().len() == 0,
    {
        assert(self.outgoing() =~= self.pending().take(self.outgoing().len() as int));
    }

    pub fn new(stream: S) -> (r: Self)
        ensures
            r.wf(),
            r.stream() == stream,
            r.unread() == Seq::<u8>::empty(),
            r.pending() == Seq::<u8>::empty(),
            r.handed() == Seq::<u8>::empty(),
    {
        let r = LineFramer {
            stream,
            reader: Reader { buf: Vec::new(), tail: 0 },
            writer: Writer {
                front: Vec::new(),
                cursor: 0,
                back: Vec::new(),
                handed: Ghost(Seq::empty()),
            },
        };
        assert(r.unread() =~= Seq::<u8>::empty());
        assert(r.pending() =~= Seq::<u8>::empty());
        r
    }

    /// Returns `true` iff every byte previously accepted by `write` has
    /// been handed to the underlying stream.
    pub fn write_buffer_empty(&self) -> (r: bool)
        requires
            self.wf(),
        ensures
            r == (self.pending().len() == 0),
    {
        self.writer.back.is_empty() && self.writer.cursor >= self.writer.front.len()
    }

    /// The underlying stream, to be changed in place.
    pub fn as_mut<'a>(&'a mut self) -> (r: &'a mut S)
        requires
            old(self).wf(),
        ensures
            *r == old(self).stream(),
            final(self).wf(),
            final(self).stream() == *final(r),
            final(self).unread() == old(self).unread(),
            final(self).pending() == old(self).pending(),
            final(self).handed() == old(self).handed(),
    {
        &mut self.stream
    }

    /// Takes in bytes that have arrived. Returns an error if the peer has
    /// closed the connection or the stream has failed.
    pub fn absorb(&mut self, data: Vec<u8>, end: ReadEnd) -> (r: Result<(), StreamError>)
        requires
            old(self).wf(),
        ensures
            final(self).wf(),
            final(self).unread() == old(self).unread() + data@,
            final(self).stream() == old(self).stream(),
            final(self).pending() == old(self).pending(),
            final(self).handed() == old(self).handed(),
            r == read_outcome(end),
    {
        let ghost got = data@;
        let mut data = data;
        self.reader.buf.append(&mut data);
        assert(self.unread() =~= old(self).unread() + got);
        match end {
            ReadEnd::Count(n) => {
                if n == 0 {
                    Err(StreamError::UnexpectedEof)
                } else {
                    Ok(())
                }
            },
            ReadEnd::WouldBlock => Ok(()),
            ReadEnd::Failed(e) => Err(StreamError::Io(e)),
        }
    }

    /// Returns the next complete line in the buffer, without its terminating
    /// `\n` (and without a trailing `\r`, if any). Returns `Ok(None)` if the
    /// buffer does not yet contain a full line.
    ///
    /// A line of more than [`MAX_LINE`] bytes, and [`MAX_LINE`] or more unread
    /// bytes without a `\n`, give [`FrameError::LineTooLong`] once and empty
    /// the buffer.
    pub fn next_line(&mut self) -> (r: Result<Option<String>, FrameError>)
        requires
            old(self).wf(),
        ensures
            final(self).wf(),
            final(self).unread() == after_line(old(self).unread()),
            final(self).stream() == old(self).stream(),
            final(self).pending() == old(self).pending(),
            final(self).handed() == old(self).handed(),
            match line_of(old(self).unread()) {
                LineModel::Incomplete => r is Ok && r->Ok_0 is None,
                LineModel::Line(s) => r is Ok && r->Ok_0 is Some && r->Ok_0->0@ == s,
                LineModel::TooLong => r is Err && r->Err_0 is LineTooLong,
                LineModel::InvalidUtf8 => r is Err && r->Err_0 is InvalidUtf8,
            },
    {
        let ghost unread = self.reader.unread();
        let idx: usize = self.reader.find_newline();
        assert(unread.len() == self.reader.buf@.len() - self.reader.tail);
        let len: usize = self.reader.buf.len();
        let end: usize = self.reader.tail + idx;
        if end < len {
            if idx > MAX_LINE {
                self.reader.clear();
                return Err(FrameError::LineTooLong);
            }
            // `end` is the place of the `\n`; an optional `\r` before it goes too.
            let mut line_end: usize = end;
            assert(idx > 0 ==> unread.take(idx as int).last() == self.reader.buf@[end - 1]);
            if idx > 0 && self.reader.buf[end - 1] == 13 {
                line_end = end - 1;
            }
            let line: Vec<u8> = copy_range(self.reader.buf.as_slice(), self.reader.tail, line_end);
            assert(line@ =~= without_cr(unread.take(idx as int)));
            self.reader.tail = end + 1;
            assert(self.reader.unread() =~= unread.skip(idx + 1));
            self.reader.compact();
            match text_from_utf8(line) {
                Some(s) => Ok(Some(s)),
                None => Err(FrameError::InvalidUtf8),
            }
        } else if idx >= MAX_LINE {
            self.reader.clear();
            Err(FrameError::LineTooLong)
        } else {
            Ok(None)
        }
    }

    /// Appends `buf` to the outbound queue without touching the underlying
    /// stream.
    pub fn write(&mut self, buf: &[u8]) -> (r: Result<usize, StreamError>)
        requires
            old(self).wf(),
        ensures
            final(self).wf(),
            r == Ok::<usize, StreamError>(buf@.len() as usize),
            final(self).pending() == old(self).pending() + buf@,
            final(self).stream() == old(self).stream(),
            final(self).unread() == old(self).unread(),
            final(self).handed() == old(self).handed(),
    {
        append_bytes(&mut self.writer.back, buf);
        assert(self.pending() =~= old(self).pending() + buf@);
        Ok(buf.len())
    }

    /// Appends all of `buf` to the outbound queue.
    pub fn write_all(&mut self, buf: &[u8]) -> (r: Result<(), StreamError>)
        requires
            old(self).wf(),
        ensures
            final(self).wf(),
            r is Ok,
            final(self).pending() == old(self).pending() + buf@,
            final(self).stream() == old(self).stream(),
            final(self).unread() == old(self).unread(),
            final(self).handed() == old(self).handed(),
    {
        match self.write(buf) {
            Ok(_) => Ok(()),
            Err(e) => Err(e),
        }
    }

    /// Takes note of what the stream said to the offer of
    /// [`outgoing`](Self::outgoing). Returns what flushing ends with, or `None` if
    /// more is to be offered.
    pub fn settle(&mut self, said: WriteEnd) -> (r: Option<Result<bool, StreamError>>)
        requires
            old(self).wf(),
        ensures
            final(self).wf(),
            r == write_outcome(said),
            final(self).stream() == old(self).stream(),
            final(self).unread() == old(self).unread(),
            ({
                let k = taken(said, old(self).outgoing().len()) as int;
                &&& final(self).pending() == old(self).pending().skip(k)
                &&& final(self).handed() == old(self).handed() + old(self).pending().take(k)
            }),
    {
        assert(self.pending().skip(0) =~= self.pending());
        assert(self.handed() + self.pending().take(0) =~= self.handed());
        match said {
            WriteEnd::Count(n) => {
                if n == 0 {
                    Some(Err(StreamError::WriteZero))
                } else {
                    self.writer.advance(n);
                    None
                }
            },
            WriteEnd::Interrupted => None,
            WriteEnd::WouldBlock => Some(Ok(false)),
            WriteEnd::Failed(e) => Some(Err(StreamError::Io(e))),
        }
    }

    /// Does nothing: flushing is up to [`flush_nonblocking`](Self::flush_nonblocking).
    pub fn flush(&mut self) -> (r: Result<(), StreamError>)
        ensures
            r is Ok,
            *final(self) == *old(self),
    {
        Ok(())
    }
}

impl<S> AsRef<S> for LineFramer<S> {
    fn as_ref(&self) -> (r: &S)
        ensures
            *r == self.stream(),
    {
        &self.stream
    }
}

impl<S: Read> LineFramer<S> {
    /// Reads whatever bytes are currently available on the underlying stream,
    /// without taking them in. What is returned is what the stream answered.
    pub fn pull(&mut self) -> (r: (Vec<u8>, ReadEnd))
        requires
            old(self).wf(),
        ensures
            final(self).wf(),
            may_read(old(self).stream(), r, final(self).stream()),
            final(self).unread() == old(self).unread(),
            final(self).pending() == old(self).pending(),
            final(self).handed() == old(self).handed(),
    {
        let (data, end, _after) = read_available(&mut self.stream);
        (data, end)
    }

    /// Pulls whatever bytes are currently available on the underlying stream
    /// into the read buffer. `WouldBlock` is no error; the end of the stream is
    /// [`StreamError::UnexpectedEof`].
    pub fn refresh(&mut self) -> (r: Result<(), StreamError>)
        requires
            old(self).wf(),
        ensures
            final(self).wf(),
            exists|data: Vec<u8>, end: ReadEnd|
                {
                    &&& #[trigger] may_read(
                        old(self).stream(),
                        (data, end),
                        final(self).stream(),
                    )
                    &&& final(self).unread() == old(self).unread() + data@
                    &&& r == read_outcome(end)
                },
            final(self).pending() == old(self).pending(),
            final(self).handed() == old(self).handed(),
    {
        let (data, end) = self.pull();
        self.absorb(data, end)
    }
}

impl<S: Write> LineFramer<S> {
    /// Drains as much of the outbound buffer as the underlying stream will
    /// accept without blocking. Returns `Ok(true)` if the buffer is now empty
    /// and `Ok(false)` if bytes remain (e.g. the stream reported `WouldBlock`).
    pub fn flush_nonblocking(&mut self) -> (r: Result<bool, StreamError>)
        requires
            old(self).wf(),
        ensures
            final(self).wf(),
            final(self).unread() == old(self).unread(),
            exists|run: Seq<Offered<S>>|
                {
                    &&& #[trigger] is_flush(old(self).pending(), run, final(self).pending(), r)
                    &&& final(self).handed() == old(self).handed() + old(self).pending().take(
                        taken_by(run, run.len() as int) as int,
                    )
                    &&& is_chain(old(self).stream(), run, final(self).stream())
                },
    {
        let ghost pending = self.pending();
        let ghost mut run: Seq<Offered<S>> = Seq::empty();
        // A stream may be interrupted again and again; after this many times
        // the rest is left for a later call.
        let mut patience: u64 = u64::MAX;
        assert(pending.skip(0) =~= pending);
        assert(self.handed() + pending.take(0) =~= self.handed());
        loop
            invariant
                self.wf(),
                self.unread() == old(self).unread(),
                pending == old(self).pending(),
                forall|i: int|
                    0 <= i < run.len() ==> #[trigger] may_say(run[i]) && is_next_offer(
                        pending,
                        run,
                        i,
                    ),
                forall|i: int|
                    0 <= i < run.len() ==> write_outcome((#[trigger] run[i]).said) is None,
                taken_by(run, run.len() as int) <= pending.len(),
                self.pending() == pending.skip(taken_by(run, run.len() as int) as int),
                self.handed() == old(self).handed() + pending.take(
                    taken_by(run, run.len() as int) as int,
                ),
                is_chain(old(self).stream(), run, self.stream()),
            decreases patience, self.pending().len(),
        {
            proof {
                self.lemma_outgoing();
            }
            let ghost at = taken_by(run, run.len() as int) as int;
            let ghost before = run;
            let ghost stream = self.stream();
            let ghost data = self.outgoing();
            let out: &[u8] = self.writer.next_out();
            if out.len() == 0 {
                assert(self.pending().len() == 0);
                assert(is_flush(pending, run, self.pending(), Ok(true)));
                return Ok(true);
            }
            let (said, after) = offer(&mut self.stream, out);
            let ghost x = Offered { stream, data, said, after: after@ };
            proof {
                assert(may_say(x));
                run = run.push(x);
                lemma_taken_by_prefix(before, x, before.len() as int);
                assert(data =~= pending.subrange(at, at + data.len()));
                assert forall|i: int| 0 <= i < run.len() implies #[trigger] may_say(run[i])
                    && is_next_offer(pending, run, i) by {
                    lemma_taken_by_prefix(before, x, i);
                    if i < before.len() {
                        assert(may_say(before[i]));
                        assert(run[i] == before[i]);
                    }
                }
                assert forall|i: int| 0 <= i < run.len() - 1 implies write_outcome(
                    (#[trigger] run[i]).said,
                ) is None by {
                    assert(run[i] == before[i]);
                }
                assert forall|i: int| 0 < i < run.len() implies (#[trigger] run[i]).stream == run[i
                    - 1].after by {
                    assert(run[i - 1] == before[i - 1]);
                    if i < before.len() {
                        assert(run[i] == before[i]);
                    }
                }
            }
            let ghost k = taken(said, data.len()) as int;
            let interrupted: bool = matches!(said, WriteEnd::Interrupted);
            let end = self.settle(said);
            assert(pending.skip(at).skip(k) =~= pending.skip(at + k));
            assert(pending.take(at) + pending.skip(at).take(k) =~= pending.take(at + k));
            match end {
                Some(r) => {
                    assert(is_flush(pending, run, self.pending(), r));
                    return r;
                },
                None => {},
            }
            if interrupted {
                if patience == 0 {
                    assert(is_flush(pending, run, self.pending(), Ok(false)));
                    return Ok(false);
                }
                patience -= 1;
            }
        }
    }
}

/// The answers before the last take what they took without it.
proof fn lemma_taken_by_prefix<S>(run: Seq<Offered<S>>, x: Offered<S>, n: int)
    requires
        n <= run.len(),
    ensures
        taken_by(run.push(x), n) == taken_by(run, n),
    decreases n,
{
    if n > 0 {
        lemma_taken_by_prefix(run, x, n - 1);
    }
}

// Laws.

/// What flushing ends with tells what the stream said last: `Ok(true)` that
/// nothing is left, and with bytes left `Ok(false)` that it would block, or was
/// interrupted; `WriteZero` that it took nothing; a failure that it failed so.
pub proof fn law_flush_result<S: Write>(
    pending: Seq<u8>,
    run: Seq<Offered<S>>,
    left: Seq<u8>,
    r: Result<bool, StreamError>,
)
    requires
        is_flush(pending, run, left, r),
    ensures
        pending.take(taken_by(run, run.len() as int) as int) + left == pending,
        r == Ok::<bool, StreamError>(true) <==> left.len() == 0,
        match r {
            Ok(true) => true,
            Ok(false) => run.len() > 0 && (run.last().said is WouldBlock
                || run.last().said is Interrupted),
            Err(StreamError::WriteZero) => run.len() > 0 && run.last().said == WriteEnd::Count(0),
            Err(StreamError::Io(e)) => run.len() > 0 && run.last().said == WriteEnd::Failed(e),
            Err(StreamError::UnexpectedEof) => false,
        },
{
    assert(pending.take(taken_by(run, run.len() as int) as int) + left =~= pending);
}

/// A stream that takes all that it is offered is left with everything, and the
/// flush ends in `Ok(true)`.
pub proof fn law_willing_stream_takes_all<S: Write>(
    pending: Seq<u8>,
    run: Seq<Offered<S>>,
    left: Seq<u8>,
    r: Result<bool, StreamError>,
)
    requires
        is_flush(pending, run, left, r),
        forall|i: int|
            0 <= i < run.len() ==> (#[trigger] run[i]).said == WriteEnd::Count(
                run[i].data.len() as usize,
            ) && run[i].data.len() <= usize::MAX,
    ensures
        r == Ok::<bool, StreamError>(true),
        left.len() == 0,
        pending.take(taken_by(run, run.len() as int) as int) == pending,
{
    if run.len() > 0 {
        assert(may_say(run.last()));
        assert(is_next_offer(pending, run, run.len() - 1));
        assert(run[run.len() - 1] == run.last());
    }
    assert(left.len() == 0);
    assert(pending.take(pending.len() as int) =~= pending);
}

/// What happens to the writing side of a framer.
pub enum WriteEvent {
    /// These bytes are written.
    Wrote(Seq<u8>),
    /// The stream takes this many of those that are pending.
    Took(nat),
}

/// All bytes that are written in the first `n` of `events`.
pub open spec fn written_in(events: Seq<WriteEvent>, n: int) -> Seq<u8>
    decreases n,
{
    if n <= 0 {
        Seq::empty()
    } else {
        match events[n - 1] {
            WriteEvent::Wrote(data) => written_in(events, n - 1) + data,
            WriteEvent::Took(_) => written_in(events, n - 1),
        }
    }
}

/// What has been handed over to the stream after the first `n` of `events`, and
/// what is pending.
pub open spec fn flushed_in(events: Seq<WriteEvent>, n: int) -> (Seq<u8>, Seq<u8>)
    decreases n,
{
    if n <= 0 {
        (Seq::empty(), Seq::empty())
    } else {
        let (handed, pending) = flushed_in(events, n - 1);
        match events[n - 1] {
            WriteEvent::Wrote(data) => (handed, pending + data),
            WriteEvent::Took(k) => (handed + pending.take(k as int), pending.skip(k as int)),
        }
    }
}

/// However writes and flushes alternate, the stream has taken a front part of what
/// was written, in order, and the rest is pending. So nothing is pending exactly
/// when the stream has taken everything.
pub proof fn law_taken_is_a_prefix_of_written(events: Seq<WriteEvent>, n: int)
    requires
        0 <= n <= events.len(),
        forall|i: int|
            0 <= i < n ==> ((#[trigger] events[i]) matches WriteEvent::Took(k) ==> k
                <= flushed_in(events, i).1.len()),
    ensures
        ({
            let (handed, pending) = flushed_in(events, n);
            &&& handed + pending == written_in(events, n)
            &&& handed == written_in(events, n).take(handed.len() as int)
            &&& pending.len() == 0 <==> handed.len() == written_in(events, n).len()
            &&& pending.len() == 0 <==> handed == written_in(events, n)
        }),
    decreases n,
{
    let (handed, pending) = flushed_in(events, n);
    let all = written_in(events, n);
    if n > 0 {
        law_taken_is_a_prefix_of_written(events, n - 1);
        assert(events[n - 1] matches WriteEvent::Took(k) ==> k <= flushed_in(
            events,
            n - 1,
        ).1.len());
    }
    assert(handed + pending =~= all);
    assert(handed =~= all.take(handed.len() as int));
    if pending.len() == 0 {
        assert(handed =~= all);
    }
}

/// Only `\n` and `\r` themselves are encoded with a byte 10 or 13.
proof fn lemma_scalar_bytes(c: char)
    requires
        c != '\n',
    ensures
        encode_scalar(c as u32).len() > 0,
        forall|i: int|
            0 <= i < encode_scalar(c as u32).len() ==> #[trigger] encode_scalar(c as u32)[i] != 10,
        encode_scalar(c as u32).last() == 13 ==> c == '\r',
{
    let v = c as u32;
    char_is_scalar(c);
    if has_width_1_encoding(v) {
        assert(v <= 0x7f ==> (v & 0x7f) as u8 == v) by (bit_vector);
    } else {
        assert(leading_byte_width_2(v) >= 0x80) by (bit_vector);
        assert(leading_byte_width_3(v) >= 0x80) by (bit_vector);
        assert(leading_byte_width_4(v) >= 0x80) by (bit_vector);
        assert(last_continuation_byte(v) >= 0x80) by (bit_vector);
        assert(second_last_continuation_byte(v) >= 0x80) by (bit_vector);
        assert(third_last_continuation_byte(v) >= 0x80) by (bit_vector);
    }
}

proof fn lemma_text_bytes(text: Seq<char>)
    requires
        !text.contains('\n'),
    ensures
        forall|i: int| 0 <= i < encode_utf8(text).len() ==> #[trigger] encode_utf8(text)[i] != 10,
        text.len() > 0 ==> encode_utf8(text).len() > 0,
        encode_utf8(text).len() > 0 && encode_utf8(text).last() == 13 ==> text.last() == '\r',
    decreases text.len(),
{
    if text.len() > 0 {
        let head = encode_scalar(text[0] as u32);
        let tail = text.drop_first();
        assert(text.contains(text[0]));
        lemma_scalar_bytes(text[0]);
        assert(!tail.contains('\n')) by {
            if tail.contains('\n') {
                let i = choose|i: int| 0 <= i < tail.len() && tail[i] == '\n';
                assert(text[i + 1] == '\n');
            }
        }
        lemma_text_bytes(tail);
        assert(encode_utf8(text) == head + encode_utf8(tail));
        assert forall|i: int| 0 <= i < encode_utf8(text).len() implies #[trigger] encode_utf8(
            text,
        )[i] != 10 by {
            if i < head.len() {
                assert(encode_utf8(text)[i] == head[i]);
            } else {
                assert(encode_utf8(text)[i] == encode_utf8(tail)[i - head.len()]);
            }
        }
        if tail.len() > 0 {
            assert(encode_utf8(text).last() == encode_utf8(tail).last());
            assert(tail.last() == text.last());
        } else {
            assert(encode_utf8(tail) =~= Seq::<u8>::empty());
            assert(encode_utf8(text) =~= head);
        }
    }
}

/// A text written as one `\n`-terminated line is read back as that text, and
/// what follows it stays unread.
pub proof fn law_line_round_trip(text: Seq<char>, rest: Seq<u8>)
    requires
        !text.contains('\n'),
        text.len() > 0 ==> text.last() != '\r',
        encode_utf8(text).len() <= MAX_LINE,
    ensures
        line_of(encode_utf8(text) + seq![10u8] + rest) == LineModel::Line(text),
        after_line(encode_utf8(text) + seq![10u8] + rest) == rest,
{
    let body = encode_utf8(text);
    let all = body + seq![10u8] + rest;
    lemma_text_bytes(text);
    assert forall|i: int| 0 <= i < body.len() implies all[i] != 10 by {
        assert(all[i] == body[i]);
    }
    lemma_newline_is(all, body.len() as int);
    assert(all.take(body.len() as int) =~= body);
    if body.len() > 0 && body.last() == 13 {
        if text.len() == 0 {
            assert(body =~= Seq::<u8>::empty());
        }
    }
    assert(without_cr(body) == body);
    encode_utf8_valid_utf8(text);
    encode_utf8_decode_utf8(text);
    assert(all.skip(body.len() as int + 1) =~= rest);
}

/// A line that ends in CR-LF reads like one that ends in LF.
pub proof fn law_line_crlf(text: Seq<char>, rest: Seq<u8>)
    requires
        !text.contains('\n'),
        encode_utf8(text).len() < MAX_LINE,
    ensures
        line_of(encode_utf8(text) + seq![13u8, 10u8] + rest) == LineModel::Line(text),
        after_line(encode_utf8(text) + seq![13u8, 10u8] + rest) == rest,
{
    let body = encode_utf8(text);
    let all = body + seq![13u8, 10u8] + rest;
    lemma_text_bytes(text);
    assert forall|i: int| 0 <= i < body.len() + 1 implies all[i] != 10 by {
        if i < body.len() {
            assert(all[i] == body[i]);
        }
    }
    lemma_newline_is(all, body.len() as int + 1);
    assert(all.take(body.len() as int + 1) =~= body.push(13u8));
    assert(body.push(13u8).drop_last() =~= body);
    encode_utf8_valid_utf8(text);
    encode_utf8_decode_utf8(text);
    assert(all.skip(body.len() as int + 2) =~= rest);
}

/// Whether a line is complete does not depend on what arrives after it, and
/// neither does what it says, be it text or not.
pub proof fn law_line_does_not_wait(unread: Seq<u8>, more: Seq<u8>)
    requires
        line_of(unread) is Line || line_of(unread) is InvalidUtf8,
    ensures
        line_of(unread + more) == line_of(unread),
        after_line(unread + more) == after_line(unread) + more,
{
    lemma_newline_stays(unread, more);
    let p = newline_at(unread);
    let all = unread + more;
    assert(all.take(p) =~= unread.take(p));
    assert(all.skip(p + 1) =~= unread.skip(p + 1) + more);
}

/// A `\n` that has arrived stays the first one.
proof fn lemma_newline_stays(b: Seq<u8>, more: Seq<u8>)
    requires
        newline_at(b) < b.len(),
    ensures
        0 <= newline_at(b),
        newline_at(b + more) == newline_at(b),
{
    lemma_newline_found(b);
    let p = newline_at(b);
    let all = b + more;
    assert forall|i: int| 0 <= i < p implies all[i] != 10 by {
        assert(all[i] == b[i]);
    }
    lemma_newline_is(all, p);
}

// Lines of a whole stream.

/// The segments of `b` that end in `\n`, in order, each without it.
pub open spec fn segments(b: Seq<u8>) -> Seq<Seq<u8>>
    decreases b.len(),
{
    proof {
        lemma_newline_bounds(b);
    }
    let p = newline_at(b);
    if p < b.len() {
        seq![b.take(p)] + segments(b.skip(p + 1))
    } else {
        Seq::empty()
    }
}

/// What a segment is read as, unless it is too long: the text that it encodes
/// once one trailing `\r` is dropped.
pub open spec fn read_as(segment: Seq<u8>) -> LineModel {
    let body = without_cr(segment);
    if valid_utf8(body) {
        LineModel::Line(decode_utf8(body))
    } else {
        LineModel::InvalidUtf8
    }
}

/// What happens to the reading side of a framer.
pub enum ReadEvent {
    /// These bytes arrive.
    Arrived(Seq<u8>),
    /// The next line is asked for.
    Asked,
}

/// All bytes that arrive in the first `n` of `events`.
pub open spec fn arrived_in(events: Seq<ReadEvent>, n: int) -> Seq<u8>
    decreases n,
{
    if n <= 0 {
        Seq::empty()
    } else {
        match events[n - 1] {
            ReadEvent::Arrived(data) => arrived_in(events, n - 1) + data,
            ReadEvent::Asked => arrived_in(events, n - 1),
        }
    }
}

/// What is unread after the first `n` of `events`, and the answers that were
/// given so far, but for those that there is no complete line.
pub open spec fn read_in(events: Seq<ReadEvent>, n: int) -> (Seq<u8>, Seq<LineModel>)
    decreases n,
{
    if n <= 0 {
        (Seq::empty(), Seq::empty())
    } else {
        let (unread, lines) = read_in(events, n - 1);
        match events[n - 1] {
            ReadEvent::Arrived(data) => (unread + data, lines),
            ReadEvent::Asked => (
                after_line(unread),
                if line_of(unread) is Incomplete {
                    lines
                } else {
                    lines.push(line_of(unread))
                },
            ),
        }
    }
}

/// `b` without its first `n` segments.
pub open spec fn after_segments(b: Seq<u8>, n: nat) -> Seq<u8>
    decreases n,
{
    if n == 0 {
        b
    } else {
        after_segments(b.skip(newline_at(b) + 1), (n - 1) as nat)
    }
}

/// What arrives later changes no segment that has arrived.
proof fn lemma_segments_stay(b: Seq<u8>, more: Seq<u8>, n: nat)
    requires
        n <= segments(b).len(),
    ensures
        n <= segments(b + more).len(),
        segments(b + more).take(n as int) == segments(b).take(n as int),
        after_segments(b + more, n) == after_segments(b, n) + more,
    decreases n,
{
    if n > 0 {
        let p = newline_at(b);
        lemma_newline_stays(b, more);
        let rest = b.skip(p + 1);
        assert((b + more).take(p) =~= b.take(p));
        assert((b + more).skip(p + 1) =~= rest + more);
        assert(segments(b) == seq![b.take(p)] + segments(rest));
        assert(segments(b + more) == seq![b.take(p)] + segments(rest + more));
        lemma_segments_stay(rest, more, (n - 1) as nat);
        assert forall|i: int| 0 <= i < n implies segments(b + more)[i] == segments(b)[i] by {
            if i > 0 {
                assert(segments(rest + more).take(n - 1)[i - 1] == segments(rest).take(n - 1)[i
                    - 1]);
            }
        }
        assert(segments(b + more).take(n as int) =~= segments(b).take(n as int));
    }
}

/// The segments that are left once some are taken.
proof fn lemma_segments_left(b: Seq<u8>, n: nat)
    requires
        n <= segments(b).len(),
    ensures
        segments(after_segments(b, n)) == segments(b).skip(n as int),
        n < segments(b).len() ==> {
            &&& newline_at(after_segments(b, n)) < after_segments(b, n).len()
            &&& after_segments(b, n).take(newline_at(after_segments(b, n))) == segments(b)[n as int]
            &&& after_segments(b, (n + 1) as nat) == after_segments(b, n).skip(
                newline_at(after_segments(b, n)) + 1,
            )
        },
    decreases n,
{
    if n == 0 {
        assert(segments(b).skip(0) =~= segments(b));
        assert(after_segments(b.skip(newline_at(b) + 1), 0) == b.skip(newline_at(b) + 1));
    } else {
        let rest = b.skip(newline_at(b) + 1);
        lemma_segments_left(rest, (n - 1) as nat);
        assert(segments(b) == seq![b.take(newline_at(b))] + segments(rest));
        assert(segments(b).skip(n as int) =~= segments(rest).skip(n - 1));
        assert(after_segments(b, (n + 1) as nat) == after_segments(rest, n));
    }
}

/// However the bytes of a stream are cut into pieces, and whenever lines are asked
/// for in between, the answers are those to the segments of the whole stream, in
/// order, as long as none of them is that a line is too long. What is unread is
/// what follows these segments, so that nothing is lost while a line is incomplete.
pub proof fn law_lines_do_not_depend_on_cuts(events: Seq<ReadEvent>, n: int)
    requires
        0 <= n <= events.len(),
        forall|i: int|
            0 <= i < n && (#[trigger] events[i]) is Asked ==> !(line_of(
                read_in(events, i).0,
            ) is TooLong),
    ensures
        ({
            let (unread, lines) = read_in(events, n);
            let all = segments(arrived_in(events, n));
            &&& lines.len() <= all.len()
            &&& forall|i: int| 0 <= i < lines.len() ==> (#[trigger] lines[i]) == read_as(all[i])
            &&& unread == after_segments(arrived_in(events, n), lines.len())
            &&& segments(unread) == all.skip(lines.len() as int)
            &&& line_of(unread) is Incomplete ==> lines.len() == all.len()
        }),
    decreases n,
{
    let b = arrived_in(events, n);
    let (unread, lines) = read_in(events, n);
    if n > 0 {
        law_lines_do_not_depend_on_cuts(events, n - 1);
        let b0 = arrived_in(events, n - 1);
        let (unread0, lines0) = read_in(events, n - 1);
        match events[n - 1] {
            ReadEvent::Arrived(data) => {
                lemma_segments_stay(b0, data, lines0.len());
                assert forall|i: int| 0 <= i < lines.len() implies (#[trigger] lines[i]) == read_as(
                    segments(b)[i],
                ) by {
                    assert(segments(b).take(lines.len() as int)[i] == segments(b0).take(
                        lines.len() as int,
                    )[i]);
                }
            },
            ReadEvent::Asked => {
                assert(events[n - 1] is Asked);
                lemma_newline_bounds(unread0);
                lemma_segments_left(b0, lines0.len());
                if !(line_of(unread0) is Incomplete) {
                    assert(segments(unread0).len() > 0);
                    assert(lines0.len() < segments(b0).len());
                }
            },
        }
    }
    lemma_segments_left(b, lines.len());
    if line_of(unread) is Incomplete {
        assert(segments(unread).len() == 0);
    }
}

proof fn lemma_newline_found(b: Seq<u8>)
    ensures
        0 <= newline_at(b) <= b.len(),
        forall|i: int| 0 <= i < newline_at(b) ==> b[i] != 10,
        newline_at(b) < b.len() ==> b[newline_at(b)] == 10,
    decreases b.len(),
{
    if b.len() > 0 && b[0] != 10 {
        let t = b.drop_first();
        lemma_newline_found(t);
        let p = newline_at(b);
        assert forall|i: int| 0 <= i < p implies b[i] != 10 by {
            if i > 0 {
                assert(t[i - 1] == b[i]);
            }
        }
        if p < b.len() {
            assert(t[p - 1] == b[p]);
        }
    }
}

/// What is read from the front of the bytes. A line ends at its first `\n` (byte 10),
/// which does not belong to it; nor does one `\r` (byte 13) before it. A line of more
/// than 4096 bytes is too long, and so are 4096 bytes without an end; with either,
/// everything that has arrived is gone. A line that is not UTF-8 is none. Fewer bytes
/// without an end are no line yet, and stay.
pub proof fn law_next_line(body: Seq<u8>, rest: Seq<u8>)
    requires
        forall|i: int| 0 <= i < body.len() ==> #[trigger] body[i] != 10,
    ensures
        ({
            let unread = body.push(10u8) + rest;
            let line = if body.len() > 0 && body[body.len() - 1] == 13 {
                body.drop_last()
            } else {
                body
            };
            &&& body.len() > 4096 ==> line_of(unread) is TooLong && after_line(unread).len() == 0
            &&& body.len() <= 4096 && !valid_utf8(line) ==> line_of(unread) is InvalidUtf8
            &&& body.len() <= 4096 && valid_utf8(line) ==> line_of(unread) == LineModel::Line(
                decode_utf8(line),
            )
            &&& body.len() <= 4096 ==> after_line(unread) == rest
        }),
        body.len() >= 4096 ==> line_of(body) is TooLong && after_line(body).len() == 0,
        body.len() < 4096 ==> line_of(body) is Incomplete && after_line(body) == body,
{
    let unread = body.push(10u8) + rest;
    let n = body.len() as int;
    assert forall|i: int| 0 <= i < n implies #[trigger] unread[i] != 10 by {
        assert(unread[i] == body[i]);
    }
    assert(unread[n] == 10);
    lemma_newline_is(unread, n);
    lemma_newline_is(body, n);
    assert(unread.take(n) =~= body);
    assert(unread.skip(n + 1) =~= rest);
}

/// What the answers of a stream come to: a read that ends with no bytes, or fails, is an
/// error; a write that takes no bytes, or fails, is one; of what was offered, a write
/// takes as much as it says, and no more than there is.
pub proof fn law_stream_answers(n: usize, e: std::io::Error, len: nat)
    ensures
        read_outcome(ReadEnd::Count(0)) == Err::<(), StreamError>(StreamError::UnexpectedEof),
        n > 0 ==> read_outcome(ReadEnd::Count(n)) == Ok::<(), StreamError>(()),
        read_outcome(ReadEnd::WouldBlock) == Ok::<(), StreamError>(()),
        read_outcome(ReadEnd::Failed(e)) == Err::<(), StreamError>(StreamError::Io(e)),
        write_outcome(WriteEnd::Count(0)) == Some(Err::<bool, StreamError>(StreamError::WriteZero)),
        n > 0 ==> write_outcome(WriteEnd::Count(n)) is None,
        write_outcome(WriteEnd::Interrupted) is None,
        write_outcome(WriteEnd::WouldBlock) == Some(Ok::<bool, StreamError>(false)),
        write_outcome(WriteEnd::Failed(e)) == Some(Err::<bool, StreamError>(StreamError::Io(e))),
        n <= len ==> taken(WriteEnd::Count(n), len) == n,
        n > len ==> taken(WriteEnd::Count(n), len) == len,
        taken(WriteEnd::Interrupted, len) == 0,
        taken(WriteEnd::WouldBlock, len) == 0,
        taken(WriteEnd::Failed(e), len) == 0,
{
}

} // verus!
