//! The wire protocol: one request or response per line.
//!
//! ```text
//! ACQUIRE <name>       # wait until held, then reply GRANTED
//! TRY_ACQUIRE <name>   # immediate GRANTED or DENIED
//! RELEASE <name>       # give up a held lock
//! STATUS <name>        # report holder / queue length
//! LIST                 # list all known locks
//!
//! OK                                         # generic success
//! GRANTED <name>                             # ACQUIRE / TRY_ACQUIRE succeeded
//! DENIED <name>                              # TRY_ACQUIRE failed
//! STATUS <name> FREE <waiters>               # unheld lock
//! STATUS <name> HELD <holder-id> <waiters>   # held lock
//! LIST, one line per name, END               # multi-line list response
//! ERR <message>                              # see the error catalogue
//! ```
//!
//! Requests are parsed strictly; responses leniently, so that a newer server
//! may add trailing arguments.

use std::str::FromStr;
use vstd::prelude::*;
use vstd::string::*;

use crate::text::after_first;
use crate::text::before_first;
use crate::text::chars_of;
use crate::text::digits;
use crate::text::is_digit;
use crate::text::joined;
use crate::text::joined3;
use crate::text::lemma_digits_read_back;
use crate::text::lemma_parsed_digits;
use crate::text::lemma_position_is;
use crate::text::lemma_position_of;
use crate::text::number_text;
use crate::text::parse_unsigned;
use crate::text::parsed_unsigned;
use crate::text::position_of;
use crate::text::same_text;
use crate::text::split_once_at;

verus! {

/// Maximum size in bytes of a single protocol line, excluding the
/// terminating `\n`.
pub const MAX_LINE: usize = 4096;

/// Maximum length in bytes of a lock name.
pub const MAX_LOCK_NAME: usize = 64;

pub const ERR_INVALID_LOCK_NAME: &'static str = "ERR invalid lock name";

pub const ERR_LINE_TOO_LONG: &'static str = "ERR line too long";

pub const ERR_NOT_HELD: &'static str = "ERR not held";

pub const ERR_ALREADY_HELD: &'static str = "ERR already held";

pub const ERR_UNKNOWN_COMMAND_PREFIX: &'static str = "ERR unknown command ";

/// Connection-scoped identity assigned by the server.
pub type ClientId = u64;

/// Whether `c` may stand in a lock name.
pub open spec fn name_char(c: char) -> bool {
    ||| is_digit(c)
    ||| 'a' <= c && c <= 'z'
    ||| 'A' <= c && c <= 'Z'
    ||| c == '_'
    ||| c == '.'
    ||| c == ':'
    ||| c == '-'
}

/// A lock name matches `[A-Za-z0-9_.:-]{1,64}`.
pub open spec fn valid_name(n: Seq<char>) -> bool {
    &&& 0 < n.len() <= MAX_LOCK_NAME
    &&& forall|i: int| 0 <= i < n.len() ==> name_char(#[trigger] n[i])
}

/// Returns `true` iff `name` is a syntactically valid lock name.
pub fn is_valid_lock_name(name: &str) -> (r: bool)
    ensures
        r == valid_name(name@),
{
    let cs: Vec<char> = chars_of(name);
    if cs.len() == 0 || cs.len() > MAX_LOCK_NAME {
        return false;
    }
    let mut i: usize = 0;
    while i < cs.len()
        invariant
            i <= cs@.len(),
            cs@ == name@,
            forall|k: int| 0 <= k < i ==> name_char(#[trigger] cs@[k]),
        decreases cs@.len() - i,
    {
        let c: char = cs[i];
        let ok: bool = ('0' <= c && c <= '9') || ('a' <= c && c <= 'z') || ('A' <= c && c <= 'Z')
            || c == '_' || c == '.' || c == ':' || c == '-';
        if !ok {
            assert(!name_char(name@[i as int]));
            return false;
        }
        i += 1;
    }
    true
}

/// Client to server message.
#[derive(Clone, Debug, PartialEq, Eq)]
pub enum Request {
    Acquire(String),
    TryAcquire(String),
    Release(String),
    Status(String),
    List,
}

/// Server to client message. A `LIST` reply is `ListBegin`, zero or more
/// `ListEntry`s and `ListEnd`, so that every response is exactly one line.
#[derive(Clone, Debug, PartialEq, Eq)]
pub enum Response {
    Okay,
    Granted(String),
    Denied(String),
    StatusFree { name: String, waiters: usize },
    StatusHeld { name: String, holder: ClientId, waiters: usize },
    ListBegin,
    ListEntry(String),
    ListEnd,
    Error(String),
}

/// Returned when a protocol line cannot be parsed.
#[derive(Clone, Debug, PartialEq, Eq)]
pub struct ParseError;

impl ParseError {
    /// The text shown to a person.
    pub fn message(&self) -> (r: String)
        ensures
            r@ == "malformed protocol message"@,
    {
        "malformed protocol message".to_owned()
    }
}

/// The abstract value of a [`Request`].
pub enum RequestModel {
    Acquire(Seq<char>),
    TryAcquire(Seq<char>),
    Release(Seq<char>),
    Status(Seq<char>),
    List,
}

impl View for Request {
    type V = RequestModel;

    open spec fn view(&self) -> RequestModel {
        match self {
            Request::Acquire(n) => RequestModel::Acquire(n@),
            Request::TryAcquire(n) => RequestModel::TryAcquire(n@),
            Request::Release(n) => RequestModel::Release(n@),
            Request::Status(n) => RequestModel::Status(n@),
            Request::List => RequestModel::List,
        }
    }
}

/// The abstract value of a [`Response`].
pub enum ResponseModel {
    Okay,
    Granted(Seq<char>),
    Denied(Seq<char>),
    StatusFree { name: Seq<char>, waiters: usize },
    StatusHeld { name: Seq<char>, holder: ClientId, waiters: usize },
    ListBegin,
    ListEntry(Seq<char>),
    ListEnd,
    Error(Seq<char>),
}

impl View for Response {
    type V = ResponseModel;

    open spec fn view(&self) -> ResponseModel {
        match self {
            Response::Okay => ResponseModel::Okay,
            Response::Granted(n) => ResponseModel::Granted(n@),
            Response::Denied(n) => ResponseModel::Denied(n@),
            Response::StatusFree { name, waiters } => ResponseModel::StatusFree {
                name: name@,
                waiters: *waiters,
            },
            Response::StatusHeld { name, holder, waiters } => ResponseModel::StatusHeld {
                name: name@,
                holder: *holder,
                waiters: *waiters,
            },
            Response::ListBegin => ResponseModel::ListBegin,
            Response::ListEntry(n) => ResponseModel::ListEntry(n@),
            Response::ListEnd => ResponseModel::ListEnd,
            Response::Error(m) => ResponseModel::Error(m@),
        }
    }
}

// Splitting.

/// Splits `s` at the first space. The tail is `None` if `s` contains no space.
fn split_first<'a>(s: &'a str) -> (r: (&'a str, Option<&'a str>))
    ensures
        r.0@ == before_first(s@, ' '),
        match r.1 {
            Some(t) => after_first(s@, ' ') == Some(t@),
            None => after_first(s@, ' ') is None,
        },
{
    split_once_at(s, ' ')
}

/// The lock name that `rest` is, if it is one and nothing else.
pub open spec fn strict_name(rest: Option<Seq<char>>) -> Option<Seq<char>> {
    match rest {
        Some(n) => if valid_name(n) {
            Some(n)
        } else {
            None
        },
        None => None,
    }
}

/// The lock name that `rest` starts with, up to its first space.
pub open spec fn lenient_name(rest: Option<Seq<char>>) -> Option<Seq<char>> {
    match rest {
        Some(t) => strict_name(Some(before_first(t, ' '))),
        None => None,
    }
}

fn take_lock_name_strict(rest: Option<&str>) -> (r: Result<String, ParseError>)
    ensures
        match r {
            Ok(n) => rest is Some && strict_name(Some(rest->0@)) == Some(n@),
            Err(_) => rest is None || strict_name(Some(rest->0@)) is None,
        },
{
    match rest {
        Some(name) => {
            if is_valid_lock_name(name) {
                Ok(name.to_owned())
            } else {
                Err(ParseError)
            }
        },
        None => Err(ParseError),
    }
}

fn take_lock_name_lenient(rest: Option<&str>) -> (r: Result<String, ParseError>)
    ensures
        match r {
            Ok(n) => rest is Some && lenient_name(Some(rest->0@)) == Some(n@),
            Err(_) => rest is None || lenient_name(Some(rest->0@)) is None,
        },
{
    match rest {
        Some(t) => {
            let (name, _ignored) = split_first(t);
            take_lock_name_strict(Some(name))
        },
        None => Err(ParseError),
    }
}

// Requests.

/// The line that carries a request, without its `\n`.
pub open spec fn request_text(m: RequestModel) -> Seq<char> {
    match m {
        RequestModel::Acquire(n) => "ACQUIRE "@ + n,
        RequestModel::TryAcquire(n) => "TRY_ACQUIRE "@ + n,
        RequestModel::Release(n) => "RELEASE "@ + n,
        RequestModel::Status(n) => "STATUS "@ + n,
        RequestModel::List => "LIST"@,
    }
}

/// The request that a line carries, if it carries one.
pub open spec fn request_of(s: Seq<char>) -> Option<RequestModel> {
    let verb = before_first(s, ' ');
    let rest = after_first(s, ' ');
    if verb == "ACQUIRE"@ {
        match strict_name(rest) {
            Some(n) => Some(RequestModel::Acquire(n)),
            None => None,
        }
    } else if verb == "TRY_ACQUIRE"@ {
        match strict_name(rest) {
            Some(n) => Some(RequestModel::TryAcquire(n)),
            None => None,
        }
    } else if verb == "RELEASE"@ {
        match strict_name(rest) {
            Some(n) => Some(RequestModel::Release(n)),
            None => None,
        }
    } else if verb == "STATUS"@ {
        match strict_name(rest) {
            Some(n) => Some(RequestModel::Status(n)),
            None => None,
        }
    } else if verb == "LIST"@ && rest is None {
        Some(RequestModel::List)
    } else {
        None
    }
}

impl Request {
    /// Reads the request that a line carries.
    pub fn parse_line(s: &str) -> (r: Result<Request, ParseError>)
        ensures
            match r {
                Ok(req) => request_of(s@) == Some(req@),
                Err(_) => request_of(s@) is None,
            },
    {
        let (verb, rest) = split_first(s);
        if same_text(verb, "ACQUIRE") {
            match take_lock_name_strict(rest) {
                Ok(n) => Ok(Request::Acquire(n)),
                Err(e) => Err(e),
            }
        } else if same_text(verb, "TRY_ACQUIRE") {
            match take_lock_name_strict(rest) {
                Ok(n) => Ok(Request::TryAcquire(n)),
                Err(e) => Err(e),
            }
        } else if same_text(verb, "RELEASE") {
            match take_lock_name_strict(rest) {
                Ok(n) => Ok(Request::Release(n)),
                Err(e) => Err(e),
            }
        } else if same_text(verb, "STATUS") {
            match take_lock_name_strict(rest) {
                Ok(n) => Ok(Request::Status(n)),
                Err(e) => Err(e),
            }
        } else if same_text(verb, "LIST") && rest.is_none() {
            Ok(Request::List)
        } else {
            Err(ParseError)
        }
    }

    /// The line that carries this request, without its `\n`.
    pub fn to_string(&self) -> (r: String)
        ensures
            r@ == request_text(self@),
    {
        match self {
            Request::Acquire(n) => joined("ACQUIRE ", n.as_str()),
            Request::TryAcquire(n) => joined("TRY_ACQUIRE ", n.as_str()),
            Request::Release(n) => joined("RELEASE ", n.as_str()),
            Request::Status(n) => joined("STATUS ", n.as_str()),
            Request::List => "LIST".to_owned(),
        }
    }
}

impl FromStr for Request {
    type Err = ParseError;

    fn from_str(s: &str) -> (r: Result<Request, ParseError>)
        ensures
            match r {
                Ok(req) => request_of(s@) == Some(req@),
                Err(_) => request_of(s@) is None,
            },
    {
        Request::parse_line(s)
    }
}

// Responses.

/// The line that carries a response, without its `\n`.
pub open spec fn response_text(m: ResponseModel) -> Seq<char> {
    match m {
        ResponseModel::Okay => "OK"@,
        ResponseModel::Granted(n) => "GRANTED "@ + n,
        ResponseModel::Denied(n) => "DENIED "@ + n,
        ResponseModel::StatusFree { name, waiters } => "STATUS "@ + name + " FREE "@ + digits(
            waiters as nat,
        ),
        ResponseModel::StatusHeld { name, holder, waiters } => "STATUS "@ + name + " HELD "@
            + digits(holder as nat) + " "@ + digits(waiters as nat),
        ResponseModel::ListBegin => "LIST"@,
        ResponseModel::ListEntry(n) => n,
        ResponseModel::ListEnd => "END"@,
        ResponseModel::Error(msg) => if msg.len() == 0 {
            "ERR"@
        } else {
            "ERR "@ + msg
        },
    }
}

/// What the arguments of a `STATUS` response say.
pub open spec fn status_of(rest: Seq<char>) -> Option<ResponseModel> {
    let name = before_first(rest, ' ');
    match after_first(rest, ' ') {
        Some(t) if valid_name(name) => {
            let kind = before_first(t, ' ');
            let args = after_first(t, ' ');
            if kind == "FREE"@ && args is Some {
                match parsed_unsigned(before_first(args->0, ' '), usize::MAX as int) {
                    Some(w) => Some(ResponseModel::StatusFree { name, waiters: w as usize }),
                    None => None,
                }
            } else if kind == "HELD"@ && args is Some && after_first(args->0, ' ') is Some {
                let tail = after_first(args->0, ' ')->0;
                match (
                    parsed_unsigned(before_first(args->0, ' '), u64::MAX as int),
                    parsed_unsigned(before_first(tail, ' '), usize::MAX as int),
                ) {
                    (Some(h), Some(w)) => Some(
                        ResponseModel::StatusHeld { name, holder: h as u64, waiters: w as usize },
                    ),
                    _ => None,
                }
            } else {
                None
            }
        },
        _ => None,
    }
}

/// The response that a line carries, if it carries one. Trailing words after a
/// recognised verb are ignored.
pub open spec fn response_of(s: Seq<char>) -> Option<ResponseModel> {
    let verb = before_first(s, ' ');
    let rest = after_first(s, ' ');
    if verb == "OK"@ {
        Some(ResponseModel::Okay)
    } else if verb == "LIST"@ {
        Some(ResponseModel::ListBegin)
    } else if verb == "END"@ {
        Some(ResponseModel::ListEnd)
    } else if verb == "ERR"@ {
        match rest {
            Some(msg) => Some(ResponseModel::Error(msg)),
            None => Some(ResponseModel::Error(Seq::empty())),
        }
    } else if verb == "GRANTED"@ {
        match lenient_name(rest) {
            Some(n) => Some(ResponseModel::Granted(n)),
            None => None,
        }
    } else if verb == "DENIED"@ {
        match lenient_name(rest) {
            Some(n) => Some(ResponseModel::Denied(n)),
            None => None,
        }
    } else if verb == "STATUS"@ {
        match rest {
            Some(t) => status_of(t),
            None => None,
        }
    } else if rest is None && valid_name(verb) {
        Some(ResponseModel::ListEntry(verb))
    } else {
        None
    }
}

fn parse_status(rest: &str) -> (r: Result<Response, ParseError>)
    ensures
        match r {
            Ok(resp) => status_of(rest@) == Some(resp@),
            Err(_) => status_of(rest@) is None,
        },
{
    let (name, after) = split_first(rest);
    if !is_valid_lock_name(name) {
        return Err(ParseError);
    }
    let after: &str = match after {
        Some(t) => t,
        None => return Err(ParseError),
    };
    let (kind, args) = split_first(after);
    if same_text(kind, "FREE") {
        let args: &str = match args {
            Some(t) => t,
            None => {
                proof {
                    reveal_strlit("FREE");
                    reveal_strlit("HELD");
                    assert("FREE"@[0] != "HELD"@[0]);
                }
                return Err(ParseError);
            },
        };
        let (waiters_s, _tail) = split_first(args);
        match parse_unsigned(waiters_s, usize::MAX as u64) {
            Some(w) => Ok(Response::StatusFree { name: name.to_owned(), waiters: w as usize }),
            None => Err(ParseError),
        }
    } else if same_text(kind, "HELD") {
        let args: &str = match args {
            Some(t) => t,
            None => return Err(ParseError),
        };
        let (holder_s, tail) = split_first(args);
        let tail: &str = match tail {
            Some(t) => t,
            None => return Err(ParseError),
        };
        let (waiters_s, _tail) = split_first(tail);
        let holder: ClientId = match parse_unsigned(holder_s, u64::MAX) {
            Some(h) => h,
            None => return Err(ParseError),
        };
        match parse_unsigned(waiters_s, usize::MAX as u64) {
            Some(w) => Ok(
                Response::StatusHeld { name: name.to_owned(), holder, waiters: w as usize },
            ),
            None => Err(ParseError),
        }
    } else {
        Err(ParseError)
    }
}

impl Response {
    /// Reads the response that a line carries.
    pub fn parse_line(s: &str) -> (r: Result<Response, ParseError>)
        ensures
            match r {
                Ok(resp) => response_of(s@) == Some(resp@),
                Err(_) => response_of(s@) is None,
            },
    {
        let (verb, rest) = split_first(s);
        if same_text(verb, "OK") {
            Ok(Response::Okay)
        } else if same_text(verb, "LIST") {
            Ok(Response::ListBegin)
        } else if same_text(verb, "END") {
            Ok(Response::ListEnd)
        } else if same_text(verb, "ERR") {
            match rest {
                Some(msg) => Ok(Response::Error(msg.to_owned())),
                None => Ok(Response::Error(String::new())),
            }
        } else if same_text(verb, "GRANTED") {
            match take_lock_name_lenient(rest) {
                Ok(n) => Ok(Response::Granted(n)),
                Err(e) => Err(e),
            }
        } else if same_text(verb, "DENIED") {
            match take_lock_name_lenient(rest) {
                Ok(n) => Ok(Response::Denied(n)),
                Err(e) => Err(e),
            }
        } else if same_text(verb, "STATUS") {
            match rest {
                Some(t) => parse_status(t),
                None => Err(ParseError),
            }
        } else if rest.is_none() && is_valid_lock_name(verb) {
            // A bare lock name: the server is in the middle of a LIST reply.
            Ok(Response::ListEntry(verb.to_owned()))
        } else {
            Err(ParseError)
        }
    }

    /// The line that carries this response, without its `\n`.
    pub fn to_string(&self) -> (r: String)
        ensures
            r@ == response_text(self@),
    {
        match self {
            Response::Okay => "OK".to_owned(),
            Response::Granted(n) => joined("GRANTED ", n.as_str()),
            Response::Denied(n) => joined("DENIED ", n.as_str()),
            Response::StatusFree { name, waiters } => {
                let mut out: String = joined3("STATUS ", name.as_str(), " FREE ");
                out.append(number_text(*waiters as u64).as_str());
                out
            },
            Response::StatusHeld { name, holder, waiters } => {
                let mut out: String = joined3("STATUS ", name.as_str(), " HELD ");
                out.append(number_text(*holder).as_str());
                out.append(" ");
                out.append(number_text(*waiters as u64).as_str());
                out
            },
            Response::ListBegin => "LIST".to_owned(),
            Response::ListEntry(n) => n.clone(),
            Response::ListEnd => "END".to_owned(),
            Response::Error(msg) => {
                if msg.as_str().is_empty() {
                    "ERR".to_owned()
                } else {
                    joined("ERR ", msg.as_str())
                }
            },
        }
    }
}

impl FromStr for Response {
    type Err = ParseError;

    fn from_str(s: &str) -> (r: Result<Response, ParseError>)
        ensures
            match r {
                Ok(resp) => response_of(s@) == Some(resp@),
                Err(_) => response_of(s@) is None,
            },
    {
        Response::parse_line(s)
    }
}

// Laws.

/// Splitting `v`, a space and `t` at the first space gives `v` and `t` back.
proof fn lemma_split_joined(v: Seq<char>, t: Seq<char>)
    requires
        !v.contains(' '),
    ensures
        before_first(v + " "@ + t, ' ') == v,
        after_first(v + " "@ + t, ' ') == Some(t),
{
    reveal_strlit(" ");
    let s = v + " "@ + t;
    assert forall|i: int| 0 <= i < v.len() implies s[i] != ' ' by {
        assert(s[i] == v[i]);
    }
    assert(s[v.len() as int] == ' ');
    lemma_position_is(s, ' ', v.len() as int);
    assert(s.take(v.len() as int) =~= v);
    assert(s.skip(v.len() as int + 1) =~= t);
}

/// A word without a space is its own head and has no tail.
proof fn lemma_split_word(v: Seq<char>)
    requires
        !v.contains(' '),
    ensures
        before_first(v, ' ') == v,
        after_first(v, ' ') is None,
{
    lemma_position_of(v, ' ');
    assert(v.take(v.len() as int) =~= v);
}

proof fn lemma_name_has_no_space(n: Seq<char>)
    requires
        valid_name(n),
    ensures
        !n.contains(' '),
{
    if n.contains(' ') {
        let i = choose|i: int| 0 <= i < n.len() && n[i] == ' ';
        assert(name_char(n[i]));
    }
}

proof fn lemma_number_has_no_space(n: nat)
    ensures
        !digits(n).contains(' '),
{
    lemma_digits_read_back(n);
    if digits(n).contains(' ') {
        let i = choose|i: int| 0 <= i < digits(n).len() && digits(n)[i] == ' ';
        assert(is_digit(digits(n)[i]));
    }
}

/// The verbs hold no space and differ from one another.
proof fn lemma_verbs()
    ensures
        "ACQUIRE "@ == "ACQUIRE"@ + " "@,
        "TRY_ACQUIRE "@ == "TRY_ACQUIRE"@ + " "@,
        "RELEASE "@ == "RELEASE"@ + " "@,
        "STATUS "@ == "STATUS"@ + " "@,
        "GRANTED "@ == "GRANTED"@ + " "@,
        "DENIED "@ == "DENIED"@ + " "@,
        "ERR "@ == "ERR"@ + " "@,
        " FREE "@ == " "@ + "FREE"@ + " "@,
        " HELD "@ == " "@ + "HELD"@ + " "@,
        !"ACQUIRE"@.contains(' '),
        !"TRY_ACQUIRE"@.contains(' '),
        !"RELEASE"@.contains(' '),
        !"STATUS"@.contains(' '),
        !"LIST"@.contains(' '),
        !"OK"@.contains(' '),
        !"END"@.contains(' '),
        !"ERR"@.contains(' '),
        !"GRANTED"@.contains(' '),
        !"DENIED"@.contains(' '),
        !"FREE"@.contains(' '),
        !"HELD"@.contains(' '),
        "ACQUIRE"@ != "TRY_ACQUIRE"@,
        "ACQUIRE"@ != "RELEASE"@,
        "ACQUIRE"@ != "STATUS"@,
        "ACQUIRE"@ != "LIST"@,
        "TRY_ACQUIRE"@ != "RELEASE"@,
        "TRY_ACQUIRE"@ != "STATUS"@,
        "TRY_ACQUIRE"@ != "LIST"@,
        "RELEASE"@ != "STATUS"@,
        "RELEASE"@ != "LIST"@,
        "STATUS"@ != "LIST"@,
        "OK"@ != "LIST"@,
        "OK"@ != "END"@,
        "OK"@ != "ERR"@,
        "OK"@ != "GRANTED"@,
        "OK"@ != "DENIED"@,
        "OK"@ != "STATUS"@,
        "LIST"@ != "END"@,
        "LIST"@ != "ERR"@,
        "LIST"@ != "GRANTED"@,
        "LIST"@ != "DENIED"@,
        "END"@ != "ERR"@,
        "END"@ != "GRANTED"@,
        "END"@ != "DENIED"@,
        "END"@ != "STATUS"@,
        "ERR"@ != "GRANTED"@,
        "ERR"@ != "DENIED"@,
        "ERR"@ != "STATUS"@,
        "GRANTED"@ != "DENIED"@,
        "GRANTED"@ != "STATUS"@,
        "DENIED"@ != "STATUS"@,
        "FREE"@ != "HELD"@,
{
    reveal_strlit(" ");
    reveal_strlit("ACQUIRE ");
    reveal_strlit("TRY_ACQUIRE ");
    reveal_strlit("RELEASE ");
    reveal_strlit("STATUS ");
    reveal_strlit("GRANTED ");
    reveal_strlit("DENIED ");
    reveal_strlit("ERR ");
    reveal_strlit(" FREE ");
    reveal_strlit(" HELD ");
    reveal_strlit("ACQUIRE");
    reveal_strlit("TRY_ACQUIRE");
    reveal_strlit("RELEASE");
    reveal_strlit("STATUS");
    reveal_strlit("LIST");
    reveal_strlit("OK");
    reveal_strlit("END");
    reveal_strlit("ERR");
    reveal_strlit("GRANTED");
    reveal_strlit("DENIED");
    reveal_strlit("FREE");
    reveal_strlit("HELD");
    assert("ACQUIRE "@ =~= "ACQUIRE"@ + " "@);
    assert("TRY_ACQUIRE "@ =~= "TRY_ACQUIRE"@ + " "@);
    assert("RELEASE "@ =~= "RELEASE"@ + " "@);
    assert("STATUS "@ =~= "STATUS"@ + " "@);
    assert("GRANTED "@ =~= "GRANTED"@ + " "@);
    assert("DENIED "@ =~= "DENIED"@ + " "@);
    assert("ERR "@ =~= "ERR"@ + " "@);
    assert(" FREE "@ =~= " "@ + "FREE"@ + " "@);
    assert(" HELD "@ =~= " "@ + "HELD"@ + " "@);
    assert("RELEASE"@[0] == 'R' && "ACQUIRE"@[0] == 'A' && "GRANTED"@[0] == 'G');
    assert("STATUS"@[0] == 'S' && "DENIED"@[0] == 'D');
    assert("LIST"@[0] == 'L' && "OK"@[0] == 'O' && "END"@[1] == 'N' && "ERR"@[1] == 'R');
    assert("FREE"@[0] == 'F' && "HELD"@[0] == 'H');
    assert("TRY_ACQUIRE"@.len() == 11);
}

/// The name that a request is about, if it is about one.
pub open spec fn request_name(m: RequestModel) -> Option<Seq<char>> {
    match m {
        RequestModel::Acquire(n) => Some(n),
        RequestModel::TryAcquire(n) => Some(n),
        RequestModel::Release(n) => Some(n),
        RequestModel::Status(n) => Some(n),
        RequestModel::List => None,
    }
}

/// Writing a request and parsing the line gives the request back.
pub proof fn law_request_round_trip(m: RequestModel)
    requires
        request_name(m) is Some ==> valid_name(request_name(m)->0),
    ensures
        request_of(request_text(m)) == Some(m),
{
    lemma_verbs();
    match m {
        RequestModel::Acquire(n) => lemma_split_joined("ACQUIRE"@, n),
        RequestModel::TryAcquire(n) => lemma_split_joined("TRY_ACQUIRE"@, n),
        RequestModel::Release(n) => lemma_split_joined("RELEASE"@, n),
        RequestModel::Status(n) => lemma_split_joined("STATUS"@, n),
        RequestModel::List => lemma_split_word("LIST"@),
    }
}

/// A line that parses as a request is exactly that request's line, and the lock
/// name in it is valid.
pub proof fn law_request_is_exact(s: Seq<char>)
    requires
        request_of(s) is Some,
    ensures
        s == request_text(request_of(s)->0),
        request_name(request_of(s)->0) is Some ==> valid_name(request_name(request_of(s)->0)->0),
{
    lemma_verbs();
    lemma_position_of(s, ' ');
    reveal_strlit(" ");
    let p = position_of(s, ' ');
    if p < s.len() {
        assert(s =~= before_first(s, ' ') + " "@ + after_first(s, ' ')->0);
    } else {
        assert(s =~= before_first(s, ' '));
    }
}

/// A request followed by any further word is refused.
pub proof fn law_request_rejects_trailing(m: RequestModel, tail: Seq<char>)
    ensures
        request_of(request_text(m) + " "@ + tail) is None,
{
    lemma_verbs();
    reveal_strlit(" ");
    match m {
        RequestModel::List => {
            lemma_split_joined("LIST"@, tail);
        },
        _ => {
            let n = request_name(m)->0;
            let rest = n + " "@ + tail;
            assert(rest[n.len() as int] == ' ');
            assert(!name_char(rest[n.len() as int]));
            assert(!valid_name(rest));
            let verb = match m {
                RequestModel::Acquire(_) => "ACQUIRE"@,
                RequestModel::TryAcquire(_) => "TRY_ACQUIRE"@,
                RequestModel::Release(_) => "RELEASE"@,
                _ => "STATUS"@,
            };
            lemma_split_joined(verb, rest);
            assert(request_text(m) + " "@ + tail =~= verb + " "@ + rest);
        },
    }
}

/// The words that start a response line; none of them can be told from a lock of
/// that name in a `LIST` reply.
pub open spec fn is_response_verb(n: Seq<char>) -> bool {
    n == "OK"@ || n == "LIST"@ || n == "END"@ || n == "ERR"@ || n == "GRANTED"@ || n == "DENIED"@
        || n == "STATUS"@
}

/// Whether the lock names in a response are valid.
pub open spec fn response_names_valid(m: ResponseModel) -> bool {
    match m {
        ResponseModel::Granted(n) => valid_name(n),
        ResponseModel::Denied(n) => valid_name(n),
        ResponseModel::StatusFree { name, .. } => valid_name(name),
        ResponseModel::StatusHeld { name, .. } => valid_name(name),
        ResponseModel::ListEntry(n) => valid_name(n),
        _ => true,
    }
}

proof fn lemma_status_free(name: Seq<char>, waiters: usize, tail: Seq<char>)
    requires
        valid_name(name),
        before_first(tail, ' ') == digits(waiters as nat),
    ensures
        response_of("STATUS "@ + name + " FREE "@ + tail) == Some(
            (ResponseModel::StatusFree { name, waiters }),
        ),
{
    lemma_verbs();
    lemma_name_has_no_space(name);
    let rest = name + " "@ + ("FREE"@ + " "@ + tail);
    lemma_split_joined(name, "FREE"@ + " "@ + tail);
    lemma_split_joined("FREE"@, tail);
    lemma_parsed_digits(waiters as nat, usize::MAX as int);
    assert(status_of(rest) == Some((ResponseModel::StatusFree { name, waiters })));
    lemma_split_joined("STATUS"@, rest);
    assert("STATUS "@ + name + " FREE "@ + tail =~= "STATUS"@ + " "@ + rest);
}

proof fn lemma_status_held(name: Seq<char>, holder: u64, waiters: usize, tail: Seq<char>)
    requires
        valid_name(name),
        before_first(tail, ' ') == digits(waiters as nat),
    ensures
        response_of("STATUS "@ + name + " HELD "@ + digits(holder as nat) + " "@ + tail) == Some(
            (ResponseModel::StatusHeld { name, holder, waiters }),
        ),
{
    lemma_verbs();
    lemma_name_has_no_space(name);
    lemma_number_has_no_space(holder as nat);
    let args = digits(holder as nat) + " "@ + tail;
    let rest = name + " "@ + ("HELD"@ + " "@ + args);
    lemma_split_joined(name, "HELD"@ + " "@ + args);
    lemma_split_joined("HELD"@, args);
    lemma_split_joined(digits(holder as nat), tail);
    lemma_parsed_digits(holder as nat, u64::MAX as int);
    lemma_parsed_digits(waiters as nat, usize::MAX as int);
    assert(status_of(rest) == Some((ResponseModel::StatusHeld { name, holder, waiters })));
    lemma_split_joined("STATUS"@, rest);
    assert("STATUS "@ + name + " HELD "@ + digits(holder as nat) + " "@ + tail =~= "STATUS"@ + " "@
        + rest);
}

proof fn lemma_named_verb(verb: Seq<char>, n: Seq<char>, tail: Option<Seq<char>>)
    requires
        valid_name(n),
        !verb.contains(' '),
    ensures
        ({
            let line = match tail {
                Some(t) => verb + " "@ + n + " "@ + t,
                None => verb + " "@ + n,
            };
            &&& before_first(line, ' ') == verb
            &&& lenient_name(after_first(line, ' ')) == Some(n)
        }),
{
    lemma_name_has_no_space(n);
    match tail {
        Some(t) => {
            lemma_split_joined(n, t);
            lemma_split_joined(verb, n + " "@ + t);
            assert(verb + " "@ + n + " "@ + t =~= verb + " "@ + (n + " "@ + t));
        },
        None => {
            lemma_split_word(n);
            lemma_split_joined(verb, n);
        },
    }
}

/// Writing a response and parsing the line gives the response back. A `LIST`
/// entry named like a response verb reads as that verb.
pub proof fn law_response_round_trip(m: ResponseModel)
    requires
        response_names_valid(m),
        m matches ResponseModel::ListEntry(n) ==> !is_response_verb(n),
    ensures
        response_of(response_text(m)) == Some(m),
{
    match m {
        ResponseModel::StatusFree { name, waiters } => {
            lemma_number_has_no_space(waiters as nat);
            lemma_split_word(digits(waiters as nat));
            lemma_status_free(name, waiters, digits(waiters as nat));
        },
        ResponseModel::StatusHeld { name, holder, waiters } => {
            lemma_number_has_no_space(waiters as nat);
            lemma_split_word(digits(waiters as nat));
            lemma_status_held(name, holder, waiters, digits(waiters as nat));
        },
        _ => {
            lemma_plain_round_trip(m);
        },
    }
}

proof fn lemma_plain_round_trip(m: ResponseModel)
    requires
        response_names_valid(m),
        m matches ResponseModel::ListEntry(n) ==> !is_response_verb(n),
        !(m is StatusFree),
        !(m is StatusHeld),
    ensures
        response_of(response_text(m)) == Some(m),
{
    lemma_verbs();
    match m {
        ResponseModel::Okay => lemma_split_word("OK"@),
        ResponseModel::Granted(n) => lemma_named_verb("GRANTED"@, n, None),
        ResponseModel::Denied(n) => lemma_named_verb("DENIED"@, n, None),
        ResponseModel::ListBegin => lemma_split_word("LIST"@),
        ResponseModel::ListEntry(n) => {
            lemma_name_has_no_space(n);
            lemma_split_word(n);
        },
        ResponseModel::ListEnd => lemma_split_word("END"@),
        ResponseModel::Error(msg) => {
            if msg.len() == 0 {
                lemma_split_word("ERR"@);
                assert(msg =~= Seq::<char>::empty());
            } else {
                lemma_split_joined("ERR"@, msg);
            }
        },
        _ => {},
    }
}

/// Words that a newer server adds after a recognised response do not change what
/// is read. (An error message and a list entry are the whole line.)
pub proof fn law_response_ignores_trailing(m: ResponseModel, tail: Seq<char>)
    requires
        response_names_valid(m),
        !(m is ListEntry),
        !(m is Error),
    ensures
        response_of(response_text(m) + " "@ + tail) == Some(m),
{
    match m {
        ResponseModel::StatusFree { name, waiters } => {
            let w = digits(waiters as nat) + " "@ + tail;
            lemma_number_has_no_space(waiters as nat);
            lemma_split_joined(digits(waiters as nat), tail);
            lemma_status_free(name, waiters, w);
            assert(response_text(m) + " "@ + tail =~= "STATUS "@ + name + " FREE "@ + w);
        },
        ResponseModel::StatusHeld { name, holder, waiters } => {
            let w = digits(waiters as nat) + " "@ + tail;
            lemma_number_has_no_space(waiters as nat);
            lemma_split_joined(digits(waiters as nat), tail);
            lemma_status_held(name, holder, waiters, w);
            assert(response_text(m) + " "@ + tail =~= "STATUS "@ + name + " HELD "@ + digits(
                holder as nat,
            ) + " "@ + w);
        },
        _ => {
            lemma_plain_trailing(m, tail);
        },
    }
}

proof fn lemma_plain_trailing(m: ResponseModel, tail: Seq<char>)
    requires
        response_names_valid(m),
        m is Okay || m is ListBegin || m is ListEnd || m is Granted || m is Denied,
    ensures
        response_of(response_text(m) + " "@ + tail) == Some(m),
{
    lemma_verbs();
    match m {
        ResponseModel::Okay => lemma_split_joined("OK"@, tail),
        ResponseModel::ListBegin => lemma_split_joined("LIST"@, tail),
        ResponseModel::ListEnd => lemma_split_joined("END"@, tail),
        ResponseModel::Granted(n) => lemma_named_verb("GRANTED"@, n, Some(tail)),
        ResponseModel::Denied(n) => lemma_named_verb("DENIED"@, n, Some(tail)),
        _ => {},
    }
}

/// The limits of the protocol, and its error catalogue.
pub proof fn law_protocol_constants()
    ensures
        MAX_LINE == 4096,
        MAX_LOCK_NAME == 64,
        ERR_INVALID_LOCK_NAME@ == "ERR invalid lock name"@,
        ERR_LINE_TOO_LONG@ == "ERR line too long"@,
        ERR_NOT_HELD@ == "ERR not held"@,
        ERR_ALREADY_HELD@ == "ERR already held"@,
        ERR_UNKNOWN_COMMAND_PREFIX@ == "ERR unknown command "@,
{
}

/// A lock name has 1 to 64 characters, each an ASCII letter (code 65 to 90 or 97 to
/// 122), an ASCII digit (48 to 57) or one of `-` (45), `.` (46), `:` (58) and `_`
/// (95). Every such text is a lock name.
pub proof fn law_lock_names(n: Seq<char>)
    ensures
        valid_name(n) <==> 1 <= n.len() <= 64 && forall|i: int|
            0 <= i < n.len() ==> {
                let u = (#[trigger] n[i]) as u32;
                ||| 65 <= u <= 90
                ||| 97 <= u <= 122
                ||| 48 <= u <= 57
                ||| u == 45
                ||| u == 46
                ||| u == 58
                ||| u == 95
            },
        forall|s: &str, r: bool| #[trigger]
            call_ensures(is_valid_lock_name, (s,), r) ==> (r <==> 1 <= s@.len() <= 64 && forall|
                i: int,
            |
                0 <= i < s@.len() ==> {
                    let u = (#[trigger] s@[i]) as u32;
                    ||| 65 <= u <= 90
                    ||| 97 <= u <= 122
                    ||| 48 <= u <= 57
                    ||| u == 45
                    ||| u == 46
                    ||| u == 58
                    ||| u == 95
                }),
{
    lemma_name_codes(n);
    assert forall|s: &str, r: bool| #[trigger]
        call_ensures(is_valid_lock_name, (s,), r) implies (r <==> 1 <= s@.len() <= 64 && forall|
        i: int,
    |
        0 <= i < s@.len() ==> {
            let u = (#[trigger] s@[i]) as u32;
            ||| 65 <= u <= 90
            ||| 97 <= u <= 122
            ||| 48 <= u <= 57
            ||| u == 45
            ||| u == 46
            ||| u == 58
            ||| u == 95
        }) by {
        lemma_name_codes(s@);
    }
}

proof fn lemma_name_codes(n: Seq<char>)
    ensures
        valid_name(n) <==> 1 <= n.len() <= 64 && forall|i: int|
            0 <= i < n.len() ==> {
                let u = (#[trigger] n[i]) as u32;
                ||| 65 <= u <= 90
                ||| 97 <= u <= 122
                ||| 48 <= u <= 57
                ||| u == 45
                ||| u == 46
                ||| u == 58
                ||| u == 95
            },
{
    assert forall|i: int| 0 <= i < n.len() implies (name_char(#[trigger] n[i]) <==> {
        let u = n[i] as u32;
        ||| 65 <= u <= 90
        ||| 97 <= u <= 122
        ||| 48 <= u <= 57
        ||| u == 45
        ||| u == 46
        ||| u == 58
        ||| u == 95
    }) by {
        lemma_name_code(n[i]);
    }
}

proof fn lemma_name_code(c: char)
    ensures
        name_char(c) <==> {
            let u = c as u32;
            ||| 65 <= u <= 90
            ||| 97 <= u <= 122
            ||| 48 <= u <= 57
            ||| u == 45
            ||| u == 46
            ||| u == 58
            ||| u == 95
        },
{
}

/// A line is a request exactly if it is a verb, a space and a lock name, or `LIST`;
/// which request it is, is said by the verb, and what it is about by the name.
pub proof fn law_request_lines(s: Seq<char>, n: Seq<char>)
    ensures
        request_of(s) == Some(RequestModel::Acquire(n)) <==> s == "ACQUIRE "@ + n && valid_name(n),
        request_of(s) == Some(RequestModel::TryAcquire(n)) <==> s == "TRY_ACQUIRE "@ + n
            && valid_name(n),
        request_of(s) == Some(RequestModel::Release(n)) <==> s == "RELEASE "@ + n && valid_name(n),
        request_of(s) == Some(RequestModel::Status(n)) <==> s == "STATUS "@ + n && valid_name(n),
        request_of(s) == Some(RequestModel::List) <==> s == "LIST"@,
{
    if valid_name(n) {
        law_request_round_trip(RequestModel::Acquire(n));
        law_request_round_trip(RequestModel::TryAcquire(n));
        law_request_round_trip(RequestModel::Release(n));
        law_request_round_trip(RequestModel::Status(n));
    }
    law_request_round_trip(RequestModel::List);
    if request_of(s) is Some {
        law_request_is_exact(s);
    }
}

/// For every name of 1 to 64 ASCII letters, digits and characters out of `-`, `.`, `:` and
/// `_`, each verb with that name is the request of that verb about it.
pub proof fn law_every_name_can_be_requested(n: Seq<char>)
    requires
        1 <= n.len() <= 64,
        forall|i: int|
            0 <= i < n.len() ==> {
                let u = (#[trigger] n[i]) as u32;
                ||| 65 <= u <= 90
                ||| 97 <= u <= 122
                ||| 48 <= u <= 57
                ||| u == 45
                ||| u == 46
                ||| u == 58
                ||| u == 95
            },
    ensures
        request_of("ACQUIRE "@ + n) == Some(RequestModel::Acquire(n)),
        request_of("TRY_ACQUIRE "@ + n) == Some(RequestModel::TryAcquire(n)),
        request_of("RELEASE "@ + n) == Some(RequestModel::Release(n)),
        request_of("STATUS "@ + n) == Some(RequestModel::Status(n)),
{
    lemma_name_codes(n);
    law_request_lines("ACQUIRE "@ + n, n);
    law_request_lines("TRY_ACQUIRE "@ + n, n);
    law_request_lines("RELEASE "@ + n, n);
    law_request_lines("STATUS "@ + n, n);
}

/// What [`Request::parse_line`] returns, in the terms of [`law_request_lines`].
pub proof fn law_requests_are_parsed(s: &str, r: Result<Request, ParseError>)
    requires
        call_ensures(Request::parse_line, (s,), r),
    ensures
        match r {
            Ok(Request::Acquire(n)) => s@ == "ACQUIRE "@ + n@ && valid_name(n@),
            Ok(Request::TryAcquire(n)) => s@ == "TRY_ACQUIRE "@ + n@ && valid_name(n@),
            Ok(Request::Release(n)) => s@ == "RELEASE "@ + n@ && valid_name(n@),
            Ok(Request::Status(n)) => s@ == "STATUS "@ + n@ && valid_name(n@),
            Ok(Request::List) => s@ == "LIST"@,
            Err(_) => s@ != "LIST"@ && forall|n: Seq<char>| #[trigger]
                valid_name(n) ==> s@ != "ACQUIRE "@ + n && s@ != "TRY_ACQUIRE "@ + n && s@
                    != "RELEASE "@ + n && s@ != "STATUS "@ + n,
        },
{
    match r {
        Ok(Request::Acquire(n)) => law_request_lines(s@, n@),
        Ok(Request::TryAcquire(n)) => law_request_lines(s@, n@),
        Ok(Request::Release(n)) => law_request_lines(s@, n@),
        Ok(Request::Status(n)) => law_request_lines(s@, n@),
        Ok(Request::List) => law_request_lines(s@, s@),
        Err(_) => {
            law_request_lines(s@, s@);
            assert forall|n: Seq<char>| #[trigger] valid_name(n) implies s@ != "ACQUIRE "@ + n && s@
                != "TRY_ACQUIRE "@ + n && s@ != "RELEASE "@ + n && s@ != "STATUS "@ + n by {
                law_request_lines(s@, n);
            }
        },
    }
}

/// The line of each request and of each response.
pub proof fn law_lines_as_written()
    ensures
        forall|q: &Request, r: String| #[trigger]
            call_ensures(Request::to_string, (q,), r) ==> r@ == (match q {
                Request::Acquire(n) => "ACQUIRE "@ + n@,
                Request::TryAcquire(n) => "TRY_ACQUIRE "@ + n@,
                Request::Release(n) => "RELEASE "@ + n@,
                Request::Status(n) => "STATUS "@ + n@,
                Request::List => "LIST"@,
            }),
        forall|q: &Response, r: String| #[trigger]
            call_ensures(Response::to_string, (q,), r) ==> r@ == (match q {
                Response::Okay => "OK"@,
                Response::Granted(n) => "GRANTED "@ + n@,
                Response::Denied(n) => "DENIED "@ + n@,
                Response::StatusFree { name, waiters } => "STATUS "@ + name@ + " FREE "@ + digits(
                    *waiters as nat,
                ),
                Response::StatusHeld { name, holder, waiters } => "STATUS "@ + name@ + " HELD "@
                    + digits(*holder as nat) + " "@ + digits(*waiters as nat),
                Response::ListBegin => "LIST"@,
                Response::ListEntry(n) => n@,
                Response::ListEnd => "END"@,
                Response::Error(m) => if m@.len() == 0 {
                    "ERR"@
                } else {
                    "ERR "@ + m@
                },
            }),
{
}

/// The bytes that carry a response are those of these lines.
pub proof fn law_response_texts(n: Seq<char>, h: ClientId, w: usize)
    ensures
        response_text(ResponseModel::Okay) == "OK"@,
        response_text(ResponseModel::Granted(n)) == "GRANTED "@ + n,
        response_text(ResponseModel::Denied(n)) == "DENIED "@ + n,
        response_text((ResponseModel::StatusFree { name: n, waiters: w })) == "STATUS "@ + n
            + " FREE "@ + digits(w as nat),
        response_text((ResponseModel::StatusHeld { name: n, holder: h, waiters: w })) == "STATUS "@
            + n + " HELD "@ + digits(h as nat) + " "@ + digits(w as nat),
        response_text(ResponseModel::ListBegin) == "LIST"@,
        response_text(ResponseModel::ListEntry(n)) == n,
        response_text(ResponseModel::ListEnd) == "END"@,
        n.len() > 0 ==> response_text(ResponseModel::Error(n)) == "ERR "@ + n,
        n.len() == 0 ==> response_text(ResponseModel::Error(n)) == "ERR"@,
{
}

/// Whether `s` is `head`, or starts with `head` and a space.
pub open spec fn starts_with_words(s: Seq<char>, head: Seq<char>) -> bool {
    &&& head.len() <= s.len()
    &&& s.take(head.len() as int) == head
    &&& head.len() < s.len() ==> s[head.len() as int] == ' '
}

/// A line that is read as a response starts with the words of that response. So
/// nothing else is read as one.
pub proof fn law_responses_are_parsed(s: &str, r: Result<Response, ParseError>)
    requires
        call_ensures(Response::parse_line, (s,), r),
    ensures
        match r {
            Ok(Response::Okay) => starts_with_words(s@, "OK"@),
            Ok(Response::ListBegin) => starts_with_words(s@, "LIST"@),
            Ok(Response::ListEnd) => starts_with_words(s@, "END"@),
            Ok(Response::Error(m)) => (s@ == "ERR"@ && m@.len() == 0) || s@ == "ERR "@ + m@,
            Ok(Response::Granted(n)) => starts_with_words(s@, "GRANTED "@ + n@) && valid_name(n@),
            Ok(Response::Denied(n)) => starts_with_words(s@, "DENIED "@ + n@) && valid_name(n@),
            Ok(Response::ListEntry(n)) => s@ == n@ && valid_name(n@) && n@ != "OK"@ && n@
                != "LIST"@ && n@ != "END"@ && n@ != "ERR"@ && n@ != "GRANTED"@ && n@ != "DENIED"@
                && n@ != "STATUS"@,
            Ok(Response::StatusFree { name, .. }) => starts_with_words(
                s@,
                "STATUS "@ + name@ + " FREE"@,
            ) && valid_name(name@),
            Ok(Response::StatusHeld { name, .. }) => starts_with_words(
                s@,
                "STATUS "@ + name@ + " HELD"@,
            ) && valid_name(name@),
            Err(_) => !starts_with_words(s@, "OK"@) && !starts_with_words(s@, "LIST"@)
                && !starts_with_words(s@, "END"@) && !starts_with_words(s@, "ERR"@) && (forall|
                n: Seq<char>,
            | #[trigger]
                valid_name(n) ==> !starts_with_words(s@, "GRANTED "@ + n) && !starts_with_words(
                    s@,
                    "DENIED "@ + n,
                ) && (s@ == n ==> n == "GRANTED"@ || n == "DENIED"@ || n == "STATUS"@)),
        },
{
    lemma_verbs();
    reveal_strlit(" ");
    reveal_strlit(" FREE");
    reveal_strlit("FREE");
    reveal_strlit(" HELD");
    reveal_strlit("HELD");
    let t = s@;
    lemma_parts(t);
    let rest = after_first(t, ' ');
    if rest is Some {
        lemma_parts(rest->0);
        if after_first(rest->0, ' ') is Some {
            lemma_parts(after_first(rest->0, ' ')->0);
        }
    }
    match r {
        Ok(Response::Granted(n)) => {
            lemma_two_words(t, "GRANTED"@, n@);
        },
        Ok(Response::Denied(n)) => {
            lemma_two_words(t, "DENIED"@, n@);
        },
        Ok(Response::StatusFree { name, .. }) => {
            lemma_three_words(t, "STATUS"@, name@, "FREE"@);
            assert("STATUS "@ + name@ + " FREE"@ =~= "STATUS"@ + " "@ + name@ + " "@ + "FREE"@);
        },
        Ok(Response::StatusHeld { name, .. }) => {
            lemma_three_words(t, "STATUS"@, name@, "HELD"@);
            assert("STATUS "@ + name@ + " HELD"@ =~= "STATUS"@ + " "@ + name@ + " "@ + "HELD"@);
        },
        Err(_) => {
            if starts_with_words(t, "OK"@) {
                lemma_head_word(t, "OK"@);
            }
            if starts_with_words(t, "LIST"@) {
                lemma_head_word(t, "LIST"@);
            }
            if starts_with_words(t, "END"@) {
                lemma_head_word(t, "END"@);
            }
            if starts_with_words(t, "ERR"@) {
                lemma_head_word(t, "ERR"@);
            }
            assert forall|n: Seq<char>| #[trigger] valid_name(n) implies !starts_with_words(
                t,
                "GRANTED "@ + n,
            ) && !starts_with_words(t, "DENIED "@ + n) && (t == n ==> n == "GRANTED"@ || n
                == "DENIED"@ || n == "STATUS"@) by {
                lemma_name_has_no_space(n);
                if starts_with_words(t, "GRANTED "@ + n) {
                    lemma_read_name(t, "GRANTED"@, n);
                }
                if starts_with_words(t, "DENIED "@ + n) {
                    lemma_read_name(t, "DENIED"@, n);
                }
                if t == n {
                    lemma_split_word(n);
                }
            }
        },
        _ => {},
    }
}

/// The parts of a text around its first space make the text.
proof fn lemma_parts(t: Seq<char>)
    ensures
        after_first(t, ' ') is None ==> before_first(t, ' ') == t,
        after_first(t, ' ') is Some ==> t == before_first(t, ' ') + " "@ + after_first(t, ' ')->0,
        starts_with_words(t, before_first(t, ' ')),
{
    reveal_strlit(" ");
    lemma_position_of(t, ' ');
    let p = position_of(t, ' ');
    if p < t.len() {
        assert(t =~= before_first(t, ' ') + " "@ + after_first(t, ' ')->0);
    } else {
        assert(before_first(t, ' ') =~= t);
    }
}

proof fn lemma_head_word(t: Seq<char>, v: Seq<char>)
    requires
        !v.contains(' '),
        starts_with_words(t, v),
    ensures
        before_first(t, ' ') == v,
{
    assert forall|i: int| 0 <= i < v.len() implies t[i] != ' ' by {
        assert(t.take(v.len() as int)[i] == t[i]);
        assert(v.contains(v[i]));
    }
    lemma_position_is(t, ' ', v.len() as int);
}

proof fn lemma_two_words(t: Seq<char>, v: Seq<char>, n: Seq<char>)
    requires
        before_first(t, ' ') == v,
        after_first(t, ' ') is Some,
        before_first(after_first(t, ' ')->0, ' ') == n,
    ensures
        starts_with_words(t, v + " "@ + n),
{
    reveal_strlit(" ");
    let u = after_first(t, ' ')->0;
    lemma_parts(t);
    lemma_parts(u);
    let head = v + " "@ + n;
    assert(t.take(head.len() as int) =~= head) by {
        assert(u.take(n.len() as int) == n);
        assert forall|i: int| 0 <= i < head.len() implies t[i] == head[i] by {
            if i > v.len() {
                assert(t[i] == u[i - v.len() - 1]);
                assert(u.take(n.len() as int)[i - v.len() - 1] == u[i - v.len() - 1]);
            }
        }
    }
    if head.len() < t.len() {
        assert(t[head.len() as int] == u[n.len() as int]);
    }
}

proof fn lemma_three_words(t: Seq<char>, v: Seq<char>, n: Seq<char>, k: Seq<char>)
    requires
        before_first(t, ' ') == v,
        after_first(t, ' ') is Some,
        before_first(after_first(t, ' ')->0, ' ') == n,
        after_first(after_first(t, ' ')->0, ' ') is Some,
        before_first(after_first(after_first(t, ' ')->0, ' ')->0, ' ') == k,
    ensures
        starts_with_words(t, v + " "@ + n + " "@ + k),
{
    reveal_strlit(" ");
    let u = after_first(t, ' ')->0;
    lemma_parts(t);
    lemma_two_words(u, n, k);
    let tail = n + " "@ + k;
    let head = v + " "@ + n + " "@ + k;
    assert(head =~= v + " "@ + tail);
    assert(t.take(head.len() as int) =~= head) by {
        assert forall|i: int| 0 <= i < head.len() implies t[i] == head[i] by {
            if i > v.len() {
                assert(t[i] == u[i - v.len() - 1]);
                assert(u.take(tail.len() as int)[i - v.len() - 1] == u[i - v.len() - 1]);
            }
        }
    }
    if head.len() < t.len() {
        assert(t[head.len() as int] == u[tail.len() as int]);
    }
}

proof fn lemma_read_name(t: Seq<char>, v: Seq<char>, n: Seq<char>)
    requires
        !v.contains(' '),
        valid_name(n),
        starts_with_words(t, v + " "@ + n),
    ensures
        before_first(t, ' ') == v,
        lenient_name(after_first(t, ' ')) == Some(n),
{
    reveal_strlit(" ");
    let head = v + " "@ + n;
    if head.len() == t.len() {
        assert(t =~= head);
        lemma_named_verb(v, n, None);
    } else {
        let tail = t.skip(head.len() as int + 1);
        assert(t =~= head + " "@ + tail) by {
            assert forall|i: int| 0 <= i < head.len() implies t[i] == head[i] by {
                assert(t.take(head.len() as int)[i] == t[i]);
            }
        }
        lemma_named_verb(v, n, Some(tail));
    }
}

/// How a `STATUS` line is read: `FREE` and a number of waiters, or `HELD`, a holder and a
/// number of waiters, in any way of writing the numbers. With anything else in their
/// places there is no response.
pub proof fn law_status_lines(n: Seq<char>, kind: Seq<char>, a: Seq<char>, b: Seq<char>)
    requires
        valid_name(n),
        !kind.contains(' '),
        !a.contains(' '),
        !b.contains(' '),
    ensures
        ({
            let short = "STATUS "@ + n + " "@ + kind + " "@ + a;
            let long = short + " "@ + b;
            let as_waiters = parsed_unsigned(a, usize::MAX as int);
            let as_holder = parsed_unsigned(a, u64::MAX as int);
            let behind = parsed_unsigned(b, usize::MAX as int);
            &&& kind == "FREE"@ && as_waiters is None ==> response_of(short) is None
                && response_of(long) is None
            &&& kind == "FREE"@ && as_waiters is Some ==> response_of(short) == Some(
                ResponseModel::StatusFree { name: n, waiters: as_waiters->0 as usize },
            ) && response_of(long) == response_of(short)
            &&& kind == "HELD"@ ==> response_of(short) is None
            &&& kind == "HELD"@ && (as_holder is None || behind is None) ==> response_of(
                long,
            ) is None
            &&& kind == "HELD"@ && as_holder is Some && behind is Some ==> response_of(long)
                == Some(
                ResponseModel::StatusHeld {
                    name: n,
                    holder: as_holder->0 as u64,
                    waiters: behind->0 as usize,
                },
            )
            &&& kind != "FREE"@ && kind != "HELD"@ ==> response_of(short) is None && response_of(
                long,
            ) is None
        }),
{
    lemma_verbs();
    lemma_name_has_no_space(n);
    let ab = a + " "@ + b;
    let short = "STATUS "@ + n + " "@ + kind + " "@ + a;
    let long = short + " "@ + b;
    let t1 = kind + " "@ + a;
    let t2 = kind + " "@ + ab;
    lemma_split_word(a);
    lemma_split_word(b);
    lemma_split_joined(a, b);
    lemma_split_joined(kind, a);
    lemma_split_joined(kind, ab);
    lemma_split_joined(n, t1);
    lemma_split_joined(n, t2);
    lemma_split_joined("STATUS"@, n + " "@ + t1);
    lemma_split_joined("STATUS"@, n + " "@ + t2);
    assert(short =~= "STATUS"@ + " "@ + (n + " "@ + t1));
    assert(long =~= "STATUS"@ + " "@ + (n + " "@ + t2));
    assert("FREE"@ != "HELD"@) by {
        reveal_strlit("FREE");
        reveal_strlit("HELD");
        assert("FREE"@[0] != "HELD"@[0]);
    }
}

} // verus!
