//! What a server makes of a line before it looks at the lock table.

use vstd::prelude::*;
use vstd::string::*;

use crate::locks::protocol::request_of;
use crate::locks::protocol::response_text;
use crate::locks::protocol::Request;
use crate::locks::protocol::Response;
use crate::locks::protocol::ResponseModel;
use crate::locks::protocol::ERR_ALREADY_HELD;
use crate::locks::protocol::ERR_INVALID_LOCK_NAME;
use crate::locks::protocol::ERR_LINE_TOO_LONG;
use crate::locks::protocol::ERR_NOT_HELD;
use crate::locks::protocol::ERR_UNKNOWN_COMMAND_PREFIX;
use crate::text::chars_of;
use crate::text::joined;
use crate::text::same_text;
use crate::text::split_words;
use crate::text::texts;
use crate::text::words;

verus! {

/// `s` without its trailing `\r`s.
pub open spec fn trim_cr(s: Seq<char>) -> Seq<char>
    decreases s.len(),
{
    if s.len() > 0 && s.last() == '\r' {
        trim_cr(s.drop_last())
    } else {
        s
    }
}

/// `line` without its trailing `\r`s.
pub fn trim_line<'a>(line: &'a str) -> (r: &'a str)
    ensures
        r@ == trim_cr(line@),
{
    let cs: Vec<char> = chars_of(line);
    let mut n: usize = cs.len();
    assert(line@.take(n as int) =~= line@);
    while n > 0 && cs[n - 1] == '\r'
        invariant
            n <= cs@.len(),
            cs@ == line@,
            trim_cr(line@.take(n as int)) == trim_cr(line@),
        decreases n,
    {
        assert(line@.take(n as int).drop_last() =~= line@.take(n - 1));
        assert(line@.take(n as int).last() == cs@[n - 1]);
        n -= 1;
    }
    assert(n > 0 ==> line@.take(n as int).last() == cs@[n - 1]);
    assert(line@.subrange(0, n as int) =~= line@.take(n as int));
    line.substring_char(0, n)
}

/// The reply that carries an entry of the error catalogue: the entry without
/// its leading `ERR `, which the reply's own verb supplies.
pub open spec fn catalogued(entry: Seq<char>) -> ResponseModel {
    ResponseModel::Error(entry.skip(4))
}

fn error_reply(entry: &str) -> (r: Response)
    requires
        entry@.len() >= 4,
    ensures
        r@ == catalogued(entry@),
{
    let n: usize = entry.unicode_len();
    let msg: String = entry.substring_char(4, n).to_owned();
    assert(msg@ =~= entry@.skip(4));
    Response::Error(msg)
}

/// `ERR already held`.
pub fn already_held() -> (r: Response)
    ensures
        r@ == catalogued(ERR_ALREADY_HELD@),
{
    proof {
        reveal_strlit("ERR already held");
    }
    error_reply(ERR_ALREADY_HELD)
}

/// `ERR not held`.
pub fn not_held() -> (r: Response)
    ensures
        r@ == catalogued(ERR_NOT_HELD@),
{
    proof {
        reveal_strlit("ERR not held");
    }
    error_reply(ERR_NOT_HELD)
}

/// `ERR line too long`.
pub fn line_too_long() -> (r: Response)
    ensures
        r@ == catalogued(ERR_LINE_TOO_LONG@),
{
    proof {
        reveal_strlit("ERR line too long");
    }
    error_reply(ERR_LINE_TOO_LONG)
}

/// The first word of a line; the line itself if it has none.
pub open spec fn verb_of(line: Seq<char>) -> Seq<char> {
    if words(line).len() > 0 {
        words(line)[0]
    } else {
        line
    }
}

/// Whether `verb` is one that requests start with.
pub open spec fn known_verb(verb: Seq<char>) -> bool {
    verb == "ACQUIRE"@ || verb == "TRY_ACQUIRE"@ || verb == "RELEASE"@ || verb == "STATUS"@ || verb
        == "LIST"@
}

/// The reply to a line that is no request: a known verb has a bad argument, and
/// the only kind of argument is a lock name; any other verb is unknown.
pub open spec fn refusal(line: Seq<char>) -> ResponseModel {
    if known_verb(verb_of(line)) {
        catalogued(ERR_INVALID_LOCK_NAME@)
    } else {
        catalogued(ERR_UNKNOWN_COMMAND_PREFIX@ + verb_of(line))
    }
}

fn refuse(line: &str) -> (r: Response)
    ensures
        r@ == refusal(line@),
{
    let ws: Vec<String> = split_words(line);
    let verb: String = if ws.len() > 0 {
        assert(texts(ws@)[0] == ws@[0]@);
        ws[0].clone()
    } else {
        line.to_owned()
    };
    assert(verb@ == verb_of(line@));
    let v: &str = verb.as_str();
    if same_text(v, "ACQUIRE") || same_text(v, "TRY_ACQUIRE") || same_text(v, "RELEASE")
        || same_text(v, "STATUS") || same_text(v, "LIST") {
        proof {
            reveal_strlit("ERR invalid lock name");
        }
        error_reply(ERR_INVALID_LOCK_NAME)
    } else {
        proof {
            reveal_strlit("ERR unknown command ");
        }
        error_reply(joined(ERR_UNKNOWN_COMMAND_PREFIX, v).as_str())
    }
}

/// Reads a line as a request; one that is none is answered at once.
pub fn read_request(line: &str) -> (r: Result<Request, Response>)
    ensures
        match r {
            Ok(req) => request_of(line@) == Some(req@),
            Err(resp) => request_of(line@) is None && resp@ == refusal(line@),
        },
{
    match Request::parse_line(line) {
        Ok(req) => Ok(req),
        Err(_) => Err(refuse(line)),
    }
}

// Laws.

/// Carriage returns (code 13) at the end of a line do not count; other characters,
/// and those before them, do.
pub proof fn law_trim_cr(s: Seq<char>, c: char)
    ensures
        c as u32 == 13 ==> trim_cr(s.push(c)) == trim_cr(s),
        c as u32 != 13 ==> trim_cr(s.push(c)) == s.push(c),
        trim_cr(Seq::empty()) == Seq::<char>::empty(),
        forall|line: &str, r: &str| #[trigger]
            call_ensures(trim_line, (line,), r) ==> r@ == trim_cr(line@),
{
    assert(s.push(c).drop_last() =~= s);
}

/// The lines that carry the entries of the error catalogue are the entries.
pub proof fn law_catalogue(verb: Seq<char>)
    ensures
        response_text(catalogued(ERR_ALREADY_HELD@)) == "ERR already held"@,
        response_text(catalogued(ERR_NOT_HELD@)) == "ERR not held"@,
        response_text(catalogued(ERR_LINE_TOO_LONG@)) == "ERR line too long"@,
        response_text(catalogued(ERR_INVALID_LOCK_NAME@)) == "ERR invalid lock name"@,
        response_text(catalogued(ERR_UNKNOWN_COMMAND_PREFIX@ + verb)) == "ERR unknown command "@
            + verb,
{
    reveal_strlit("ERR ");
    reveal_strlit("ERR already held");
    reveal_strlit("ERR not held");
    reveal_strlit("ERR line too long");
    reveal_strlit("ERR invalid lock name");
    reveal_strlit("ERR unknown command ");
    assert("ERR "@ + "ERR already held"@.skip(4) =~= "ERR already held"@);
    assert("ERR "@ + "ERR not held"@.skip(4) =~= "ERR not held"@);
    assert("ERR "@ + "ERR line too long"@.skip(4) =~= "ERR line too long"@);
    assert("ERR "@ + "ERR invalid lock name"@.skip(4) =~= "ERR invalid lock name"@);
    let u = "ERR unknown command "@ + verb;
    assert("ERR "@ + u.skip(4) =~= u);
}

/// A line that is no request is answered by the word that it starts with: for one of
/// the five verbs the lock name is bad, any other word is unknown. A line without a
/// word is unknown as it stands.
pub proof fn law_refused_lines(line: Seq<char>, w: Seq<char>, rest: Seq<Seq<char>>)
    ensures
        words(line) == seq![w] + rest && (w == "ACQUIRE"@ || w == "TRY_ACQUIRE"@ || w == "RELEASE"@
            || w == "STATUS"@ || w == "LIST"@) ==> response_text(refusal(line))
            == "ERR invalid lock name"@,
        words(line) == seq![w] + rest && w != "ACQUIRE"@ && w != "TRY_ACQUIRE"@ && w != "RELEASE"@
            && w != "STATUS"@ && w != "LIST"@ ==> response_text(refusal(line))
            == "ERR unknown command "@ + w,
        words(line).len() == 0 && line != "ACQUIRE"@ && line != "TRY_ACQUIRE"@ && line
            != "RELEASE"@ && line != "STATUS"@ && line != "LIST"@ ==> response_text(refusal(line))
            == "ERR unknown command "@ + line,
{
    law_catalogue(w);
    law_catalogue(line);
    assert((seq![w] + rest)[0] == w);
}

/// What the functions of this module return.
pub proof fn law_intake()
    ensures
        forall|r: Response| #[trigger]
            call_ensures(already_held, (), r) ==> response_text(r@) == "ERR already held"@,
        forall|r: Response| #[trigger]
            call_ensures(not_held, (), r) ==> response_text(r@) == "ERR not held"@,
        forall|r: Response| #[trigger]
            call_ensures(line_too_long, (), r) ==> response_text(r@) == "ERR line too long"@,
        forall|line: &str, r: Result<Request, Response>| #[trigger]
            call_ensures(read_request, (line,), r) ==> match r {
                Ok(req) => request_of(line@) == Some(req@),
                Err(resp) => request_of(line@) is None && resp@ == refusal(line@),
            },
{
    law_catalogue(Seq::empty());
}

} // verus!
