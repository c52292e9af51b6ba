//! The commands of the interactive shell, what it shows, and the arguments of the
//! servers.

use vstd::prelude::*;
use vstd::string::*;

use crate::gfs::types::CHUNK_SIZE;
use crate::text::all_digits;
use crate::text::decimal;
use crate::text::digits;
use crate::text::is_digit;
use crate::text::joined;
use crate::text::joined3;
use crate::text::lemma_parsed_digits;
use crate::text::number_text;
use crate::text::parse_unsigned;
use crate::text::parsed_unsigned;
use crate::text::same_text;
use crate::text::split_words;
use crate::text::texts;
use crate::text::without_plus;
use crate::text::words;

verus! {

/// What a line asks for.
#[derive(Clone, Debug, PartialEq, Eq)]
pub enum Cmd {
    Master { client_port: u16, chunk_port: u16 },
    Chunk { data_port: u16 },
    Chunks,
    Kill { index: usize },
    Status,
    Put { local: String, remote: String, chunk_size: u64 },
    Get { remote: String, local: String },
    Delete { remote: String },
    Help,
    Quit,
    Empty,
}

/// What a line asks for, over texts.
pub enum CmdModel {
    Master(u16, u16),
    Chunk(u16),
    Chunks,
    Kill(usize),
    Status,
    Put(Seq<char>, Seq<char>, u64),
    Get(Seq<char>, Seq<char>),
    Delete(Seq<char>),
    Help,
    Quit,
    Empty,
}

impl View for Cmd {
    type V = CmdModel;

    open spec fn view(&self) -> CmdModel {
        match self {
            Cmd::Master { client_port, chunk_port } => CmdModel::Master(*client_port, *chunk_port),
            Cmd::Chunk { data_port } => CmdModel::Chunk(*data_port),
            Cmd::Chunks => CmdModel::Chunks,
            Cmd::Kill { index } => CmdModel::Kill(*index),
            Cmd::Status => CmdModel::Status,
            Cmd::Put { local, remote, chunk_size } => CmdModel::Put(local@, remote@, *chunk_size),
            Cmd::Get { remote, local } => CmdModel::Get(remote@, local@),
            Cmd::Delete { remote } => CmdModel::Delete(remote@),
            Cmd::Help => CmdModel::Help,
            Cmd::Quit => CmdModel::Quit,
            Cmd::Empty => CmdModel::Empty,
        }
    }
}

/// What a line comes to: a command, or what is wrong with it.
pub type Parsed = Result<CmdModel, Seq<char>>;

/// Whether a result is the one of the model.
pub open spec fn parsed_as(r: Result<Cmd, String>, m: Parsed) -> bool {
    match m {
        Ok(c) => r is Ok && r->Ok_0@ == c,
        Err(e) => r is Err && r->Err_0@ == e,
    }
}

/// A complaint about a word.
pub open spec fn complaint(head: Seq<char>, word: Seq<char>) -> Parsed {
    Err(head + word + "`"@)
}

fn complain(head: &str, word: &str) -> (r: Result<Cmd, String>)
    ensures
        parsed_as(r, complaint(head@, word@)),
{
    Err(joined3(head, word, "`"))
}

/// A port number.
pub open spec fn port_of(s: Seq<char>) -> Option<u16> {
    match parsed_unsigned(s, 65535) {
        Some(n) => Some(n as u16),
        None => None,
    }
}

/// Reads a port number.
pub fn parse_port(s: &str) -> (r: Option<u16>)
    ensures
        r == port_of(s@),
{
    match parse_unsigned(s, 65535) {
        Some(n) => {
            Some(n as u16)
        },
        None => None,
    }
}

// Commands without arguments.

/// A command that takes no arguments.
pub open spec fn no_args_of(rest: Seq<Seq<char>>, name: Seq<char>, cmd: CmdModel) -> Parsed {
    if rest.len() > 0 {
        complaint(name + ": unexpected argument `"@, rest[0])
    } else {
        Ok(cmd)
    }
}

/// Reads a command that takes no arguments.
pub fn parse_no_args(rest: &Vec<String>, name: &str, cmd: Cmd) -> (r: Result<Cmd, String>)
    ensures
        parsed_as(r, no_args_of(texts(rest@), name@, cmd@)),
{
    if rest.len() > 0 {
        assert(texts(rest@)[0] == rest@[0]@);
        let head: String = joined(name, ": unexpected argument `");
        complain(head.as_str(), rest[0].as_str())
    } else {
        Ok(cmd)
    }
}

// `master`.

/// The arguments of `master` from the `i`-th on, given the ports so far.
pub open spec fn master_of(
    rest: Seq<Seq<char>>,
    i: int,
    client_port: u16,
    chunk_port: u16,
) -> Parsed
    decreases rest.len() - i,
{
    if i < 0 || i >= rest.len() {
        Ok(CmdModel::Master(client_port, chunk_port))
    } else if rest[i] == "--client-port"@ {
        if i + 1 >= rest.len() {
            Err("master: --client-port requires <port>"@)
        } else {
            match port_of(rest[i + 1]) {
                Some(p) => master_of(rest, i + 2, p, chunk_port),
                None => complaint("master: invalid port `"@, rest[i + 1]),
            }
        }
    } else if rest[i] == "--chunk-port"@ {
        if i + 1 >= rest.len() {
            Err("master: --chunk-port requires <port>"@)
        } else {
            match port_of(rest[i + 1]) {
                Some(p) => master_of(rest, i + 2, client_port, p),
                None => complaint("master: invalid port `"@, rest[i + 1]),
            }
        }
    } else {
        complaint("master: unexpected `"@, rest[i])
    }
}

/// Reads the arguments of `master`.
pub fn parse_master(rest: &Vec<String>) -> (r: Result<Cmd, String>)
    ensures
        parsed_as(r, master_of(texts(rest@), 0, 0, 0)),
{
    let ghost all = texts(rest@);
    let mut client_port: u16 = 0;
    let mut chunk_port: u16 = 0;
    let mut i: usize = 0;
    while i < rest.len()
        invariant
            i <= rest@.len(),
            all == texts(rest@),
            master_of(all, i as int, client_port, chunk_port) == master_of(all, 0, 0, 0),
        decreases rest@.len() - i,
    {
        let word: &str = rest[i].as_str();
        assert(all[i as int] == word@);
        if same_text(word, "--client-port") {
            if rest.len() - i < 2 {
                return Err("master: --client-port requires <port>".to_owned());
            }
            let v: &str = rest[i + 1].as_str();
            assert(all[i + 1] == v@);
            match parse_port(v) {
                Some(p) => {
                    client_port = p;
                },
                None => {
                    return complain("master: invalid port `", v);
                },
            }
            i += 2;
        } else if same_text(word, "--chunk-port") {
            if rest.len() - i < 2 {
                return Err("master: --chunk-port requires <port>".to_owned());
            }
            let v: &str = rest[i + 1].as_str();
            assert(all[i + 1] == v@);
            match parse_port(v) {
                Some(p) => {
                    chunk_port = p;
                },
                None => {
                    return complain("master: invalid port `", v);
                },
            }
            i += 2;
        } else {
            return complain("master: unexpected `", word);
        }
    }
    Ok(Cmd::Master { client_port, chunk_port })
}

// `chunk`.

/// The arguments of `chunk` from the `i`-th on, given the port so far.
pub open spec fn chunk_of(rest: Seq<Seq<char>>, i: int, data_port: u16) -> Parsed
    decreases rest.len() - i,
{
    if i < 0 || i >= rest.len() {
        Ok(CmdModel::Chunk(data_port))
    } else if rest[i] == "--data-port"@ {
        if i + 1 >= rest.len() {
            Err("chunk: --data-port requires <port>"@)
        } else {
            match port_of(rest[i + 1]) {
                Some(p) => chunk_of(rest, i + 2, p),
                None => complaint("chunk: invalid port `"@, rest[i + 1]),
            }
        }
    } else {
        complaint("chunk: unexpected `"@, rest[i])
    }
}

/// Reads the arguments of `chunk`.
pub fn parse_chunk(rest: &Vec<String>) -> (r: Result<Cmd, String>)
    ensures
        parsed_as(r, chunk_of(texts(rest@), 0, 0)),
{
    let ghost all = texts(rest@);
    let mut data_port: u16 = 0;
    let mut i: usize = 0;
    while i < rest.len()
        invariant
            i <= rest@.len(),
            all == texts(rest@),
            chunk_of(all, i as int, data_port) == chunk_of(all, 0, 0),
        decreases rest@.len() - i,
    {
        let word: &str = rest[i].as_str();
        assert(all[i as int] == word@);
        if same_text(word, "--data-port") {
            if rest.len() - i < 2 {
                return Err("chunk: --data-port requires <port>".to_owned());
            }
            let v: &str = rest[i + 1].as_str();
            assert(all[i + 1] == v@);
            match parse_port(v) {
                Some(p) => {
                    data_port = p;
                },
                None => {
                    return complain("chunk: invalid port `", v);
                },
            }
            i += 2;
        } else {
            return complain("chunk: unexpected `", word);
        }
    }
    Ok(Cmd::Chunk { data_port })
}

// `kill`.

/// The arguments of `kill`.
pub open spec fn kill_of(rest: Seq<Seq<char>>) -> Parsed {
    if rest.len() != 1 {
        Err("usage: kill <chunk-index>"@)
    } else {
        match parsed_unsigned(rest[0], usize::MAX as int) {
            Some(n) => Ok(CmdModel::Kill(n as usize)),
            None => complaint("kill: invalid index `"@, rest[0]),
        }
    }
}

/// Reads the arguments of `kill`.
pub fn parse_kill(rest: &Vec<String>) -> (r: Result<Cmd, String>)
    ensures
        parsed_as(r, kill_of(texts(rest@))),
{
    if rest.len() != 1 {
        return Err("usage: kill <chunk-index>".to_owned());
    }
    let v: &str = rest[0].as_str();
    assert(texts(rest@)[0] == v@);
    match parse_unsigned(v, usize::MAX as u64) {
        Some(n) => {
            Ok(Cmd::Kill { index: n as usize })
        },
        None => complain("kill: invalid index `", v),
    }
}

// `put`.

/// Whether a word looks like a flag.
pub open spec fn is_flag(word: Seq<char>) -> bool {
    word.len() >= 2 && word[0] == '-' && word[1] == '-'
}

fn looks_like_flag(word: &str) -> (r: bool)
    ensures
        r == is_flag(word@),
{
    word.unicode_len() >= 2 && word.get_char(0) == '-' && word.get_char(1) == '-'
}

/// The arguments of `put` from the `i`-th on, given the names and the chunk size
/// so far.
pub open spec fn put_of(
    rest: Seq<Seq<char>>,
    i: int,
    names: Seq<Seq<char>>,
    chunk_size: u64,
) -> Parsed
    decreases rest.len() - i,
{
    if i < 0 || i >= rest.len() {
        if names.len() != 2 {
            Err("usage: put <local> <remote> [--chunk-size <bytes>]"@)
        } else {
            Ok(CmdModel::Put(names[0], names[1], chunk_size))
        }
    } else if rest[i] == "--chunk-size"@ {
        if i + 1 >= rest.len() {
            Err("put: --chunk-size requires <bytes>"@)
        } else {
            match parsed_unsigned(rest[i + 1], u64::MAX as int) {
                Some(n) => if n == 0 {
                    Err("put: chunk size must be > 0"@)
                } else {
                    put_of(rest, i + 2, names, n as u64)
                },
                None => complaint("put: invalid chunk size `"@, rest[i + 1]),
            }
        }
    } else if is_flag(rest[i]) {
        complaint("put: unexpected flag `"@, rest[i])
    } else {
        put_of(rest, i + 1, names.push(rest[i]), chunk_size)
    }
}

/// Reads the arguments of `put`.
pub fn parse_put(rest: &Vec<String>) -> (r: Result<Cmd, String>)
    ensures
        parsed_as(r, put_of(texts(rest@), 0, Seq::empty(), CHUNK_SIZE)),
{
    let ghost all = texts(rest@);
    let ghost whole = put_of(all, 0, Seq::empty(), CHUNK_SIZE);
    let mut names: Vec<String> = Vec::new();
    let mut chunk_size: u64 = CHUNK_SIZE;
    let mut i: usize = 0;
    assert(texts(names@) =~= Seq::<Seq<char>>::empty());
    while i < rest.len()
        invariant
            i <= rest@.len(),
            all == texts(rest@),
            whole == put_of(all, 0, Seq::empty(), CHUNK_SIZE),
            put_of(all, i as int, texts(names@), chunk_size) == whole,
        decreases rest@.len() - i,
    {
        let word: &str = rest[i].as_str();
        assert(all[i as int] == word@);
        if same_text(word, "--chunk-size") {
            if rest.len() - i < 2 {
                return Err("put: --chunk-size requires <bytes>".to_owned());
            }
            let v: &str = rest[i + 1].as_str();
            assert(all[i + 1] == v@);
            match parse_unsigned(v, u64::MAX) {
                Some(n) => {
                    if n == 0 {
                        return Err("put: chunk size must be > 0".to_owned());
                    }
                    chunk_size = n;
                },
                None => {
                    return complain("put: invalid chunk size `", v);
                },
            }
            i += 2;
        } else if looks_like_flag(word) {
            return complain("put: unexpected flag `", word);
        } else {
            let ghost before = names@;
            names.push(word.to_owned());
            assert(texts(names@) =~= texts(before).push(word@));
            i += 1;
        }
    }
    if names.len() != 2 {
        return Err("usage: put <local> <remote> [--chunk-size <bytes>]".to_owned());
    }
    assert(texts(names@)[0] == names@[0]@ && texts(names@)[1] == names@[1]@);
    Ok(Cmd::Put { local: names[0].clone(), remote: names[1].clone(), chunk_size })
}

// `get` and `delete`.

/// The arguments of `get`.
pub open spec fn get_of(rest: Seq<Seq<char>>) -> Parsed {
    if rest.len() != 2 {
        Err("usage: get <remote> <local>"@)
    } else {
        Ok(CmdModel::Get(rest[0], rest[1]))
    }
}

/// Reads the arguments of `get`.
pub fn parse_get(rest: &Vec<String>) -> (r: Result<Cmd, String>)
    ensures
        parsed_as(r, get_of(texts(rest@))),
{
    if rest.len() != 2 {
        return Err("usage: get <remote> <local>".to_owned());
    }
    assert(texts(rest@)[0] == rest@[0]@ && texts(rest@)[1] == rest@[1]@);
    Ok(Cmd::Get { remote: rest[0].clone(), local: rest[1].clone() })
}

/// The arguments of `delete`.
pub open spec fn delete_of(rest: Seq<Seq<char>>) -> Parsed {
    if rest.len() != 1 {
        Err("usage: delete <remote>"@)
    } else {
        Ok(CmdModel::Delete(rest[0]))
    }
}

/// Reads the arguments of `delete`.
pub fn parse_delete(rest: &Vec<String>) -> (r: Result<Cmd, String>)
    ensures
        parsed_as(r, delete_of(texts(rest@))),
{
    if rest.len() != 1 {
        return Err("usage: delete <remote>".to_owned());
    }
    assert(texts(rest@)[0] == rest@[0]@);
    Ok(Cmd::Delete { remote: rest[0].clone() })
}

// Lines.

/// What a line asks for.
pub open spec fn line_of(line: Seq<char>) -> Parsed {
    let ws = words(line);
    if ws.len() == 0 {
        Ok(CmdModel::Empty)
    } else {
        let head = ws[0];
        let rest = ws.skip(1);
        if head == "master"@ {
            master_of(rest, 0, 0, 0)
        } else if head == "chunk"@ {
            chunk_of(rest, 0, 0)
        } else if head == "chunks"@ {
            no_args_of(rest, "chunks"@, CmdModel::Chunks)
        } else if head == "kill"@ {
            kill_of(rest)
        } else if head == "status"@ {
            no_args_of(rest, "status"@, CmdModel::Status)
        } else if head == "put"@ {
            put_of(rest, 0, Seq::empty(), CHUNK_SIZE)
        } else if head == "get"@ {
            get_of(rest)
        } else if head == "delete"@ {
            delete_of(rest)
        } else if head == "help"@ || head == "?"@ {
            Ok(CmdModel::Help)
        } else if head == "quit"@ || head == "exit"@ || head == "q"@ {
            Ok(CmdModel::Quit)
        } else {
            Err("unknown command `"@ + head + "`; type `help`"@)
        }
    }
}

/// Reads a line as a command.
pub fn parse_line(line: &str) -> (r: Result<Cmd, String>)
    ensures
        parsed_as(r, line_of(line@)),
{
    let mut ws: Vec<String> = split_words(line);
    let ghost all = texts(ws@);
    if ws.len() == 0 {
        return Ok(Cmd::Empty);
    }
    let first: String = ws.remove(0);
    proof {
        assert(all[0] == first@);
        assert(texts(ws@) =~= all.skip(1));
    }
    let head: &str = first.as_str();
    if same_text(head, "master") {
        parse_master(&ws)
    } else if same_text(head, "chunk") {
        parse_chunk(&ws)
    } else if same_text(head, "chunks") {
        parse_no_args(&ws, "chunks", Cmd::Chunks)
    } else if same_text(head, "kill") {
        parse_kill(&ws)
    } else if same_text(head, "status") {
        parse_no_args(&ws, "status", Cmd::Status)
    } else if same_text(head, "put") {
        parse_put(&ws)
    } else if same_text(head, "get") {
        parse_get(&ws)
    } else if same_text(head, "delete") {
        parse_delete(&ws)
    } else if same_text(head, "help") || same_text(head, "?") {
        Ok(Cmd::Help)
    } else if same_text(head, "quit") || same_text(head, "exit") || same_text(head, "q") {
        Ok(Cmd::Quit)
    } else {
        Err(joined3("unknown command `", head, "`; type `help`"))
    }
}

// What is shown of the cluster.

/// One spawned chunk server: the text of its data address, and whether it runs.
pub struct Spawned {
    pub data_addr: String,
    pub running: bool,
}

/// What is shown of the chunk server at place `i`.
pub open spec fn chunk_line(i: int, s: Spawned) -> Seq<char> {
    let line = "chunk["@ + digits(i as nat) + "] data="@ + s.data_addr@;
    if s.running {
        line
    } else {
        line + " (killed)"@
    }
}

/// What is shown for `chunks`: one line per chunk server, in order.
pub open spec fn chunk_lines(all: Seq<Spawned>) -> Seq<Seq<char>> {
    if all.len() == 0 {
        seq!["(no chunk servers)"@]
    } else {
        Seq::new(all.len(), |i: int| chunk_line(i, all[i]))
    }
}

/// What is shown for `chunks`.
pub fn show_chunks(all: &Vec<Spawned>) -> (r: Vec<String>)
    ensures
        texts(r@) == chunk_lines(all@),
{
    let mut out: Vec<String> = Vec::new();
    if all.len() == 0 {
        out.push("(no chunk servers)".to_owned());
        assert(texts(out@) =~= chunk_lines(all@));
        return out;
    }
    let mut i: usize = 0;
    while i < all.len()
        invariant
            i <= all@.len(),
            all@.len() > 0,
            texts(out@) == chunk_lines(all@).take(i as int),
        decreases all@.len() - i,
    {
        let head: String = joined3("chunk[", number_text(i as u64).as_str(), "] data=");
        let tail: &str = if all[i].running {
            ""
        } else {
            " (killed)"
        };
        let line: String = joined3(head.as_str(), all[i].data_addr.as_str(), tail);
        let ghost before = out@;
        out.push(line);
        proof {
            reveal_strlit("");
            assert(line@ =~= chunk_line(i as int, all@[i as int]));
            assert(texts(out@) =~= texts(before).push(line@));
            assert(texts(out@) =~= chunk_lines(all@).take(i + 1));
        }
        i += 1;
    }
    assert(chunk_lines(all@).take(i as int) =~= chunk_lines(all@));
    out
}

/// What `kill` says, given the chunk server at the index, if there is one.
pub open spec fn kill_outcome(index: usize, found: Option<Spawned>) -> Result<
    Seq<char>,
    Seq<char>,
> {
    match found {
        None => Err("kill: no chunk server at index "@ + digits(index as nat)),
        Some(s) => if s.running {
            Ok("chunk["@ + digits(index as nat) + "] killed (data="@ + s.data_addr@ + ")"@)
        } else {
            Err("kill: chunk["@ + digits(index as nat) + "] is already killed"@)
        },
    }
}

/// Whether the chunk server at an index can be killed: what is shown once it is,
/// or why it cannot be.
pub fn kill_at(all: &Vec<Spawned>, index: usize) -> (r: Result<String, String>)
    ensures
        match kill_outcome(
            index,
            if index < all@.len() {
                Some(all@[index as int])
            } else {
                None
            },
        ) {
            Ok(t) => r is Ok && r->Ok_0@ == t,
            Err(t) => r is Err && r->Err_0@ == t,
        },
{
    let number: String = number_text(index as u64);
    if index >= all.len() {
        return Err(joined("kill: no chunk server at index ", number.as_str()));
    }
    if all[index].running {
        let head: String = joined3("chunk[", number.as_str(), "] killed (data=");
        Ok(joined3(head.as_str(), all[index].data_addr.as_str(), ")"))
    } else {
        Err(joined3("kill: chunk[", number.as_str(), "] is already killed"))
    }
}

/// What is shown for `status`, given the texts of the master's addresses for
/// clients and for chunk servers, if it runs, and the number of chunk servers.
pub open spec fn status_line(master: Option<(Seq<char>, Seq<char>)>, servers: nat) -> Seq<char> {
    match master {
        Some((client, chunk)) => "master: client="@ + client + " chunk="@ + chunk
            + "; chunk servers: "@ + digits(servers),
        None => "master: not running; chunk servers: "@ + digits(servers),
    }
}

/// What is shown for `status`.
pub fn show_status(master: Option<(&str, &str)>, servers: usize) -> (r: String)
    ensures
        r@ == status_line(
            match master {
                Some((client, chunk)) => Some((client@, chunk@)),
                None => None,
            },
            servers as nat,
        ),
{
    let number: String = number_text(servers as u64);
    match master {
        Some((client, chunk)) => {
            let head: String = joined3("master: client=", client, " chunk=");
            let both: String = joined3(head.as_str(), chunk, "; chunk servers: ");
            joined(both.as_str(), number.as_str())
        },
        None => joined("master: not running; chunk servers: ", number.as_str()),
    }
}

// Arguments of the servers.

/// The port that the master listens on for clients, unless another is set.
pub const DEFAULT_CLIENT_PORT: u16 = 50000;

/// The port that the master listens on for chunk servers, unless another is set.
pub const DEFAULT_CHUNK_PORT: u16 = 50001;

/// The port that a setting asks for; the default if there is none or it is no
/// port.
pub fn port_setting(value: Option<&str>, default_port: u16) -> (r: u16)
    ensures
        r == (match value {
            Some(s) => match port_of(s@) {
                Some(p) => p,
                None => default_port,
            },
            None => default_port,
        }),
{
    match value {
        Some(s) => match parse_port(s) {
            Some(p) => p,
            None => default_port,
        },
        None => default_port,
    }
}

/// The data port that the flags of a chunk server ask for from the `i`-th on,
/// given the one so far; nothing if they are not understood.
pub open spec fn data_port_of(flags: Seq<Seq<char>>, i: int, port: u16) -> Option<u16>
    decreases flags.len() - i,
{
    if i < 0 || i >= flags.len() {
        Some(port)
    } else if flags[i] == "--data-port"@ && i + 1 < flags.len() {
        match port_of(flags[i + 1]) {
            Some(p) => data_port_of(flags, i + 2, p),
            None => None,
        }
    } else {
        None
    }
}

/// Reads the flags of a chunk server.
pub fn parse_data_port(flags: &Vec<String>) -> (r: Option<u16>)
    ensures
        r == data_port_of(texts(flags@), 0, 0),
{
    let ghost all = texts(flags@);
    let mut port: u16 = 0;
    let mut i: usize = 0;
    while i < flags.len()
        invariant
            i <= flags@.len(),
            all == texts(flags@),
            data_port_of(all, i as int, port) == data_port_of(all, 0, 0),
        decreases flags@.len() - i,
    {
        let word: &str = flags[i].as_str();
        assert(all[i as int] == word@);
        if !same_text(word, "--data-port") || flags.len() - i < 2 {
            return None;
        }
        let v: &str = flags[i + 1].as_str();
        assert(all[i + 1] == v@);
        match parse_port(v) {
            Some(p) => {
                port = p;
            },
            None => {
                return None;
            },
        }
        i += 2;
    }
    Some(port)
}

// Laws.

/// Whether a word starts with two hyphens.
pub open spec fn starts_with_hyphens(w: Seq<char>) -> bool {
    w.len() >= 2 && w[0] == '-' && w[1] == '-'
}

/// Whether `w` is one of the words that commands start with.
pub open spec fn is_command(w: Seq<char>) -> bool {
    ||| w == "master"@
    ||| w == "chunk"@
    ||| w == "chunks"@
    ||| w == "kill"@
    ||| w == "status"@
    ||| w == "put"@
    ||| w == "get"@
    ||| w == "delete"@
    ||| w == "help"@
    ||| w == "?"@
    ||| w == "quit"@
    ||| w == "exit"@
    ||| w == "q"@
}

/// The numbers of this module.
pub proof fn law_default_ports()
    ensures
        DEFAULT_CLIENT_PORT == 50000,
        DEFAULT_CHUNK_PORT == 50001,
{
}

/// A port is a number up to 65535, and every such number is one.
pub proof fn law_ports(s: Seq<char>, p: u16)
    ensures
        port_of(s) == Some(p) <==> parsed_unsigned(s, 65535) == Some(p as int),
        port_of(s) is None <==> parsed_unsigned(s, 65535) is None,
        port_of(digits(p as nat)) == Some(p),
{
    lemma_parsed_digits(p as nat, 65535);
    law_number_range(s, 65535);
}

proof fn law_number_range(s: Seq<char>, max: int)
    ensures
        parsed_unsigned(s, max) matches Some(n) ==> 0 <= n <= max,
{
    lemma_decimal_not_negative(without_plus(s));
}

proof fn lemma_decimal_not_negative(s: Seq<char>)
    ensures
        all_digits(s) ==> decimal(s) >= 0,
    decreases s.len(),
{
    if all_digits(s) && s.len() > 0 {
        assert(all_digits(s.drop_last())) by {
            assert forall|i: int| 0 <= i < s.drop_last().len() implies is_digit(
                #[trigger] s.drop_last()[i],
            ) by {
                assert(is_digit(s[i]));
            }
        }
        assert(is_digit(s[s.len() - 1]));
        lemma_decimal_not_negative(s.drop_last());
    }
}

proof fn lemma_heads()
    ensures
        "master"@ != "chunk"@,
        "master"@ != "chunks"@,
        "master"@ != "kill"@,
        "master"@ != "status"@,
        "master"@ != "put"@,
        "master"@ != "get"@,
        "master"@ != "delete"@,
        "master"@ != "help"@,
        "master"@ != "?"@,
        "master"@ != "quit"@,
        "master"@ != "exit"@,
        "master"@ != "q"@,
        "chunk"@ != "chunks"@,
        "chunk"@ != "kill"@,
        "chunk"@ != "status"@,
        "chunk"@ != "put"@,
        "chunk"@ != "get"@,
        "chunk"@ != "delete"@,
        "chunk"@ != "help"@,
        "chunk"@ != "?"@,
        "chunk"@ != "quit"@,
        "chunk"@ != "exit"@,
        "chunk"@ != "q"@,
        "chunks"@ != "kill"@,
        "chunks"@ != "status"@,
        "chunks"@ != "put"@,
        "chunks"@ != "get"@,
        "chunks"@ != "delete"@,
        "chunks"@ != "help"@,
        "chunks"@ != "?"@,
        "chunks"@ != "quit"@,
        "chunks"@ != "exit"@,
        "chunks"@ != "q"@,
        "kill"@ != "status"@,
        "kill"@ != "put"@,
        "kill"@ != "get"@,
        "kill"@ != "delete"@,
        "kill"@ != "help"@,
        "kill"@ != "?"@,
        "kill"@ != "quit"@,
        "kill"@ != "exit"@,
        "kill"@ != "q"@,
        "status"@ != "put"@,
        "status"@ != "get"@,
        "status"@ != "delete"@,
        "status"@ != "help"@,
        "status"@ != "?"@,
        "status"@ != "quit"@,
        "status"@ != "exit"@,
        "status"@ != "q"@,
        "put"@ != "get"@,
        "put"@ != "delete"@,
        "put"@ != "help"@,
        "put"@ != "?"@,
        "put"@ != "quit"@,
        "put"@ != "exit"@,
        "put"@ != "q"@,
        "get"@ != "delete"@,
        "get"@ != "help"@,
        "get"@ != "?"@,
        "get"@ != "quit"@,
        "get"@ != "exit"@,
        "get"@ != "q"@,
        "delete"@ != "help"@,
        "delete"@ != "?"@,
        "delete"@ != "quit"@,
        "delete"@ != "exit"@,
        "delete"@ != "q"@,
        "help"@ != "?"@,
        "help"@ != "quit"@,
        "help"@ != "exit"@,
        "help"@ != "q"@,
        "?"@ != "quit"@,
        "?"@ != "exit"@,
        "?"@ != "q"@,
        "quit"@ != "exit"@,
        "quit"@ != "q"@,
        "exit"@ != "q"@,
{
    reveal_strlit("master");
    reveal_strlit("chunk");
    reveal_strlit("chunks");
    reveal_strlit("kill");
    reveal_strlit("status");
    reveal_strlit("put");
    reveal_strlit("get");
    reveal_strlit("delete");
    reveal_strlit("help");
    reveal_strlit("?");
    reveal_strlit("quit");
    reveal_strlit("exit");
    reveal_strlit("q");
    assert("master"@.len() != "chunk"@.len());
    assert("master"@[0] != "chunks"@[0]);
    assert("master"@.len() != "kill"@.len());
    assert("master"@[0] != "status"@[0]);
    assert("master"@.len() != "put"@.len());
    assert("master"@.len() != "get"@.len());
    assert("master"@[0] != "delete"@[0]);
    assert("master"@.len() != "help"@.len());
    assert("master"@.len() != "?"@.len());
    assert("master"@.len() != "quit"@.len());
    assert("master"@.len() != "exit"@.len());
    assert("master"@.len() != "q"@.len());
    assert("chunk"@.len() != "chunks"@.len());
    assert("chunk"@.len() != "kill"@.len());
    assert("chunk"@.len() != "status"@.len());
    assert("chunk"@.len() != "put"@.len());
    assert("chunk"@.len() != "get"@.len());
    assert("chunk"@.len() != "delete"@.len());
    assert("chunk"@.len() != "help"@.len());
    assert("chunk"@.len() != "?"@.len());
    assert("chunk"@.len() != "quit"@.len());
    assert("chunk"@.len() != "exit"@.len());
    assert("chunk"@.len() != "q"@.len());
    assert("chunks"@.len() != "kill"@.len());
    assert("chunks"@[0] != "status"@[0]);
    assert("chunks"@.len() != "put"@.len());
    assert("chunks"@.len() != "get"@.len());
    assert("chunks"@[0] != "delete"@[0]);
    assert("chunks"@.len() != "help"@.len());
    assert("chunks"@.len() != "?"@.len());
    assert("chunks"@.len() != "quit"@.len());
    assert("chunks"@.len() != "exit"@.len());
    assert("chunks"@.len() != "q"@.len());
    assert("kill"@.len() != "status"@.len());
    assert("kill"@.len() != "put"@.len());
    assert("kill"@.len() != "get"@.len());
    assert("kill"@.len() != "delete"@.len());
    assert("kill"@[0] != "help"@[0]);
    assert("kill"@.len() != "?"@.len());
    assert("kill"@[0] != "quit"@[0]);
    assert("kill"@[0] != "exit"@[0]);
    assert("kill"@.len() != "q"@.len());
    assert("status"@.len() != "put"@.len());
    assert("status"@.len() != "get"@.len());
    assert("status"@[0] != "delete"@[0]);
    assert("status"@.len() != "help"@.len());
    assert("status"@.len() != "?"@.len());
    assert("status"@.len() != "quit"@.len());
    assert("status"@.len() != "exit"@.len());
    assert("status"@.len() != "q"@.len());
    assert("put"@[0] != "get"@[0]);
    assert("put"@.len() != "delete"@.len());
    assert("put"@.len() != "help"@.len());
    assert("put"@.len() != "?"@.len());
    assert("put"@.len() != "quit"@.len());
    assert("put"@.len() != "exit"@.len());
    assert("put"@.len() != "q"@.len());
    assert("get"@.len() != "delete"@.len());
    assert("get"@.len() != "help"@.len());
    assert("get"@.len() != "?"@.len());
    assert("get"@.len() != "quit"@.len());
    assert("get"@.len() != "exit"@.len());
    assert("get"@.len() != "q"@.len());
    assert("delete"@.len() != "help"@.len());
    assert("delete"@.len() != "?"@.len());
    assert("delete"@.len() != "quit"@.len());
    assert("delete"@.len() != "exit"@.len());
    assert("delete"@.len() != "q"@.len());
    assert("help"@.len() != "?"@.len());
    assert("help"@[0] != "quit"@[0]);
    assert("help"@[0] != "exit"@[0]);
    assert("help"@.len() != "q"@.len());
    assert("?"@.len() != "quit"@.len());
    assert("?"@.len() != "exit"@.len());
    assert("?"@[0] != "q"@[0]);
    assert("quit"@[0] != "exit"@[0]);
    assert("quit"@.len() != "q"@.len());
    assert("exit"@.len() != "q"@.len());
}

/// Which command a line is, is said by its first word alone: each word asks for its
/// own command, with the other words as arguments. Commands that end the shell or
/// show help take any.
pub proof fn law_lines(line: Seq<char>, h: Seq<char>, rest: Seq<Seq<char>>)
    ensures
        words(line).len() == 0 ==> line_of(line) == Ok::<CmdModel, Seq<char>>(CmdModel::Empty),
        words(line) == seq!["master"@] + rest ==> line_of(line) == master_of(rest, 0, 0, 0),
        words(line) == seq!["chunk"@] + rest ==> line_of(line) == chunk_of(rest, 0, 0),
        words(line) == seq!["kill"@] + rest ==> line_of(line) == kill_of(rest),
        words(line) == seq!["put"@] + rest ==> line_of(line) == put_of(
            rest,
            0,
            Seq::empty(),
            4194304,
        ),
        words(line) == seq!["get"@] + rest ==> line_of(line) == get_of(rest),
        words(line) == seq!["delete"@] + rest ==> line_of(line) == delete_of(rest),
        words(line) == seq!["chunks"@] ==> line_of(line) == Ok::<CmdModel, Seq<char>>(
            CmdModel::Chunks,
        ),
        words(line) == seq!["chunks"@] + rest && rest.len() > 0 ==> line_of(line) == Err::<
            CmdModel,
            Seq<char>,
        >("chunks"@ + ": unexpected argument `"@ + rest[0] + "`"@),
        words(line) == seq!["status"@] ==> line_of(line) == Ok::<CmdModel, Seq<char>>(
            CmdModel::Status,
        ),
        words(line) == seq!["status"@] + rest && rest.len() > 0 ==> line_of(line) == Err::<
            CmdModel,
            Seq<char>,
        >("status"@ + ": unexpected argument `"@ + rest[0] + "`"@),
        words(line) == seq!["help"@] + rest || words(line) == seq!["?"@] + rest ==> line_of(line)
            == Ok::<CmdModel, Seq<char>>(CmdModel::Help),
        words(line) == seq!["quit"@] + rest || words(line) == seq!["exit"@] + rest || words(line)
            == seq!["q"@] + rest ==> line_of(line) == Ok::<CmdModel, Seq<char>>(CmdModel::Quit),
        words(line) == seq![h] + rest && !is_command(h) ==> line_of(line) == Err::<
            CmdModel,
            Seq<char>,
        >("unknown command `"@ + h + "`; type `help`"@),
{
    lemma_heads();
    assert((seq![h] + rest).skip(1) =~= rest);
    assert((seq!["master"@] + rest).skip(1) =~= rest);
    assert((seq!["chunk"@] + rest).skip(1) =~= rest);
    assert((seq!["chunks"@] + rest).skip(1) =~= rest);
    assert((seq!["kill"@] + rest).skip(1) =~= rest);
    assert((seq!["status"@] + rest).skip(1) =~= rest);
    assert((seq!["put"@] + rest).skip(1) =~= rest);
    assert((seq!["get"@] + rest).skip(1) =~= rest);
    assert((seq!["delete"@] + rest).skip(1) =~= rest);
    assert((seq!["help"@] + rest).skip(1) =~= rest);
    assert((seq!["?"@] + rest).skip(1) =~= rest);
    assert((seq!["quit"@] + rest).skip(1) =~= rest);
    assert((seq!["exit"@] + rest).skip(1) =~= rest);
    assert((seq!["q"@] + rest).skip(1) =~= rest);
    assert(seq!["chunks"@].skip(1) =~= Seq::<Seq<char>>::empty());
    assert(seq!["status"@].skip(1) =~= Seq::<Seq<char>>::empty());
}

/// `get` takes a remote and a local name, `delete` takes a remote one, and `kill` an
/// index; with more or fewer words each says how it is used.
pub proof fn law_get_delete_kill(rest: Seq<Seq<char>>, a: Seq<char>, b: Seq<char>, n: usize)
    ensures
        get_of(seq![a, b]) == Ok::<CmdModel, Seq<char>>(CmdModel::Get(a, b)),
        rest.len() != 2 ==> get_of(rest) == Err::<CmdModel, Seq<char>>(
            "usage: get <remote> <local>"@,
        ),
        delete_of(seq![a]) == Ok::<CmdModel, Seq<char>>(CmdModel::Delete(a)),
        rest.len() != 1 ==> delete_of(rest) == Err::<CmdModel, Seq<char>>(
            "usage: delete <remote>"@,
        ),
        parsed_unsigned(a, usize::MAX as int) == Some(n as int) ==> kill_of(seq![a]) == Ok::<
            CmdModel,
            Seq<char>,
        >(CmdModel::Kill(n)),
        parsed_unsigned(a, usize::MAX as int) is None ==> kill_of(seq![a]) == Err::<
            CmdModel,
            Seq<char>,
        >("kill: invalid index `"@ + a + "`"@),
        rest.len() != 1 ==> kill_of(rest) == Err::<CmdModel, Seq<char>>(
            "usage: kill <chunk-index>"@,
        ),
{
}

proof fn lemma_master_prefix(
    rest: Seq<Seq<char>>,
    more: Seq<Seq<char>>,
    i: int,
    c: u16,
    d: u16,
    a: u16,
    b: u16,
)
    requires
        0 <= i <= rest.len(),
        master_of(rest, i, c, d) == Ok::<CmdModel, Seq<char>>(CmdModel::Master(a, b)),
    ensures
        master_of(rest + more, i, c, d) == master_of(rest + more, rest.len() as int, a, b),
    decreases rest.len() - i,
{
    let all = rest + more;
    if i < rest.len() {
        assert(all[i] == rest[i]);
        assert(all[i + 1] == rest[i + 1]);
        if rest[i] == "--client-port"@ {
            lemma_master_prefix(rest, more, i + 2, port_of(rest[i + 1])->0, d, a, b);
        } else {
            lemma_master_prefix(rest, more, i + 2, c, port_of(rest[i + 1])->0, a, b);
        }
    }
}

/// `master` has the ports 0 and 0 unless flags say otherwise. However many flags came
/// before, `--client-port` and `--chunk-port` each set their own port; the last one
/// counts. What is no flag, has no value or no port as a value, is complained of.
pub proof fn law_master_flags(rest: Seq<Seq<char>>, a: u16, b: u16, p: u16, w: Seq<char>)
    requires
        master_of(rest, 0, 0, 0) == Ok::<CmdModel, Seq<char>>(CmdModel::Master(a, b)),
    ensures
        master_of(Seq::empty(), 0, 0, 0) == Ok::<CmdModel, Seq<char>>(CmdModel::Master(0, 0)),
        port_of(w) == Some(p) ==> master_of(rest + seq!["--client-port"@, w], 0, 0, 0) == Ok::<
            CmdModel,
            Seq<char>,
        >(CmdModel::Master(p, b)),
        port_of(w) == Some(p) ==> master_of(rest + seq!["--chunk-port"@, w], 0, 0, 0) == Ok::<
            CmdModel,
            Seq<char>,
        >(CmdModel::Master(a, p)),
        port_of(w) is None ==> master_of(rest + seq!["--client-port"@, w], 0, 0, 0) == Err::<
            CmdModel,
            Seq<char>,
        >("master: invalid port `"@ + w + "`"@),
        port_of(w) is None ==> master_of(rest + seq!["--chunk-port"@, w], 0, 0, 0) == Err::<
            CmdModel,
            Seq<char>,
        >("master: invalid port `"@ + w + "`"@),
        master_of(rest + seq!["--client-port"@], 0, 0, 0) == Err::<CmdModel, Seq<char>>(
            "master: --client-port requires <port>"@,
        ),
        master_of(rest + seq!["--chunk-port"@], 0, 0, 0) == Err::<CmdModel, Seq<char>>(
            "master: --chunk-port requires <port>"@,
        ),
        w != "--client-port"@ && w != "--chunk-port"@ ==> master_of(rest + seq![w], 0, 0, 0)
            == Err::<CmdModel, Seq<char>>("master: unexpected `"@ + w + "`"@),
{
    let n = rest.len() as int;
    assert("--client-port"@ != "--chunk-port"@) by {
        reveal_strlit("--client-port");
        reveal_strlit("--chunk-port");
        assert("--client-port"@.len() != "--chunk-port"@.len());
    }
    lemma_master_prefix(rest, seq!["--client-port"@, w], 0, 0, 0, a, b);
    lemma_master_prefix(rest, seq!["--chunk-port"@, w], 0, 0, 0, a, b);
    lemma_master_prefix(rest, seq!["--client-port"@], 0, 0, 0, a, b);
    lemma_master_prefix(rest, seq!["--chunk-port"@], 0, 0, 0, a, b);
    lemma_master_prefix(rest, seq![w], 0, 0, 0, a, b);
    let x = rest + seq!["--client-port"@, w];
    let y = rest + seq!["--chunk-port"@, w];
    assert(x[n] == "--client-port"@ && x[n + 1] == w);
    assert(y[n] == "--chunk-port"@ && y[n + 1] == w);
    assert((rest + seq!["--client-port"@])[n] == "--client-port"@);
    assert((rest + seq!["--chunk-port"@])[n] == "--chunk-port"@);
    assert((rest + seq![w])[n] == w);
    if port_of(w) == Some(p) {
        assert(master_of(x, n + 2, p, b) == Ok::<CmdModel, Seq<char>>(CmdModel::Master(p, b)));
        assert(master_of(y, n + 2, a, p) == Ok::<CmdModel, Seq<char>>(CmdModel::Master(a, p)));
    }
}

proof fn lemma_chunk_prefix(rest: Seq<Seq<char>>, more: Seq<Seq<char>>, i: int, c: u16, a: u16)
    requires
        0 <= i <= rest.len(),
        chunk_of(rest, i, c) == Ok::<CmdModel, Seq<char>>(CmdModel::Chunk(a)),
    ensures
        chunk_of(rest + more, i, c) == chunk_of(rest + more, rest.len() as int, a),
    decreases rest.len() - i,
{
    let all = rest + more;
    if i < rest.len() {
        assert(all[i] == rest[i]);
        assert(all[i + 1] == rest[i + 1]);
        lemma_chunk_prefix(rest, more, i + 2, port_of(rest[i + 1])->0, a);
    }
}

/// `chunk` has the port 0 unless `--data-port` says otherwise; the last one counts.
pub proof fn law_chunk_flags(rest: Seq<Seq<char>>, a: u16, p: u16, w: Seq<char>)
    requires
        chunk_of(rest, 0, 0) == Ok::<CmdModel, Seq<char>>(CmdModel::Chunk(a)),
    ensures
        chunk_of(Seq::empty(), 0, 0) == Ok::<CmdModel, Seq<char>>(CmdModel::Chunk(0)),
        port_of(w) == Some(p) ==> chunk_of(rest + seq!["--data-port"@, w], 0, 0) == Ok::<
            CmdModel,
            Seq<char>,
        >(CmdModel::Chunk(p)),
        port_of(w) is None ==> chunk_of(rest + seq!["--data-port"@, w], 0, 0) == Err::<
            CmdModel,
            Seq<char>,
        >("chunk: invalid port `"@ + w + "`"@),
        chunk_of(rest + seq!["--data-port"@], 0, 0) == Err::<CmdModel, Seq<char>>(
            "chunk: --data-port requires <port>"@,
        ),
        w != "--data-port"@ ==> chunk_of(rest + seq![w], 0, 0) == Err::<CmdModel, Seq<char>>(
            "chunk: unexpected `"@ + w + "`"@,
        ),
{
    let n = rest.len() as int;
    lemma_chunk_prefix(rest, seq!["--data-port"@, w], 0, 0, a);
    lemma_chunk_prefix(rest, seq!["--data-port"@], 0, 0, a);
    lemma_chunk_prefix(rest, seq![w], 0, 0, a);
    let x = rest + seq!["--data-port"@, w];
    assert(x[n] == "--data-port"@ && x[n + 1] == w);
    assert((rest + seq!["--data-port"@])[n] == "--data-port"@);
    assert((rest + seq![w])[n] == w);
    if port_of(w) == Some(p) {
        assert(chunk_of(x, n + 2, p) == Ok::<CmdModel, Seq<char>>(CmdModel::Chunk(p)));
    }
}

proof fn lemma_data_port_prefix(rest: Seq<Seq<char>>, more: Seq<Seq<char>>, i: int, c: u16, a: u16)
    requires
        0 <= i <= rest.len(),
        data_port_of(rest, i, c) == Some(a),
    ensures
        data_port_of(rest + more, i, c) == data_port_of(rest + more, rest.len() as int, a),
    decreases rest.len() - i,
{
    let all = rest + more;
    if i < rest.len() {
        assert(all[i] == rest[i]);
        assert(all[i + 1] == rest[i + 1]);
        lemma_data_port_prefix(rest, more, i + 2, port_of(rest[i + 1])->0, a);
    }
}

/// The flags of a chunk server: the port is 0 unless `--data-port` says otherwise, and
/// the last one counts; anything else is not understood.
pub proof fn law_data_port_flags(rest: Seq<Seq<char>>, a: u16, w: Seq<char>)
    requires
        data_port_of(rest, 0, 0) == Some(a),
    ensures
        data_port_of(Seq::empty(), 0, 0) == Some(0u16),
        data_port_of(rest + seq!["--data-port"@, w], 0, 0) == port_of(w),
        data_port_of(rest + seq![w], 0, 0) is None,
        w != "--data-port"@ ==> data_port_of(rest + seq![w, w], 0, 0) is None,
{
    let n = rest.len() as int;
    lemma_data_port_prefix(rest, seq!["--data-port"@, w], 0, 0, a);
    lemma_data_port_prefix(rest, seq![w], 0, 0, a);
    lemma_data_port_prefix(rest, seq![w, w], 0, 0, a);
    let x = rest + seq!["--data-port"@, w];
    assert(x[n] == "--data-port"@ && x[n + 1] == w);
    assert((rest + seq![w])[n] == w);
    assert((rest + seq![w, w])[n] == w);
    if port_of(w) is Some {
        assert(data_port_of(x, n + 2, port_of(w)->0) == port_of(w));
    }
}

proof fn lemma_put_names(rest: Seq<Seq<char>>, i: int, j: int, names: Seq<Seq<char>>, size: u64)
    requires
        0 <= i <= j <= rest.len(),
        forall|x: int| i <= x < j ==> !starts_with_hyphens(#[trigger] rest[x]),
    ensures
        put_of(rest, i, names, size) == put_of(rest, j, names + rest.subrange(i, j), size),
    decreases j - i,
{
    if i < j {
        assert(!starts_with_hyphens(rest[i]));
        assert(rest[i] != "--chunk-size"@) by {
            reveal_strlit("--chunk-size");
        }
        lemma_put_names(rest, i + 1, j, names.push(rest[i]), size);
        assert(names.push(rest[i]) + rest.subrange(i + 1, j) =~= names + rest.subrange(i, j));
    } else {
        assert(names + rest.subrange(i, j) =~= names);
    }
}

/// `put` takes two names. Between, before or behind them, `--chunk-size` sets the chunk
/// size, which is otherwise 4194304 and may not be 0. Here `u` and `w` are the names
/// before and behind the flag.
pub proof fn law_put(u: Seq<Seq<char>>, f: Seq<char>, t: Seq<char>, w: Seq<Seq<char>>, n: u64)
    requires
        forall|x: int| 0 <= x < u.len() ==> !starts_with_hyphens(#[trigger] u[x]),
        forall|x: int| 0 <= x < w.len() ==> !starts_with_hyphens(#[trigger] w[x]),
    ensures
        u.len() == 2 ==> put_of(u, 0, Seq::empty(), 4194304) == Ok::<CmdModel, Seq<char>>(
            CmdModel::Put(u[0], u[1], 4194304),
        ),
        u.len() != 2 ==> put_of(u, 0, Seq::empty(), 4194304) == Err::<CmdModel, Seq<char>>(
            "usage: put <local> <remote> [--chunk-size <bytes>]"@,
        ),
        parsed_unsigned(t, u64::MAX as int) == Some(n as int) && n > 0 && u.len() + w.len() == 2
            ==> put_of(u + seq!["--chunk-size"@, t] + w, 0, Seq::empty(), 4194304) == Ok::<
            CmdModel,
            Seq<char>,
        >(CmdModel::Put((u + w)[0], (u + w)[1], n)),
        parsed_unsigned(t, u64::MAX as int) == Some(n as int) && n > 0 && u.len() + w.len() != 2
            ==> put_of(u + seq!["--chunk-size"@, t] + w, 0, Seq::empty(), 4194304) == Err::<
            CmdModel,
            Seq<char>,
        >("usage: put <local> <remote> [--chunk-size <bytes>]"@),
        parsed_unsigned(t, u64::MAX as int) == Some(0int) ==> put_of(
            u + seq!["--chunk-size"@, t] + w,
            0,
            Seq::empty(),
            4194304,
        ) == Err::<CmdModel, Seq<char>>("put: chunk size must be > 0"@),
        parsed_unsigned(t, u64::MAX as int) is None ==> put_of(
            u + seq!["--chunk-size"@, t] + w,
            0,
            Seq::empty(),
            4194304,
        ) == Err::<CmdModel, Seq<char>>("put: invalid chunk size `"@ + t + "`"@),
        put_of(u + seq!["--chunk-size"@], 0, Seq::empty(), 4194304) == Err::<CmdModel, Seq<char>>(
            "put: --chunk-size requires <bytes>"@,
        ),
        starts_with_hyphens(f) && f != "--chunk-size"@ ==> put_of(
            u + seq![f] + w,
            0,
            Seq::empty(),
            4194304,
        ) == Err::<CmdModel, Seq<char>>("put: unexpected flag `"@ + f + "`"@),
{
    let none = Seq::<Seq<char>>::empty();
    let k = u.len() as int;
    lemma_put_names(u, 0, k, none, 4194304);
    assert(none + u.subrange(0, k) =~= u);
    let x = u + seq!["--chunk-size"@, t] + w;
    assert forall|i: int| 0 <= i < k implies !starts_with_hyphens(#[trigger] x[i]) by {
        assert(x[i] == u[i]);
    }
    lemma_put_names(x, 0, k, none, 4194304);
    assert(none + x.subrange(0, k) =~= u);
    assert(x[k] == "--chunk-size"@ && x[k + 1] == t);
    let l = x.len() as int;
    assert forall|i: int| k + 2 <= i < l implies !starts_with_hyphens(#[trigger] x[i]) by {
        assert(x[i] == w[i - k - 2]);
    }
    if parsed_unsigned(t, u64::MAX as int) == Some(n as int) {
        lemma_put_names(x, k + 2, l, u, n);
        assert(u + x.subrange(k + 2, l) =~= u + w);
    }
    let y = u + seq!["--chunk-size"@];
    assert forall|i: int| 0 <= i < k implies !starts_with_hyphens(#[trigger] y[i]) by {
        assert(y[i] == u[i]);
    }
    lemma_put_names(y, 0, k, none, 4194304);
    assert(y[k] == "--chunk-size"@);
    let z = u + seq![f] + w;
    assert forall|i: int| 0 <= i < k implies !starts_with_hyphens(#[trigger] z[i]) by {
        assert(z[i] == u[i]);
    }
    lemma_put_names(z, 0, k, none, 4194304);
    assert(z[k] == f);
}

/// What [`parse_line`] returns is the command that the laws above speak of, with its
/// parts in their places.
pub proof fn law_parse_line()
    ensures
        forall|line: &str, r: Result<Cmd, String>| #[trigger]
            call_ensures(parse_line, (line,), r) ==> match line_of(line@) {
                Ok(CmdModel::Master(a, b)) => r == Ok::<Cmd, String>(
                    Cmd::Master { client_port: a, chunk_port: b },
                ),
                Ok(CmdModel::Chunk(a)) => r == Ok::<Cmd, String>(Cmd::Chunk { data_port: a }),
                Ok(CmdModel::Chunks) => r == Ok::<Cmd, String>(Cmd::Chunks),
                Ok(CmdModel::Kill(n)) => r == Ok::<Cmd, String>(Cmd::Kill { index: n }),
                Ok(CmdModel::Status) => r == Ok::<Cmd, String>(Cmd::Status),
                Ok(CmdModel::Put(a, b, n)) => r matches Ok(
                    Cmd::Put { local, remote, chunk_size },
                ) && local@ == a && remote@ == b && chunk_size == n,
                Ok(CmdModel::Get(a, b)) => r matches Ok(Cmd::Get { remote, local }) && remote@ == a
                    && local@ == b,
                Ok(CmdModel::Delete(a)) => r matches Ok(Cmd::Delete { remote }) && remote@ == a,
                Ok(CmdModel::Help) => r == Ok::<Cmd, String>(Cmd::Help),
                Ok(CmdModel::Quit) => r == Ok::<Cmd, String>(Cmd::Quit),
                Ok(CmdModel::Empty) => r == Ok::<Cmd, String>(Cmd::Empty),
                Err(e) => r is Err && r->Err_0@ == e,
            },
{
}

/// What the other functions of this module return.
pub proof fn law_shell_functions()
    ensures
        forall|all: &Vec<Spawned>, r: Vec<String>| #[trigger]
            call_ensures(show_chunks, (all,), r) ==> {
                &&& all@.len() == 0 ==> r@.len() == 1 && r@[0]@ == "(no chunk servers)"@
                &&& all@.len() > 0 ==> r@.len() == all@.len()
                &&& forall|i: int|
                    0 <= i < all@.len() ==> (#[trigger] r@[i])@ == (if all@[i].running {
                        "chunk["@ + digits(i as nat) + "] data="@ + all@[i].data_addr@
                    } else {
                        "chunk["@ + digits(i as nat) + "] data="@ + all@[i].data_addr@
                            + " (killed)"@
                    })
            },
        forall|all: &Vec<Spawned>, i: usize, r: Result<String, String>| #[trigger]
            call_ensures(kill_at, (all, i), r) ==> {
                &&& r is Ok <==> i < all@.len() && all@[i as int].running
                &&& r is Ok ==> r->Ok_0@ == "chunk["@ + digits(i as nat) + "] killed (data="@
                    + all@[i as int].data_addr@ + ")"@
                &&& i >= all@.len() ==> r->Err_0@ == "kill: no chunk server at index "@ + digits(
                    i as nat,
                )
                &&& i < all@.len() && !all@[i as int].running ==> r->Err_0@ == "kill: chunk["@
                    + digits(i as nat) + "] is already killed"@
            },
        forall|a: &str, b: &str, n: usize, r: String| #[trigger]
            call_ensures(show_status, (Some((a, b)), n), r) ==> r@ == "master: client="@ + a@
                + " chunk="@ + b@ + "; chunk servers: "@ + digits(n as nat),
        forall|n: usize, r: String| #[trigger]
            call_ensures(show_status, (None::<(&str, &str)>, n), r) ==> r@
                == "master: not running; chunk servers: "@ + digits(n as nat),
        forall|s: &str, d: u16, r: u16| #[trigger]
            call_ensures(port_setting, (Some(s), d), r) ==> r == (match port_of(s@) {
                Some(p) => p,
                None => d,
            }),
        forall|d: u16, r: u16| #[trigger]
            call_ensures(port_setting, (None::<&str>, d), r) ==> r == d,
        forall|flags: &Vec<String>, r: Option<u16>| #[trigger]
            call_ensures(parse_data_port, (flags,), r) ==> r == data_port_of(texts(flags@), 0, 0),
{
    assert forall|all: &Vec<Spawned>, r: Vec<String>| #[trigger]
        call_ensures(show_chunks, (all,), r) implies {
        &&& all@.len() == 0 ==> r@.len() == 1 && r@[0]@ == "(no chunk servers)"@
        &&& all@.len() > 0 ==> r@.len() == all@.len()
        &&& forall|i: int|
            0 <= i < all@.len() ==> (#[trigger] r@[i])@ == (if all@[i].running {
                "chunk["@ + digits(i as nat) + "] data="@ + all@[i].data_addr@
            } else {
                "chunk["@ + digits(i as nat) + "] data="@ + all@[i].data_addr@ + " (killed)"@
            })
    } by {
        let t = texts(r@);
        assert(t.len() == r@.len());
        if all@.len() == 0 {
            assert(t[0] == r@[0]@);
        }
        assert forall|i: int| 0 <= i < all@.len() implies (#[trigger] r@[i])@ == (
        if all@[i].running {
            "chunk["@ + digits(i as nat) + "] data="@ + all@[i].data_addr@
        } else {
            "chunk["@ + digits(i as nat) + "] data="@ + all@[i].data_addr@ + " (killed)"@
        }) by {
            assert(t[i] == r@[i]@);
            assert(t[i] == chunk_line(i, all@[i]));
        }
    }
}

} // verus!
