//! The commands of the interactive shell on a store of texts.

use vstd::prelude::*;
use vstd::string::*;

use crate::ordmap::entries_within;
use crate::ordmap::entry_views;
use crate::ordmap::is_range;
use crate::ordmap::Bound;
use crate::ordmap::BoundModel;
use crate::text::after_first;
use crate::text::before_first;
use crate::text::digits;
use crate::text::is_space;
use crate::text::is_word;
use crate::text::joined3;
use crate::text::law_split;
use crate::text::law_trimmed;
use crate::text::number_text;
use crate::text::same_text;
use crate::text::split_once_at;
use crate::text::texts;
use crate::text::trim_text;
use crate::text::trimmed;
use crate::wal::store::Store;

verus! {

/// How `get` is used.
pub const USAGE_GET: &'static str = "usage: get <key>";

/// How `set` is used.
pub const USAGE_SET: &'static str = "usage: set <key> <value>";

/// How `delete` is used.
pub const USAGE_DELETE: &'static str = "usage: delete <key>";

/// What a line asks for.
#[derive(Clone, Debug, PartialEq, Eq)]
pub enum Command {
    /// The line is blank.
    Nothing,
    Get(String),
    Put(String, String),
    Delete(String),
    Scan(Bound<String>, Bound<String>),
    Compact,
    Len,
    Help,
    Quit,
    /// An argument is missing; this is how the command is used.
    Usage(&'static str),
    /// There is no such command.
    Unknown(String),
}

/// What a line asks for, over texts.
pub enum CommandModel {
    Nothing,
    Get(Seq<char>),
    Put(Seq<char>, Seq<char>),
    Delete(Seq<char>),
    Scan(BoundModel<Seq<char>>, BoundModel<Seq<char>>),
    Compact,
    Len,
    Help,
    Quit,
    Usage(Seq<char>),
    Unknown(Seq<char>),
}

impl View for Command {
    type V = CommandModel;

    open spec fn view(&self) -> CommandModel {
        match self {
            Command::Nothing => CommandModel::Nothing,
            Command::Get(k) => CommandModel::Get(k@),
            Command::Put(k, v) => CommandModel::Put(k@, v@),
            Command::Delete(k) => CommandModel::Delete(k@),
            Command::Scan(a, b) => CommandModel::Scan(a@, b@),
            Command::Compact => CommandModel::Compact,
            Command::Len => CommandModel::Len,
            Command::Help => CommandModel::Help,
            Command::Quit => CommandModel::Quit,
            Command::Usage(u) => CommandModel::Usage(u@),
            Command::Unknown(c) => CommandModel::Unknown(c@),
        }
    }
}

/// The first argument: what stands between the first two blanks.
pub open spec fn first_argument(s: Seq<char>) -> Seq<char> {
    match after_first(s, ' ') {
        Some(rest) => before_first(rest, ' '),
        None => Seq::empty(),
    }
}

/// The second argument: everything behind the second blank.
pub open spec fn second_argument(s: Seq<char>) -> Seq<char> {
    match after_first(s, ' ') {
        Some(rest) => match after_first(rest, ' ') {
            Some(last) => last,
            None => Seq::empty(),
        },
        None => Seq::empty(),
    }
}

/// What a line asks for.
pub open spec fn command_of(line: Seq<char>) -> CommandModel {
    let s = trimmed(line);
    let verb = before_first(s, ' ');
    let a = first_argument(s);
    let b = second_argument(s);
    if s.len() == 0 {
        CommandModel::Nothing
    } else if verb == "get"@ {
        if a.len() == 0 {
            CommandModel::Usage(USAGE_GET@)
        } else {
            CommandModel::Get(a)
        }
    } else if verb == "set"@ {
        if a.len() == 0 || b.len() == 0 {
            CommandModel::Usage(USAGE_SET@)
        } else {
            CommandModel::Put(a, b)
        }
    } else if verb == "delete"@ || verb == "del"@ {
        if a.len() == 0 {
            CommandModel::Usage(USAGE_DELETE@)
        } else {
            CommandModel::Delete(a)
        }
    } else if verb == "scan"@ {
        if a.len() == 0 {
            CommandModel::Scan(BoundModel::Unbounded, BoundModel::Unbounded)
        } else if b.len() == 0 {
            CommandModel::Scan(BoundModel::Included(a), BoundModel::Unbounded)
        } else {
            CommandModel::Scan(BoundModel::Included(a), BoundModel::Included(b))
        }
    } else if verb == "compact"@ {
        CommandModel::Compact
    } else if verb == "len"@ {
        CommandModel::Len
    } else if verb == "help"@ {
        CommandModel::Help
    } else if verb == "quit"@ || verb == "exit"@ || verb == "q"@ {
        CommandModel::Quit
    } else {
        CommandModel::Unknown(verb)
    }
}

/// Reads a line as a command.
pub fn parse_command(line: &str) -> (r: Command)
    ensures
        r@ == command_of(line@),
{
    let s: &str = trim_text(line);
    if s.is_empty() {
        return Command::Nothing;
    }
    let (verb, rest) = split_once_at(s, ' ');
    let mut a: String = String::new();
    let mut b: String = String::new();
    proof {
        assert(a@ =~= Seq::<char>::empty());
        assert(b@ =~= Seq::<char>::empty());
    }
    match rest {
        Some(rest) => {
            let (first, last) = split_once_at(rest, ' ');
            a = first.to_owned();
            match last {
                Some(t) => {
                    b = t.to_owned();
                },
                None => {},
            }
        },
        None => {},
    }
    let no_a: bool = a.as_str().is_empty();
    let no_b: bool = b.as_str().is_empty();
    if same_text(verb, "get") {
        if no_a {
            Command::Usage(USAGE_GET)
        } else {
            Command::Get(a)
        }
    } else if same_text(verb, "set") {
        if no_a || no_b {
            Command::Usage(USAGE_SET)
        } else {
            Command::Put(a, b)
        }
    } else if same_text(verb, "delete") || same_text(verb, "del") {
        if no_a {
            Command::Usage(USAGE_DELETE)
        } else {
            Command::Delete(a)
        }
    } else if same_text(verb, "scan") {
        if no_a {
            Command::Scan(Bound::Unbounded, Bound::Unbounded)
        } else if no_b {
            Command::Scan(Bound::Included(a), Bound::Unbounded)
        } else {
            Command::Scan(Bound::Included(a), Bound::Included(b))
        }
    } else if same_text(verb, "compact") {
        Command::Compact
    } else if same_text(verb, "len") {
        Command::Len
    } else if same_text(verb, "help") {
        Command::Help
    } else if same_text(verb, "quit") || same_text(verb, "exit") || same_text(verb, "q") {
        Command::Quit
    } else {
        Command::Unknown(verb.to_owned())
    }
}

/// What is shown for `get`.
pub fn show_value(store: &Store<String, String>, key: &String) -> (r: String)
    requires
        store.wf(),
    ensures
        r@ == (if store@.dom().contains(key@) {
            store@[key@]
        } else {
            "(nil)"@
        }),
{
    match store.get(key) {
        Some(v) => v.clone(),
        None => "(nil)".to_owned(),
    }
}

/// What is shown of one entry.
pub open spec fn entry_line(e: (Seq<char>, Seq<char>)) -> Seq<char> {
    e.0 + " = "@ + e.1
}

/// What is shown of a scan: its entries, and how many there are.
pub open spec fn scan_lines(es: Seq<(Seq<char>, Seq<char>)>) -> Seq<Seq<char>> {
    es.map_values(|e: (Seq<char>, Seq<char>)| entry_line(e)).push(
        "("@ + digits(es.len()) + " entries)"@,
    )
}

/// What is shown for `scan`.
pub fn show_scan(
    store: &Store<String, String>,
    lower: Bound<String>,
    upper: Bound<String>,
) -> (r: Vec<String>)
    requires
        store.wf(),
        is_range::<String>(lower@, upper@),
    ensures
        texts(r@) == scan_lines(entries_within::<String, Seq<char>>(store@, lower@, upper@)),
{
    let ghost es = entries_within::<String, Seq<char>>(store@, lower@, upper@);
    let ghost f = |e: (Seq<char>, Seq<char>)| entry_line(e);
    let found: Vec<(&String, &String)> = store.scan(lower, upper);
    let mut out: Vec<String> = Vec::new();
    let mut i: usize = 0;
    assert(texts(out@) =~= es.take(0).map_values(f));
    while i < found.len()
        invariant
            i <= found@.len(),
            es == entry_views(found@),
            f == (|e: (Seq<char>, Seq<char>)| entry_line(e)),
            texts(out@) == es.take(i as int).map_values(f),
        decreases found@.len() - i,
    {
        let (k, v) = found[i];
        let ghost before = out@;
        let line: String = joined3(k.as_str(), " = ", v.as_str());
        out.push(line);
        proof {
            assert(es[i as int] == (k@, v@));
            assert(texts(out@) =~= texts(before).push(line@));
            assert(es.take(i + 1).map_values(f) =~= es.take(i as int).map_values(f).push(
                entry_line(es[i as int]),
            ));
        }
        i += 1;
    }
    let ghost before = out@;
    let count: String = number_text(found.len() as u64);
    let last: String = joined3("(", count.as_str(), " entries)");
    out.push(last);
    proof {
        assert(es.take(i as int) =~= es);
        assert(texts(out@) =~= texts(before).push(last@));
    }
    out
}

// Laws.

/// Whether `s` is white space and nothing else.
pub open spec fn is_blank(s: Seq<char>) -> bool {
    forall|i: int| 0 <= i < s.len() ==> is_space(#[trigger] s[i])
}

/// Whether `w` is one of the verbs of the shell.
pub open spec fn is_verb(w: Seq<char>) -> bool {
    ||| w == "get"@
    ||| w == "set"@
    ||| w == "delete"@
    ||| w == "del"@
    ||| w == "scan"@
    ||| w == "compact"@
    ||| w == "len"@
    ||| w == "help"@
    ||| w == "quit"@
    ||| w == "exit"@
    ||| w == "q"@
}

/// Whether `k` is something without a blank in it, up to where the line ends. A key that
/// holds no white space at all is one.
pub open spec fn is_argument(k: Seq<char>) -> bool {
    k.len() > 0 && !k.contains(' ') && !is_space(k.last())
}

/// A text without white space is an argument.
pub proof fn law_words_are_arguments(k: Seq<char>)
    requires
        is_word(k),
    ensures
        is_argument(k),
{
    if k.contains(' ') {
        let i = choose|i: int| 0 <= i < k.len() && k[i] == ' ';
        assert(!is_space(k[i]));
    }
    assert(!is_space(k[k.len() - 1]));
}

proof fn lemma_word_alone(pre: Seq<char>, w: Seq<char>, post: Seq<char>)
    requires
        is_blank(pre),
        is_blank(post),
        is_argument(w),
        !is_space(w[0]),
    ensures
        trimmed(pre + w + post) == w,
        before_first(w, ' ') == w,
        after_first(w, ' ') == None::<Seq<char>>,
{
    law_trimmed(pre, w, post);
    law_split(w, ' ', w);
}

proof fn lemma_word_and_rest(pre: Seq<char>, w: Seq<char>, t: Seq<char>, post: Seq<char>)
    requires
        is_blank(pre),
        is_blank(post),
        is_argument(w),
        !is_space(w[0]),
        t.len() > 0,
        !is_space(t.last()),
    ensures
        trimmed(pre + (w + " "@ + t) + post) == w + " "@ + t,
        before_first(w + " "@ + t, ' ') == w,
        after_first(w + " "@ + t, ' ') == Some(t),
{
    reveal_strlit(" ");
    let s = w + " "@ + t;
    assert(s[0] == w[0]);
    assert(s.last() == t.last());
    law_trimmed(pre, s, post);
    assert(s =~= w.push(' ') + t);
    law_split(w, ' ', t);
}

/// The verbs are words, and no two of them are the same.
proof fn lemma_verbs()
    ensures
        is_argument("get"@),
        !is_space("get"@[0]),
        "get "@ == "get"@ + " "@,
        is_argument("set"@),
        !is_space("set"@[0]),
        "set "@ == "set"@ + " "@,
        is_argument("delete"@),
        !is_space("delete"@[0]),
        "delete "@ == "delete"@ + " "@,
        is_argument("del"@),
        !is_space("del"@[0]),
        "del "@ == "del"@ + " "@,
        is_argument("scan"@),
        !is_space("scan"@[0]),
        "scan "@ == "scan"@ + " "@,
        is_argument("compact"@),
        !is_space("compact"@[0]),
        "compact "@ == "compact"@ + " "@,
        is_argument("len"@),
        !is_space("len"@[0]),
        "len "@ == "len"@ + " "@,
        is_argument("help"@),
        !is_space("help"@[0]),
        "help "@ == "help"@ + " "@,
        is_argument("quit"@),
        !is_space("quit"@[0]),
        "quit "@ == "quit"@ + " "@,
        is_argument("exit"@),
        !is_space("exit"@[0]),
        "exit "@ == "exit"@ + " "@,
        is_argument("q"@),
        !is_space("q"@[0]),
        "q "@ == "q"@ + " "@,
        "get"@ != "set"@,
        "get"@ != "delete"@,
        "get"@ != "del"@,
        "get"@ != "scan"@,
        "get"@ != "compact"@,
        "get"@ != "len"@,
        "get"@ != "help"@,
        "get"@ != "quit"@,
        "get"@ != "exit"@,
        "get"@ != "q"@,
        "set"@ != "delete"@,
        "set"@ != "del"@,
        "set"@ != "scan"@,
        "set"@ != "compact"@,
        "set"@ != "len"@,
        "set"@ != "help"@,
        "set"@ != "quit"@,
        "set"@ != "exit"@,
        "set"@ != "q"@,
        "delete"@ != "del"@,
        "delete"@ != "scan"@,
        "delete"@ != "compact"@,
        "delete"@ != "len"@,
        "delete"@ != "help"@,
        "delete"@ != "quit"@,
        "delete"@ != "exit"@,
        "delete"@ != "q"@,
        "del"@ != "scan"@,
        "del"@ != "compact"@,
        "del"@ != "len"@,
        "del"@ != "help"@,
        "del"@ != "quit"@,
        "del"@ != "exit"@,
        "del"@ != "q"@,
        "scan"@ != "compact"@,
        "scan"@ != "len"@,
        "scan"@ != "help"@,
        "scan"@ != "quit"@,
        "scan"@ != "exit"@,
        "scan"@ != "q"@,
        "compact"@ != "len"@,
        "compact"@ != "help"@,
        "compact"@ != "quit"@,
        "compact"@ != "exit"@,
        "compact"@ != "q"@,
        "len"@ != "help"@,
        "len"@ != "quit"@,
        "len"@ != "exit"@,
        "len"@ != "q"@,
        "help"@ != "quit"@,
        "help"@ != "exit"@,
        "help"@ != "q"@,
        "quit"@ != "exit"@,
        "quit"@ != "q"@,
        "exit"@ != "q"@,
{
    reveal_strlit(" ");
    reveal_strlit("get");
    reveal_strlit("get ");
    reveal_strlit("set");
    reveal_strlit("set ");
    reveal_strlit("delete");
    reveal_strlit("delete ");
    reveal_strlit("del");
    reveal_strlit("del ");
    reveal_strlit("scan");
    reveal_strlit("scan ");
    reveal_strlit("compact");
    reveal_strlit("compact ");
    reveal_strlit("len");
    reveal_strlit("len ");
    reveal_strlit("help");
    reveal_strlit("help ");
    reveal_strlit("quit");
    reveal_strlit("quit ");
    reveal_strlit("exit");
    reveal_strlit("exit ");
    reveal_strlit("q");
    reveal_strlit("q ");
    assert("get "@ =~= "get"@ + " "@);
    assert("set "@ =~= "set"@ + " "@);
    assert("delete "@ =~= "delete"@ + " "@);
    assert("del "@ =~= "del"@ + " "@);
    assert("scan "@ =~= "scan"@ + " "@);
    assert("compact "@ =~= "compact"@ + " "@);
    assert("len "@ =~= "len"@ + " "@);
    assert("help "@ =~= "help"@ + " "@);
    assert("quit "@ =~= "quit"@ + " "@);
    assert("exit "@ =~= "exit"@ + " "@);
    assert("q "@ =~= "q"@ + " "@);
    assert("get"@[0] != "set"@[0]);
    assert("get"@.len() != "delete"@.len());
    assert("get"@[0] != "del"@[0]);
    assert("get"@.len() != "scan"@.len());
    assert("get"@.len() != "compact"@.len());
    assert("get"@[0] != "len"@[0]);
    assert("get"@.len() != "help"@.len());
    assert("get"@.len() != "quit"@.len());
    assert("get"@.len() != "exit"@.len());
    assert("get"@.len() != "q"@.len());
    assert("set"@.len() != "delete"@.len());
    assert("set"@[0] != "del"@[0]);
    assert("set"@.len() != "scan"@.len());
    assert("set"@.len() != "compact"@.len());
    assert("set"@[0] != "len"@[0]);
    assert("set"@.len() != "help"@.len());
    assert("set"@.len() != "quit"@.len());
    assert("set"@.len() != "exit"@.len());
    assert("set"@.len() != "q"@.len());
    assert("delete"@.len() != "del"@.len());
    assert("delete"@.len() != "scan"@.len());
    assert("delete"@.len() != "compact"@.len());
    assert("delete"@.len() != "len"@.len());
    assert("delete"@.len() != "help"@.len());
    assert("delete"@.len() != "quit"@.len());
    assert("delete"@.len() != "exit"@.len());
    assert("delete"@.len() != "q"@.len());
    assert("del"@.len() != "scan"@.len());
    assert("del"@.len() != "compact"@.len());
    assert("del"@[0] != "len"@[0]);
    assert("del"@.len() != "help"@.len());
    assert("del"@.len() != "quit"@.len());
    assert("del"@.len() != "exit"@.len());
    assert("del"@.len() != "q"@.len());
    assert("scan"@.len() != "compact"@.len());
    assert("scan"@.len() != "len"@.len());
    assert("scan"@[0] != "help"@[0]);
    assert("scan"@[0] != "quit"@[0]);
    assert("scan"@[0] != "exit"@[0]);
    assert("scan"@.len() != "q"@.len());
    assert("compact"@.len() != "len"@.len());
    assert("compact"@.len() != "help"@.len());
    assert("compact"@.len() != "quit"@.len());
    assert("compact"@.len() != "exit"@.len());
    assert("compact"@.len() != "q"@.len());
    assert("len"@.len() != "help"@.len());
    assert("len"@.len() != "quit"@.len());
    assert("len"@.len() != "exit"@.len());
    assert("len"@.len() != "q"@.len());
    assert("help"@[0] != "quit"@[0]);
    assert("help"@[0] != "exit"@[0]);
    assert("help"@.len() != "q"@.len());
    assert("quit"@[0] != "exit"@[0]);
    assert("quit"@.len() != "q"@.len());
    assert("exit"@.len() != "q"@.len());
}

/// Each verb of the shell, with its arguments written out, is read as its own command
/// with those arguments. The key `k` holds no blank; a value, an upper end and what a
/// command ignores may be any text. A second blank behind the verb makes the first
/// argument an empty one. White space around the line does not count.
pub proof fn law_commands(pre: Seq<char>, k: Seq<char>, v: Seq<char>, post: Seq<char>)
    requires
        is_blank(pre),
        is_blank(post),
        is_argument(k),
        v.len() > 0,
        !is_space(v.last()),
    ensures
        command_of(pre + ("get "@ + k) + post) == CommandModel::Get(k),
        command_of(pre + ("get "@ + k + " "@ + v) + post) == CommandModel::Get(k),
        command_of(pre + ("delete "@ + k) + post) == CommandModel::Delete(k),
        command_of(pre + ("delete "@ + k + " "@ + v) + post) == CommandModel::Delete(k),
        command_of(pre + ("del "@ + k) + post) == CommandModel::Delete(k),
        command_of(pre + ("del "@ + k + " "@ + v) + post) == CommandModel::Delete(k),
        command_of(pre + ("set "@ + k + " "@ + v) + post) == CommandModel::Put(k, v),
        command_of(pre + ("scan"@) + post)
            == CommandModel::Scan(BoundModel::Unbounded, BoundModel::Unbounded),
        command_of(pre + ("scan "@ + k) + post)
            == CommandModel::Scan(BoundModel::Included(k), BoundModel::Unbounded),
        command_of(pre + ("scan "@ + k + " "@ + v) + post)
            == CommandModel::Scan(BoundModel::Included(k), BoundModel::Included(v)),
        command_of(pre + ("compact"@) + post) == CommandModel::Compact,
        command_of(pre + ("compact "@ + v) + post) == CommandModel::Compact,
        command_of(pre + ("len"@) + post) == CommandModel::Len,
        command_of(pre + ("len "@ + v) + post) == CommandModel::Len,
        command_of(pre + ("help"@) + post) == CommandModel::Help,
        command_of(pre + ("help "@ + v) + post) == CommandModel::Help,
        command_of(pre + ("quit"@) + post) == CommandModel::Quit,
        command_of(pre + ("quit "@ + v) + post) == CommandModel::Quit,
        command_of(pre + ("exit"@) + post) == CommandModel::Quit,
        command_of(pre + ("exit "@ + v) + post) == CommandModel::Quit,
        command_of(pre + ("q"@) + post) == CommandModel::Quit,
        command_of(pre + ("q "@ + v) + post) == CommandModel::Quit,
        command_of(pre + ("get"@) + post) == CommandModel::Usage("usage: get <key>"@),
        command_of(pre + ("set"@) + post) == CommandModel::Usage("usage: set <key> <value>"@),
        command_of(pre + ("set "@ + k) + post) == CommandModel::Usage("usage: set <key> <value>"@),
        command_of(pre + ("delete"@) + post) == CommandModel::Usage("usage: delete <key>"@),
        command_of(pre + ("del"@) + post) == CommandModel::Usage("usage: delete <key>"@),
        command_of(pre + ("get "@ + " "@ + v) + post) == CommandModel::Usage("usage: get <key>"@),
        command_of(pre + ("set "@ + " "@ + v) + post)
            == CommandModel::Usage("usage: set <key> <value>"@),
        command_of(pre + ("delete "@ + " "@ + v) + post)
            == CommandModel::Usage("usage: delete <key>"@),
        command_of(pre + ("del "@ + " "@ + v) + post)
            == CommandModel::Usage("usage: delete <key>"@),
        command_of(pre + ("scan "@ + " "@ + v) + post)
            == CommandModel::Scan(BoundModel::Unbounded, BoundModel::Unbounded),
        !is_verb(k) && !is_space(k[0]) ==> command_of(pre + k + post) == CommandModel::Unknown(k),
        !is_verb(k) && !is_space(k[0]) ==> command_of(pre + (k + " "@ + v) + post)
            == CommandModel::Unknown(k),
        command_of(pre) == CommandModel::Nothing,
{
    lemma_blank_line(pre);
    assert(command_of(pre + ("get "@ + k) + post) == CommandModel::Get(k)) by {
        lemma_verbs();
        lemma_line(pre, "get"@, k, v, post);
    }
    assert(command_of(pre + ("get "@ + k + " "@ + v) + post) == CommandModel::Get(k)) by {
        lemma_verbs();
        lemma_line(pre, "get"@, k, v, post);
    }
    assert(command_of(pre + ("get"@) + post) == CommandModel::Usage("usage: get <key>"@)) by {
        lemma_verbs();
        lemma_line(pre, "get"@, k, v, post);
    }
    assert(command_of(pre + ("set "@ + k + " "@ + v) + post) == CommandModel::Put(k, v)) by {
        lemma_verbs();
        lemma_line(pre, "set"@, k, v, post);
    }
    assert(command_of(pre + ("set"@) + post)
        == CommandModel::Usage("usage: set <key> <value>"@)) by {
        lemma_verbs();
        lemma_line(pre, "set"@, k, v, post);
    }
    assert(command_of(pre + ("set "@ + k) + post)
        == CommandModel::Usage("usage: set <key> <value>"@)) by {
        lemma_verbs();
        lemma_line(pre, "set"@, k, v, post);
    }
    assert(command_of(pre + ("delete "@ + k) + post) == CommandModel::Delete(k)) by {
        lemma_verbs();
        lemma_line(pre, "delete"@, k, v, post);
    }
    assert(command_of(pre + ("delete "@ + k + " "@ + v) + post) == CommandModel::Delete(k)) by {
        lemma_verbs();
        lemma_line(pre, "delete"@, k, v, post);
    }
    assert(command_of(pre + ("delete"@) + post) == CommandModel::Usage("usage: delete <key>"@)) by {
        lemma_verbs();
        lemma_line(pre, "delete"@, k, v, post);
    }
    assert(command_of(pre + ("del "@ + k) + post) == CommandModel::Delete(k)) by {
        lemma_verbs();
        lemma_line(pre, "del"@, k, v, post);
    }
    assert(command_of(pre + ("del "@ + k + " "@ + v) + post) == CommandModel::Delete(k)) by {
        lemma_verbs();
        lemma_line(pre, "del"@, k, v, post);
    }
    assert(command_of(pre + ("del"@) + post) == CommandModel::Usage("usage: delete <key>"@)) by {
        lemma_verbs();
        lemma_line(pre, "del"@, k, v, post);
    }
    assert(command_of(pre + ("scan"@) + post)
        == CommandModel::Scan(BoundModel::Unbounded, BoundModel::Unbounded)) by {
        lemma_verbs();
        lemma_line(pre, "scan"@, k, v, post);
    }
    assert(command_of(pre + ("scan "@ + k) + post)
        == CommandModel::Scan(BoundModel::Included(k), BoundModel::Unbounded)) by {
        lemma_verbs();
        lemma_line(pre, "scan"@, k, v, post);
    }
    assert(command_of(pre + ("scan "@ + k + " "@ + v) + post)
        == CommandModel::Scan(BoundModel::Included(k), BoundModel::Included(v))) by {
        lemma_verbs();
        lemma_line(pre, "scan"@, k, v, post);
    }
    assert(command_of(pre + ("compact"@) + post) == CommandModel::Compact) by {
        lemma_verbs();
        lemma_line(pre, "compact"@, k, v, post);
    }
    assert(command_of(pre + ("compact "@ + v) + post) == CommandModel::Compact) by {
        lemma_verbs();
        lemma_line(pre, "compact"@, k, v, post);
    }
    assert(command_of(pre + ("len"@) + post) == CommandModel::Len) by {
        lemma_verbs();
        lemma_line(pre, "len"@, k, v, post);
    }
    assert(command_of(pre + ("len "@ + v) + post) == CommandModel::Len) by {
        lemma_verbs();
        lemma_line(pre, "len"@, k, v, post);
    }
    assert(command_of(pre + ("help"@) + post) == CommandModel::Help) by {
        lemma_verbs();
        lemma_line(pre, "help"@, k, v, post);
    }
    assert(command_of(pre + ("help "@ + v) + post) == CommandModel::Help) by {
        lemma_verbs();
        lemma_line(pre, "help"@, k, v, post);
    }
    assert(command_of(pre + ("quit"@) + post) == CommandModel::Quit) by {
        lemma_verbs();
        lemma_line(pre, "quit"@, k, v, post);
    }
    assert(command_of(pre + ("quit "@ + v) + post) == CommandModel::Quit) by {
        lemma_verbs();
        lemma_line(pre, "quit"@, k, v, post);
    }
    assert(command_of(pre + ("exit"@) + post) == CommandModel::Quit) by {
        lemma_verbs();
        lemma_line(pre, "exit"@, k, v, post);
    }
    assert(command_of(pre + ("exit "@ + v) + post) == CommandModel::Quit) by {
        lemma_verbs();
        lemma_line(pre, "exit"@, k, v, post);
    }
    assert(command_of(pre + ("q"@) + post) == CommandModel::Quit) by {
        lemma_verbs();
        lemma_line(pre, "q"@, k, v, post);
    }
    assert(command_of(pre + ("q "@ + v) + post) == CommandModel::Quit) by {
        lemma_verbs();
        lemma_line(pre, "q"@, k, v, post);
    }
    assert(command_of(pre + ("get "@ + " "@ + v) + post)
        == CommandModel::Usage("usage: get <key>"@)) by {
        lemma_verbs();
        lemma_line(pre, "get"@, k, v, post);
    }
    assert(command_of(pre + ("set "@ + " "@ + v) + post)
        == CommandModel::Usage("usage: set <key> <value>"@)) by {
        lemma_verbs();
        lemma_line(pre, "set"@, k, v, post);
    }
    assert(command_of(pre + ("delete "@ + " "@ + v) + post)
        == CommandModel::Usage("usage: delete <key>"@)) by {
        lemma_verbs();
        lemma_line(pre, "delete"@, k, v, post);
    }
    assert(command_of(pre + ("del "@ + " "@ + v) + post)
        == CommandModel::Usage("usage: delete <key>"@)) by {
        lemma_verbs();
        lemma_line(pre, "del"@, k, v, post);
    }
    assert(command_of(pre + ("scan "@ + " "@ + v) + post)
        == CommandModel::Scan(BoundModel::Unbounded, BoundModel::Unbounded)) by {
        lemma_verbs();
        lemma_line(pre, "scan"@, k, v, post);
    }
    if !is_verb(k) && !is_space(k[0]) {
        lemma_line(pre, k, k, v, post);
    }
}

/// What the parts of a line with the verb `w` are.
proof fn lemma_line(pre: Seq<char>, w: Seq<char>, k: Seq<char>, v: Seq<char>, post: Seq<char>)
    requires
        is_blank(pre),
        is_blank(post),
        is_argument(w),
        !is_space(w[0]),
        is_argument(k),
        v.len() > 0,
        !is_space(v.last()),
    ensures
        trimmed(pre + w + post) == w,
        before_first(w, ' ') == w,
        first_argument(w).len() == 0,
        trimmed(pre + (w + " "@ + k) + post) == w + " "@ + k,
        before_first(w + " "@ + k, ' ') == w,
        first_argument(w + " "@ + k) == k,
        second_argument(w + " "@ + k).len() == 0,
        trimmed(pre + (w + " "@ + v) + post) == w + " "@ + v,
        before_first(w + " "@ + v, ' ') == w,
        trimmed(pre + (w + " "@ + k + " "@ + v) + post) == w + " "@ + k + " "@ + v,
        before_first(w + " "@ + k + " "@ + v, ' ') == w,
        first_argument(w + " "@ + k + " "@ + v) == k,
        second_argument(w + " "@ + k + " "@ + v) == v,
        trimmed(pre + (w + " "@ + " "@ + v) + post) == w + " "@ + " "@ + v,
        before_first(w + " "@ + " "@ + v, ' ') == w,
        first_argument(w + " "@ + " "@ + v).len() == 0,
{
    let kv = k + " "@ + v;
    reveal_strlit(" ");
    assert(kv.last() == v.last());
    assert(w + " "@ + k + " "@ + v =~= w + " "@ + kv);
    law_split(k, ' ', v);
    assert(kv =~= k.push(' ') + v);
    let bv = " "@ + v;
    assert(bv.last() == v.last());
    assert(w + " "@ + " "@ + v =~= w + " "@ + bv);
    lemma_word_and_rest(pre, w, bv, post);
    let none = Seq::<char>::empty();
    assert(bv =~= none.push(' ') + v);
    law_split(none, ' ', v);
    lemma_word_alone(pre, w, post);
    lemma_word_and_rest(pre, w, k, post);
    lemma_word_and_rest(pre, w, v, post);
    lemma_word_and_rest(pre, w, kv, post);
}

proof fn lemma_blank_line(pre: Seq<char>)
    requires
        is_blank(pre),
    ensures
        trimmed(pre).len() == 0,
{
    let none = Seq::<char>::empty();
    law_trimmed(pre, none, none);
    assert(pre + none + none =~= pre);
}

/// What [`parse_command`] returns, in the terms of [`law_commands`].
pub proof fn law_parse_command(
    line: &str,
    r: Command,
    pre: Seq<char>,
    k: Seq<char>,
    v: Seq<char>,
    post: Seq<char>,
)
    requires
        call_ensures(parse_command, (line,), r),
        is_blank(pre),
        is_blank(post),
        is_argument(k),
        v.len() > 0,
        !is_space(v.last()),
    ensures
        line@ == pre + ("get "@ + k) + post ==> (r matches Command::Get(a) && a@ == k),
        line@ == pre + ("get "@ + k + " "@ + v) + post ==> (r matches Command::Get(a) && a@ == k),
        line@ == pre + ("delete "@ + k) + post ==> (r matches Command::Delete(a) && a@ == k),
        line@ == pre + ("delete "@ + k + " "@ + v) + post ==> (
            r matches Command::Delete(a) && a@ == k
        ),
        line@ == pre + ("del "@ + k) + post ==> (r matches Command::Delete(a) && a@ == k),
        line@ == pre + ("del "@ + k + " "@ + v) + post ==> (
            r matches Command::Delete(a) && a@ == k
        ),
        line@ == pre + ("set "@ + k + " "@ + v) + post ==> (
            r matches Command::Put(a, b) && a@ == k && b@ == v
        ),
        line@ == pre + ("scan"@) + post ==> (
            r matches Command::Scan(Bound::Unbounded, Bound::Unbounded)
        ),
        line@ == pre + ("scan "@ + k) + post ==> (
            r matches Command::Scan(Bound::Included(a), Bound::Unbounded) && a@ == k
        ),
        line@ == pre + ("scan "@ + k + " "@ + v) + post ==> (
            r matches Command::Scan(Bound::Included(a), Bound::Included(b)) && a@ == k && b@ == v
        ),
        line@ == pre + ("compact"@) + post ==> (r is Compact),
        line@ == pre + ("compact "@ + v) + post ==> (r is Compact),
        line@ == pre + ("len"@) + post ==> (r is Len),
        line@ == pre + ("len "@ + v) + post ==> (r is Len),
        line@ == pre + ("help"@) + post ==> (r is Help),
        line@ == pre + ("help "@ + v) + post ==> (r is Help),
        line@ == pre + ("quit"@) + post ==> (r is Quit),
        line@ == pre + ("quit "@ + v) + post ==> (r is Quit),
        line@ == pre + ("exit"@) + post ==> (r is Quit),
        line@ == pre + ("exit "@ + v) + post ==> (r is Quit),
        line@ == pre + ("q"@) + post ==> (r is Quit),
        line@ == pre + ("q "@ + v) + post ==> (r is Quit),
        line@ == pre + ("get"@) + post ==> (
            r matches Command::Usage(u) && u@ == "usage: get <key>"@
        ),
        line@ == pre + ("set"@) + post ==> (
            r matches Command::Usage(u) && u@ == "usage: set <key> <value>"@
        ),
        line@ == pre + ("set "@ + k) + post ==> (
            r matches Command::Usage(u) && u@ == "usage: set <key> <value>"@
        ),
        line@ == pre + ("delete"@) + post ==> (
            r matches Command::Usage(u) && u@ == "usage: delete <key>"@
        ),
        line@ == pre + ("del"@) + post ==> (
            r matches Command::Usage(u) && u@ == "usage: delete <key>"@
        ),
        line@ == pre + k + post && !is_verb(k) && !is_space(k[0]) ==> (
            r matches Command::Unknown(a) && a@ == k
        ),
        line@ == pre ==> r is Nothing,
{
    law_commands(pre, k, v, post);
}

/// What is shown for `get` and `scan`.
pub proof fn law_shown()
    ensures
        forall|store: &Store<String, String>, key: &String, r: String| #[trigger]
            call_ensures(show_value, (store, key), r) ==> r@ == (if store@.dom().contains(key@) {
                store@[key@]
            } else {
                "(nil)"@
            }),
        forall|
            store: &Store<String, String>,
            lower: Bound<String>,
            upper: Bound<String>,
            r: Vec<String>,
        | #[trigger]
            call_ensures(show_scan, (store, lower, upper), r) ==> {
                let es = entries_within::<String, Seq<char>>(store@, lower@, upper@);
                &&& r@.len() == es.len() + 1
                &&& forall|i: int|
                    0 <= i < es.len() ==> (#[trigger] r@[i])@ == es[i].0 + " = "@ + es[i].1
                &&& r@[es.len() as int]@ == "("@ + digits(es.len()) + " entries)"@
            },
{
    assert forall|
        store: &Store<String, String>,
        lower: Bound<String>,
        upper: Bound<String>,
        r: Vec<String>,
    | #[trigger] call_ensures(show_scan, (store, lower, upper), r) implies {
        let es = entries_within::<String, Seq<char>>(store@, lower@, upper@);
        &&& r@.len() == es.len() + 1
        &&& forall|i: int|
            0 <= i < es.len() ==> (#[trigger] r@[i])@ == es[i].0 + " = "@ + es[i].1
        &&& r@[es.len() as int]@ == "("@ + digits(es.len()) + " entries)"@
    } by {
        let es = entries_within::<String, Seq<char>>(store@, lower@, upper@);
        let t = texts(r@);
        assert(t.len() == r@.len());
        assert(t[es.len() as int] == r@[es.len() as int]@);
        assert forall|i: int| 0 <= i < es.len() implies (#[trigger] r@[i])@ == es[i].0 + " = "@
            + es[i].1 by {
            assert(t[i] == r@[i]@);
        }
    }
}

} // verus!
