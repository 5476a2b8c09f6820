//! The command language of the interactive shell.
use vstd::prelude::*;
use crate::error::FerrumError;
use crate::json::{json_canonical, json_quote, spec_json_canonical, spec_json_quote};
use crate::strmap::str_equal;
use crate::text::{is_whitespace, spec_is_whitespace, spec_upper, spec_trim, to_uppercase, trim};

verus! {

/// Parsed CLI commands. Values are JSON texts.
#[derive(Debug, PartialEq)]
pub enum Command {
    /// `SET <key> <value>`.
    Put { key: String, value: String },
    Get { key: String },
    Delete { key: String },
    Keys,
    Count,
    Help,
    Exit,
    CreateIndex { field: String },
    Find { field: String, value: String },
}

/// A command, its texts as character sequences.
pub enum CommandView {
    Put { key: Seq<char>, value: Seq<char> },
    Get { key: Seq<char> },
    Delete { key: Seq<char> },
    Keys,
    Count,
    Help,
    Exit,
    CreateIndex { field: Seq<char> },
    Find { field: Seq<char>, value: Seq<char> },
}

/// Why a line is not a command.
pub enum ParseErrorView {
    /// The (uppercased) first word names no command.
    InvalidCommand(Seq<char>),
    /// The command lacks the named argument.
    MissingArgument(Seq<char>),
}

impl Command {
    pub open spec fn view(self) -> CommandView {
        match self {
            Command::Put { key, value } => CommandView::Put { key: key@, value: value@ },
            Command::Get { key } => CommandView::Get { key: key@ },
            Command::Delete { key } => CommandView::Delete { key: key@ },
            Command::Keys => CommandView::Keys,
            Command::Count => CommandView::Count,
            Command::Help => CommandView::Help,
            Command::Exit => CommandView::Exit,
            Command::CreateIndex { field } => CommandView::CreateIndex { field: field@ },
            Command::Find { field, value } => CommandView::Find { field: field@, value: value@ },
        }
    }
}

/// The number of characters before the first whitespace character of `s`.
pub open spec fn first_ws(s: Seq<char>) -> nat
    decreases s.len(),
{
    if s.len() > 0 && !spec_is_whitespace(s[0]) {
        1 + first_ws(s.drop_first())
    } else {
        0
    }
}

/// `s` split at whitespace characters into at most three parts (as
/// `splitn(3, char::is_whitespace)`): each of the first two splits happens
/// at the first whitespace character; the third part keeps the rest.
pub open spec fn spec_split3(s: Seq<char>) -> Seq<Seq<char>> {
    let i = first_ws(s) as int;
    if i >= s.len() {
        seq![s]
    } else {
        let rest = s.subrange(i + 1, s.len() as int);
        let j = first_ws(rest) as int;
        if j >= rest.len() {
            seq![s.subrange(0, i), rest]
        } else {
            seq![s.subrange(0, i), rest.subrange(0, j), rest.subrange(j + 1, rest.len() as int)]
        }
    }
}

/// The JSON text of a command's value argument: the text itself when it is
/// JSON, otherwise the JSON string holding it.
pub open spec fn spec_value_arg(s: Seq<char>) -> Seq<char> {
    match spec_json_canonical(s) {
        Some(t) => t,
        None => spec_json_quote(s),
    }
}

/// The command that a line of input denotes, or why it denotes none.
pub open spec fn spec_parse(input: Seq<char>) -> Result<CommandView, ParseErrorView> {
    let parts = spec_split3(spec_trim(input));
    let word = spec_upper(parts[0]);
    if parts[0].len() == 0 {
        Err(ParseErrorView::InvalidCommand(Seq::empty()))
    } else if word == "SET"@ {
        if parts.len() < 2 {
            Err(ParseErrorView::MissingArgument("key"@))
        } else if parts.len() < 3 {
            Err(ParseErrorView::MissingArgument("value"@))
        } else {
            Ok(CommandView::Put { key: parts[1], value: spec_value_arg(parts[2]) })
        }
    } else if word == "GET"@ {
        if parts.len() < 2 {
            Err(ParseErrorView::MissingArgument("key"@))
        } else {
            Ok(CommandView::Get { key: parts[1] })
        }
    } else if word == "DELETE"@ || word == "DEL"@ {
        if parts.len() < 2 {
            Err(ParseErrorView::MissingArgument("key"@))
        } else {
            Ok(CommandView::Delete { key: parts[1] })
        }
    } else if word == "KEYS"@ {
        Ok(CommandView::Keys)
    } else if word == "COUNT"@ {
        Ok(CommandView::Count)
    } else if word == "HELP"@ {
        Ok(CommandView::Help)
    } else if word == "EXIT"@ || word == "QUIT"@ {
        Ok(CommandView::Exit)
    } else if word == "INDEX"@ || word == "CREATE_INDEX"@ {
        if parts.len() < 2 {
            Err(ParseErrorView::MissingArgument("field"@))
        } else {
            Ok(CommandView::CreateIndex { field: parts[1] })
        }
    } else if word == "FIND"@ {
        if parts.len() < 2 {
            Err(ParseErrorView::MissingArgument("field"@))
        } else if parts.len() < 3 {
            Err(ParseErrorView::MissingArgument("value"@))
        } else {
            Ok(CommandView::Find { field: parts[1], value: spec_value_arg(parts[2]) })
        }
    } else {
        Err(ParseErrorView::InvalidCommand(word))
    }
}

/// Whether a parse result agrees with the expected outcome.
pub open spec fn parse_matches(r: Result<Command, FerrumError>, expected: Result<CommandView, ParseErrorView>) -> bool {
    match expected {
        Ok(c) => r matches Ok(cmd) && cmd.view() == c,
        Err(ParseErrorView::InvalidCommand(w)) => r matches Err(FerrumError::InvalidCommand(m)) && m@ == w,
        Err(ParseErrorView::MissingArgument(a)) => r matches Err(FerrumError::MissingArgument(m)) && m@ == a,
    }
}

/// A `SET` stores its third word as JSON: the key is the second word, and
/// the value is the canonical JSON text of the third word when that word
/// is JSON (so `SET age 42` stores the number 42 and `SET ok true` the
/// boolean), and the JSON string holding the word only when it is not.
pub proof fn lemma_set_value_is_json(input: Seq<char>)
    ensures
        spec_parse(input) matches Ok(CommandView::Put { key, value }) ==> ({
            let p = spec_split3(spec_trim(input));
            &&& p.len() == 3
            &&& key == p[1]
            &&& (spec_json_canonical(p[2]) matches Some(t) ==> value == t)
            &&& (spec_json_canonical(p[2]) is None ==> value == spec_json_quote(p[2]))
        }),
{
}

/// A `FIND` looks up its third word as JSON: the field is the second word,
/// and the value is the canonical JSON text of the third word when that
/// word is JSON, and otherwise the JSON string holding it (so
/// `FIND role admin` looks for the string "admin", as a document
/// `{"role":"admin"}` is filed).
pub proof fn lemma_find_value_is_json(input: Seq<char>)
    ensures
        spec_parse(input) matches Ok(CommandView::Find { field, value }) ==> ({
            let p = spec_split3(spec_trim(input));
            &&& p.len() == 3
            &&& field == p[1]
            &&& (spec_json_canonical(p[2]) matches Some(t) ==> value == t)
            &&& (spec_json_canonical(p[2]) is None ==> value == spec_json_quote(p[2]))
        }),
{
}

proof fn lemma_first_ws(s: Seq<char>, i: int)
    requires
        0 <= i <= s.len(),
        forall|j: int| 0 <= j < i ==> !spec_is_whitespace(#[trigger] s[j]),
        i == s.len() || spec_is_whitespace(s[i]),
    ensures
        first_ws(s) == i,
    decreases s.len(),
{
    if i > 0 {
        assert forall|j: int| 0 <= j < i - 1 implies !spec_is_whitespace(#[trigger] s.drop_first()[j]) by {
            assert(s.drop_first()[j] == s[j + 1]);
        }
        if i < s.len() {
            assert(s.drop_first()[i - 1] == s[i]);
        }
        lemma_first_ws(s.drop_first(), i - 1);
    }
}

/// The position of the first whitespace character of `s` at or after
/// `from`, or the length of `s`.
fn find_ws(s: &str, from: usize) -> (i: usize)
    requires
        from <= s@.len(),
    ensures
        from <= i <= s@.len(),
        first_ws(s@.subrange(from as int, s@.len() as int)) == i - from,
{
    let n = s.unicode_len();
    let mut i = from;
    while i < n && !is_whitespace(s.get_char(i))
        invariant
            n == s@.len(),
            from <= i <= n,
            forall|j: int| from <= j < i ==> !spec_is_whitespace(#[trigger] s@[j]),
        decreases n - i,
    {
        i = i + 1;
    }
    proof {
        let sub = s@.subrange(from as int, n as int);
        assert forall|j: int| 0 <= j < i - from implies !spec_is_whitespace(#[trigger] sub[j]) by {
            assert(sub[j] == s@[from + j]);
        }
        if i < n {
            assert(sub[i - from] == s@[i as int]);
        }
        lemma_first_ws(sub, i - from);
    }
    i
}

/// Splits `s` as `splitn(3, char::is_whitespace)` does.
fn split3(s: &str) -> (parts: Vec<&str>)
    ensures
        parts@.len() == spec_split3(s@).len(),
        forall|k: int| 0 <= k < parts@.len() ==> #[trigger] parts@[k]@ == spec_split3(s@)[k],
{
    let n = s.unicode_len();
    assert(s@.subrange(0, n as int) =~= s@);
    let i = find_ws(s, 0);
    let mut parts: Vec<&str> = Vec::new();
    if i >= n {
        parts.push(s);
        return parts;
    }
    parts.push(s.substring_char(0, i));
    let j = find_ws(s, i + 1);
    let ghost rest = s@.subrange(i + 1, n as int);
    proof {
        assert(rest.len() == n - i - 1);
    }
    if j >= n {
        parts.push(s.substring_char(i + 1, n));
        return parts;
    }
    parts.push(s.substring_char(i + 1, j));
    parts.push(s.substring_char(j + 1, n));
    proof {
        assert(rest.subrange(0, j - i - 1) =~= s@.subrange(i + 1, j as int));
        assert(rest.subrange(j - i, rest.len() as int) =~= s@.subrange(j + 1, n as int));
    }
    parts
}

/// The JSON text of a command's value argument.
fn value_arg(s: &str) -> (v: String)
    ensures
        v@ == spec_value_arg(s@),
{
    match json_canonical(s) {
        Some(t) => t,
        None => json_quote(s),
    }
}

/// Parse a raw input line into a Command.
pub fn parse(input: &str) -> (r: Result<Command, FerrumError>)
    ensures
        parse_matches(r, spec_parse(input@)),
{
    let parts = split3(trim(input));
    if parts[0].unicode_len() == 0 {
        return Err(FerrumError::InvalidCommand(String::new()));
    }
    let upper = to_uppercase(parts[0]);
    let word = upper.as_str();
    let n = parts.len();
    if str_equal(word, "SET") {
        if n < 2 {
            return Err(FerrumError::MissingArgument("key"));
        }
        if n < 3 {
            return Err(FerrumError::MissingArgument("value"));
        }
        let value = value_arg(parts[2]);
        Ok(Command::Put { key: String::from_str(parts[1]), value })
    } else if str_equal(word, "GET") {
        if n < 2 {
            return Err(FerrumError::MissingArgument("key"));
        }
        Ok(Command::Get { key: String::from_str(parts[1]) })
    } else if str_equal(word, "DELETE") || str_equal(word, "DEL") {
        if n < 2 {
            return Err(FerrumError::MissingArgument("key"));
        }
        Ok(Command::Delete { key: String::from_str(parts[1]) })
    } else if str_equal(word, "KEYS") {
        Ok(Command::Keys)
    } else if str_equal(word, "COUNT") {
        Ok(Command::Count)
    } else if str_equal(word, "HELP") {
        Ok(Command::Help)
    } else if str_equal(word, "EXIT") || str_equal(word, "QUIT") {
        Ok(Command::Exit)
    } else if str_equal(word, "INDEX") || str_equal(word, "CREATE_INDEX") {
        if n < 2 {
            return Err(FerrumError::MissingArgument("field"));
        }
        Ok(Command::CreateIndex { field: String::from_str(parts[1]) })
    } else if str_equal(word, "FIND") {
        if n < 2 {
            return Err(FerrumError::MissingArgument("field"));
        }
        if n < 3 {
            return Err(FerrumError::MissingArgument("value"));
        }
        let value = value_arg(parts[2]);
        Ok(Command::Find { field: String::from_str(parts[1]), value })
    } else {
        Err(FerrumError::InvalidCommand(upper))
    }
}

} // verus!
