//! The commands of the line-oriented front end, and the rule for the names
//! of databases.

use crate::error::StoreError;
use vstd::prelude::*;
use vstd::string::{StringExecFns, StringSliceAdditionalSpecFns};
use vstd::utf8::{
    encode_utf8, encode_utf8_valid_utf8, is_char_boundary,
    is_char_boundary_iff_not_is_continuation_byte, is_char_boundary_start_end_of_seq,
    is_continuation_byte, is_leading_byte_width_1, pop_first_scalar, valid_utf8_split,
};

verus! {

/// One command, as typed. A value is held as the word that was typed for
/// it; the front end reads it.
#[derive(Debug, Clone, PartialEq, Eq)]
pub enum Command {
    CreateDatabase { name: String },
    UseDatabase { name: String },
    Insert { key: String },
    Get { key: String },
    Delete { key: String },
    Query { field: String, value: String },
    Range { field: String, start: String, end: String },
    Search { query: String },
    Aggregate { field: String, op: String },
    Batch,
    Export { path: String },
    Import { path: String },
    Backup { path: String },
    Restore { path: String },
    List,
    Exit,
}

/// A command as the contracts see it.
pub enum CommandView {
    CreateDatabase { name: Seq<char> },
    UseDatabase { name: Seq<char> },
    Insert { key: Seq<char> },
    Get { key: Seq<char> },
    Delete { key: Seq<char> },
    Query { field: Seq<char>, value: Seq<char> },
    Range { field: Seq<char>, start: Seq<char>, end: Seq<char> },
    Search { query: Seq<char> },
    Aggregate { field: Seq<char>, op: Seq<char> },
    Batch,
    Export { path: Seq<char> },
    Import { path: Seq<char> },
    Backup { path: Seq<char> },
    Restore { path: Seq<char> },
    List,
    Exit,
}

impl View for Command {
    type V = CommandView;

    open spec fn view(&self) -> CommandView {
        match self {
            Command::CreateDatabase { name } => CommandView::CreateDatabase { name: name@ },
            Command::UseDatabase { name } => CommandView::UseDatabase { name: name@ },
            Command::Insert { key } => CommandView::Insert { key: key@ },
            Command::Get { key } => CommandView::Get { key: key@ },
            Command::Delete { key } => CommandView::Delete { key: key@ },
            Command::Query { field, value } => CommandView::Query { field: field@, value: value@ },
            Command::Range { field, start, end } => CommandView::Range {
                field: field@,
                start: start@,
                end: end@,
            },
            Command::Search { query } => CommandView::Search { query: query@ },
            Command::Aggregate { field, op } => CommandView::Aggregate { field: field@, op: op@ },
            Command::Batch => CommandView::Batch,
            Command::Export { path } => CommandView::Export { path: path@ },
            Command::Import { path } => CommandView::Import { path: path@ },
            Command::Backup { path } => CommandView::Backup { path: path@ },
            Command::Restore { path } => CommandView::Restore { path: path@ },
            Command::List => CommandView::List,
            Command::Exit => CommandView::Exit,
        }
    }
}

/// The command of one word.
pub open spec fn command_of_one(w: Seq<char>) -> Option<CommandView> {
    if w == "BATCH"@ {
        Some(CommandView::Batch)
    } else if w == "LIST"@ {
        Some(CommandView::List)
    } else if w == "EXIT"@ || w == "QUIT"@ {
        Some(CommandView::Exit)
    } else {
        None
    }
}

/// The command of two words.
pub open spec fn command_of_two(w: Seq<char>, a: Seq<char>) -> Option<CommandView> {
    if w == "INSERT"@ {
        Some(CommandView::Insert { key: a })
    } else if w == "GET"@ {
        Some(CommandView::Get { key: a })
    } else if w == "DELETE"@ {
        Some(CommandView::Delete { key: a })
    } else if w == "SEARCH"@ {
        Some(CommandView::Search { query: a })
    } else if w == "EXPORT"@ {
        Some(CommandView::Export { path: a })
    } else if w == "IMPORT"@ {
        Some(CommandView::Import { path: a })
    } else if w == "BACKUP"@ {
        Some(CommandView::Backup { path: a })
    } else if w == "RESTORE"@ {
        Some(CommandView::Restore { path: a })
    } else {
        None
    }
}

/// The command of three words.
pub open spec fn command_of_three(w: Seq<char>, a: Seq<char>, b: Seq<char>) -> Option<
    CommandView,
> {
    if w == "CREATE"@ && a == "DATABASE"@ {
        Some(CommandView::CreateDatabase { name: b })
    } else if w == "USE"@ && a == "DATABASE"@ {
        Some(CommandView::UseDatabase { name: b })
    } else if w == "QUERY"@ {
        Some(CommandView::Query { field: a, value: b })
    } else if w == "AGGREGATE"@ {
        Some(CommandView::Aggregate { field: a, op: b })
    } else {
        None
    }
}

/// The command that the words of a line make, if they make one.
pub open spec fn command_of(words: Seq<Seq<char>>) -> Option<CommandView> {
    if words.len() == 1 {
        command_of_one(words[0])
    } else if words.len() == 2 {
        command_of_two(words[0], words[1])
    } else if words.len() == 3 {
        command_of_three(words[0], words[1], words[2])
    } else if words.len() == 4 && words[0] == "RANGE"@ {
        Some(CommandView::Range { field: words[1], start: words[2], end: words[3] })
    } else {
        None
    }
}

/// The words of a line as the contracts see them.
pub open spec fn word_views(words: Seq<String>) -> Seq<Seq<char>> {
    Seq::new(words.len(), |i: int| words[i]@)
}

/// Whether the word `w` is the literal `lit`.
fn is_word(w: &String, lit: &str) -> (r: bool)
    ensures
        r == (w@ == lit@),
{
    *w == String::from_str(lit)
}

fn parse_one(w: &String) -> (r: Option<Command>)
    ensures
        r matches Some(c) ==> command_of_one(w@) == Some(c@),
        r is None ==> command_of_one(w@) is None,
{
    if is_word(w, "BATCH") {
        Some(Command::Batch)
    } else if is_word(w, "LIST") {
        Some(Command::List)
    } else if is_word(w, "EXIT") || is_word(w, "QUIT") {
        Some(Command::Exit)
    } else {
        None
    }
}

fn parse_two(w: &String, a: &String) -> (r: Option<Command>)
    ensures
        r matches Some(c) ==> command_of_two(w@, a@) == Some(c@),
        r is None ==> command_of_two(w@, a@) is None,
{
    if is_word(w, "INSERT") {
        Some(Command::Insert { key: a.clone() })
    } else if is_word(w, "GET") {
        Some(Command::Get { key: a.clone() })
    } else if is_word(w, "DELETE") {
        Some(Command::Delete { key: a.clone() })
    } else if is_word(w, "SEARCH") {
        Some(Command::Search { query: a.clone() })
    } else if is_word(w, "EXPORT") {
        Some(Command::Export { path: a.clone() })
    } else if is_word(w, "IMPORT") {
        Some(Command::Import { path: a.clone() })
    } else if is_word(w, "BACKUP") {
        Some(Command::Backup { path: a.clone() })
    } else if is_word(w, "RESTORE") {
        Some(Command::Restore { path: a.clone() })
    } else {
        None
    }
}

fn parse_three(w: &String, a: &String, b: &String) -> (r: Option<Command>)
    ensures
        r matches Some(c) ==> command_of_three(w@, a@, b@) == Some(c@),
        r is None ==> command_of_three(w@, a@, b@) is None,
{
    if is_word(w, "CREATE") && is_word(a, "DATABASE") {
        Some(Command::CreateDatabase { name: b.clone() })
    } else if is_word(w, "USE") && is_word(a, "DATABASE") {
        Some(Command::UseDatabase { name: b.clone() })
    } else if is_word(w, "QUERY") {
        Some(Command::Query { field: a.clone(), value: b.clone() })
    } else if is_word(w, "AGGREGATE") {
        Some(Command::Aggregate { field: a.clone(), op: b.clone() })
    } else {
        None
    }
}

/// The command that the words of a line make. Words that make none are a
/// validation error.
pub fn parse_command(words: &Vec<String>) -> (r: Result<Command, StoreError>)
    ensures
        r matches Ok(c) ==> command_of(word_views(words@)) == Some(c@),
        r matches Err(e) ==> e == StoreError::Validation && command_of(word_views(words@))
            is None,
{
    let found = if words.len() == 1 {
        parse_one(&words[0])
    } else if words.len() == 2 {
        parse_two(&words[0], &words[1])
    } else if words.len() == 3 {
        parse_three(&words[0], &words[1], &words[2])
    } else if words.len() == 4 && is_word(&words[0], "RANGE") {
        Some(
            Command::Range {
                field: words[1].clone(),
                start: words[2].clone(),
                end: words[3].clone(),
            },
        )
    } else {
        None
    };
    match found {
        Some(c) => Ok(c),
        None => Err(StoreError::Validation),
    }
}

/// Whether `s` ends with `tail`.
pub open spec fn ends_with(s: Seq<u8>, tail: Seq<u8>) -> bool {
    tail.len() <= s.len() && s.subrange(s.len() - tail.len(), s.len() as int) == tail
}

/// Whether `name` may name a database: it ends with `.nemo`.
pub fn is_database_name(name: &str) -> (r: bool)
    ensures
        r == ends_with(name.spec_bytes(), ".nemo".spec_bytes()),
{
    let bytes = name.as_bytes();
    let tail = ".nemo".as_bytes();
    if tail.len() > bytes.len() {
        return false;
    }
    let start: usize = bytes.len() - tail.len();
    let mut i: usize = 0;
    while i < tail.len()
        invariant
            i <= tail.len(),
            tail.len() <= bytes.len(),
            start == bytes.len() - tail.len(),
            bytes@ == name.spec_bytes(),
            tail@ == ".nemo".spec_bytes(),
            forall|j: int| 0 <= j < i ==> bytes@[start + j] == tail@[j],
        decreases tail.len() - i,
    {
        if bytes[start + i] != tail[i] {
            proof {
                let sub = bytes@.subrange(bytes@.len() - tail@.len(), bytes@.len() as int);
                assert(sub[i as int] == bytes@[start + i]);
                assert(sub[i as int] != tail@[i as int]);
            }
            return false;
        }
        i += 1;
    }
    assert(bytes@.subrange(start as int, bytes@.len() as int) =~= tail@);
    true
}

/// The directory of the database `name`: the name below `databases`. A
/// name that does not end with `.nemo` is a validation error.
pub fn database_path(name: &str) -> (r: Result<String, StoreError>)
    ensures
        r is Ok <==> ends_with(name.spec_bytes(), ".nemo".spec_bytes()),
        r matches Ok(p) ==> p@ == "databases/"@ + name@,
        r matches Err(e) ==> e == StoreError::Validation,
{
    if !is_database_name(name) {
        return Err(StoreError::Validation);
    }
    let mut path = String::from_str("databases/");
    path.append(name);
    Ok(path)
}

/// The sign between the name and the value of a field in a typed line.
pub const EQUALS: u8 = 0x3d;

/// The place of the first `EQUALS` in `bytes`.
fn first_equals(bytes: &[u8]) -> (r: Option<usize>)
    ensures
        r matches Some(p) ==> p < bytes.len() && bytes@[p as int] == EQUALS && !bytes@.subrange(
            0,
            p as int,
        ).contains(EQUALS),
        r is None ==> !bytes@.contains(EQUALS),
{
    let mut i: usize = 0;
    while i < bytes.len()
        invariant
            i <= bytes.len(),
            forall|j: int| 0 <= j < i ==> bytes@[j] != EQUALS,
        decreases bytes.len() - i,
    {
        if bytes[i] == EQUALS {
            return Some(i);
        }
        i += 1;
    }
    None
}

/// The name and the value of a field typed as `name=value`: what stands
/// before the first `=` and what stands after it. A line without `=` has
/// none.
pub fn split_field(line: &str) -> (r: Option<(String, String)>)
    ensures
        r matches Some(p) ==> line.spec_bytes() == encode_utf8(p.0@) + seq![EQUALS] + encode_utf8(
            p.1@,
        ) && !encode_utf8(p.0@).contains(EQUALS),
        r is None ==> !line.spec_bytes().contains(EQUALS),
{
    let bytes = line.as_bytes();
    let at = match first_equals(bytes) {
        Some(p) => p,
        None => {
            return None;
        },
    };
    proof {
        encode_utf8_valid_utf8(line@);
        assert(!is_continuation_byte(EQUALS)) by (bit_vector);
        is_char_boundary_iff_not_is_continuation_byte(bytes@, at as int);
    }
    let (name, rest) = line.split_at(at);
    proof {
        valid_utf8_split(bytes@, at as int);
        assert(rest.spec_bytes()[0] == EQUALS);
        assert(is_leading_byte_width_1(EQUALS)) by (bit_vector);
        reveal_with_fuel(is_char_boundary, 2);
        is_char_boundary_start_end_of_seq(pop_first_scalar(rest.spec_bytes()));
        assert(is_char_boundary(rest.spec_bytes(), 1));
    }
    let (sign, value) = rest.split_at(1);
    proof {
        assert(line.spec_bytes() =~= name.spec_bytes() + seq![EQUALS] + value.spec_bytes());
    }
    Some((name.to_owned(), value.to_owned()))
}

} // verus!
