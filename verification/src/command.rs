//! The commands that drive a manager, as a line of text names them.

use crate::text::{
    join_words, joined, number_of, parse_number, split_words, strip_end, strip_semicolons,
    to_upper, trim_end, upper_text, word_views, words, ParseError,
};
use crate::{parse_data_bytes, parse_data_spec};
use vstd::prelude::*;
use vstd::slice::slice_to_vec;
use vstd::string::{is_ascii_spec_bytes, StringSliceAdditionalSpecFns};

verus! {

/// One command for a manager.
#[derive(Clone, Debug, PartialEq, Eq)]
pub enum Command {
    /// Allocate a block for `size` bytes and write `data` to it.
    Insert { size: usize, data: Vec<u8> },
    /// Show the block `id`.
    Read { id: usize },
    /// Replace the content of the block `id` by `data`.
    Update { id: usize, data: Vec<u8> },
    /// Delete the block `id`.
    Delete { id: usize },
    /// Show every block of the arena.
    Dump,
    /// Stop reading commands.
    Exit,
}

/// A command as the contracts speak of it.
pub enum CommandView {
    Insert { size: usize, data: Seq<u8> },
    Read { id: usize },
    Update { id: usize, data: Seq<u8> },
    Delete { id: usize },
    Dump,
    Exit,
}

impl View for Command {
    type V = CommandView;

    open spec fn view(&self) -> CommandView {
        match *self {
            Command::Insert { size, data } => CommandView::Insert { size, data: data@ },
            Command::Read { id } => CommandView::Read { id },
            Command::Update { id, data } => CommandView::Update { id, data: data@ },
            Command::Delete { id } => CommandView::Delete { id },
            Command::Dump => CommandView::Dump,
            Command::Exit => CommandView::Exit,
        }
    }
}

/// The bytes of a text of plain characters.
pub open spec fn ascii(text: Seq<char>) -> Seq<u8> {
    Seq::new(text.len(), |i: int| text[i] as u8)
}

/// The words of a command line: the line as it is written, without the
/// spaces and then the semicolons at its end, split at its spaces.
pub open spec fn command_words(line: Seq<u8>) -> Seq<Seq<u8>> {
    words(strip_semicolons(trim_end(line)))
}

/// Whether the word names the command `name`, in small letters, in capitals
/// or in both.
pub open spec fn names(word: Seq<u8>, name: Seq<char>) -> bool {
    upper_text(word) == ascii(name)
}

/// The size or identifier that a word of a command stands for.
pub open spec fn argument_of(word: Seq<u8>) -> Option<int> {
    number_of(word, 10, usize::MAX as int)
}

/// The payload of a command: its words from the index `from` on as they are
/// written, with one space between each two of them, read as data.
pub open spec fn payload_of(parts: Seq<Seq<u8>>, from: int) -> Result<Seq<u8>, ParseError> {
    parse_data_spec(joined(parts.subrange(from, parts.len() as int)))
}

/// The command that a line names. The first word is the command, in small
/// letters or capitals; `INSERT` and `UPDATE` take a number and a payload,
/// `READ` and `DELETE` a number, `DUMP` and `EXIT` nothing; words beyond
/// those are not looked at. Only the first word is read without regard to
/// its case: a payload keeps the letters that it was written with.
pub open spec fn parse_command_spec(line: Seq<u8>) -> Result<CommandView, ParseError> {
    let parts = command_words(line);
    if parts.len() == 0 {
        Err(ParseError::UnknownCommand)
    } else if names(parts[0], "INSERT"@) && parts.len() > 2 {
        match (argument_of(parts[1]), payload_of(parts, 2)) {
            (None, _) => Err(ParseError::InvalidNumber),
            (Some(_), Err(e)) => Err(e),
            (Some(size), Ok(data)) => Ok(CommandView::Insert { size: size as usize, data }),
        }
    } else if names(parts[0], "READ"@) && parts.len() > 1 {
        match argument_of(parts[1]) {
            None => Err(ParseError::InvalidNumber),
            Some(id) => Ok(CommandView::Read { id: id as usize }),
        }
    } else if names(parts[0], "DELETE"@) && parts.len() > 1 {
        match argument_of(parts[1]) {
            None => Err(ParseError::InvalidNumber),
            Some(id) => Ok(CommandView::Delete { id: id as usize }),
        }
    } else if names(parts[0], "UPDATE"@) && parts.len() > 2 {
        match (argument_of(parts[1]), payload_of(parts, 2)) {
            (None, _) => Err(ParseError::InvalidNumber),
            (Some(_), Err(e)) => Err(e),
            (Some(id), Ok(data)) => Ok(CommandView::Update { id: id as usize, data }),
        }
    } else if names(parts[0], "DUMP"@) {
        Ok(CommandView::Dump)
    } else if names(parts[0], "EXIT"@) {
        Ok(CommandView::Exit)
    } else {
        Err(ParseError::UnknownCommand)
    }
}

/// Whether the word is the given text of plain characters.
fn word_is(word: &[u8], text: &str) -> (same: bool)
    requires
        text.is_ascii(),
    ensures
        same == (word@ == ascii(text@)),
{
    broadcast use is_ascii_spec_bytes;

    let bytes = text.as_bytes();
    assert(bytes@ =~= ascii(text@));
    if word.len() != bytes.len() {
        return false;
    }
    let mut i: usize = 0;
    while i < word.len()
        invariant
            i <= word@.len(),
            word@.len() == bytes@.len(),
            bytes@ == ascii(text@),
            forall|k: int| 0 <= k < i ==> word@[k] == bytes@[k],
        decreases word@.len() - i,
    {
        if word[i] != bytes[i] {
            return false;
        }
        i += 1;
    }
    assert(word@ =~= bytes@);
    true
}

/// Reads a word of a command as a size or an identifier.
fn parse_argument(word: &[u8]) -> (result: Result<usize, ParseError>)
    ensures
        match result {
            Ok(n) => argument_of(word@) == Some(n as int),
            Err(e) => argument_of(word@) is None && e == ParseError::InvalidNumber,
        },
{
    match parse_number(word, 10, usize::MAX) {
        Some(n) => Ok(n),
        None => Err(ParseError::InvalidNumber),
    }
}

/// Reads a line of bytes as a command.
pub fn parse_command_bytes(line: &[u8]) -> (result: Result<Command, ParseError>)
    ensures
        match result {
            Ok(command) => parse_command_spec(line@) == Ok::<CommandView, ParseError>(command@),
            Err(e) => parse_command_spec(line@) == Err::<CommandView, ParseError>(e),
        },
{
    let mut text = slice_to_vec(line);
    strip_end(&mut text);
    let parts = split_words(text.as_slice());
    let ghost all = command_words(line@);
    assert(word_views(parts@) == all);
    if parts.len() == 0 {
        return Err(ParseError::UnknownCommand);
    }
    let name = to_upper(parts[0].as_slice());
    proof {
        reveal_strlit("INSERT");
        reveal_strlit("READ");
        reveal_strlit("DELETE");
        reveal_strlit("UPDATE");
        reveal_strlit("DUMP");
        reveal_strlit("EXIT");
        assert(all[0] == parts@[0]@);
        if parts@.len() > 1 {
            assert(all[1] == parts@[1]@);
        }
    }
    let verb = name.as_slice();
    if word_is(verb, "INSERT") && parts.len() > 2 {
        let size = match parse_argument(parts[1].as_slice()) {
            Ok(size) => size,
            Err(e) => {
                return Err(e);
            },
        };
        let payload = join_words(&parts, 2);
        match parse_data_bytes(payload.as_slice()) {
            Ok(data) => Ok(Command::Insert { size, data }),
            Err(e) => Err(e),
        }
    } else if word_is(verb, "READ") && parts.len() > 1 {
        match parse_argument(parts[1].as_slice()) {
            Ok(id) => Ok(Command::Read { id }),
            Err(e) => Err(e),
        }
    } else if word_is(verb, "DELETE") && parts.len() > 1 {
        match parse_argument(parts[1].as_slice()) {
            Ok(id) => Ok(Command::Delete { id }),
            Err(e) => Err(e),
        }
    } else if word_is(verb, "UPDATE") && parts.len() > 2 {
        let id = match parse_argument(parts[1].as_slice()) {
            Ok(id) => id,
            Err(e) => {
                return Err(e);
            },
        };
        let payload = join_words(&parts, 2);
        match parse_data_bytes(payload.as_slice()) {
            Ok(data) => Ok(Command::Update { id, data }),
            Err(e) => Err(e),
        }
    } else if word_is(verb, "DUMP") {
        Ok(Command::Dump)
    } else if word_is(verb, "EXIT") {
        Ok(Command::Exit)
    } else {
        Err(ParseError::UnknownCommand)
    }
}

/// Reads a line of text as a command.
pub fn parse_command(line: &str) -> (result: Result<Command, ParseError>)
    ensures
        match result {
            Ok(command) => parse_command_spec(line.spec_bytes()) == Ok::<CommandView, ParseError>(
                command@,
            ),
            Err(e) => parse_command_spec(line.spec_bytes()) == Err::<CommandView, ParseError>(e),
        },
{
    parse_command_bytes(line.as_bytes())
}

} // verus!
