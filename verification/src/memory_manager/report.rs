//! The lines of text that the answers to commands are made of.

use super::dump::{descriptor_views, BlockDescriptor, BlockKind, DescriptorView};
use super::model::{
    lemma_allocate_inv, lemma_delete_inv, lemma_update_inv, lemma_write_inv, ManagerView,
};
use super::{BlockNotFound, MemoryManager};
use crate::command::{parse_command, parse_command_spec, Command, CommandView};
use crate::text::{
    address_text, decimal_text, lossy_text, push_address, push_decimal, utf8_lossy,
};
use vstd::prelude::*;
use vstd::string::{StringExecFns, StringSliceAdditionalSpecFns};
use vstd::utf8::{decode_utf8, valid_utf8};

verus! {

/// What a command answers: the lines to show, and whether the reading of
/// commands is to stop.
#[derive(Clone, Debug, PartialEq, Eq)]
pub struct CommandOutput {
    pub lines: Vec<String>,
    pub exit: bool,
}

/// The answer to a command as the contracts speak of it.
pub struct OutputView {
    pub lines: Seq<Seq<char>>,
    pub exit: bool,
}

/// The lines as the contracts speak of them.
pub open spec fn line_views(lines: Seq<String>) -> Seq<Seq<char>> {
    Seq::new(lines.len(), |i: int| lines[i]@)
}

impl View for CommandOutput {
    type V = OutputView;

    open spec fn view(&self) -> OutputView {
        OutputView { lines: line_views(self.lines@), exit: self.exit }
    }
}

/// An answer of one line, which does not stop the reading.
pub open spec fn one_line(line: Seq<char>) -> OutputView {
    OutputView { lines: seq![line], exit: false }
}

/// The address of the last of `used` bytes from `start` on. Where no byte
/// is in use that is the address before `start`, and 0 where `start` is 0.
pub open spec fn end_address(start: usize, used: usize) -> usize {
    if start + used >= 1 {
        (start + used - 1) as usize
    } else {
        0
    }
}

/// The line that shows a block that was read.
pub open spec fn read_line(start: usize, end: usize, size: usize, data: Seq<char>) -> Seq<char> {
    "READ data: Start Address: "@ + address_text(start as nat) + ", End Address: "@ + address_text(
        end as nat,
    ) + ", Status: Allocated, Size: "@ + decimal_text(size as nat) + " bytes, Data: '"@ + data
        + "'"@
}

/// The line that shows an allocated block in a dump.
pub open spec fn allocated_line(
    start: usize,
    end: usize,
    id: usize,
    size: usize,
    data: Seq<char>,
) -> Seq<char> {
    address_text(start as nat) + " - "@ + address_text(end as nat) + ": ALLOCATED (ID: "@
        + decimal_text(id as nat) + ") (Size: "@ + decimal_text(size as nat) + " bytes) Data: '"@
        + data + "'"@
}

/// The line that shows a free block in a dump.
pub open spec fn free_line(start: usize, end: usize, size: usize) -> Seq<char> {
    address_text(start as nat) + " - "@ + address_text(end as nat) + ": FREE (Size: "@
        + decimal_text(size as nat) + " bytes)"@
}

/// The line that shows a block in a dump. A descriptor of an allocated
/// block that names no identifier is shown with 0, one that holds no bytes
/// with none.
pub open spec fn descriptor_line(descriptor: DescriptorView) -> Seq<char> {
    match descriptor.kind {
        BlockKind::Allocated => allocated_line(
            descriptor.start,
            descriptor.end,
            match descriptor.id {
                Some(id) => id,
                None => 0,
            },
            descriptor.size,
            utf8_lossy(
                match descriptor.content {
                    Some(bytes) => bytes,
                    None => Seq::empty(),
                },
            ),
        ),
        BlockKind::Free => free_line(descriptor.start, descriptor.end, descriptor.size),
    }
}

/// The line with a number behind it.
pub open spec fn numbered_line(line: Seq<char>, n: usize) -> Seq<char> {
    line + decimal_text(n as nat)
}

/// The line that shows a block that was read, with `data` as the text of
/// its content.
pub fn format_read_line(start: usize, end: usize, size: usize, data: &str) -> (line: String)
    ensures
        line@ == read_line(start, end, size, data@),
{
    let mut line = String::from_str("READ data: Start Address: ");
    push_address(&mut line, start);
    line.append(", End Address: ");
    push_address(&mut line, end);
    line.append(", Status: Allocated, Size: ");
    push_decimal(&mut line, size);
    line.append(" bytes, Data: '");
    line.append(data);
    line.append("'");
    line
}

/// The line that shows an allocated block in a dump, with `data` as the
/// text of its content.
pub fn format_allocated_line(start: usize, end: usize, id: usize, size: usize, data: &str) -> (line:
    String)
    ensures
        line@ == allocated_line(start, end, id, size, data@),
{
    let mut line = String::new();
    push_address(&mut line, start);
    line.append(" - ");
    push_address(&mut line, end);
    line.append(": ALLOCATED (ID: ");
    push_decimal(&mut line, id);
    line.append(") (Size: ");
    push_decimal(&mut line, size);
    line.append(" bytes) Data: '");
    line.append(data);
    line.append("'");
    assert(line@ =~= allocated_line(start, end, id, size, data@));
    line
}

/// The line that shows a free block in a dump.
pub fn format_free_line(start: usize, end: usize, size: usize) -> (line: String)
    ensures
        line@ == free_line(start, end, size),
{
    let mut line = String::new();
    push_address(&mut line, start);
    line.append(" - ");
    push_address(&mut line, end);
    line.append(": FREE (Size: ");
    push_decimal(&mut line, size);
    line.append(" bytes)");
    assert(line@ =~= free_line(start, end, size));
    line
}

/// The line that shows a block in a dump. Content that is UTF-8 is shown as
/// the text that it encodes.
pub fn format_descriptor(descriptor: &BlockDescriptor) -> (line: String)
    ensures
        line@ == descriptor_line(descriptor@),
        descriptor@.kind == BlockKind::Allocated ==> (descriptor@.content matches Some(bytes)
            ==> valid_utf8(bytes) ==> utf8_lossy(bytes) == decode_utf8(bytes)),
{
    match descriptor.kind {
        BlockKind::Allocated => {
            let id = match descriptor.id {
                Some(id) => id,
                None => 0,
            };
            let data = match &descriptor.content {
                Some(bytes) => lossy_text(bytes.as_slice()),
                None => {
                    let empty: Vec<u8> = Vec::new();
                    lossy_text(empty.as_slice())
                },
            };
            format_allocated_line(
                descriptor.start,
                descriptor.end,
                id,
                descriptor.size,
                data.as_str(),
            )
        },
        BlockKind::Free => format_free_line(descriptor.start, descriptor.end, descriptor.size),
    }
}

/// The line with a number behind it.
pub fn format_numbered_line(line: &str, n: usize) -> (text: String)
    ensures
        text@ == numbered_line(line@, n),
{
    let mut text = String::from_str(line);
    push_decimal(&mut text, n);
    text
}

/// An answer of one line, which does not stop the reading.
pub fn answer(line: String) -> (output: CommandOutput)
    ensures
        output@ == one_line(line@),
{
    let mut lines: Vec<String> = Vec::new();
    lines.push(line);
    let output = CommandOutput { lines, exit: false };
    assert(output@.lines =~= seq![line@]);
    output
}

impl ManagerView {
    /// The line that shows the block `id` when it is read.
    pub open spec fn read_text(self, id: usize) -> Seq<char> {
        read_line(
            self.blocks[id].start,
            end_address(self.blocks[id].start, self.blocks[id].used_length),
            self.blocks[id].used_length,
            utf8_lossy(self.content(id)),
        )
    }

    /// The lines of a dump: a heading, then one line for each block.
    pub open spec fn dump_text(self) -> Seq<Seq<char>> {
        seq!["Memory Dump:"@] + Seq::new(
            self.dump().len(),
            |i: int| descriptor_line(self.dump()[i]),
        )
    }

    /// What a command makes of the state, and what it answers.
    pub open spec fn execute(self, command: CommandView) -> (ManagerView, OutputView) {
        match command {
            CommandView::Insert { size, data } => match self.allocate(size) {
                (allocated, Ok(id)) => match allocated.write(id, data) {
                    (written, Ok(_)) => (
                        written,
                        one_line(numbered_line("INSERT success: ID = "@, id)),
                    ),
                    (_, Err(_)) => (allocated, one_line("Error storing data"@)),
                },
                (_, Err(_)) => (self, one_line("INSERT error: No suitable block available"@)),
            },
            CommandView::Read { id } => (
                self,
                one_line(
                    if self.blocks.contains_key(id) {
                        self.read_text(id)
                    } else {
                        "Error reading data"@
                    },
                ),
            ),
            CommandView::Update { id, data } => match self.update(id, data) {
                (updated, Ok(new_id)) => (
                    updated,
                    one_line(numbered_line("UPDATE success: ID = "@, new_id)),
                ),
                (same, Err(_)) => (same, one_line("Error updating data"@)),
            },
            CommandView::Delete { id } => match self.delete(id) {
                (deleted, Ok(_)) => (
                    deleted,
                    one_line(numbered_line("DELETE success: ID = "@, id)),
                ),
                (same, Err(_)) => (same, one_line("Error deleting data"@)),
            },
            CommandView::Dump => (self, OutputView { lines: self.dump_text(), exit: false }),
            CommandView::Exit => (self, OutputView { lines: seq!["Exiting..."@], exit: true }),
        }
    }

    /// What a command line makes of the state, and what it answers: what its
    /// command does, or nothing and a line that says so where it names no
    /// command.
    pub open spec fn run(self, line: Seq<u8>) -> (ManagerView, OutputView) {
        match parse_command_spec(line) {
            Ok(command) => self.execute(command),
            Err(_) => (self, one_line("Unknown or invalid command"@)),
        }
    }
}

/// A command leaves the state in order.
pub proof fn lemma_execute_inv(state: ManagerView, command: CommandView)
    requires
        state.inv(),
        state.next_id < usize::MAX,
    ensures
        state.execute(command).0.inv(),
{
    match command {
        CommandView::Insert { size, data } => {
            lemma_allocate_inv(state, size);
            if let (allocated, Ok(id)) = state.allocate(size) {
                lemma_write_inv(allocated, id, data);
            }
        },
        CommandView::Update { id, data } => {
            lemma_update_inv(state, id, data);
        },
        CommandView::Delete { id } => {
            lemma_delete_inv(state, id);
        },
        _ => {},
    }
}

/// A command line leaves the state in order, and a line that names no
/// command leaves the state as it is.
pub proof fn lemma_run_inv(state: ManagerView, line: Seq<u8>)
    requires
        state.inv(),
        state.next_id < usize::MAX,
    ensures
        state.run(line).0.inv(),
        parse_command_spec(line) is Err ==> state.run(line).0 == state,
{
    if let Ok(command) = parse_command_spec(line) {
        lemma_execute_inv(state, command);
    }
}

impl MemoryManager {
    /// The line that shows the block `id`: where its bytes in use begin and
    /// end, how many they are, and what they read as. Bytes that are UTF-8
    /// read as the text that they encode.
    pub fn read_formatted(&self, id: usize) -> (result: Result<String, BlockNotFound>)
        requires
            self.wf(),
        ensures
            match result {
                Ok(line) => {
                    &&& self@.blocks.contains_key(id)
                    &&& line@ == self@.read_text(id)
                    &&& valid_utf8(self@.content(id)) ==> utf8_lossy(self@.content(id))
                        == decode_utf8(self@.content(id))
                },
                Err(_) => !self@.blocks.contains_key(id),
            },
    {
        match self.read(id) {
            Ok(block) => {
                let end = if block.start + block.data_size >= 1 {
                    block.start + block.data_size - 1
                } else {
                    0
                };
                let data = lossy_text(block.data.as_slice());
                Ok(format_read_line(block.start, end, block.data_size, data.as_str()))
            },
            Err(e) => Err(e),
        }
    }

    /// The lines of a dump: a heading, then one line for each block.
    pub fn dump_lines(&self) -> (lines: Vec<String>)
        requires
            self.wf(),
        ensures
            line_views(lines@) == self@.dump_text(),
    {
        let descriptors = self.dump();
        let mut lines: Vec<String> = Vec::new();
        lines.push(String::from_str("Memory Dump:"));
        let mut i: usize = 0;
        while i < descriptors.len()
            invariant
                i <= descriptors@.len(),
                lines@.len() == i + 1,
                lines@[0]@ == "Memory Dump:"@,
                forall|k: int|
                    0 <= k < i ==> (#[trigger] lines@[k + 1])@ == descriptor_line(
                        descriptors@[k]@,
                    ),
            decreases descriptors@.len() - i,
        {
            let ghost before = lines@;
            lines.push(format_descriptor(&descriptors[i]));
            proof {
                assert forall|k: int| 0 <= k < i + 1 implies (#[trigger] lines@[k + 1])@
                    == descriptor_line(descriptors@[k]@) by {
                    if k < i {
                        assert(lines@[k + 1] == before[k + 1]);
                    }
                }
            }
            i += 1;
        }
        proof {
            let dump = self@.dump();
            assert forall|k: int| 0 <= k < dump.len() implies dump[k] == descriptors@[k]@ by {
                assert(descriptor_views(descriptors@)[k] == descriptors@[k]@);
            }
            assert forall|k: int| 0 <= k < lines@.len() implies line_views(lines@)[k]
                == self@.dump_text()[k] by {
                if k > 0 {
                    assert(lines@[(k - 1) + 1] == lines@[k]);
                }
            }
            assert(line_views(lines@) =~= self@.dump_text());
        }
        lines
    }

    /// Carries out a command and answers it.
    pub fn execute(&mut self, command: Command) -> (output: CommandOutput)
        requires
            old(self).wf(),
            old(self)@.next_id < usize::MAX,
        ensures
            final(self).wf(),
            (final(self)@, output@) == old(self)@.execute(command@),
    {
        match command {
            Command::Insert { size, data } => {
                match self.insert(size) {
                    Ok(id) => {
                        match self.set(id, data.as_slice()) {
                            Ok(_) => answer(format_numbered_line("INSERT success: ID = ", id)),
                            Err(_) => answer(String::from_str("Error storing data")),
                        }
                    },
                    Err(_) => answer(
                        String::from_str("INSERT error: No suitable block available"),
                    ),
                }
            },
            Command::Read { id } => {
                match self.read_formatted(id) {
                    Ok(line) => answer(line),
                    Err(_) => answer(String::from_str("Error reading data")),
                }
            },
            Command::Update { id, data } => {
                match self.update(id, data.as_slice()) {
                    Ok(new_id) => answer(format_numbered_line("UPDATE success: ID = ", new_id)),
                    Err(_) => answer(String::from_str("Error updating data")),
                }
            },
            Command::Delete { id } => {
                match self.delete(id) {
                    Ok(_) => answer(format_numbered_line("DELETE success: ID = ", id)),
                    Err(_) => answer(String::from_str("Error deleting data")),
                }
            },
            Command::Dump => {
                let lines = self.dump_lines();
                CommandOutput { lines, exit: false }
            },
            Command::Exit => {
                let mut lines: Vec<String> = Vec::new();
                lines.push(String::from_str("Exiting..."));
                let output = CommandOutput { lines, exit: true };
                assert(output@.lines =~= seq!["Exiting..."@]);
                output
            },
        }
    }

    /// Reads a line as a command, carries the command out and answers it. A
    /// line that names no command changes nothing and is answered by a line
    /// that says so.
    pub fn execute_command(&mut self, command: &str) -> (output: CommandOutput)
        requires
            old(self).wf(),
            old(self)@.next_id < usize::MAX,
        ensures
            final(self).wf(),
            (final(self)@, output@) == old(self)@.run(command.spec_bytes()),
    {
        match parse_command(command) {
            Ok(command) => self.execute(command),
            Err(_) => answer(String::from_str("Unknown or invalid command")),
        }
    }
}

} // verus!
