//! The command shell.
use vstd::prelude::*;
use vstd::utf8::encode_utf8;

use crate::console::TextOutput;
use crate::heap::Heap;
use crate::vfs::{Cwd, FileSystem, FsError, Vfs, VfsError};

use commands::{
    execute_command, execute_step, law_only_cd_moves, parse_command_in, parsed, shell_state,
    short_command, short_command_below, Screen, ShellState, NEWLINE,
};
use parser::takes_room;

pub mod answers;
pub mod commands;
pub mod files;
pub mod parser;

pub use commands::{parse_command, Command, ShellOutcome};
pub use parser::{tokenize, ParseError};

verus! {

/// Why a command failed.
#[derive(Clone, Copy, Debug, PartialEq, Eq)]
pub enum ShellError {
    Parse(ParseError),
    Vfs(VfsError),
    Unavailable,
    Allocation,
}

/// A command shell: a file system, a working directory in it, and an output.
pub struct Shell<F: FileSystem, O: TextOutput> {
    vfs: Vfs<F>,
    cwd: Cwd,
    screen: Screen<O>,
    heap: Heap,
}

/// What is said of an error.
pub open spec fn message(error: ShellError) -> &'static str {
    match error {
        ShellError::Parse(ParseError::UnknownCommand) => "invalid command",
        ShellError::Parse(ParseError::Allocation) => "out of memory",
        ShellError::Parse(_) => "invalid arguments",
        ShellError::Vfs(VfsError::InvalidPath) => "invalid path",
        ShellError::Vfs(VfsError::NotDirectory) => "not a directory",
        ShellError::Vfs(VfsError::NotRegularFile) => "not a regular file",
        ShellError::Vfs(VfsError::Busy) => "directory busy",
        ShellError::Vfs(VfsError::Allocation) => "out of memory",
        ShellError::Vfs(VfsError::Fs(error)) => match error {
            FsError::WrongNodeKind => "not a directory",
            FsError::Allocation => "out of memory",
            FsError::NotFound => "not found",
            FsError::Corrupt => "filesystem corrupt",
            FsError::Unsupported => "unsupported file",
            FsError::Io => "I/O failure",
            FsError::FileTooLarge => "file too large",
            FsError::WriteDisabled => "write disabled",
            FsError::ReadOnly => "read-only filesystem",
            FsError::AlreadyExists => "already exists",
            FsError::NotEmpty => "directory not empty",
            FsError::NoSpace => "no space left",
        },
        ShellError::Unavailable => "command unavailable",
        ShellError::Allocation => "out of memory",
    }
}

/// The line that is written for an error.
pub open spec fn error_line(error: ShellError) -> Seq<u8> {
    (encode_utf8("error: "@) + encode_utf8(message(error)@)).push(NEWLINE)
}

/// Runs a line: carries out its command, or writes one line about the error.
pub open spec fn run_step<F: FileSystem>(s: ShellState<F::Model>, line: Seq<u8>) -> (
    ShellOutcome,
    ShellState<F::Model>,
) {
    match parsed(line) {
        Err(e) => (
            ShellOutcome::Continue,
            ShellState { text: s.text + error_line(ShellError::Parse(e)), ..s },
        ),
        Ok(None) => (ShellOutcome::Continue, s),
        Ok(Some(command)) => {
            let (r, t) = execute_step::<F>(s, command);
            match r {
                Ok(outcome) => (outcome, t),
                Err(e) => (
                    ShellOutcome::Continue,
                    ShellState { text: t.text + error_line(ShellError::Vfs(e)), ..t },
                ),
            }
        },
    }
}

/// What a line leaves where memory is refused for it: one line that says so, the same working
/// directory, and the file system as it was where the memory was needed.
pub open spec fn ran_short<F: FileSystem>(
    before: ShellState<F::Model>,
    line: Seq<u8>,
    after: ShellState<F::Model>,
) -> bool {
    &&& after.cwd == before.cwd
    &&& after.text == before.text + error_line(ShellError::Allocation)
    &&& {
        ||| takes_room(line) && after.model == before.model
        ||| parsed(line) matches Ok(Some(command)) && short_command::<F>(
            before.model,
            before.cwd,
            command,
            after.model,
        )
    }
}

/// What a line leaves where the file system is refused memory for it: one line that says so, and the
/// same working directory.
pub open spec fn ran_short_below<F: FileSystem>(
    before: ShellState<F::Model>,
    line: Seq<u8>,
    after: ShellState<F::Model>,
) -> bool {
    &&& after.cwd == before.cwd
    &&& after.text == before.text + error_line(ShellError::Allocation)
    &&& parsed(line) matches Ok(Some(command)) && short_command_below::<F>(
        before.model,
        before.cwd,
        command,
        after.model,
    )
}

/// What is said of an error.
fn error_message(error: ShellError) -> (text: &'static str)
    ensures
        text@ == message(error)@,
{
    match error {
        ShellError::Parse(ParseError::UnknownCommand) => "invalid command",
        ShellError::Parse(ParseError::Allocation) => "out of memory",
        ShellError::Parse(_) => "invalid arguments",
        ShellError::Vfs(VfsError::InvalidPath) => "invalid path",
        ShellError::Vfs(VfsError::NotDirectory) => "not a directory",
        ShellError::Vfs(VfsError::NotRegularFile) => "not a regular file",
        ShellError::Vfs(VfsError::Busy) => "directory busy",
        ShellError::Vfs(VfsError::Allocation) => "out of memory",
        ShellError::Vfs(VfsError::Fs(error)) => match error {
            FsError::WrongNodeKind => "not a directory",
            FsError::Allocation => "out of memory",
            FsError::NotFound => "not found",
            FsError::Corrupt => "filesystem corrupt",
            FsError::Unsupported => "unsupported file",
            FsError::Io => "I/O failure",
            FsError::FileTooLarge => "file too large",
            FsError::WriteDisabled => "write disabled",
            FsError::ReadOnly => "read-only filesystem",
            FsError::AlreadyExists => "already exists",
            FsError::NotEmpty => "directory not empty",
            FsError::NoSpace => "no space left",
        },
        ShellError::Unavailable => "command unavailable",
        ShellError::Allocation => "out of memory",
    }
}

impl<F: FileSystem, O: TextOutput> Shell<F, O> {
    /// The file system is well formed.
    pub closed spec fn wf(&self) -> bool {
        self.vfs.wf()
    }

    /// The model of the shell.
    pub closed spec fn state(&self) -> ShellState<F::Model> {
        shell_state(self.vfs, self.cwd, self.screen)
    }

    /// Memory was refused for the last line.
    pub closed spec fn refused(&self) -> bool {
        self.heap.refused() || self.vfs.refused()
    }

    /// Memory was refused in the file system's last listing or removal of a directory.
    pub closed spec fn refused_below(&self) -> bool {
        self.vfs.refused_below()
    }

    /// The output.
    pub closed spec fn out(&self) -> O {
        self.screen.output
    }

    /// A shell in the root directory.
    pub fn new(vfs: Vfs<F>, output: O) -> (shell: Shell<F, O>)
        requires
            vfs.wf(),
        ensures
            shell.wf(),
            shell.out() == output,
            shell.state() == (ShellState {
                model: vfs.model(),
                cwd: Seq::empty(),
                text: output.text(),
            }),
    {
        let cwd = vfs.initial_cwd();
        Shell { vfs, cwd, screen: Screen { output }, heap: Heap::new() }
    }

    /// Runs a line. A command that fails leaves one line about it. It fails for want of memory exactly
    /// where memory is refused, here or below.
    pub fn run(&mut self, line: &str) -> (r: Result<ShellOutcome, ShellError>)
        requires
            old(self).wf(),
        ensures
            final(self).wf(),
            r is Ok,
            if final(self).refused() {
                r->Ok_0 == ShellOutcome::Continue && ran_short::<F>(
                    old(self).state(),
                    encode_utf8(line@),
                    final(self).state(),
                )
            } else {
                ||| (r->Ok_0, final(self).state()) == run_step::<F>(
                    old(self).state(),
                    encode_utf8(line@),
                )
                ||| final(self).refused_below() && r->Ok_0 == ShellOutcome::Continue
                    && ran_short_below::<F>(
                    old(self).state(),
                    encode_utf8(line@),
                    final(self).state(),
                )
            },
    {
        let ghost before = self.state();
        self.heap = Heap::new();
        self.vfs.begin();
        let command = match parse_command_in(line, &mut self.heap) {
            Ok(Some(command)) => command,
            Ok(None) => return Ok(ShellOutcome::Continue),
            Err(error) => {
                self.write_error(ShellError::Parse(error));
                return Ok(ShellOutcome::Continue);
            },
        };
        match execute_command(command, &mut self.vfs, &mut self.cwd, &mut self.screen) {
            Ok(outcome) => Ok(outcome),
            Err(error) => {
                self.write_error(ShellError::Vfs(error));
                Ok(ShellOutcome::Continue)
            },
        }
    }

    /// The output.
    pub fn output(&self) -> (output: &O)
        ensures
            *output == self.out(),
    {
        &self.screen.output
    }

    /// The output, to be changed.
    pub fn output_mut(&mut self) -> (output: &mut O)
        ensures
            *output == old(self).out(),
            final(self).out() == *final(output),
            final(self).wf() == old(self).wf(),
            final(self).state() == (ShellState {
                text: final(output).text(),
                ..old(self).state()
            }),
    {
        &mut self.screen.output
    }

    /// Writes one line about an error.
    fn write_error(&mut self, error: ShellError)
        requires
            old(self).wf(),
        ensures
            final(self).wf(),
            final(self).refused() == old(self).refused(),
            final(self).refused_below() == old(self).refused_below(),
            final(self).state() == (ShellState {
                text: old(self).state().text + error_line(error),
                ..old(self).state()
            }),
    {
        let newline = [NEWLINE; 1];
        let ghost before = self.state();
        self.screen.output.write_bytes("error: ".as_bytes());
        self.screen.output.write_bytes(error_message(error).as_bytes());
        self.screen.output.write_bytes(&newline);
        assert(self.state().text =~= before.text + error_line(error));
    }
}

/// A line that fails leaves one line about its own error behind what its command had written, and
/// the shell goes on in the same working directory. A line that gives no command leaves the file
/// system alone.
pub proof fn law_a_failed_line_says_why<F: FileSystem>(s: ShellState<F::Model>, line: Seq<u8>)
    ensures
        ({
            let (outcome, t) = run_step::<F>(s, line);
            match parsed(line) {
                Err(e) => {
                    &&& outcome == ShellOutcome::Continue
                    &&& t == (ShellState { text: s.text + error_line(ShellError::Parse(e)), ..s })
                },
                Ok(None) => outcome == ShellOutcome::Continue && t == s,
                Ok(Some(command)) => {
                    let (r, u) = execute_step::<F>(s, command);
                    r matches Err(e) ==> {
                        &&& outcome == ShellOutcome::Continue
                        &&& t.cwd == s.cwd
                        &&& t.model == u.model
                        &&& s.text.is_prefix_of(u.text)
                        &&& t.text == u.text + error_line(ShellError::Vfs(e))
                    }
                },
            }
        }),
{
    if let Ok(Some(command)) = parsed(line) {
        law_only_cd_moves::<F>(s, command);
    }
}

} // verus!
