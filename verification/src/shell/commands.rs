//! Commands: parsing a line, and carrying it out.
use vstd::prelude::*;
use vstd::slice::slice_subrange;
use vstd::utf8::encode_utf8;

use crate::bytes::{same_bytes, zeros};
use crate::console::TextOutput;
use crate::console::number::{decimal, write_number};
use crate::fs::{listing, DirEntry, EntryView, NodeId, NodeKind};
use crate::heap::Heap;
use crate::text::{ascii, ascii_string, text_bytes};
use crate::vfs::{Cwd, FileSystem, FsError, Vfs, VfsError};
use crate::vfs::change::{
    append_file_step, create_dir_step, create_file_step, remove_dir_step, short_creation,
    short_open, short_parent, short_removal, unlink_file_step, write_file_step,
};
use crate::vfs::path::rendered;
use crate::vfs::read::{
    chunk, deliver, feed, law_a_file_is_handed_over_in_pieces, pieces, read_file_step, reads_back,
    regular_file, FileSink, Taking,
};
use crate::vfs::resolve::{
    change_dir_step, list_step, short_list, short_resolve, starved, starved_below,
    READ_BUFFER_BYTES,
};

use super::parser::{ascii_words, takes_room, texts, tokenize_in, words_of, ParseError, SPACE};

verus! {

/// The byte that ends a line.
pub const NEWLINE: u8 = 0x0a;

/// What stands for a byte that cannot be shown.
pub const UNSHOWN: u8 = 0x3f;

/// What to do.
#[allow(inconsistent_fields)]
pub enum Command {
    Help,
    Pwd,
    Cd { path: String },
    Ls { path: Option<String> },
    Cat { path: String },
    Echo { text: Vec<String> },
    Touch { path: String },
    Write { path: String, text: String },
    Append { path: String, text: String },
    Mkdir { path: String },
    Rm { path: String },
    Rmdir { path: String },
    Sync,
    Shutdown,
}

/// What to do, with the arguments as bytes.
#[allow(inconsistent_fields)]
pub enum CommandView {
    Help,
    Pwd,
    Cd { path: Seq<u8> },
    Ls { path: Option<Seq<u8>> },
    Cat { path: Seq<u8> },
    Echo { text: Seq<Seq<u8>> },
    Touch { path: Seq<u8> },
    Write { path: Seq<u8>, text: Seq<u8> },
    Append { path: Seq<u8>, text: Seq<u8> },
    Mkdir { path: Seq<u8> },
    Rm { path: Seq<u8> },
    Rmdir { path: Seq<u8> },
    Sync,
    Shutdown,
}

impl View for Command {
    type V = CommandView;

    open spec fn view(&self) -> CommandView {
        match *self {
            Command::Help => CommandView::Help,
            Command::Pwd => CommandView::Pwd,
            Command::Cd { path } => CommandView::Cd { path: text_bytes(path) },
            Command::Ls { path } => CommandView::Ls {
                path: match path {
                    Some(path) => Some(text_bytes(path)),
                    None => None,
                },
            },
            Command::Cat { path } => CommandView::Cat { path: text_bytes(path) },
            Command::Echo { text } => CommandView::Echo { text: texts(text@) },
            Command::Touch { path } => CommandView::Touch { path: text_bytes(path) },
            Command::Write { path, text } => CommandView::Write {
                path: text_bytes(path),
                text: text_bytes(text),
            },
            Command::Append { path, text } => CommandView::Append {
                path: text_bytes(path),
                text: text_bytes(text),
            },
            Command::Mkdir { path } => CommandView::Mkdir { path: text_bytes(path) },
            Command::Rm { path } => CommandView::Rm { path: text_bytes(path) },
            Command::Rmdir { path } => CommandView::Rmdir { path: text_bytes(path) },
            Command::Sync => CommandView::Sync,
            Command::Shutdown => CommandView::Shutdown,
        }
    }
}

/// Words with one space between them.
pub open spec fn spaced(words: Seq<Seq<u8>>) -> Seq<u8>
    decreases words.len(),
{
    if words.len() == 0 {
        Seq::empty()
    } else if words.len() == 1 {
        words[0]
    } else {
        spaced(words.drop_last()).push(SPACE) + words.last()
    }
}

/// The word for a command.
pub open spec fn is_word(word: Seq<u8>, name: &'static str) -> bool {
    word == encode_utf8(name@)
}

/// A command without arguments.
pub open spec fn bare(words: Seq<Seq<u8>>, name: &'static str, command: CommandView) -> Result<
    Option<CommandView>,
    ParseError,
> {
    if words.len() == 1 {
        Ok(Some(command))
    } else {
        Err(ParseError::Arity { command: name })
    }
}

/// A command with one argument.
pub open spec fn with_path(
    words: Seq<Seq<u8>>,
    name: &'static str,
    command: spec_fn(Seq<u8>) -> CommandView,
) -> Result<Option<CommandView>, ParseError> {
    if words.len() == 2 {
        Ok(Some(command(words[1])))
    } else {
        Err(ParseError::Arity { command: name })
    }
}

/// A command with one argument and the rest of the line.
pub open spec fn with_text(
    words: Seq<Seq<u8>>,
    name: &'static str,
    command: spec_fn(Seq<u8>, Seq<u8>) -> CommandView,
) -> Result<Option<CommandView>, ParseError> {
    if words.len() >= 2 {
        Ok(Some(command(words[1], spaced(words.skip(2)))))
    } else {
        Err(ParseError::Arity { command: name })
    }
}

/// The command that some words give; none if there are no words.
pub open spec fn command_of(words: Seq<Seq<u8>>) -> Result<Option<CommandView>, ParseError> {
    if words.len() == 0 {
        Ok(None)
    } else if is_word(words[0], "help") {
        bare(words, "help", CommandView::Help)
    } else if is_word(words[0], "pwd") {
        bare(words, "pwd", CommandView::Pwd)
    } else if is_word(words[0], "cd") {
        with_path(words, "cd", |path: Seq<u8>| CommandView::Cd { path })
    } else if is_word(words[0], "ls") {
        if words.len() == 1 {
            Ok(Some(CommandView::Ls { path: None }))
        } else {
            with_path(words, "ls", |path: Seq<u8>| CommandView::Ls { path: Some(path) })
        }
    } else if is_word(words[0], "cat") {
        with_path(words, "cat", |path: Seq<u8>| CommandView::Cat { path })
    } else if is_word(words[0], "echo") {
        Ok(Some(CommandView::Echo { text: words.skip(1) }))
    } else if is_word(words[0], "touch") {
        with_path(words, "touch", |path: Seq<u8>| CommandView::Touch { path })
    } else if is_word(words[0], "write") {
        with_text(
            words,
            "write",
            |path: Seq<u8>, text: Seq<u8>| CommandView::Write { path, text },
        )
    } else if is_word(words[0], "append") {
        with_text(
            words,
            "append",
            |path: Seq<u8>, text: Seq<u8>| CommandView::Append { path, text },
        )
    } else if is_word(words[0], "mkdir") {
        with_path(words, "mkdir", |path: Seq<u8>| CommandView::Mkdir { path })
    } else if is_word(words[0], "rm") {
        with_path(words, "rm", |path: Seq<u8>| CommandView::Rm { path })
    } else if is_word(words[0], "rmdir") {
        with_path(words, "rmdir", |path: Seq<u8>| CommandView::Rmdir { path })
    } else if is_word(words[0], "sync") {
        bare(words, "sync", CommandView::Sync)
    } else if is_word(words[0], "shutdown") {
        bare(words, "shutdown", CommandView::Shutdown)
    } else {
        Err(ParseError::UnknownCommand)
    }
}

/// The command that a line gives.
pub open spec fn parsed(line: Seq<u8>) -> Result<Option<CommandView>, ParseError> {
    match words_of(line) {
        Ok(words) => command_of(words),
        Err(e) => Err(e),
    }
}

/// What a parsed command says.
pub open spec fn command_view(command: Option<Command>) -> Option<CommandView> {
    match command {
        Some(command) => Some(command@),
        None => None,
    }
}

/// Whether a word is the name of a command.
fn names_command(word: &String, name: &'static str) -> (r: bool)
    ensures
        r == is_word(text_bytes(*word), name),
{
    same_bytes(word.as_str().as_bytes(), name.as_bytes())
}

/// Refuses arguments.
fn require_no_arguments(tokens: &Vec<String>, command: &'static str) -> (r: Result<(), ParseError>)
    ensures
        r == (if tokens@.len() == 1 {
            Ok(())
        } else {
            Err(ParseError::Arity { command })
        }),
{
    if tokens.len() != 1 {
        return Err(ParseError::Arity { command });
    }
    Ok(())
}

/// Takes the only argument.
fn require_one_argument(
    tokens: Vec<String>,
    command: &'static str,
) -> (r: Result<String, ParseError>)
    ensures
        match r {
            Ok(argument) => tokens@.len() == 2 && argument == tokens@[1],
            Err(e) => tokens@.len() != 2 && e == (ParseError::Arity { command }),
        },
{
    if tokens.len() != 2 {
        return Err(ParseError::Arity { command });
    }
    let mut tokens = tokens;
    Ok(tokens.remove(1))
}

/// Takes the argument, if there is one.
fn optional_argument(tokens: Vec<String>, command: &'static str) -> (r: Result<
    Option<String>,
    ParseError,
>)
    requires
        tokens@.len() > 0,
    ensures
        match r {
            Ok(Some(argument)) => tokens@.len() == 2 && argument == tokens@[1],
            Ok(None) => tokens@.len() == 1,
            Err(e) => tokens@.len() > 2 && e == (ParseError::Arity { command }),
        },
{
    if tokens.len() == 1 {
        return Ok(None);
    }
    match require_one_argument(tokens, command) {
        Ok(argument) => Ok(Some(argument)),
        Err(e) => Err(e),
    }
}

/// Takes all arguments, unless there are some and the heap refuses to hold them.
fn collect_arguments(tokens: Vec<String>, heap: &mut Heap) -> (r: Result<Vec<String>, ParseError>)
    requires
        tokens@.len() > 0,
        !old(heap).refused(),
    ensures
        match r {
            Ok(arguments) => !final(heap).refused() && texts(arguments@) == texts(tokens@).skip(1),
            Err(e) => final(heap).refused() && e == ParseError::Allocation && tokens@.len() > 1,
        },
{
    let ghost all = tokens@;
    let mut rest = tokens;
    let mut collected: Vec<String> = Vec::new();
    while rest.len() > 1
        invariant
            all == tokens@,
            !heap.refused(),
            0 < rest@.len() <= all.len(),
            collected@ + rest@.skip(1) == all.skip(1),
        decreases rest@.len(),
    {
        if !heap.reserve(&mut collected, 1) {
            return Err(ParseError::Allocation);
        }
        let ghost before = rest@;
        let ghost so_far = collected@;
        let next = rest.remove(1);
        collected.push(next);
        assert(collected@ + rest@.skip(1) =~= so_far + before.skip(1));
    }
    assert(collected@ =~= all.skip(1));
    assert(texts(collected@) =~= texts(all).skip(1));
    Ok(collected)
}

/// Joins the words from the third on, unless there are some and the heap refuses to hold them.
fn join_arguments(tokens: &Vec<String>, heap: &mut Heap) -> (r: Result<String, ParseError>)
    requires
        tokens@.len() >= 2,
        !old(heap).refused(),
        ascii_words(texts(tokens@)),
    ensures
        match r {
            Ok(text) => !final(heap).refused() && text_bytes(text) == spaced(
                texts(tokens@).skip(2),
            ),
            Err(e) => final(heap).refused() && e == ParseError::Allocation && tokens@.len() > 2,
        },
{
    let ghost rest = texts(tokens@).skip(2);
    let mut text: Vec<u8> = Vec::new();
    let mut i: usize = 2;
    assert(rest.take(0) =~= Seq::<Seq<u8>>::empty());
    while i < tokens.len()
        invariant
            2 <= i <= tokens@.len(),
            !heap.refused(),
            rest == texts(tokens@).skip(2),
            ascii_words(texts(tokens@)),
            ascii(text@),
            text@ == spaced(rest.take(i - 2)),
        decreases tokens@.len() - i,
    {
        let word = tokens[i].as_str().as_bytes();
        let ghost before = text@;
        assert(word@ == rest[i - 2]);
        assert(ascii(texts(tokens@)[i as int]));
        assert(rest.take(i - 1).drop_last() =~= rest.take(i - 2));
        if !heap.reserve(&mut text, word.len()) {
            return Err(ParseError::Allocation);
        }
        if i != 2 {
            text.push(SPACE);
        }
        text.extend_from_slice(word);
        assert(text@ =~= if i == 2 {
            word@
        } else {
            before.push(SPACE) + word@
        });
        assert forall|k: int| 0 <= k < text@.len() implies #[trigger] text@[k] < 0x80 by {
            let start = text@.len() - word@.len();
            if k >= start {
                assert(word@[k - start] < 0x80);
            } else if k < before.len() {
                assert(before[k] < 0x80);
            }
        }
        i = i + 1;
    }
    assert(rest.take(tokens@.len() - 2) =~= rest);
    Ok(ascii_string(text))
}

/// Takes the first argument, and joins the rest.
fn require_argument_then_join(tokens: Vec<String>, command: &'static str, heap: &mut Heap) -> (r:
    Result<(String, String), ParseError>)
    requires
        !old(heap).refused(),
        ascii_words(texts(tokens@)),
    ensures
        match r {
            Ok((path, text)) => !final(heap).refused() && tokens@.len() >= 2 && path == tokens@[1]
                && text_bytes(text) == spaced(texts(tokens@).skip(2)),
            Err(e) => if final(heap).refused() {
                tokens@.len() > 2 && e == ParseError::Allocation
            } else {
                tokens@.len() < 2 && e == (ParseError::Arity { command })
            },
        },
{
    if tokens.len() < 2 {
        return Err(ParseError::Arity { command });
    }
    let text = join_arguments(&tokens, heap)?;
    let mut tokens = tokens;
    Ok((tokens.remove(1), text))
}

/// A command whose arguments are gathered, which takes memory where there are some.
pub open spec fn gathers(words: Seq<Seq<u8>>) -> bool {
    ||| words.len() > 1 && is_word(words[0], "echo")
    ||| words.len() > 2 && (is_word(words[0], "write") || is_word(words[0], "append"))
}

/// The command that some words give; none if there are no words. Only a command that gathers its
/// arguments can fail for want of memory.
pub fn command_from(tokens: Vec<String>) -> (r: Result<Option<Command>, ParseError>)
    requires
        ascii_words(texts(tokens@)),
    ensures
        match r {
            Ok(command) => command_of(texts(tokens@)) == Ok::<Option<CommandView>, ParseError>(
                command_view(command),
            ) && (command is Some ==> tokens@.len() > 0),
            Err(ParseError::Allocation) => gathers(texts(tokens@)),
            Err(e) => command_of(texts(tokens@)) == Err::<Option<CommandView>, ParseError>(e),
        },
{
    command_from_in(tokens, &mut Heap::new())
}

/// The command that some words give, in memory from a heap. It fails for want of memory exactly
/// where the heap refuses.
pub fn command_from_in(tokens: Vec<String>, heap: &mut Heap) -> (r: Result<
    Option<Command>,
    ParseError,
>)
    requires
        ascii_words(texts(tokens@)),
        !old(heap).refused(),
    ensures
        match r {
            Ok(command) => {
                &&& !final(heap).refused()
                &&& command_of(texts(tokens@)) == Ok::<Option<CommandView>, ParseError>(
                    command_view(command),
                )
                &&& command is Some ==> tokens@.len() > 0
            },
            Err(e) => if final(heap).refused() {
                e == ParseError::Allocation && gathers(texts(tokens@))
            } else {
                command_of(texts(tokens@)) == Err::<Option<CommandView>, ParseError>(e) && e
                    != ParseError::Allocation
            },
        },
{
    if tokens.len() == 0 {
        return Ok(None);
    }
    assert(texts(tokens@)[0] == text_bytes(tokens@[0]));
    if names_command(&tokens[0], "help") {
        require_no_arguments(&tokens, "help")?;
        return Ok(Some(Command::Help));
    }
    if names_command(&tokens[0], "pwd") {
        require_no_arguments(&tokens, "pwd")?;
        return Ok(Some(Command::Pwd));
    }
    if names_command(&tokens[0], "cd") {
        return Ok(Some(Command::Cd { path: require_one_argument(tokens, "cd")? }));
    }
    if names_command(&tokens[0], "ls") {
        return Ok(Some(Command::Ls { path: optional_argument(tokens, "ls")? }));
    }
    if names_command(&tokens[0], "cat") {
        return Ok(Some(Command::Cat { path: require_one_argument(tokens, "cat")? }));
    }
    if names_command(&tokens[0], "echo") {
        return Ok(Some(Command::Echo { text: collect_arguments(tokens, heap)? }));
    }
    if names_command(&tokens[0], "touch") {
        return Ok(Some(Command::Touch { path: require_one_argument(tokens, "touch")? }));
    }
    if names_command(&tokens[0], "write") {
        let (path, text) = require_argument_then_join(tokens, "write", heap)?;
        return Ok(Some(Command::Write { path, text }));
    }
    if names_command(&tokens[0], "append") {
        let (path, text) = require_argument_then_join(tokens, "append", heap)?;
        return Ok(Some(Command::Append { path, text }));
    }
    if names_command(&tokens[0], "mkdir") {
        return Ok(Some(Command::Mkdir { path: require_one_argument(tokens, "mkdir")? }));
    }
    if names_command(&tokens[0], "rm") {
        return Ok(Some(Command::Rm { path: require_one_argument(tokens, "rm")? }));
    }
    if names_command(&tokens[0], "rmdir") {
        return Ok(Some(Command::Rmdir { path: require_one_argument(tokens, "rmdir")? }));
    }
    if names_command(&tokens[0], "sync") {
        require_no_arguments(&tokens, "sync")?;
        return Ok(Some(Command::Sync));
    }
    if names_command(&tokens[0], "shutdown") {
        require_no_arguments(&tokens, "shutdown")?;
        return Ok(Some(Command::Shutdown));
    }
    Err(ParseError::UnknownCommand)
}

/// The command that a line gives; none if the line is empty. Only a line that is split before an
/// error can fail for want of memory.
pub fn parse_command(line: &str) -> (r: Result<Option<Command>, ParseError>)
    ensures
        match r {
            Ok(command) => parsed(encode_utf8(line@)) == Ok::<Option<CommandView>, ParseError>(
                command_view(command),
            ),
            Err(ParseError::Allocation) => takes_room(encode_utf8(line@)),
            Err(e) => parsed(encode_utf8(line@)) == Err::<Option<CommandView>, ParseError>(e),
        },
{
    parse_command_in(line, &mut Heap::new())
}

/// The command that a line gives, in memory from a heap. It fails for want of memory exactly where
/// the heap refuses.
pub fn parse_command_in(line: &str, heap: &mut Heap) -> (r: Result<Option<Command>, ParseError>)
    requires
        !old(heap).refused(),
    ensures
        match r {
            Ok(command) => !final(heap).refused() && parsed(encode_utf8(line@)) == Ok::<
                Option<CommandView>,
                ParseError,
            >(command_view(command)),
            Err(e) => if final(heap).refused() {
                e == ParseError::Allocation && takes_room(encode_utf8(line@))
            } else {
                parsed(encode_utf8(line@)) == Err::<Option<CommandView>, ParseError>(e) && e
                    != ParseError::Allocation
            },
        },
{
    let tokens = tokenize_in(line, heap)?;
    command_from_in(tokens, heap)
}

/// What a command leaves to be done.
#[derive(Clone, Copy, Debug, PartialEq, Eq, Structural)]
pub enum ShellOutcome {
    Continue,
    Shutdown,
}

/// The model of a shell: the file system, the working directory, and what was written.
pub struct ShellState<M> {
    pub model: M,
    pub cwd: Seq<Seq<u8>>,
    pub text: Seq<u8>,
}

/// The word for a kind.
pub open spec fn kind_word(kind: NodeKind) -> Seq<u8> {
    match kind {
        NodeKind::Regular => encode_utf8("file"@),
        NodeKind::Directory => encode_utf8("dir"@),
    }
}

/// The line that is written for an entry.
pub open spec fn entry_line(name: Seq<u8>, kind: NodeKind, len: u64) -> Seq<u8> {
    ((name.push(SPACE) + kind_word(kind)).push(SPACE) + decimal(len)).push(NEWLINE)
}

/// Writes a line for each entry from `from` on.
pub open spec fn ls_from<F: FileSystem>(
    s: ShellState<F::Model>,
    entries: Seq<EntryView>,
    from: int,
) -> (Result<(), VfsError>, ShellState<F::Model>)
    decreases entries.len() - from,
{
    if from >= entries.len() {
        (Ok(()), s)
    } else {
        let read = F::metadata_step(s.model, entries[from].node);
        match read.result {
            Err(e) => (Err(VfsError::Fs(e)), ShellState { model: read.model, ..s }),
            Ok(metadata) => ls_from::<F>(
                ShellState {
                    model: read.model,
                    text: s.text + entry_line(entries[from].name, metadata.kind, metadata.len),
                    ..s
                },
                entries,
                from + 1,
            ),
        }
    }
}

/// The byte that is shown for a byte of a file: printable ones and those that move to a new line
/// or column stay, others become a question mark.
pub open spec fn sanitized(byte: u8) -> u8 {
    if 0x20 <= byte <= 0x7e || byte == 0x0a || byte == 0x0d || byte == 0x09 {
        byte
    } else {
        UNSHOWN
    }
}

/// What is shown for bytes of a file.
pub open spec fn shown(bytes: Seq<u8>) -> Seq<u8> {
    Seq::new(bytes.len(), |i: int| sanitized(bytes[i]))
}

/// Takes every piece of a file, and shows it behind the text so far.
pub open spec fn showing() -> Taking<Seq<u8>> {
    |text: Seq<u8>, piece: Seq<u8>| (Ok(()), text + shown(piece))
}

/// Takes every piece of a file, and shows nothing.
pub open spec fn passing() -> Taking<()> {
    |state: (), piece: Seq<u8>| (Ok(()), ())
}

/// Carries out a command.
pub open spec fn execute_step<F: FileSystem>(s: ShellState<F::Model>, command: CommandView) -> (
    Result<ShellOutcome, VfsError>,
    ShellState<F::Model>,
) {
    match command {
        CommandView::Help => (
            Ok(ShellOutcome::Continue),
            ShellState { text: s.text + encode_utf8(HELP@), ..s },
        ),
        CommandView::Pwd => (
            Ok(ShellOutcome::Continue),
            ShellState { text: s.text + rendered(s.cwd).push(NEWLINE), ..s },
        ),
        CommandView::Cd { path } => {
            let changed = change_dir_step::<F>(s.model, s.cwd, path);
            match changed.result {
                Ok(cwd) => (
                    Ok(ShellOutcome::Continue),
                    ShellState { model: changed.model, cwd, ..s },
                ),
                Err(e) => (Err(e), ShellState { model: changed.model, ..s }),
            }
        },
        CommandView::Ls { path } => {
            let listed = list_step::<F>(s.model, s.cwd, path);
            match listed.result {
                Ok(entries) => {
                    let (r, t) = ls_from::<F>(ShellState { model: listed.model, ..s }, entries, 0);
                    (continued(r), t)
                },
                Err(e) => (Err(e), ShellState { model: listed.model, ..s }),
            }
        },
        CommandView::Cat { path } => {
            let (read, text) = read_file_step::<F, _>(s.model, s.cwd, path, showing(), s.text);
            (continued(read.result), ShellState { model: read.model, text, ..s })
        },
        CommandView::Echo { text } => (
            Ok(ShellOutcome::Continue),
            ShellState { text: s.text + spaced(text).push(NEWLINE), ..s },
        ),
        CommandView::Touch { path } => {
            let created = create_file_step::<F>(s.model, s.cwd, path);
            match created.result {
                Ok(_) => (
                    Ok(ShellOutcome::Continue),
                    ShellState { model: created.model, ..s },
                ),
                Err(VfsError::Fs(FsError::AlreadyExists)) => {
                    let (read, _) = read_file_step::<F, _>(
                        created.model,
                        s.cwd,
                        path,
                        passing(),
                        (),
                    );
                    (continued(read.result), ShellState { model: read.model, ..s })
                },
                Err(e) => (Err(e), ShellState { model: created.model, ..s }),
            }
        },
        CommandView::Write { path, text } => {
            let done = write_file_step::<F>(s.model, s.cwd, path, text);
            (continued(done.result), ShellState { model: done.model, ..s })
        },
        CommandView::Append { path, text } => {
            let done = append_file_step::<F>(s.model, s.cwd, path, text);
            (continued(done.result), ShellState { model: done.model, ..s })
        },
        CommandView::Mkdir { path } => {
            let done = create_dir_step::<F>(s.model, s.cwd, path);
            (continued(done.result), ShellState { model: done.model, ..s })
        },
        CommandView::Rm { path } => {
            let done = unlink_file_step::<F>(s.model, s.cwd, path);
            (continued(done.result), ShellState { model: done.model, ..s })
        },
        CommandView::Rmdir { path } => {
            let done = remove_dir_step::<F>(s.model, s.cwd, path);
            (continued(done.result), ShellState { model: done.model, ..s })
        },
        CommandView::Sync => {
            let done = F::sync_step(s.model).lifted();
            (continued(done.result), ShellState { model: done.model, ..s })
        },
        CommandView::Shutdown => {
            let done = F::unmount_step(s.model).lifted();
            (
                match done.result {
                    Ok(()) => Ok(ShellOutcome::Shutdown),
                    Err(e) => Err(e),
                },
                ShellState { model: done.model, ..s },
            )
        },
    }
}

/// The shell goes on where an operation succeeded.
pub open spec fn continued<T>(r: Result<T, VfsError>) -> Result<ShellOutcome, VfsError> {
    match r {
        Ok(_) => Ok(ShellOutcome::Continue),
        Err(e) => Err(e),
    }
}

/// What `help` writes.
pub const HELP: &'static str =
    "help\npwd\ncd PATH\nls [PATH]\ncat PATH\necho [TEXT ...]\ntouch PATH\nwrite PATH [TEXT ...]\nappend PATH [TEXT ...]\nmkdir PATH\nrm PATH\nrmdir PATH\nsync\nshutdown\n";

/// An output that files are shown on.
pub struct Screen<O: TextOutput> {
    pub output: O,
}

impl<O: TextOutput> FileSink for Screen<O> {
    type State = Seq<u8>;

    open spec fn state(&self) -> Seq<u8> {
        self.output.text()
    }

    open spec fn taking() -> Taking<Seq<u8>> {
        showing()
    }

    fn take(&mut self, bytes: &[u8]) -> (r: Result<(), VfsError>) {
        let mut rendered = [0u8; READ_BUFFER_BYTES];
        let mut i: usize = 0;
        while i < bytes.len()
            invariant
                i <= bytes@.len() <= READ_BUFFER_BYTES,
                forall|j: int| 0 <= j < i ==> #[trigger] rendered@[j] == sanitized(bytes@[j]),
            decreases bytes@.len() - i,
        {
            let byte: u8 = bytes[i];
            rendered[i] = if (0x20 <= byte && byte <= 0x7e) || byte == 0x0a || byte == 0x0d || byte
                == 0x09 {
                byte
            } else {
                UNSHOWN
            };
            i = i + 1;
        }
        let part = slice_subrange(&rendered, 0, bytes.len());
        assert(part@ =~= shown(bytes@));
        self.output.write_bytes(part);
        Ok(())
    }
}

/// Takes a file's bytes and shows nothing.
struct Unshown {}

impl FileSink for Unshown {
    type State = ();

    open spec fn state(&self) -> () {
        ()
    }

    open spec fn taking() -> Taking<()> {
        passing()
    }

    fn take(&mut self, bytes: &[u8]) -> (r: Result<(), VfsError>) {
        Ok(())
    }
}

/// Writes the line for an entry.
fn write_entry<O: TextOutput>(output: &mut O, entry: &DirEntry, kind: NodeKind, len: u64)
    ensures
        final(output).text() == old(output).text() + entry_line(entry.name@, kind, len),
{
    let space = [SPACE; 1];
    let newline = [NEWLINE; 1];
    let ghost before = output.text();
    output.write_bytes(entry.name.as_bytes());
    output.write_bytes(&space);
    match kind {
        NodeKind::Regular => output.write_bytes("file".as_bytes()),
        NodeKind::Directory => output.write_bytes("dir".as_bytes()),
    }
    output.write_bytes(&space);
    write_number(output, len);
    output.write_bytes(&newline);
    assert(output.text() =~= before + entry_line(entry.name@, kind, len));
}

/// The model of a shell's parts.
pub open spec fn shell_state<F: FileSystem, O: TextOutput>(
    vfs: Vfs<F>,
    cwd: Cwd,
    screen: Screen<O>,
) -> ShellState<F::Model> {
    ShellState { model: vfs.model(), cwd: cwd@, text: screen.output.text() }
}

/// The file system as it is where a command needs memory.
pub open spec fn short_command<F: FileSystem>(
    m: F::Model,
    cwd: Seq<Seq<u8>>,
    command: CommandView,
    after: F::Model,
) -> bool {
    match command {
        CommandView::Help => false,
        CommandView::Pwd => after == m,
        CommandView::Cd { path } => short_resolve::<F>(m, cwd, path, after),
        CommandView::Ls { path } => path is Some && short_resolve::<F>(m, cwd, path->0, after),
        CommandView::Cat { path } => short_resolve::<F>(m, cwd, path, after),
        CommandView::Echo { .. } => false,
        CommandView::Touch { path } => short_open::<F>(m, cwd, path, after),
        CommandView::Write { path, .. } => short_open::<F>(m, cwd, path, after),
        CommandView::Append { path, .. } => short_open::<F>(m, cwd, path, after),
        CommandView::Mkdir { path } => short_parent::<F>(m, cwd, path, after),
        CommandView::Rm { path } => short_creation::<F>(m, cwd, path, after),
        CommandView::Rmdir { path } => short_resolve::<F>(m, cwd, path, after),
        CommandView::Sync => false,
        CommandView::Shutdown => false,
    }
}

/// What a command leaves where the file system is refused memory for it.
pub open spec fn short_command_below<F: FileSystem>(
    m: F::Model,
    cwd: Seq<Seq<u8>>,
    command: CommandView,
    after: F::Model,
) -> bool {
    match command {
        CommandView::Ls { path } => short_list::<F>(m, cwd, path, after),
        CommandView::Rmdir { path } => short_removal::<F>(m, cwd, path, after),
        _ => false,
    }
}

/// What carrying out a command returns and leaves, where memory was refused on the way or below, or
/// was not. Where it was, nothing was written, the working directory is the same, and the file
/// system is as it was where the memory was needed.
pub open spec fn executed<F: FileSystem>(
    before: ShellState<F::Model>,
    command: CommandView,
    refused: bool,
    refused_below: bool,
    r: Result<ShellOutcome, VfsError>,
    after: ShellState<F::Model>,
) -> bool {
    let kept = after.cwd == before.cwd && after.text == before.text;
    if refused {
        starved(r) && kept && short_command::<F>(before.model, before.cwd, command, after.model)
    } else {
        ||| (r, after) == execute_step::<F>(before, command)
        ||| refused_below && starved_below(r) && kept && short_command_below::<F>(
            before.model,
            before.cwd,
            command,
            after.model,
        )
    }
}

/// Writes a line for each entry.
fn write_entries<F: FileSystem, O: TextOutput>(
    vfs: &mut Vfs<F>,
    entries: &Vec<DirEntry>,
    screen: &mut Screen<O>,
    Ghost(cwd): Ghost<Seq<Seq<u8>>>,
) -> (r: Result<(), VfsError>)
    requires
        old(vfs).wf(),
    ensures
        final(vfs).wf(),
        final(vfs).refused() == old(vfs).refused(),
        (
            r,
            ShellState { model: final(vfs).model(), cwd, text: final(screen).output.text() },
        ) == ls_from::<F>(
            ShellState { model: old(vfs).model(), cwd, text: old(screen).output.text() },
            listing(entries@),
            0,
        ),
{
    let ghost whole = ls_from::<F>(
        ShellState { model: vfs.model(), cwd, text: screen.output.text() },
        listing(entries@),
        0,
    );
    let mut i: usize = 0;
    while i < entries.len()
        invariant
            vfs.wf(),
            vfs.refused() == old(vfs).refused(),
            i <= entries@.len(),
            whole == ls_from::<F>(
                ShellState { model: old(vfs).model(), cwd, text: old(screen).output.text() },
                listing(entries@),
                0,
            ),
            whole == ls_from::<F>(
                ShellState { model: vfs.model(), cwd, text: screen.output.text() },
                listing(entries@),
                i as int,
            ),
        decreases entries@.len() - i,
    {
        assert(listing(entries@)[i as int] == entries@[i as int]@);
        let metadata = vfs.metadata(entries[i].node)?;
        write_entry(&mut screen.output, &entries[i], metadata.kind, metadata.len);
        i = i + 1;
    }
    Ok(())
}

/// Writes words with one space between them.
#[verifier::rlimit(30)]
fn write_words<O: TextOutput>(output: &mut O, words: &Vec<String>)
    ensures
        final(output).text() == old(output).text() + spaced(texts(words@)),
{
    let space = [SPACE; 1];
    let ghost before = output.text();
    let ghost all = texts(words@);
    assert(before + spaced(all.take(0)) =~= before);
    let mut i: usize = 0;
    while i < words.len()
        invariant
            i <= words@.len(),
            space@ == seq![SPACE],
            all == texts(words@),
            output.text() == before + spaced(all.take(i as int)),
        decreases words@.len() - i,
    {
        let ghost so_far = spaced(all.take(i as int));
        assert(all.take(i + 1).drop_last() =~= all.take(i as int));
        assert(all.take(i + 1).last() == all[i as int]);
        if i != 0 {
            output.write_bytes(&space);
            assert(output.text() =~= before + so_far.push(SPACE));
        }
        output.write_bytes(words[i].as_str().as_bytes());
        assert(output.text() =~= before + spaced(all.take(i + 1)));
        i = i + 1;
    }
    assert(all.take(words@.len() as int) =~= all);
}

/// Carries out a command.
pub(super) fn execute_command<F: FileSystem, O: TextOutput>(
    command: Command,
    vfs: &mut Vfs<F>,
    cwd: &mut Cwd,
    screen: &mut Screen<O>,
) -> (r: Result<ShellOutcome, VfsError>)
    requires
        old(vfs).wf(),
        !old(vfs).refused(),
    ensures
        final(vfs).wf(),
        executed::<F>(
            shell_state(*old(vfs), *old(cwd), *old(screen)),
            command@,
            final(vfs).refused(),
            final(vfs).refused_below(),
            r,
            shell_state(*final(vfs), *final(cwd), *final(screen)),
        ),
{
    let newline = [NEWLINE; 1];
    match command {
        Command::Help => {
            screen.output.write_bytes(HELP.as_bytes());
        },
        Command::Pwd => {
            let path = vfs.show_cwd(cwd)?;
            let ghost before = screen.output.text();
            screen.output.write_bytes(path.as_slice());
            screen.output.write_bytes(&newline);
            assert(screen.output.text() =~= before + rendered(cwd@).push(NEWLINE));
        },
        Command::Cd { path } => {
            let changed = vfs.change_dir(cwd, path.as_str())?;
            *cwd = changed;
        },
        Command::Ls { path } => {
            let entries = match &path {
                Some(path) => vfs.list(cwd, Some(path.as_str()))?,
                None => vfs.list(cwd, None)?,
            };
            write_entries(vfs, &entries, screen, Ghost(cwd@))?;
        },
        Command::Cat { path } => {
            vfs.read_file(cwd, path.as_str(), screen)?;
        },
        Command::Echo { text } => {
            let ghost before = screen.output.text();
            write_words(&mut screen.output, &text);
            screen.output.write_bytes(&newline);
            assert(screen.output.text() =~= before + spaced(texts(text@)).push(NEWLINE));
        },
        Command::Touch { path } => {
            match vfs.create_file(cwd, path.as_str()) {
                Ok(_) => {},
                Err(VfsError::Fs(FsError::AlreadyExists)) => {
                    let mut unshown = Unshown {  };
                    vfs.read_file(cwd, path.as_str(), &mut unshown)?;
                },
                Err(error) => return Err(error),
            }
        },
        Command::Write { path, text } => {
            vfs.write_file(cwd, path.as_str(), text.as_str().as_bytes())?;
        },
        Command::Append { path, text } => {
            vfs.append_file(cwd, path.as_str(), text.as_str().as_bytes())?;
        },
        Command::Mkdir { path } => {
            vfs.create_dir(cwd, path.as_str())?;
        },
        Command::Rm { path } => {
            vfs.unlink_file(cwd, path.as_str())?;
        },
        Command::Rmdir { path } => {
            vfs.remove_dir(cwd, path.as_str())?;
        },
        Command::Sync => {
            vfs.sync_fs()?;
        },
        Command::Shutdown => {
            vfs.unmount_fs()?;
            return Ok(ShellOutcome::Shutdown);
        },
    }
    Ok(ShellOutcome::Continue)
}

proof fn lemma_ls_keeps<F: FileSystem>(
    s: ShellState<F::Model>,
    entries: Seq<EntryView>,
    from: int,
)
    ensures
        ls_from::<F>(s, entries, from).1.cwd == s.cwd,
        s.text.is_prefix_of(ls_from::<F>(s, entries, from).1.text),
    decreases entries.len() - from,
{
    if from < entries.len() {
        let read = F::metadata_step(s.model, entries[from].node);
        if let Ok(metadata) = read.result {
            let next = ShellState {
                model: read.model,
                text: s.text + entry_line(entries[from].name, metadata.kind, metadata.len),
                ..s
            };
            lemma_ls_keeps::<F>(next, entries, from + 1);
            let end = ls_from::<F>(next, entries, from + 1).1;
            assert(s.text =~= end.text.subrange(0, s.text.len() as int));
        } else {
            assert(s.text =~= s.text.subrange(0, s.text.len() as int));
        }
    } else {
        assert(s.text =~= s.text.subrange(0, s.text.len() as int));
    }
}

proof fn lemma_showing_appends<F: FileSystem>(
    m: F::Model,
    node: NodeId,
    offset: int,
    len: int,
    buffer: Seq<u8>,
    text: Seq<u8>,
)
    ensures
        text.is_prefix_of(
            deliver::<F, Seq<u8>>(m, node, offset, len, buffer, showing(), text).1,
        ),
    decreases len - offset,
{
    if offset < len {
        let n = chunk(len - offset);
        let (read, piece) = F::read_at_step(m, node, offset as u64, buffer.take(n));
        if let Ok(count) = read.result {
            if 0 < count <= n {
                let next = text + shown(piece.take(count as int));
                lemma_showing_appends::<F>(
                    read.model,
                    node,
                    offset + count,
                    len,
                    piece + buffer.skip(n),
                    next,
                );
                assert(text.is_prefix_of(next));
            }
        }
    }
}

/// Only a change of directory that succeeds moves the working directory, and what was written is
/// never taken back.
pub proof fn law_only_cd_moves<F: FileSystem>(s: ShellState<F::Model>, command: CommandView)
    ensures
        ({
            let (r, t) = execute_step::<F>(s, command);
            &&& !(command is Cd && r is Ok) ==> t.cwd == s.cwd
            &&& s.text.is_prefix_of(t.text)
        }),
{
    let t = execute_step::<F>(s, command).1;
    if let CommandView::Ls { path } = command {
        let listed = list_step::<F>(s.model, s.cwd, path);
        if let Ok(entries) = listed.result {
            lemma_ls_keeps::<F>(ShellState { model: listed.model, ..s }, entries, 0);
        }
    }
    assert(s.text =~= s.text.subrange(0, s.text.len() as int));
    if let CommandView::Cat { path } = command {
        let found = regular_file::<F>(s.model, s.cwd, path);
        if let Ok((node, len)) = found.result {
            lemma_showing_appends::<F>(
                found.model,
                node,
                0,
                len as int,
                zeros(READ_BUFFER_BYTES as nat),
                s.text,
            );
        }
    } else if !(command is Ls) {
        assert(s.text =~= t.text.subrange(0, s.text.len() as int));
    }
}

proof fn lemma_shown_in_pieces(text: Seq<u8>, contents: Seq<u8>)
    ensures
        feed(showing(), text, pieces(contents)) == (
            Ok::<(), VfsError>(()),
            text + shown(contents),
        ),
    decreases contents.len(),
{
    if contents.len() > 0 {
        let n = chunk(contents.len() as int);
        let rest = contents.skip(n);
        assert(pieces(contents)[0] == contents.take(n));
        assert(pieces(contents).skip(1) =~= pieces(rest));
        lemma_shown_in_pieces(text + shown(contents.take(n)), rest);
        assert(text + shown(contents.take(n)) + shown(rest) =~= text + shown(contents));
    } else {
        assert(text + shown(contents) =~= text);
    }
}

/// `cat` shows the whole file, each byte as itself or as a question mark.
pub proof fn law_cat_shows_the_file<F: FileSystem>(
    keeps: spec_fn(F::Model) -> bool,
    contents: Seq<u8>,
    s: ShellState<F::Model>,
    path: Seq<u8>,
)
    requires
        regular_file::<F>(s.model, s.cwd, path).result matches Ok((node, len)) && len
            == contents.len() && reads_back::<F>(keeps, node, contents),
        keeps(regular_file::<F>(s.model, s.cwd, path).model),
    ensures
        ({
            let (r, t) = execute_step::<F>(s, CommandView::Cat { path });
            &&& r == Ok::<_, VfsError>(ShellOutcome::Continue)
            &&& t.text == s.text + shown(contents)
            &&& t.cwd == s.cwd
            &&& keeps(t.model)
        }),
{
    law_a_file_is_handed_over_in_pieces::<F, Seq<u8>>(
        keeps,
        contents,
        s.model,
        s.cwd,
        path,
        showing(),
        s.text,
    );
    lemma_shown_in_pieces(s.text, contents);
}

} // verus!
