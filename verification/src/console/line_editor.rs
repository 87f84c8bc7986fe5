//! Editing one line of input.
use vstd::prelude::*;
use vstd::utf8::encode_utf8;

use crate::heap::Heap;
use crate::text::{ascii, ascii_str, ascii_string, text_bytes};

use super::TextOutput;

verus! {

#[derive(Clone, Copy, Debug, PartialEq, Eq, Structural)]
pub enum Key {
    Printable(u8),
    Backspace,
    Enter,
    Left,
    Right,
}

/// What a key did.
#[derive(Debug, PartialEq, Eq)]
pub enum EditAction {
    Redraw,
    Submitted(String),
    Ignored,
}

/// A line that is being edited.
pub struct LineEditor {
    buffer: Vec<u8>,
    cursor: usize,
    capacity: usize,
    submitted: Option<String>,
    heap: Heap,
}

/// The model of an editor: the line, the place in it where keys act, the length that the line
/// may have, and the last line that was submitted and not taken.
pub struct EditorState {
    pub line: Seq<u8>,
    pub cursor: int,
    pub capacity: int,
    pub submitted: Option<Seq<u8>>,
}

/// A byte that may stand in a line.
pub open spec fn printable(byte: u8) -> bool {
    0x20 <= byte <= 0x7e
}

impl EditorState {
    /// The cursor is in the line, which holds printable bytes.
    pub open spec fn wf(self) -> bool {
        &&& 0 <= self.cursor <= self.line.len()
        &&& forall|i: int| 0 <= i < self.line.len() ==> printable(#[trigger] self.line[i])
    }

    /// The editor after a key, and what the key did; `None` stands for a key that was ignored.
    pub open spec fn after(self, key: Key) -> Option<EditorState> {
        match key {
            Key::Printable(byte) => if printable(byte) && self.line.len() < self.capacity {
                Some(
                    EditorState {
                        line: self.line.insert(self.cursor, byte),
                        cursor: self.cursor + 1,
                        ..self
                    },
                )
            } else {
                None
            },
            Key::Backspace => if self.cursor > 0 {
                Some(
                    EditorState {
                        line: self.line.remove(self.cursor - 1),
                        cursor: self.cursor - 1,
                        ..self
                    },
                )
            } else {
                None
            },
            Key::Left => if self.cursor > 0 {
                Some(EditorState { cursor: self.cursor - 1, ..self })
            } else {
                None
            },
            Key::Right => if self.cursor < self.line.len() {
                Some(EditorState { cursor: self.cursor + 1, ..self })
            } else {
                None
            },
            Key::Enter => Some(
                EditorState {
                    line: Seq::empty(),
                    cursor: 0,
                    capacity: self.capacity,
                    submitted: Some(self.line),
                },
            ),
        }
    }
}

/// What a key does, where there is room for one byte more, or there is not: it is ignored and
/// changes nothing, or it leads to the next state. Enter gives the line.
pub open spec fn pressed(
    before: EditorState,
    key: Key,
    room: bool,
    action: EditAction,
    after: EditorState,
) -> bool {
    match before.after(key) {
        Some(next) => if key is Printable && !room {
            action == EditAction::Ignored && after == before
        } else {
            &&& after == next
            &&& match action {
                EditAction::Submitted(text) => key is Enter && text_bytes(text) == before.line,
                EditAction::Redraw => !(key is Enter),
                EditAction::Ignored => false,
            }
        },
        None => action == EditAction::Ignored && after == before,
    }
}

impl LineEditor {
    /// The model of the editor.
    pub closed spec fn state(&self) -> EditorState {
        EditorState {
            line: self.buffer@,
            cursor: self.cursor as int,
            capacity: self.capacity as int,
            submitted: match self.submitted {
                Some(text) => Some(text_bytes(text)),
                None => None,
            },
        }
    }

    pub open spec fn wf(&self) -> bool {
        self.state().wf()
    }

    /// Memory was refused for the last key.
    pub closed spec fn refused(&self) -> bool {
        self.heap.refused()
    }

    /// An empty line of at most `capacity` bytes.
    pub fn new(capacity: usize) -> (editor: LineEditor)
        ensures
            editor.wf(),
            editor.state() == (EditorState {
                line: Seq::empty(),
                cursor: 0,
                capacity: capacity as int,
                submitted: None,
            }),
    {
        LineEditor { buffer: Vec::new(), cursor: 0, capacity, submitted: None, heap: Heap::new() }
    }

    /// Takes a key. A printable key that would be taken is ignored where memory is refused for it.
    pub fn handle_key(&mut self, key: Key) -> (action: EditAction)
        requires
            old(self).wf(),
        ensures
            final(self).wf(),
            final(self).refused() ==> key is Printable && old(self).state().after(key) is Some,
            pressed(
                old(self).state(),
                key,
                !final(self).refused(),
                action,
                final(self).state(),
            ),
    {
        self.heap = Heap::new();
        let room = match key {
            Key::Printable(byte) => if self.takes(byte) {
                self.heap.reserve(&mut self.buffer, 1)
            } else {
                true
            },
            _ => true,
        };
        self.press(key, room)
    }

    /// Whether a byte may stand in the line and the line is not full.
    fn takes(&self, byte: u8) -> (r: bool)
        ensures
            r == (self.state().after(Key::Printable(byte)) is Some),
    {
        0x20 <= byte && byte <= 0x7e && self.buffer.len() < self.capacity
    }

    /// Puts a byte where the cursor is, if it may stand in the line, the line is not full, and there
    /// is room for it.
    pub fn insert_byte(&mut self, byte: u8, room: bool) -> (action: EditAction)
        requires
            old(self).wf(),
        ensures
            final(self).wf(),
            match old(self).state().after(Key::Printable(byte)) {
                Some(next) => if room {
                    action == EditAction::Redraw && final(self).state() == next
                } else {
                    action == EditAction::Ignored && final(self).state() == old(self).state()
                },
                None => action == EditAction::Ignored && final(self).state() == old(self).state(),
            },
            final(self).refused() == old(self).refused(),
    {
        let ghost before = self.state();
        if !self.takes(byte) || !room {
            return EditAction::Ignored;
        }
        self.buffer.insert(self.cursor, byte);
        self.cursor = self.cursor + 1;
        assert(self.state().wf()) by {
            assert forall|i: int| 0 <= i < self.buffer@.len() implies printable(
                #[trigger] self.buffer@[i],
            ) by {
                if i < before.cursor {
                    assert(self.buffer@[i] == before.line[i]);
                } else if i > before.cursor {
                    assert(self.buffer@[i] == before.line[i - 1]);
                }
            }
        }
        EditAction::Redraw
    }

    /// Takes a key, where there is room for one byte more, or there is not.
    pub fn press(&mut self, key: Key, room: bool) -> (action: EditAction)
        requires
            old(self).wf(),
        ensures
            final(self).wf(),
            pressed(old(self).state(), key, room, action, final(self).state()),
            final(self).refused() == old(self).refused(),
    {
        let ghost before = self.state();
        match key {
            Key::Printable(byte) => self.insert_byte(byte, room),
            Key::Backspace => {
                if self.cursor == 0 {
                    EditAction::Ignored
                } else {
                    self.cursor = self.cursor - 1;
                    let _removed: u8 = self.buffer.remove(self.cursor);
                    assert forall|i: int| 0 <= i < self.buffer@.len() implies printable(
                        #[trigger] self.buffer@[i],
                    ) by {
                        if i < before.cursor - 1 {
                            assert(self.buffer@[i] == before.line[i]);
                        } else {
                            assert(self.buffer@[i] == before.line[i + 1]);
                        }
                    }
                    EditAction::Redraw
                }
            },
            Key::Left => {
                if self.cursor == 0 {
                    EditAction::Ignored
                } else {
                    self.cursor = self.cursor - 1;
                    EditAction::Redraw
                }
            },
            Key::Right => {
                if self.cursor == self.buffer.len() {
                    EditAction::Ignored
                } else {
                    self.cursor = self.cursor + 1;
                    EditAction::Redraw
                }
            },
            Key::Enter => {
                let mut line: Vec<u8> = Vec::new();
                line.append(&mut self.buffer);
                assert(line@ =~= before.line);
                assert(ascii(line@));
                let text = ascii_string(line);
                self.cursor = 0;
                self.submitted = Some(text.clone());
                EditAction::Submitted(text)
            },
        }
    }

    /// The line as it stands.
    pub fn line(&self) -> (line: &str)
        requires
            self.wf(),
        ensures
            encode_utf8(line@) == self.state().line,
    {
        assert(ascii(self.buffer@));
        ascii_str(self.buffer.as_slice())
    }

    /// Takes the last line that was submitted.
    pub fn take_submitted(&mut self) -> (text: Option<String>)
        ensures
            final(self).state() == (EditorState { submitted: None, ..old(self).state() }),
            match text {
                Some(text) => old(self).state().submitted == Some(text_bytes(text)),
                None => old(self).state().submitted is None,
            },
    {
        self.submitted.take()
    }
}

/// Writes the prompt and the line.
pub fn redraw<O: TextOutput>(output: &mut O, prompt: &[u8], line: &str)
    ensures
        final(output).text() == old(output).text() + prompt@ + encode_utf8(line@),
{
    output.write_bytes(prompt);
    output.write_bytes(line.as_bytes());
}

/// A key and its undoing: after a printable key that was taken, a backspace restores the line.
pub proof fn law_backspace_undoes_a_key(state: EditorState, byte: u8)
    requires
        state.wf(),
        printable(byte),
        state.line.len() < state.capacity,
    ensures
        state.after(Key::Printable(byte)) matches Some(typed) && typed.after(Key::Backspace) == Some(
            state,
        ),
{
    let typed = state.after(Key::Printable(byte))->0;
    assert(typed.line.remove(typed.cursor - 1) =~= state.line);
}

/// No key makes the line longer than its capacity.
pub proof fn law_capacity_is_kept(state: EditorState, key: Key)
    requires
        state.wf(),
        state.line.len() <= state.capacity,
    ensures
        state.after(key) matches Some(next) ==> next.capacity == state.capacity && next.line.len()
            <= next.capacity && next.wf(),
{
    if let Some(next) = state.after(key) {
        assert forall|i: int| 0 <= i < next.line.len() implies printable(#[trigger] next.line[i]) by {
            match key {
                Key::Printable(_) => {
                    if i < state.cursor {
                        assert(next.line[i] == state.line[i]);
                    } else if i > state.cursor {
                        assert(next.line[i] == state.line[i - 1]);
                    }
                },
                Key::Backspace => {
                    if i < state.cursor - 1 {
                        assert(next.line[i] == state.line[i]);
                    } else {
                        assert(next.line[i] == state.line[i + 1]);
                    }
                },
                _ => {},
            }
        }
    }
}

} // verus!
