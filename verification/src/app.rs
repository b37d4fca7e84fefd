//! Client session state: the input-box editor (character buffer, cursor and
//! mode), the message history, and the session operations that compose
//! outgoing frames and absorb incoming bytes. The surrounding application
//! owns the socket and the terminal: it hands key events and received bytes
//! in, and writes the returned frames out.

use vstd::prelude::*;
use crate::codec::{encode, spec_encode, spec_drain, views_of, drain_frames};
use crate::datatypes::{
    ChatMessage, InputMode, MessageType, MsgModel, UserAction, chars_to_string, copy_bytes,
    now_rfc3339, string_to_bytes, utf8_of, wf_field, wf_msg, MAX_FIELD_BYTES,
};

verus! {

/// The number of bytes one character takes in UTF-8.
pub open spec fn utf8_len(c: char) -> nat {
    if (c as u32) < 0x80 {
        1
    } else if (c as u32) < 0x800 {
        2
    } else if (c as u32) < 0x10000 {
        3
    } else {
        4
    }
}

/// The number of bytes a character sequence takes in UTF-8.
pub open spec fn utf8_len_seq(s: Seq<char>) -> nat
    decreases s.len(),
{
    if s.len() == 0 {
        0
    } else {
        utf8_len(s[0]) + utf8_len_seq(s.skip(1))
    }
}

/// UTF-8 length distributes over concatenation.
pub proof fn lemma_utf8_len_append(a: Seq<char>, b: Seq<char>)
    ensures
        utf8_len_seq(a + b) == utf8_len_seq(a) + utf8_len_seq(b),
    decreases a.len(),
{
    if a.len() == 0 {
        assert(a + b =~= b);
    } else {
        assert((a + b).skip(1) =~= a.skip(1) + b);
        lemma_utf8_len_append(a.skip(1), b);
    }
}

/// A shorter prefix takes no more UTF-8 bytes than a longer one.
pub proof fn lemma_utf8_len_prefix(s: Seq<char>, i: int, j: int)
    requires
        0 <= i <= j <= s.len(),
    ensures
        utf8_len_seq(s.take(i)) <= utf8_len_seq(s.take(j)),
{
    assert(s.take(j) =~= s.take(i) + s.take(j).skip(i));
    lemma_utf8_len_append(s.take(i), s.take(j).skip(i));
}

/// One editor operation, as the cursor-safety law quantifies over them.
pub ghost enum EditOp {
    MoveLeft,
    MoveRight,
    Insert(char),
    Delete,
}

/// The (buffer length, cursor) pair after one editor operation.
pub open spec fn apply_edit(len: nat, cursor: nat, op: EditOp) -> (nat, nat) {
    match op {
        EditOp::MoveLeft => (
            len,
            if cursor > 0 {
                (cursor - 1) as nat
            } else {
                0nat
            },
        ),
        EditOp::MoveRight => (
            len,
            if cursor < len {
                cursor + 1
            } else {
                len
            },
        ),
        EditOp::Insert(_) => if len < usize::MAX as nat {
            (len + 1, cursor + 1)
        } else {
            (len, cursor)
        },
        EditOp::Delete => if cursor > 0 && len > 0 {
            ((len - 1) as nat, (cursor - 1) as nat)
        } else {
            (len, cursor)
        },
    }
}

/// The editor state after a sequence of operations, applied in order.
pub open spec fn apply_edits(len: nat, cursor: nat, ops: Seq<EditOp>) -> (nat, nat)
    decreases ops.len(),
{
    if ops.len() == 0 {
        (len, cursor)
    } else {
        let st = apply_edit(len, cursor, ops[0]);
        apply_edits(st.0, st.1, ops.skip(1))
    }
}

/// Cursor-safety law: from any editor state with the cursor inside the
/// buffer, every prefix of any sequence of cursor moves, insertions and
/// deletions leaves the cursor inside the buffer. Each editor method's
/// contract says it performs `apply_edit` of its operation, so the law
/// covers the executable editor at every step.
pub proof fn lemma_cursor_in_range(len: nat, cursor: nat, ops: Seq<EditOp>, i: int)
    requires
        cursor <= len,
        0 <= i <= ops.len(),
    ensures
        ({
            let st = apply_edits(len, cursor, ops.take(i));
            st.1 <= st.0
        }),
    decreases i,
{
    if i > 0 {
        let st0 = apply_edit(len, cursor, ops[0]);
        assert(st0.1 <= st0.0);
        assert(ops.take(i)[0] == ops[0]);
        assert(ops.take(i).skip(1) =~= ops.skip(1).take(i - 1));
        lemma_cursor_in_range(st0.0, st0.1, ops.skip(1), i - 1);
    } else {
        assert(ops.take(0) =~= Seq::<EditOp>::empty());
    }
}

/// The (buffer length, cursor) pair of a session's editor.
pub open spec fn editor_state(a: App) -> (nat, nat) {
    (a.input@.len(), a.character_index as nat)
}

/// State of one client session: the input editor, the user's handle, the
/// received-message history and the decode buffer of its connection.
pub struct App {
    /// Characters currently in the input box.
    pub input: Vec<char>,
    /// Cursor position in the input box, in characters.
    pub character_index: usize,
    /// Whether the input box is being browsed or edited.
    pub input_mode: InputMode,
    /// History of received messages, in arrival order.
    pub messages: Vec<ChatMessage>,
    /// The user's handle, as UTF-8 bytes.
    pub username: Vec<u8>,
    /// Accumulating decode buffer for bytes read from the socket.
    pub recv_buf: Vec<u8>,
    /// Set once the connection is known lost (a malformed frame arrived).
    pub disconnected: bool,
}

impl App {
    /// The editor invariant: the cursor stays within the buffer.
    pub open spec fn wf(&self) -> bool {
        self.character_index <= self.input@.len()
    }

    /// Everything outside the editor (history, handle, connection state) is
    /// the same in both session states.
    pub open spec fn same_session(pre: App, post: App) -> bool {
        &&& post.messages@ == pre.messages@
        &&& post.username@ == pre.username@
        &&& post.recv_buf@ == pre.recv_buf@
        &&& post.disconnected == pre.disconnected
    }

    /// A fresh session for the given handle: empty input box in normal
    /// mode, no history, nothing buffered.
    pub fn new(user: String) -> (r: App)
        ensures
            r.wf(),
            r.input@ == Seq::<char>::empty(),
            r.character_index == 0,
            r.input_mode == InputMode::Normal,
            r.messages@ == Seq::<ChatMessage>::empty(),
            r.username@ == utf8_of(user@),
            r.recv_buf@ == Seq::<u8>::empty(),
            !r.disconnected,
    {
        App {
            input: Vec::new(),
            character_index: 0,
            input_mode: InputMode::Normal,
            messages: Vec::new(),
            username: string_to_bytes(&user),
            recv_buf: Vec::new(),
            disconnected: false,
        }
    }

    /// Clamps a cursor position to the buffer.
    pub fn clamp_cursor(&self, new_cursor_pos: usize) -> (r: usize)
        ensures
            r == (if new_cursor_pos <= self.input@.len() {
                new_cursor_pos as int
            } else {
                self.input@.len() as int
            }),
    {
        if new_cursor_pos <= self.input.len() {
            new_cursor_pos
        } else {
            self.input.len()
        }
    }

    /// Moves the cursor one character left, clamped at the start.
    pub fn move_cursor_left(&mut self)
        requires
            old(self).wf(),
        ensures
            final(self).wf(),
            final(self).input@ == old(self).input@,
            final(self).input_mode == old(self).input_mode,
            Self::same_session(*old(self), *final(self)),
            final(self).character_index == (if old(self).character_index > 0 {
                old(self).character_index - 1
            } else {
                0int
            }),
            editor_state(*final(self)) == apply_edit(
                editor_state(*old(self)).0,
                editor_state(*old(self)).1,
                EditOp::MoveLeft,
            ),
    {
        let moved = if self.character_index > 0 {
            self.character_index - 1
        } else {
            0
        };
        self.character_index = self.clamp_cursor(moved);
    }

    /// Moves the cursor one character right, clamped at the end.
    pub fn move_cursor_right(&mut self)
        requires
            old(self).wf(),
        ensures
            final(self).wf(),
            final(self).input@ == old(self).input@,
            final(self).input_mode == old(self).input_mode,
            Self::same_session(*old(self), *final(self)),
            final(self).character_index == (if old(self).character_index < old(self).input@.len() {
                old(self).character_index + 1
            } else {
                old(self).input@.len() as int
            }),
            editor_state(*final(self)) == apply_edit(
                editor_state(*old(self)).0,
                editor_state(*old(self)).1,
                EditOp::MoveRight,
            ),
    {
        let n = self.input.len();
        let moved = if self.character_index < n {
            self.character_index + 1
        } else {
            self.character_index
        };
        self.character_index = self.clamp_cursor(moved);
    }

    /// Resets the cursor to the start of the input box.
    pub fn reset_cursor(&mut self)
        ensures
            *final(self) == (App { character_index: 0, ..*old(self) }),
    {
        self.character_index = 0;
    }

    /// Inserts a character at the cursor and moves the cursor right. The
    /// one machine limit: a buffer already holding `usize::MAX` characters
    /// (impossible to allocate) is left unchanged.
    pub fn enter_char(&mut self, new_char: char)
        requires
            old(self).wf(),
        ensures
            final(self).wf(),
            final(self).input_mode == old(self).input_mode,
            Self::same_session(*old(self), *final(self)),
            old(self).input@.len() < usize::MAX ==> final(self).input@
                == old(self).input@.insert(old(self).character_index as int, new_char)
                && final(self).character_index == old(self).character_index + 1,
            old(self).input@.len() >= usize::MAX ==> final(self).input@ == old(self).input@
                && final(self).character_index == old(self).character_index,
            editor_state(*final(self)) == apply_edit(
                editor_state(*old(self)).0,
                editor_state(*old(self)).1,
                EditOp::Insert(new_char),
            ),
    {
        if self.input.len() < usize::MAX {
            let index = self.character_index;
            self.input.insert(index, new_char);
            self.move_cursor_right();
        }
    }

    /// The byte position of the cursor in the UTF-8 form of the buffer.
    /// Each character can take several bytes, so the byte index is computed
    /// from the character index. The one precondition is the machine limit:
    /// a byte index must fit `usize`.
    pub fn byte_index(&mut self) -> (r: usize)
        requires
            old(self).wf(),
            utf8_len_seq(old(self).input@.take(old(self).character_index as int)) <= usize::MAX,
        ensures
            *final(self) == *old(self),
            r == utf8_len_seq(old(self).input@.take(old(self).character_index as int)),
    {
        let mut acc: usize = 0;
        let mut i: usize = 0;
        proof {
            assert(self.input@.take(0) =~= Seq::<char>::empty());
        }
        while i < self.character_index
            invariant
                self.wf(),
                self == old(self),
                i <= self.character_index,
                acc == utf8_len_seq(self.input@.take(i as int)),
                utf8_len_seq(self.input@.take(self.character_index as int)) <= usize::MAX,
            decreases self.character_index - i,
        {
            let c = self.input[i];
            let u = c as u32;
            let clen: usize = if u < 0x80 {
                1
            } else if u < 0x800 {
                2
            } else if u < 0x10000 {
                3
            } else {
                4
            };
            proof {
                lemma_utf8_len_append(self.input@.take(i as int), seq![c]);
                assert(self.input@.take(i as int + 1) =~= self.input@.take(i as int) + seq![c]);
                assert(utf8_len_seq(seq![c]) == utf8_len(c)) by {
                    assert(seq![c].skip(1) =~= Seq::<char>::empty());
                    assert(utf8_len_seq(Seq::<char>::empty()) == 0);
                }
                lemma_utf8_len_prefix(self.input@, i as int + 1, self.character_index as int);
            }
            acc = acc + clen;
            i += 1;
        }
        acc
    }

    /// Removes the character before the cursor and moves the cursor left; a
    /// no-op with the cursor at the start.
    pub fn delete_char(&mut self)
        requires
            old(self).wf(),
        ensures
            final(self).wf(),
            final(self).input_mode == old(self).input_mode,
            Self::same_session(*old(self), *final(self)),
            old(self).character_index > 0 ==> final(self).input@ == old(self).input@.remove(
                old(self).character_index - 1,
            ) && final(self).character_index == old(self).character_index - 1,
            old(self).character_index == 0 ==> final(self).input@ == old(self).input@
                && final(self).character_index == 0,
            editor_state(*final(self)) == apply_edit(
                editor_state(*old(self)).0,
                editor_state(*old(self)).1,
                EditOp::Delete,
            ),
    {
        let is_not_cursor_leftmost = self.character_index != 0;
        if is_not_cursor_leftmost {
            self.move_cursor_left();
            let _ = self.input.remove(self.character_index);
        }
    }

    /// Builds the chat message for the current buffer, stamped with the
    /// current clock time, succeeding whenever the handle and the buffer's
    /// UTF-8 form are within the codec's bounds.
    fn build_rich_message(&mut self) -> (r: Option<ChatMessage>)
        requires
            old(self).wf(),
        ensures
            *final(self) == *old(self),
            r matches Some(m) ==> m.wf() && m@.user == old(self).username@ && m@.message
                == utf8_of(old(self).input@) && m@.kind == MessageType::Chat,
            wf_field(old(self).username@) && wf_field(utf8_of(old(self).input@)) ==> r is Some,
    {
        let text = chars_to_string(&self.input);
        let message_bytes = string_to_bytes(&text);
        let user_bytes = copy_bytes(&self.username);
        let time = now_rfc3339();
        ChatMessage::with_time(time, user_bytes, message_bytes, MessageType::Chat)
    }

    /// Composes the current buffer into a chat message, appends it to this
    /// session's own history (the broker never echoes a frame back to its
    /// sender), clears the buffer, resets the cursor, and returns the frame
    /// to write to the socket. It succeeds whenever the handle and the
    /// buffer's UTF-8 form are within the codec's bounds; `None` leaves the
    /// session unchanged. The caller treats a failed socket write as fatal
    /// to the session.
    pub fn submit_message(&mut self) -> (r: Option<Vec<u8>>)
        requires
            old(self).wf(),
        ensures
            final(self).wf(),
            wf_field(old(self).username@) && wf_field(utf8_of(old(self).input@)) ==> r is Some,
            r is None ==> *final(self) == *old(self),
            r matches Some(frame) ==> ({
                let mm = final(self).messages@.last()@;
                &&& final(self).messages@.len() == old(self).messages@.len() + 1
                &&& final(self).messages@.take(old(self).messages@.len() as int) == old(self).messages@
                &&& wf_msg(mm)
                &&& mm.user == old(self).username@
                &&& mm.message == utf8_of(old(self).input@)
                &&& mm.kind == MessageType::Chat
                &&& frame@ == spec_encode(mm)
                &&& final(self).input@ == Seq::<char>::empty()
                &&& final(self).character_index == 0
                &&& final(self).input_mode == old(self).input_mode
                &&& final(self).username@ == old(self).username@
                &&& final(self).recv_buf@ == old(self).recv_buf@
                &&& final(self).disconnected == old(self).disconnected
            }),
    {
        match self.build_rich_message() {
            None => None,
            Some(message) => {
                let ghost pre_msgs = self.messages@;
                let frame = encode(&message);
                self.messages.push(message);
                self.input = Vec::new();
                self.character_index = 0;
                proof {
                    assert(self.messages@.take(pre_msgs.len() as int) =~= pre_msgs);
                }
                Some(frame)
            },
        }
    }

    /// Builds the announcement text `-=[<user> has joined!]=-` or
    /// `-=[<user> has left!]=-`.
    fn presence_bytes(&self, action: UserAction) -> (r: Vec<u8>)
        ensures
            r@ == presence_text(self.username@, action),
    {
        let mut t: Vec<u8> = vec![0x2d, 0x3d, 0x5b];
        t.extend_from_slice(self.username.as_slice());
        let mut suf: Vec<u8> = match action {
            UserAction::Join => vec![
                0x20,
                0x68,
                0x61,
                0x73,
                0x20,
                0x6a,
                0x6f,
                0x69,
                0x6e,
                0x65,
                0x64,
                0x21,
                0x5d,
                0x3d,
                0x2d,
            ],
            UserAction::Leave => vec![
                0x20,
                0x68,
                0x61,
                0x73,
                0x20,
                0x6c,
                0x65,
                0x66,
                0x74,
                0x21,
                0x5d,
                0x3d,
                0x2d,
            ],
        };
        t.append(&mut suf);
        proof {
            assert(t@ =~= presence_text(self.username@, action));
        }
        t
    }

    /// Composes the frame of a presence announcement (sent once on session
    /// start and once on graceful shutdown), succeeding whenever the handle
    /// is clean and short enough for the announcement text to fit a field.
    /// The session state is untouched: announcements do not enter this
    /// session's own history.
    pub fn send_system_message(&mut self, action: UserAction) -> (r: Option<Vec<u8>>)
        requires
            old(self).wf(),
        ensures
            *final(self) == *old(self),
            r matches Some(frame) ==> is_presence_frame(old(self).username@, action, frame@),
            wf_field(old(self).username@) && old(self).username@.len() + 18 <= MAX_FIELD_BYTES
                ==> r is Some,
    {
        let text = self.presence_bytes(action);
        proof {
            if wf_field(self.username@) && self.username@.len() + 18 <= MAX_FIELD_BYTES {
                lemma_presence_bytes(action);
                assert(wf_field(text@)) by {
                    let p = presence_prefix();
                    let u = self.username@;
                    let suf = presence_suffix(action);
                    assert forall|i: int| 0 <= i < text@.len() implies text@[i] >= 0x20 by {
                        if i < p.len() {
                            assert(text@[i] == p[i]);
                        } else if i < p.len() + u.len() {
                            assert(text@[i] == u[i - p.len()]);
                        } else {
                            assert(text@[i] == suf[i - p.len() - u.len()]);
                        }
                    }
                }
            }
        }
        let user_bytes = copy_bytes(&self.username);
        let time = now_rfc3339();
        let ghost tt = time@;
        match ChatMessage::with_time(time, user_bytes, text, MessageType::System) {
            None => None,
            Some(msg) => {
                let frame = encode(&msg);
                proof {
                    assert(presence_frame_ok(old(self).username@, action, frame@, tt));
                    assert(is_presence_frame(old(self).username@, action, frame@));
                }
                Some(frame)
            },
        }
    }

    /// Performs the receive half of one tick: appends the bytes just read
    /// to the decode buffer, decodes every complete frame, and appends the
    /// messages to the history in arrival order. A malformed frame marks
    /// the session disconnected; the editor is untouched.
    pub fn update_message_queue(&mut self, data: &Vec<u8>)
        requires
            old(self).wf(),
        ensures
            final(self).wf(),
            ({
                let d = spec_drain(old(self).recv_buf@ + data@);
                &&& final(self).recv_buf@ == d.rest
                &&& views_of(final(self).messages@) == views_of(old(self).messages@) + d.msgs
                &&& final(self).disconnected == (old(self).disconnected || d.malformed)
            }),
            final(self).input@ == old(self).input@,
            final(self).character_index == old(self).character_index,
            final(self).input_mode == old(self).input_mode,
            final(self).username@ == old(self).username@,
    {
        let (mut msgs, malformed) = drain_frames(&mut self.recv_buf, data);
        let ghost pre_msgs = self.messages@;
        let ghost new_msgs = msgs@;
        self.messages.append(&mut msgs);
        proof {
            assert(views_of(self.messages@) =~= views_of(pre_msgs) + views_of(new_msgs));
        }
        if malformed {
            self.disconnected = true;
        }
    }

    /// Dispatches one key event exactly as the session loop does: in normal
    /// mode `e` starts editing and `q` quits; in editing mode characters,
    /// backspace and the arrows edit the buffer, enter asks the caller to
    /// submit, and escape returns to normal mode.
    pub fn handle_key(&mut self, key: KeyInput) -> (r: KeyOutcome)
        requires
            old(self).wf(),
        ensures
            final(self).wf(),
            (r == KeyOutcome::Quit) == (old(self).input_mode == InputMode::Normal && key
                == KeyInput::Char('q')),
            (r == KeyOutcome::Submit) == (old(self).input_mode == InputMode::Editing && key
                == KeyInput::Enter),
            final(self).input_mode == (if old(self).input_mode == InputMode::Normal && key
                == KeyInput::Char('e') {
                InputMode::Editing
            } else if old(self).input_mode == InputMode::Editing && key == KeyInput::Esc {
                InputMode::Normal
            } else {
                old(self).input_mode
            }),
            Self::same_session(*old(self), *final(self)),
            key matches KeyInput::Char(c) ==> old(self).input_mode == InputMode::Editing ==> (
            if old(self).input@.len() < usize::MAX {
                final(self).input@ == old(self).input@.insert(
                    old(self).character_index as int,
                    c,
                ) && final(self).character_index == old(self).character_index + 1
            } else {
                final(self).input@ == old(self).input@ && final(self).character_index == old(self).character_index
            }),
            old(self).input_mode == InputMode::Editing && key == KeyInput::Backspace ==> (if old(self).character_index > 0 {
                final(self).input@ == old(self).input@.remove(old(self).character_index - 1)
                    && final(self).character_index == old(self).character_index - 1
            } else {
                final(self).input@ == old(self).input@ && final(self).character_index == 0
            }),
            old(self).input_mode == InputMode::Editing && key == KeyInput::Left ==> final(self).input@ == old(self).input@ && final(self).character_index == (if old(self).character_index > 0 {
                old(self).character_index - 1
            } else {
                0int
            }),
            old(self).input_mode == InputMode::Editing && key == KeyInput::Right ==> final(self).input@ == old(self).input@ && final(self).character_index == (if old(self).character_index < old(self).input@.len() {
                old(self).character_index + 1
            } else {
                old(self).input@.len() as int
            }),
            !(old(self).input_mode == InputMode::Editing && (key matches KeyInput::Char(_) || key
                == KeyInput::Backspace || key == KeyInput::Left || key == KeyInput::Right)) ==> (
            final(self).input@ == old(self).input@ && final(self).character_index == old(self).character_index),
    {
        match self.input_mode {
            InputMode::Normal => match key {
                KeyInput::Char(c) => {
                    if c == 'e' {
                        self.input_mode = InputMode::Editing;
                        KeyOutcome::Continue
                    } else if c == 'q' {
                        KeyOutcome::Quit
                    } else {
                        KeyOutcome::Continue
                    }
                },
                _ => KeyOutcome::Continue,
            },
            InputMode::Editing => match key {
                KeyInput::Enter => KeyOutcome::Submit,
                KeyInput::Char(c) => {
                    self.enter_char(c);
                    KeyOutcome::Continue
                },
                KeyInput::Backspace => {
                    self.delete_char();
                    KeyOutcome::Continue
                },
                KeyInput::Left => {
                    self.move_cursor_left();
                    KeyOutcome::Continue
                },
                KeyInput::Right => {
                    self.move_cursor_right();
                    KeyOutcome::Continue
                },
                KeyInput::Esc => {
                    self.input_mode = InputMode::Normal;
                    KeyOutcome::Continue
                },
                KeyInput::Other => KeyOutcome::Continue,
            },
        }
    }
}

/// One key press, as the session receives it from the terminal layer.
#[derive(Clone, Copy, PartialEq, Eq, Structural, Debug)]
pub enum KeyInput {
    Char(char),
    Enter,
    Backspace,
    Left,
    Right,
    Esc,
    Other,
}

/// What the session loop must do after dispatching one key.
#[derive(Clone, Copy, PartialEq, Eq, Structural, Debug)]
pub enum KeyOutcome {
    Continue,
    Quit,
    Submit,
}

/// The literal `-=[` opening a presence announcement.
pub open spec fn presence_prefix() -> Seq<u8> {
    seq![0x2du8, 0x3du8, 0x5bu8]
}

/// The closing of a presence announcement for each event.
pub open spec fn presence_suffix(action: UserAction) -> Seq<u8> {
    match action {
        UserAction::Join => seq![
            0x20u8,
            0x68u8,
            0x61u8,
            0x73u8,
            0x20u8,
            0x6au8,
            0x6fu8,
            0x69u8,
            0x6eu8,
            0x65u8,
            0x64u8,
            0x21u8,
            0x5du8,
            0x3du8,
            0x2du8,
        ],
        UserAction::Leave => seq![
            0x20u8,
            0x68u8,
            0x61u8,
            0x73u8,
            0x20u8,
            0x6cu8,
            0x65u8,
            0x66u8,
            0x74u8,
            0x21u8,
            0x5du8,
            0x3du8,
            0x2du8,
        ],
    }
}

/// The full text of a presence announcement.
pub open spec fn presence_text(user: Seq<u8>, action: UserAction) -> Seq<u8> {
    presence_prefix() + user + presence_suffix(action)
}

/// The fixed parts of a presence announcement are short printable ASCII.
proof fn lemma_presence_bytes(action: UserAction)
    ensures
        presence_prefix().len() == 3,
        presence_suffix(action).len() <= 15,
        forall|i: int| 0 <= i < presence_prefix().len() ==> presence_prefix()[i] >= 0x20,
        forall|i: int|
            0 <= i < presence_suffix(action).len() ==> presence_suffix(action)[i] >= 0x20,
{
    match action {
        UserAction::Join => {},
        UserAction::Leave => {},
    }
}

/// A frame carrying a presence announcement from `user`, stamped with some
/// clock text.
pub open spec fn is_presence_frame(user: Seq<u8>, action: UserAction, frame: Seq<u8>) -> bool {
    exists|t: Seq<u8>| presence_frame_ok(user, action, frame, t)
}

/// The frame of a presence announcement: a well-formed `System` message
/// from `user` whose body is the announcement text, stamped with the
/// clock text `t`.
pub open spec fn presence_frame_ok(
    user: Seq<u8>,
    action: UserAction,
    frame: Seq<u8>,
    t: Seq<u8>,
) -> bool {
    let mm = MsgModel {
        time: t,
        user: user,
        message: presence_text(user, action),
        kind: MessageType::System,
    };
    wf_msg(mm) && frame == spec_encode(mm)
}

} // verus!
