//! Message data model: the typed chat message, its well-formedness bounds,
//! and the trusted bridges that turn outside values (clock time, UTF-8 text)
//! into the plain bytes the verified logic works on.

use vstd::prelude::*;

verus! {

/// Whether the input box is being browsed or edited.
#[derive(Clone, Copy, PartialEq, Eq, Structural, Debug)]
pub enum InputMode {
    Normal,
    Editing,
}

/// A presence event a session announces on start and on graceful shutdown.
#[derive(Clone, Copy, PartialEq, Eq, Structural, Debug)]
pub enum UserAction {
    Join,
    Leave,
}

/// Severity tag available to system notices.
#[derive(Clone, Copy, PartialEq, Eq, Structural, Debug)]
pub enum SystemMessageStatus {
    Error,
    Information,
}

/// The kind of a chat message on the wire.
#[derive(Clone, Copy, PartialEq, Eq, Structural, Debug)]
pub enum MessageType {
    Chat,
    System,
}

/// Commands a session may carry besides plain chat.
#[derive(Clone, Copy, PartialEq, Eq, Structural, Debug)]
pub enum CommandType {
    Rename,
}

/// Upper bound on the byte length of each text field of a message.
pub const MAX_FIELD_BYTES: usize = 65535;

/// Mathematical model of one chat message: every text field as the sequence
/// of its UTF-8 bytes.
pub ghost struct MsgModel {
    pub time: Seq<u8>,
    pub user: Seq<u8>,
    pub message: Seq<u8>,
    pub kind: MessageType,
}

/// A text field fits a frame and needs no control-character escapes: bounded
/// length, no byte below 0x20.
pub open spec fn wf_field(f: Seq<u8>) -> bool {
    &&& f.len() <= MAX_FIELD_BYTES
    &&& forall|i: int| 0 <= i < f.len() ==> f[i] >= 0x20
}

/// A message whose three text fields are all well formed.
pub open spec fn wf_msg(m: MsgModel) -> bool {
    wf_field(m.time) && wf_field(m.user) && wf_field(m.message)
}

/// One chat message: creation time as RFC 3339 text, sender name and body as
/// UTF-8 bytes, and its kind. Immutable once constructed.
pub struct ChatMessage {
    pub time: Vec<u8>,
    pub user: Vec<u8>,
    pub message: Vec<u8>,
    pub msg_type: MessageType,
}

impl View for ChatMessage {
    type V = MsgModel;

    open spec fn view(&self) -> MsgModel {
        MsgModel {
            time: self.time@,
            user: self.user@,
            message: self.message@,
            kind: self.msg_type,
        }
    }
}

impl ChatMessage {
    /// The message's fields are within the bounds the codec can frame.
    pub open spec fn wf(&self) -> bool {
        wf_msg(self@)
    }

    /// Builds a message from explicit field values; rejects exactly those
    /// whose text fields are oversized or hold control bytes.
    pub fn with_time(
        time: Vec<u8>,
        user: Vec<u8>,
        message: Vec<u8>,
        msg_type: MessageType,
    ) -> (r: Option<ChatMessage>)
        ensures
            r is Some <==> wf_field(time@) && wf_field(user@) && wf_field(message@),
            r matches Some(m) ==> m@ == (MsgModel {
                time: time@,
                user: user@,
                message: message@,
                kind: msg_type,
            }),
    {
        if field_ok(&time) && field_ok(&user) && field_ok(&message) {
            Some(ChatMessage { time, user, message, msg_type })
        } else {
            None
        }
    }

    /// Whether this message is within the codec's field bounds.
    pub fn is_wf(&self) -> (r: bool)
        ensures
            r == self.wf(),
    {
        field_ok(&self.time) && field_ok(&self.user) && field_ok(&self.message)
    }

    /// Builds a message stamped with the current clock time, succeeding
    /// whenever the two given fields are within the codec's bounds.
    pub fn new(user: String, message: String, msg_type: MessageType) -> (r: Option<ChatMessage>)
        ensures
            r matches Some(m) ==> m.wf() && m@.user == utf8_of(user@) && m@.message == utf8_of(
                message@,
            ) && m@.kind == msg_type,
            wf_field(utf8_of(user@)) && wf_field(utf8_of(message@)) ==> r is Some,
    {
        let time = now_rfc3339();
        let user_bytes = string_to_bytes(&user);
        let message_bytes = string_to_bytes(&message);
        Self::with_time(time, user_bytes, message_bytes, msg_type)
    }
}

/// Copies a byte vector.
pub fn copy_bytes(v: &Vec<u8>) -> (r: Vec<u8>)
    ensures
        r@ == v@,
{
    let mut r: Vec<u8> = Vec::new();
    let mut i: usize = 0;
    while i < v.len()
        invariant
            i <= v@.len(),
            r@ == v@.take(i as int),
        decreases v@.len() - i,
    {
        let b = v[i];
        r.push(b);
        proof {
            assert(v@.take(i as int + 1) =~= v@.take(i as int).push(v@[i as int]));
        }
        i += 1;
    }
    proof {
        assert(v@.take(v@.len() as int) =~= v@);
    }
    r
}

/// Checks that a field is within length bounds and free of control bytes.
pub fn field_ok(v: &Vec<u8>) -> (r: bool)
    ensures
        r == wf_field(v@),
{
    if v.len() > MAX_FIELD_BYTES {
        return false;
    }
    let mut i: usize = 0;
    while i < v.len()
        invariant
            i <= v.len(),
            v@.len() <= MAX_FIELD_BYTES,
            forall|j: int| 0 <= j < i ==> v@[j] >= 0x20,
        decreases v.len() - i,
    {
        if v[i] < 0x20 {
            return false;
        }
        i += 1;
    }
    true
}

/// The UTF-8 encoding of a sequence of characters.
pub uninterp spec fn utf8_of(s: Seq<char>) -> Seq<u8>;

/// Relies on `String::as_bytes`: the bytes of a string are the UTF-8
/// encoding of its characters.
#[verifier::external_body]
pub fn string_to_bytes(s: &String) -> (r: Vec<u8>)
    ensures
        r@ == utf8_of(s@),
{
    s.as_bytes().to_vec()
}

/// Relies on `String: FromIterator<&char>`: collecting characters yields the
/// string holding exactly those characters in order.
#[verifier::external_body]
pub fn chars_to_string(v: &Vec<char>) -> (r: String)
    ensures
        r@ == v@,
{
    v.iter().collect()
}

/// Relies on `std::time::SystemTime::now`, read through chrono's
/// `From<SystemTime> for DateTime<Utc>` (which handles pre-epoch clocks
/// without panicking) and rendered with `DateTime::to_rfc3339`: the current
/// wall-clock time as RFC 3339 text. Whatever the clock says, the rendering
/// is a short string of printable ASCII, so it always fits a message field.
#[verifier::external_body]
pub fn now_rfc3339() -> (r: Vec<u8>)
    ensures
        wf_field(r@),
{
    chrono::DateTime::<chrono::Utc>::from(std::time::SystemTime::now()).to_rfc3339().into_bytes()
}

} // verus!
