//! Wire types of the chat protocol, their mathematical views, and the
//! canonical text form of each value.
//!
//! Every frame on the wire is one [`Envelope`]. The canonical text form is a
//! fixed JSON shape: the three fields always present, in a fixed order, with
//! the pinned external casing (`messageType`, `dataArray`, `data`; lower-case
//! tag values), absent payloads written as `null`, and each string escaped the
//! one canonical way. The spec functions here define that form character by
//! character; the executable codec is specified against them.

use vstd::prelude::*;

verus! {

/// The tag of a wire envelope: which kind of frame this is.
#[derive(Clone, Copy, Debug, PartialEq, Eq, Structural)]
pub enum MsgTypes {
    /// Full replacement roster of online user names (carries `dataArray`).
    Users,
    /// Registration of a user name (carries `data`); meaningful outbound only.
    Register,
    /// A chat message (carries `data`: an encoded [`ChatMessage`]).
    Message,
}

/// The one wire type: a tagged envelope. Exactly one payload field is
/// meaningful per tag; the other may be present and is ignored.
#[derive(Clone, Debug)]
pub struct Envelope {
    pub message_type: MsgTypes,
    pub data_array: Option<Vec<String>>,
    pub data: Option<String>,
}

/// A chat message: the payload of a `Message` envelope, itself carried as an
/// encoded string inside the envelope's `data` field.
#[derive(Clone, Debug)]
pub struct ChatMessage {
    pub from: String,
    pub text: String,
}

/// A user as rendered in the roster. The avatar URL is never transmitted: it
/// is a pure function of the name (see [`crate::session::avatar_url`]).
#[derive(Clone, Debug)]
pub struct UserProfile {
    pub name: String,
    pub avatar: String,
}

/// The error taxonomy of the session. All four are local-recoverable: none
/// may terminate the session.
#[derive(Clone, Copy, Debug, PartialEq, Eq, Structural)]
pub enum SessionError {
    /// The inbound text is not a well-formed envelope.
    MalformedEnvelope,
    /// A `Message` envelope's `data` is absent or not a well-formed chat message.
    MalformedPayload,
    /// The transport rejected or dropped an outbound frame.
    SendFailure,
    /// A rendered message names a sender absent from the current roster.
    UnknownSender,
}

/// Mathematical view of an [`Envelope`].
pub struct EnvelopeView {
    pub message_type: MsgTypes,
    pub data_array: Option<Seq<Seq<char>>>,
    pub data: Option<Seq<char>>,
}

/// Mathematical view of a [`ChatMessage`].
pub struct ChatMessageView {
    pub from: Seq<char>,
    pub text: Seq<char>,
}

/// Mathematical view of a [`UserProfile`].
pub struct UserProfileView {
    pub name: Seq<char>,
    pub avatar: Seq<char>,
}

impl View for Envelope {
    type V = EnvelopeView;

    open spec fn view(&self) -> EnvelopeView {
        EnvelopeView {
            message_type: self.message_type,
            data_array: match self.data_array {
                Option::None => Option::None,
                Option::Some(v) => Option::Some(v@.map_values(|s: String| s@)),
            },
            data: match self.data {
                Option::None => Option::None,
                Option::Some(s) => Option::Some(s@),
            },
        }
    }
}

impl View for ChatMessage {
    type V = ChatMessageView;

    open spec fn view(&self) -> ChatMessageView {
        ChatMessageView { from: self.from@, text: self.text@ }
    }
}

impl View for UserProfile {
    type V = UserProfileView;

    open spec fn view(&self) -> UserProfileView {
        UserProfileView { name: self.name@, avatar: self.avatar@ }
    }
}

/// The lower-case hex digit for a value below 16.
pub open spec fn hex_digit(v: u32) -> char {
    if v == 0 { '0' }
    else if v == 1 { '1' }
    else if v == 2 { '2' }
    else if v == 3 { '3' }
    else if v == 4 { '4' }
    else if v == 5 { '5' }
    else if v == 6 { '6' }
    else if v == 7 { '7' }
    else if v == 8 { '8' }
    else if v == 9 { '9' }
    else if v == 10 { 'a' }
    else if v == 11 { 'b' }
    else if v == 12 { 'c' }
    else if v == 13 { 'd' }
    else if v == 14 { 'e' }
    else { 'f' }
}

/// Canonical escape of one character inside a quoted wire string: the quote
/// and the backslash get a two-character escape, the five control characters
/// with short names get theirs, every other control character is written
/// `\u00` plus two lower-case hex digits, and all remaining characters stand
/// bare.
pub open spec fn esc_char(c: char) -> Seq<char> {
    if c == '"' { seq!['\\', '"'] }
    else if c == '\\' { seq!['\\', '\\'] }
    else if c == '\u{8}' { seq!['\\', 'b'] }
    else if c == '\t' { seq!['\\', 't'] }
    else if c == '\n' { seq!['\\', 'n'] }
    else if c == '\u{c}' { seq!['\\', 'f'] }
    else if c == '\r' { seq!['\\', 'r'] }
    else if (c as u32) < 32 {
        seq!['\\', 'u', '0', '0', hex_digit((c as u32) / 16), hex_digit((c as u32) % 16)]
    } else {
        seq![c]
    }
}

/// Canonical escape of a whole string body (no surrounding quotes).
pub open spec fn escseq(t: Seq<char>) -> Seq<char>
    decreases t.len(),
{
    if t.len() == 0 {
        Seq::empty()
    } else {
        esc_char(t[0]) + escseq(t.drop_first())
    }
}

/// A quoted wire string: `"` + escaped body + `"`.
pub open spec fn quoted(t: Seq<char>) -> Seq<char> {
    seq!['"'] + escseq(t) + seq!['"']
}

/// The pinned lower-case wire value of each tag.
pub open spec fn enc_tag(t: MsgTypes) -> Seq<char> {
    match t {
        MsgTypes::Users => "users"@,
        MsgTypes::Register => "register"@,
        MsgTypes::Message => "message"@,
    }
}

/// The comma-separated quoted items of a non-empty array, or nothing.
pub open spec fn enc_items(v: Seq<Seq<char>>) -> Seq<char>
    decreases v.len(),
{
    if v.len() == 0 {
        Seq::empty()
    } else if v.len() == 1 {
        quoted(v[0])
    } else {
        quoted(v[0]) + seq![','] + enc_items(v.drop_first())
    }
}

/// The wire form of the `dataArray` field: `null` when absent, else a
/// bracketed list of quoted strings.
pub open spec fn enc_array(a: Option<Seq<Seq<char>>>) -> Seq<char> {
    match a {
        Option::None => "null"@,
        Option::Some(v) => seq!['['] + enc_items(v) + seq![']'],
    }
}

/// The wire form of the `data` field: `null` when absent, else a quoted string.
pub open spec fn enc_opt_string(d: Option<Seq<char>>) -> Seq<char> {
    match d {
        Option::None => "null"@,
        Option::Some(t) => quoted(t),
    }
}

/// The canonical text form of an envelope. This exact shape, field order and
/// casing is the compatibility contract with the remote peer.
pub open spec fn enc_envelope(e: EnvelopeView) -> Seq<char> {
    "{\"messageType\":\""@ + enc_tag(e.message_type) + "\",\"dataArray\":"@
        + enc_array(e.data_array) + ",\"data\":"@ + enc_opt_string(e.data) + "}"@
}

/// The canonical text form of a chat message, as carried inside a `Message`
/// envelope's `data` field. The wire key of the text field is `message`.
pub open spec fn enc_chat_message(m: ChatMessageView) -> Seq<char> {
    "{\"from\":"@ + quoted(m.from) + ",\"message\":"@ + quoted(m.text) + "}"@
}

} // verus!
