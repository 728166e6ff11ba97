//! Builders for the two outbound user actions: registering a user name at
//! session start, and submitting a chat message.
//!
//! The text of a message is taken verbatim from user input, the empty string
//! included: no client-side validation or trimming is performed. Sending the
//! encoded frame is the transport's business and fire-and-forget from the
//! session's point of view.

use vstd::prelude::*;

use crate::wire::Envelope;
use crate::wire::EnvelopeView;
use crate::wire::MsgTypes;

verus! {

/// Builds the one-shot registration frame sent at session start.
pub fn build_register(username: &str) -> (r: Envelope)
    ensures
        r@ == (EnvelopeView {
            message_type: MsgTypes::Register,
            data_array: Option::None,
            data: Option::Some(username@),
        }),
{
    Envelope {
        message_type: MsgTypes::Register,
        data_array: Option::None,
        data: Option::Some(username.to_owned()),
    }
}

/// Builds a chat-message frame from the user's input text, verbatim.
pub fn build_message(text: &str) -> (r: Envelope)
    ensures
        r@ == (EnvelopeView {
            message_type: MsgTypes::Message,
            data_array: Option::None,
            data: Option::Some(text@),
        }),
{
    Envelope {
        message_type: MsgTypes::Message,
        data_array: Option::None,
        data: Option::Some(text.to_owned()),
    }
}

} // verus!
