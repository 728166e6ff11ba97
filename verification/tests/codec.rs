use chat_core::codec::{decode_chat_message, decode_envelope, encode_chat_message, encode_envelope};
use chat_core::outbound::{build_message, build_register};
use chat_core::wire::{ChatMessage, Envelope, MsgTypes, SessionError};

fn envelope(
    message_type: MsgTypes,
    data_array: Option<Vec<&str>>,
    data: Option<&str>,
) -> Envelope {
    Envelope {
        message_type,
        data_array: data_array.map(|v| v.into_iter().map(|s| s.to_string()).collect()),
        data: data.map(|s| s.to_string()),
    }
}

fn assert_round_trip(e: &Envelope) {
    let text = encode_envelope(e);
    let back = decode_envelope(&text).expect("canonical text must decode");
    assert_eq!(back.message_type, e.message_type);
    assert_eq!(back.data_array, e.data_array);
    assert_eq!(back.data, e.data);
}

#[test]
fn register_wire_form_is_pinned() {
    let e = build_register("carol");
    let text = encode_envelope(&e);
    assert_eq!(
        text,
        "{\"messageType\":\"register\",\"dataArray\":null,\"data\":\"carol\"}"
    );
    assert!(text.contains("register"));
    assert!(text.contains("carol"));
}

#[test]
fn users_wire_form_is_pinned() {
    let e = envelope(MsgTypes::Users, Some(vec!["alice", "bob"]), None);
    assert_eq!(
        encode_envelope(&e),
        "{\"messageType\":\"users\",\"dataArray\":[\"alice\",\"bob\"],\"data\":null}"
    );
}

#[test]
fn message_wire_form_is_pinned() {
    let e = build_message("hi");
    assert_eq!(
        encode_envelope(&e),
        "{\"messageType\":\"message\",\"dataArray\":null,\"data\":\"hi\"}"
    );
}

#[test]
fn empty_message_text_is_sent_verbatim() {
    let e = build_message("");
    assert_eq!(
        encode_envelope(&e),
        "{\"messageType\":\"message\",\"dataArray\":null,\"data\":\"\"}"
    );
}

#[test]
fn chat_message_wire_form_is_pinned() {
    let m = ChatMessage { from: "alice".to_string(), text: "hi".to_string() };
    assert_eq!(encode_chat_message(&m), "{\"from\":\"alice\",\"message\":\"hi\"}");
}

#[test]
fn round_trip_plain_envelopes() {
    assert_round_trip(&envelope(MsgTypes::Users, Some(vec!["alice", "bob"]), None));
    assert_round_trip(&envelope(MsgTypes::Register, None, Some("carol")));
    assert_round_trip(&envelope(MsgTypes::Message, None, Some("hello there")));
}

#[test]
fn round_trip_degenerate_payloads() {
    // Absent array and empty array are distinct on the wire and both legal.
    assert_round_trip(&envelope(MsgTypes::Users, None, None));
    assert_round_trip(&envelope(MsgTypes::Users, Some(vec![]), None));
    assert_round_trip(&envelope(MsgTypes::Users, Some(vec![""]), None));
    // The "wrong" payload field may be populated; it round-trips unchanged.
    assert_round_trip(&envelope(MsgTypes::Register, Some(vec!["x"]), Some("y")));
}

#[test]
fn round_trip_escaped_strings() {
    assert_round_trip(&envelope(MsgTypes::Message, None, Some("say \"hi\"")));
    assert_round_trip(&envelope(MsgTypes::Message, None, Some("back\\slash")));
    assert_round_trip(&envelope(MsgTypes::Message, None, Some("tab\there\nand\rmore")));
    assert_round_trip(&envelope(MsgTypes::Message, None, Some("ctrl:\u{1}\u{8}\u{c}\u{1f}")));
    assert_round_trip(&envelope(MsgTypes::Users, Some(vec!["a\"b", "c\\d", "\u{7}"]), None));
    assert_round_trip(&envelope(MsgTypes::Message, None, Some("unicode: ÿ € 漢")));
}

#[test]
fn escapes_are_canonical_on_the_wire() {
    let e = envelope(MsgTypes::Message, None, Some("\"\\\u{8}\t\n\u{c}\r\u{1f}"));
    assert_eq!(
        encode_envelope(&e),
        "{\"messageType\":\"message\",\"dataArray\":null,\"data\":\"\\\"\\\\\\b\\t\\n\\f\\r\\u001f\"}"
    );
}

#[test]
fn malformed_envelopes_are_rejected() {
    let bad = [
        "",
        "{}",
        "not json at all",
        "{\"messageType\":\"bogus\",\"dataArray\":null,\"data\":null}",
        "{\"messageType\":\"users\",\"dataArray\":null}",
        "{\"messageType\":\"users\",\"dataArray\":null,\"data\":null}x",
        "{\"messageType\":\"users\",\"dataArray\":[],\"data\":null",
        "{\"messageType\":\"users\",\"dataArray\":[\"a\",],\"data\":null}",
        "{\"messageType\":\"message\",\"dataArray\":null,\"data\":\"\\x\"}",
        "{\"messageType\":\"message\",\"dataArray\":null,\"data\":\"\\u0041\"}",
    ];
    for text in bad {
        match decode_envelope(text) {
            Err(SessionError::MalformedEnvelope) => {}
            other => panic!("{:?} decoded {:?}", text, other.map(|e| e.message_type)),
        }
    }
}

#[test]
fn chat_message_round_trip_and_rejection() {
    let m = ChatMessage { from: "alice".to_string(), text: "cat.gif".to_string() };
    let text = encode_chat_message(&m);
    let back = decode_chat_message(&text).expect("canonical payload must decode");
    assert_eq!(back.from, "alice");
    assert_eq!(back.text, "cat.gif");

    for bad in ["", "hi", "{\"from\":\"a\"}", "{\"from\":\"a\",\"message\":\"b\"}x"] {
        match decode_chat_message(bad) {
            Err(SessionError::MalformedPayload) => {}
            other => panic!("{:?} decoded {:?}", bad, other.map(|m| m.text)),
        }
    }
}
