use chat_core::codec::{encode_chat_message, encode_envelope};
use chat_core::session::{avatar_url, renders_as_image, SessionState};
use chat_core::wire::{ChatMessage, Envelope, MsgTypes, SessionError};

const AVATAR_PREFIX: &str = "https://avatars.dicebear.com/api/adventurer-neutral/";

fn users_frame(names: Vec<&str>) -> String {
    encode_envelope(&Envelope {
        message_type: MsgTypes::Users,
        data_array: Some(names.into_iter().map(|s| s.to_string()).collect()),
        data: None,
    })
}

fn message_frame(from: &str, text: &str) -> String {
    let payload = encode_chat_message(&ChatMessage {
        from: from.to_string(),
        text: text.to_string(),
    });
    encode_envelope(&Envelope {
        message_type: MsgTypes::Message,
        data_array: None,
        data: Some(payload),
    })
}

#[test]
fn avatar_url_follows_the_template() {
    assert_eq!(
        avatar_url("alice"),
        "https://avatars.dicebear.com/api/adventurer-neutral/alice.svg"
    );
}

#[test]
fn session_scenario() {
    let mut st = SessionState::new();
    assert_eq!(st.roster.len(), 0);
    assert_eq!(st.log.len(), 0);

    let render = st.reduce_raw(&users_frame(vec!["alice", "bob"])).unwrap();
    assert!(render);
    assert_eq!(st.roster.len(), 2);
    assert_eq!(st.roster[0].name, "alice");
    assert_eq!(st.roster[0].avatar, format!("{}alice.svg", AVATAR_PREFIX));
    assert_eq!(st.roster[1].name, "bob");
    assert_eq!(st.roster[1].avatar, format!("{}bob.svg", AVATAR_PREFIX));

    let render = st.reduce_raw(&message_frame("alice", "hi")).unwrap();
    assert!(render);
    assert_eq!(st.log.len(), 1);
    assert_eq!(st.log[0].from, "alice");
    assert_eq!(st.log[0].text, "hi");
    assert!(!renders_as_image(&st.log[0]));

    let render = st.reduce_raw(&message_frame("alice", "cat.gif")).unwrap();
    assert!(render);
    assert_eq!(st.log.len(), 2);
    assert_eq!(st.log[1].text, "cat.gif");
    assert!(renders_as_image(&st.log[1]));
}

#[test]
fn users_envelope_replaces_roster_wholesale() {
    let mut st = SessionState::new();
    st.reduce_raw(&users_frame(vec!["alice", "bob", "carol"])).unwrap();
    assert_eq!(st.roster.len(), 3);
    st.reduce_raw(&users_frame(vec!["dave"])).unwrap();
    assert_eq!(st.roster.len(), 1);
    assert_eq!(st.roster[0].name, "dave");
}

#[test]
fn replaying_users_envelope_is_idempotent() {
    let frame = users_frame(vec!["alice", "bob"]);
    let mut st = SessionState::new();
    st.reduce_raw(&message_frame("x", "seed")).unwrap();
    st.reduce_raw(&frame).unwrap();
    let first: Vec<(String, String)> =
        st.roster.iter().map(|p| (p.name.clone(), p.avatar.clone())).collect();
    st.reduce_raw(&frame).unwrap();
    let second: Vec<(String, String)> =
        st.roster.iter().map(|p| (p.name.clone(), p.avatar.clone())).collect();
    assert_eq!(first, second);
    assert_eq!(st.log.len(), 1);
}

#[test]
fn absent_data_array_means_empty_roster() {
    let mut st = SessionState::new();
    st.reduce_raw(&users_frame(vec!["alice"])).unwrap();
    let frame = encode_envelope(&Envelope {
        message_type: MsgTypes::Users,
        data_array: None,
        data: None,
    });
    let render = st.reduce_raw(&frame).unwrap();
    assert!(render);
    assert_eq!(st.roster.len(), 0);
}

#[test]
fn inbound_register_is_a_no_op() {
    let mut st = SessionState::new();
    st.reduce_raw(&users_frame(vec!["alice"])).unwrap();
    let frame = encode_envelope(&Envelope {
        message_type: MsgTypes::Register,
        data_array: None,
        data: Some("bob".to_string()),
    });
    let render = st.reduce_raw(&frame).unwrap();
    assert!(!render);
    assert_eq!(st.roster.len(), 1);
    assert_eq!(st.log.len(), 0);
}

#[test]
fn malformed_frame_does_not_mutate_state() {
    let mut st = SessionState::new();
    st.reduce_raw(&users_frame(vec!["alice"])).unwrap();
    st.reduce_raw(&message_frame("alice", "hi")).unwrap();
    let err = st.reduce_raw("{\"messageType\":\"users\"").unwrap_err();
    assert_eq!(err, SessionError::MalformedEnvelope);
    assert_eq!(st.roster.len(), 1);
    assert_eq!(st.roster[0].name, "alice");
    assert_eq!(st.log.len(), 1);
    assert_eq!(st.log[0].text, "hi");
}

#[test]
fn malformed_payload_is_reported_and_dropped() {
    let mut st = SessionState::new();
    let frame = encode_envelope(&Envelope {
        message_type: MsgTypes::Message,
        data_array: None,
        data: Some("not a chat message".to_string()),
    });
    let err = st.reduce_raw(&frame).unwrap_err();
    assert_eq!(err, SessionError::MalformedPayload);
    assert_eq!(st.log.len(), 0);

    let absent = encode_envelope(&Envelope {
        message_type: MsgTypes::Message,
        data_array: None,
        data: None,
    });
    let err = st.reduce_raw(&absent).unwrap_err();
    assert_eq!(err, SessionError::MalformedPayload);
    assert_eq!(st.log.len(), 0);
}

#[test]
fn log_keeps_delivery_order_across_interleaving() {
    let mut st = SessionState::new();
    st.reduce_raw(&users_frame(vec!["alice"])).unwrap();
    st.reduce_raw(&message_frame("alice", "one")).unwrap();
    st.reduce_raw(&users_frame(vec!["alice", "bob"])).unwrap();
    st.reduce_raw(&message_frame("bob", "two")).unwrap();
    st.reduce_raw(&users_frame(vec!["bob"])).unwrap();
    st.reduce_raw(&message_frame("bob", "three")).unwrap();
    let texts: Vec<&str> = st.log.iter().map(|m| m.text.as_str()).collect();
    assert_eq!(texts, vec!["one", "two", "three"]);
}

#[test]
fn sender_lookup_finds_first_match_or_falls_back() {
    let mut st = SessionState::new();
    st.reduce_raw(&users_frame(vec!["alice", "bob"])).unwrap();

    assert_eq!(st.find_user("bob"), Some(1));
    assert_eq!(st.find_user("carol"), None);

    let (profile, known) = st.sender_profile("alice");
    assert!(known);
    assert_eq!(profile.name, "alice");
    assert_eq!(profile.avatar, format!("{}alice.svg", AVATAR_PREFIX));

    // A message may arrive before its sender's roster update: the renderer
    // gets a placeholder profile instead of a fault.
    let (profile, known) = st.sender_profile("mallory");
    assert!(!known);
    assert_eq!(profile.name, "mallory");
    assert_eq!(profile.avatar, format!("{}mallory.svg", AVATAR_PREFIX));
}

#[test]
fn gif_suffix_rule_is_exact() {
    let msg = |text: &str| ChatMessage { from: "a".to_string(), text: text.to_string() };
    assert!(renders_as_image(&msg("cat.gif")));
    assert!(renders_as_image(&msg(".gif")));
    assert!(!renders_as_image(&msg("gif")));
    assert!(!renders_as_image(&msg("cat.gif ")));
    assert!(!renders_as_image(&msg("cat.png")));
    assert!(!renders_as_image(&msg("")));
}
