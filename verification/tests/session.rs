use yewchat::protocol::{compose_chat_message, compose_registration, Envelope, MsgTypes};
use yewchat::session::{derive_avatar, resolve_sender, start_session, SessionState};

fn users_env(names: Vec<&str>) -> Envelope {
    Envelope {
        message_type: MsgTypes::Users,
        data: None,
        data_array: Some(names.iter().map(|s| s.to_string()).collect()),
    }
}

fn message_env(payload: &str) -> Envelope {
    Envelope {
        message_type: MsgTypes::Message,
        data: Some(payload.to_string()),
        data_array: None,
    }
}

const ALICE_AVATAR: &str = "https://avatars.dicebear.com/api/adventurer-neutral/alice.svg";

#[test]
fn scenario_register_users_message() {
    let reg = compose_registration("alice");
    assert_eq!(reg.message_type, MsgTypes::Register);
    assert_eq!(reg.data, Some("alice".to_string()));
    assert_eq!(reg.data_array, None);

    let mut st = SessionState::new();
    assert!(st.apply(&users_env(vec!["alice", "bob"])));
    assert!(st.apply(&message_env("{\"from\":\"alice\",\"message\":\"hi\"}")));

    assert_eq!(st.roster.len(), 2);
    assert_eq!(st.roster[0].name, "alice");
    assert_eq!(st.roster[0].avatar, ALICE_AVATAR);
    assert_eq!(st.roster[1].name, "bob");
    assert_eq!(
        st.roster[1].avatar,
        "https://avatars.dicebear.com/api/adventurer-neutral/bob.svg"
    );
    assert_eq!(st.transcript.len(), 1);
    assert_eq!(st.transcript[0].from, "alice");
    assert_eq!(st.transcript[0].message, "hi");
}

#[test]
fn users_replaces_roster_and_is_idempotent() {
    let mut st = SessionState::new();
    st.apply(&users_env(vec!["carol", "dan", "erin"]));
    assert_eq!(st.roster.len(), 3);

    // same input again: same roster
    st.apply(&users_env(vec!["carol", "dan", "erin"]));
    let names: Vec<String> = st.roster.iter().map(|p| p.name.clone()).collect();
    assert_eq!(names, ["carol", "dan", "erin"]);

    // a different list replaces everything, stale entries drop out
    st.apply(&users_env(vec!["frank"]));
    assert_eq!(st.roster.len(), 1);
    assert_eq!(st.roster[0].name, "frank");
}

#[test]
fn users_without_list_clears_roster() {
    let mut st = SessionState::new();
    st.apply(&users_env(vec!["alice"]));
    let bare = Envelope { message_type: MsgTypes::Users, data: None, data_array: None };
    assert!(st.apply(&bare));
    assert_eq!(st.roster.len(), 0);
}

#[test]
fn transcript_keeps_arrival_order() {
    let mut st = SessionState::new();
    st.apply(&message_env("{\"from\":\"a\",\"message\":\"one\"}"));
    st.apply(&message_env("{\"from\":\"b\",\"message\":\"two\"}"));
    st.apply(&message_env("not json"));
    st.apply(&message_env("{\"from\":\"c\",\"message\":\"three\"}"));
    let texts: Vec<String> = st.transcript.iter().map(|m| m.message.clone()).collect();
    assert_eq!(texts, ["one", "two", "three"]);
}

#[test]
fn malformed_payload_leaves_state_unchanged() {
    let mut st = SessionState::new();
    st.apply(&users_env(vec!["alice"]));
    st.apply(&message_env("{\"from\":\"alice\",\"message\":\"hi\"}"));

    let render = st.apply(&message_env("not json"));
    assert!(!render);
    assert_eq!(st.roster.len(), 1);
    assert_eq!(st.transcript.len(), 1);
}

#[test]
fn message_without_data_is_dropped() {
    let mut st = SessionState::new();
    let e = Envelope { message_type: MsgTypes::Message, data: None, data_array: None };
    assert!(!st.apply(&e));
    assert_eq!(st.transcript.len(), 0);
}

#[test]
fn unknown_type_is_a_no_op() {
    let mut st = SessionState::new();
    st.apply(&users_env(vec!["alice"]));
    let e = Envelope {
        message_type: MsgTypes::Unknown("typing".to_string()),
        data: Some("x".to_string()),
        data_array: None,
    };
    assert!(!st.apply(&e));
    assert_eq!(st.roster.len(), 1);
    assert_eq!(st.transcript.len(), 0);
}

#[test]
fn register_inbound_is_a_no_op() {
    let mut st = SessionState::new();
    let e = Envelope {
        message_type: MsgTypes::Register,
        data: Some("alice".to_string()),
        data_array: None,
    };
    assert!(!st.apply(&e));
    assert_eq!(st.roster.len(), 0);
    assert_eq!(st.transcript.len(), 0);
}

#[test]
fn unknown_sender_still_appends_and_resolves_to_fallback() {
    let mut st = SessionState::new();
    st.apply(&users_env(vec!["alice"]));
    assert!(st.apply(&message_env("{\"from\":\"ghost\",\"message\":\"boo\"}")));
    assert_eq!(st.transcript.len(), 1);
    assert_eq!(st.transcript[0].from, "ghost");

    let p = resolve_sender(&st.roster, "ghost");
    assert_eq!(p.name, "ghost");
    assert_eq!(p.avatar, "https://avatars.dicebear.com/api/adventurer-neutral/ghost.svg");

    let known = resolve_sender(&st.roster, "alice");
    assert_eq!(known.name, "alice");
    assert_eq!(known.avatar, ALICE_AVATAR);
}

#[test]
fn resolve_sender_takes_the_first_matching_entry() {
    let mut st = SessionState::new();
    st.apply(&users_env(vec!["alice", "alice"]));
    let p = resolve_sender(&st.roster, "alice");
    assert_eq!(p.name, st.roster[0].name);
    assert_eq!(p.avatar, st.roster[0].avatar);
}

#[test]
fn avatar_url_percent_encodes_the_name() {
    assert_eq!(derive_avatar("alice"), ALICE_AVATAR);
    assert_eq!(
        derive_avatar("a b/c"),
        "https://avatars.dicebear.com/api/adventurer-neutral/a%20b%2Fc.svg"
    );
    assert_eq!(
        derive_avatar("A-Za-z0-9_.~"),
        "https://avatars.dicebear.com/api/adventurer-neutral/A-Za-z0-9_.~.svg"
    );
    // characters beyond ASCII become the %XX form of their UTF-8 bytes
    assert_eq!(
        derive_avatar("h\u{e9}llo"),
        "https://avatars.dicebear.com/api/adventurer-neutral/h%C3%A9llo.svg"
    );
    assert_eq!(
        derive_avatar("\u{1F600}"),
        "https://avatars.dicebear.com/api/adventurer-neutral/%F0%9F%98%80.svg"
    );
}

#[test]
fn gif_message_text_is_left_unmodified() {
    let mut st = SessionState::new();
    st.apply(&message_env("{\"from\":\"a\",\"message\":\"cat.gif\"}"));
    assert_eq!(st.transcript[0].message, "cat.gif");
}

#[test]
fn start_session_composes_registration_and_empty_state() {
    let (reg, st) = start_session("alice");
    assert_eq!(reg.message_type, MsgTypes::Register);
    assert_eq!(reg.data, Some("alice".to_string()));
    assert_eq!(reg.data_array, None);
    assert!(st.roster.is_empty());
    assert!(st.transcript.is_empty());
}

#[test]
fn compose_chat_message_rejects_empty_text() {
    assert!(compose_chat_message("").is_none());
    let e = compose_chat_message("hello").unwrap();
    assert_eq!(e.message_type, MsgTypes::Message);
    assert_eq!(e.data, Some("hello".to_string()));
    assert_eq!(e.data_array, None);
}
