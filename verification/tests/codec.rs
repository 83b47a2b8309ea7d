use yewchat::codec::{decode, decode_chat, encode, DecodeError};
use yewchat::protocol::{Envelope, MsgTypes};

fn env(message_type: MsgTypes, data: Option<&str>, data_array: Option<Vec<&str>>) -> Envelope {
    Envelope {
        message_type,
        data: data.map(|s| s.to_string()),
        data_array: data_array.map(|v| v.iter().map(|s| s.to_string()).collect()),
    }
}

#[test]
fn encode_register_exact_wire_text() {
    let e = env(MsgTypes::Register, Some("alice"), None);
    assert_eq!(encode(&e), "{\"messageType\":\"register\",\"data\":\"alice\"}");
}

#[test]
fn encode_users_exact_wire_text() {
    let e = env(MsgTypes::Users, None, Some(vec!["alice", "bob"]));
    assert_eq!(
        encode(&e),
        "{\"messageType\":\"users\",\"dataArray\":[\"alice\",\"bob\"]}"
    );
}

#[test]
fn encode_escapes_special_characters() {
    let e = env(MsgTypes::Message, Some("a\"b\\c\nd\re\tf"), None);
    assert_eq!(
        encode(&e),
        "{\"messageType\":\"message\",\"data\":\"a\\\"b\\\\c\\nd\\re\\tf\"}"
    );
}

#[test]
fn round_trip_register() {
    let e = env(MsgTypes::Register, Some("alice"), None);
    assert_eq!(decode(&encode(&e)), Ok(e));
}

#[test]
fn round_trip_users() {
    let e = env(MsgTypes::Users, None, Some(vec!["alice", "bob"]));
    assert_eq!(decode(&encode(&e)), Ok(e));
}

#[test]
fn round_trip_message_with_escapes() {
    let e = env(MsgTypes::Message, Some("he said \"hi\"\\\n\t\r end"), None);
    assert_eq!(decode(&encode(&e)), Ok(e));
}

#[test]
fn round_trip_unknown_tag() {
    let e = env(MsgTypes::Unknown("ping".to_string()), None, None);
    assert_eq!(encode(&e), "{\"messageType\":\"ping\"}");
    assert_eq!(decode(&encode(&e)), Ok(e));
}

#[test]
fn round_trip_unknown_tag_with_escapes() {
    let e = env(MsgTypes::Unknown("we\"ird\\tag".to_string()), None, None);
    assert_eq!(decode(&encode(&e)), Ok(e));
}

#[test]
fn round_trip_empty_array() {
    let e = env(MsgTypes::Users, None, Some(vec![]));
    assert_eq!(encode(&e), "{\"messageType\":\"users\",\"dataArray\":[]}");
    assert_eq!(decode(&encode(&e)), Ok(e));
}

#[test]
fn round_trip_both_fields() {
    let e = env(MsgTypes::Message, Some("x"), Some(vec!["y"]));
    assert_eq!(decode(&encode(&e)), Ok(e));
}

#[test]
fn round_trip_empty_strings() {
    let e = env(MsgTypes::Register, Some(""), None);
    assert_eq!(decode(&encode(&e)), Ok(e));
    let e = env(MsgTypes::Users, None, Some(vec![""]));
    assert_eq!(decode(&encode(&e)), Ok(e));
}

#[test]
fn decode_unknown_tag_is_not_an_error() {
    let r = decode("{\"messageType\":\"bogus\"}").unwrap();
    assert_eq!(r.message_type, MsgTypes::Unknown("bogus".to_string()));
    assert_eq!(r.data, None);
    assert_eq!(r.data_array, None);
}

#[test]
fn decode_malformed_frames() {
    assert_eq!(decode("not json"), Err(DecodeError::Malformed));
    assert_eq!(decode(""), Err(DecodeError::Malformed));
    assert_eq!(decode("{\"messageType\":\"register\""), Err(DecodeError::Malformed));
    assert_eq!(decode("{\"messageType\":\"a\\qb\"}"), Err(DecodeError::Malformed));
    assert_eq!(decode("{\"messageType\":\"users\"}x"), Err(DecodeError::Malformed));
    assert_eq!(
        decode("{\"messageType\":\"users\",\"dataArray\":[\"a\" \"b\"]}"),
        Err(DecodeError::Malformed)
    );
}

#[test]
fn decode_chat_reads_the_nested_payload() {
    let m = decode_chat("{\"from\":\"alice\",\"message\":\"hi\"}").unwrap();
    assert_eq!(m.from, "alice");
    assert_eq!(m.message, "hi");
}

#[test]
fn decode_chat_rejects_malformed_payloads() {
    assert!(decode_chat("not json").is_none());
    assert!(decode_chat("").is_none());
    assert!(decode_chat("{\"from\":\"alice\"}").is_none());
    assert!(decode_chat("{\"from\":\"alice\",\"message\":\"hi\"}x").is_none());
    assert!(decode_chat("{\"from\":\"a\",\"from\":\"b\",\"message\":\"hi\"}").is_none());
    assert!(decode_chat("{\"from\":\"a\",\"message\":\"hi\",\"extra\":\"x\"}").is_none());
}

#[test]
fn decode_chat_accepts_any_field_order_and_whitespace() {
    let m = decode_chat(" { \"message\" : \"hi\" , \"from\" : \"alice\" } ").unwrap();
    assert_eq!(m.from, "alice");
    assert_eq!(m.message, "hi");
}

#[test]
fn decode_accepts_reordered_fields_and_null_options() {
    // a peer may write the fields in any order and render absent options as null
    let r = decode("{\"messageType\":\"register\",\"dataArray\":null,\"data\":\"alice\"}").unwrap();
    assert_eq!(r.message_type, MsgTypes::Register);
    assert_eq!(r.data, Some("alice".to_string()));
    assert_eq!(r.data_array, None);

    let r = decode("{\"data\":null,\"dataArray\":[\"a\",\"b\"],\"messageType\":\"users\"}").unwrap();
    assert_eq!(r.message_type, MsgTypes::Users);
    assert_eq!(r.data, None);
    assert_eq!(r.data_array, Some(vec!["a".to_string(), "b".to_string()]));
}

#[test]
fn decode_accepts_insignificant_whitespace() {
    let r = decode(" {\n  \"messageType\" : \"users\" ,\r\n  \"dataArray\" : [ \"a\" , \"b\" ]\n} ").unwrap();
    assert_eq!(r.message_type, MsgTypes::Users);
    assert_eq!(r.data_array, Some(vec!["a".to_string(), "b".to_string()]));
}

#[test]
fn decode_reads_the_full_escape_set() {
    let r = decode("{\"messageType\":\"message\",\"data\":\"\\u0041\\/\\b\\f\\n\\r\\t\\\"\"}").unwrap();
    assert_eq!(r.data, Some("A/\u{8}\u{c}\n\r\t\"".to_string()));
}

#[test]
fn decode_reads_surrogate_pairs() {
    let r = decode("{\"messageType\":\"message\",\"data\":\"\\uD83D\\uDE00\"}").unwrap();
    assert_eq!(r.data, Some("\u{1F600}".to_string()));
}

#[test]
fn decode_rejects_lone_surrogates_and_raw_controls() {
    assert_eq!(
        decode("{\"messageType\":\"message\",\"data\":\"\\uD83D\"}"),
        Err(DecodeError::Malformed)
    );
    assert_eq!(
        decode("{\"messageType\":\"message\",\"data\":\"\\uDE00\"}"),
        Err(DecodeError::Malformed)
    );
    assert_eq!(
        decode("{\"messageType\":\"message\",\"data\":\"a\u{1}b\"}"),
        Err(DecodeError::Malformed)
    );
}

#[test]
fn decode_rejects_duplicate_and_unknown_fields() {
    assert_eq!(
        decode("{\"messageType\":\"users\",\"messageType\":\"users\"}"),
        Err(DecodeError::Malformed)
    );
    assert_eq!(
        decode("{\"messageType\":\"users\",\"data\":\"a\",\"data\":\"b\"}"),
        Err(DecodeError::Malformed)
    );
    assert_eq!(
        decode("{\"messageType\":\"users\",\"other\":\"x\"}"),
        Err(DecodeError::Malformed)
    );
    assert_eq!(decode("{}"), Err(DecodeError::Malformed));
}

#[test]
fn encode_writes_u_escapes_for_control_characters() {
    let e = env(MsgTypes::Message, Some("a\u{1}b"), None);
    assert_eq!(
        encode(&e),
        "{\"messageType\":\"message\",\"data\":\"a\\u0001b\"}"
    );
    assert_eq!(decode(&encode(&e)), Ok(e));
}
