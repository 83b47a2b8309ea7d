//! Cross-checks the wire text against an independent JSON parser.

use serde_json::Value;
use yewchat::codec::encode;
use yewchat::protocol::{Envelope, MsgTypes};

#[test]
fn encoded_message_frame_is_valid_json() {
    let e = Envelope {
        message_type: MsgTypes::Message,
        data: Some("he said \"hi\"\nbye\\".to_string()),
        data_array: None,
    };
    let v: Value = serde_json::from_str(&encode(&e)).unwrap();
    assert_eq!(v["messageType"], "message");
    assert_eq!(v["data"], "he said \"hi\"\nbye\\");
    assert!(v.get("dataArray").is_none());
}

#[test]
fn encoded_users_frame_is_valid_json() {
    let e = Envelope {
        message_type: MsgTypes::Users,
        data: None,
        data_array: Some(vec!["alice".to_string(), "b b".to_string()]),
    };
    let v: Value = serde_json::from_str(&encode(&e)).unwrap();
    assert_eq!(v["messageType"], "users");
    assert!(v.get("data").is_none());
    let arr = v["dataArray"].as_array().unwrap();
    assert_eq!(arr.len(), 2);
    assert_eq!(arr[0], "alice");
    assert_eq!(arr[1], "b b");
}

#[test]
fn decode_accepts_an_independent_serializer_rendering() {
    // serde_json's map orders fields alphabetically and writes its own escapes
    let mut m = serde_json::Map::new();
    m.insert(
        "messageType".to_string(),
        Value::String("message".to_string()),
    );
    m.insert(
        "data".to_string(),
        Value::String("say \"hi\"\u{1}\n".to_string()),
    );
    let text = serde_json::to_string(&Value::Object(m)).unwrap();
    let e = yewchat::codec::decode(&text).unwrap();
    assert_eq!(e.message_type, MsgTypes::Message);
    assert_eq!(e.data, Some("say \"hi\"\u{1}\n".to_string()));
    assert_eq!(e.data_array, None);
}
