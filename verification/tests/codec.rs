use chat_core::codec::ChatMessage;
use chat_core::codec::Envelope;
use chat_core::codec::MsgTypes;
use chat_core::codec::decode;
use chat_core::codec::decode_chat_message;
use chat_core::codec::encode;

#[test]
fn encode_register_exact() {
    let e = Envelope::Register(String::from("alice"));
    assert_eq!(encode(&e), "{\"messageType\":\"register\",\"data\":\"alice\"}");
}

#[test]
fn encode_message_exact() {
    let e = Envelope::Message(String::from("hello"));
    assert_eq!(encode(&e), "{\"messageType\":\"message\",\"data\":\"hello\"}");
}

#[test]
fn encode_users_exact() {
    let e = Envelope::Users(vec![String::from("alice"), String::from("bob")]);
    assert_eq!(
        encode(&e),
        "{\"messageType\":\"users\",\"dataArray\":[\"alice\",\"bob\"]}"
    );
}

#[test]
fn encode_users_empty_exact() {
    let e = Envelope::Users(vec![]);
    assert_eq!(encode(&e), "{\"messageType\":\"users\",\"dataArray\":[]}");
}

#[test]
fn encode_escapes_quote_backslash_control() {
    let e = Envelope::Message(String::from("a\"b\\c\td"));
    assert_eq!(
        encode(&e),
        "{\"messageType\":\"message\",\"data\":\"a\\\"b\\\\c\\u0009d\"}"
    );
}

#[test]
fn round_trip_register() {
    let e = Envelope::Register(String::from("alice"));
    match decode(&encode(&e)) {
        Ok(Envelope::Register(t)) => assert_eq!(t, "alice"),
        _ => panic!("round trip lost the register envelope"),
    }
}

#[test]
fn round_trip_message_with_escapes() {
    let text = "he said \"hi\"\\\n{\"from\":\"x\"}";
    let e = Envelope::Message(String::from(text));
    match decode(&encode(&e)) {
        Ok(Envelope::Message(t)) => assert_eq!(t, text),
        _ => panic!("round trip lost the message envelope"),
    }
}

#[test]
fn round_trip_users() {
    let names = vec![String::from("alice"), String::from("bob"), String::from("alice")];
    let e = Envelope::Users(names.clone());
    match decode(&encode(&e)) {
        Ok(Envelope::Users(l)) => assert_eq!(l, names),
        _ => panic!("round trip lost the users envelope"),
    }
}

#[test]
fn round_trip_users_empty() {
    let e = Envelope::Users(vec![]);
    match decode(&encode(&e)) {
        Ok(Envelope::Users(l)) => assert!(l.is_empty()),
        _ => panic!("round trip lost the empty users envelope"),
    }
}

#[test]
fn decode_users_frame() {
    match decode("{\"messageType\":\"users\",\"dataArray\":[\"alice\",\"bob\"]}") {
        Ok(Envelope::Users(l)) => {
            assert_eq!(l, vec![String::from("alice"), String::from("bob")]);
        }
        _ => panic!("users frame did not decode"),
    }
}

#[test]
fn decode_message_frame_with_nested_payload() {
    let frame = "{\"messageType\":\"message\",\"data\":\"{\\\"from\\\":\\\"bob\\\",\\\"message\\\":\\\"hi\\\"}\"}";
    match decode(frame) {
        Ok(Envelope::Message(payload)) => {
            assert_eq!(payload, "{\"from\":\"bob\",\"message\":\"hi\"}");
            let m: ChatMessage = decode_chat_message(&payload).expect("payload decodes");
            assert_eq!(m.from, "bob");
            assert_eq!(m.message, "hi");
        }
        _ => panic!("message frame did not decode"),
    }
}

#[test]
fn decode_unicode_escape() {
    match decode("{\"messageType\":\"message\",\"data\":\"a\\u0009b\"}") {
        Ok(Envelope::Message(t)) => assert_eq!(t, "a\tb"),
        _ => panic!("unicode escape did not decode"),
    }
}

#[test]
fn decode_rejects_malformed_json() {
    assert!(decode("not json at all").is_err());
    assert!(decode("").is_err());
    assert!(decode("{\"messageType\":\"message\",\"data\":\"unterminated").is_err());
}

#[test]
fn decode_rejects_unknown_tag() {
    assert!(decode("{\"messageType\":\"presence\",\"data\":\"x\"}").is_err());
}

#[test]
fn decode_rejects_mismatched_payload_field() {
    // a users tag must carry the list field, not the single field
    assert!(decode("{\"messageType\":\"users\",\"data\":\"alice\"}").is_err());
    // a message tag must carry the single field, not the list field
    assert!(decode("{\"messageType\":\"message\",\"dataArray\":[\"x\"]}").is_err());
}

#[test]
fn decode_rejects_trailing_garbage() {
    assert!(decode("{\"messageType\":\"register\",\"data\":\"alice\"}x").is_err());
}

#[test]
fn decode_chat_message_rejects_malformed() {
    assert!(decode_chat_message("hi").is_err());
    assert!(decode_chat_message("{\"from\":\"bob\"}").is_err());
    assert!(decode_chat_message("").is_err());
}

#[test]
fn envelope_kind_matches_variant() {
    assert_eq!(Envelope::Users(vec![]).kind(), MsgTypes::Users);
    assert_eq!(Envelope::Register(String::from("a")).kind(), MsgTypes::Register);
    assert_eq!(Envelope::Message(String::from("b")).kind(), MsgTypes::Message);
}
