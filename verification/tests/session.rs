use chat_core::codec::Envelope;
use chat_core::codec::decode;
use chat_core::session::Chat;
use chat_core::session::Msg;
use chat_core::session::avatar_url;

const AVATAR_BASE: &str = "https://avatars.dicebear.com/api/adventurer-neutral/";

#[test]
fn avatar_url_exact() {
    assert_eq!(
        avatar_url("alice"),
        format!("{}alice.svg", AVATAR_BASE)
    );
}

#[test]
fn mount_sends_one_register_frame() {
    let (chat, outbound) = Chat::create("alice");
    // exactly one outbound frame is produced at mount, and it is the register envelope
    assert_eq!(outbound, "{\"messageType\":\"register\",\"data\":\"alice\"}");
    assert!(chat.users.is_empty());
    assert!(chat.messages.is_empty());
}

#[test]
fn users_frame_builds_roster_in_order() {
    let (mut chat, _) = Chat::create("alice");
    let render = chat.handle_frame("{\"messageType\":\"users\",\"dataArray\":[\"alice\",\"bob\"]}");
    assert!(render);
    assert_eq!(chat.users.len(), 2);
    assert_eq!(chat.users[0].name, "alice");
    assert_eq!(chat.users[0].avatar, format!("{}alice.svg", AVATAR_BASE));
    assert_eq!(chat.users[1].name, "bob");
    assert_eq!(chat.users[1].avatar, format!("{}bob.svg", AVATAR_BASE));
}

#[test]
fn users_frame_replaces_roster_wholesale() {
    let (mut chat, _) = Chat::create("alice");
    chat.handle_frame("{\"messageType\":\"users\",\"dataArray\":[\"alice\",\"bob\"]}");
    chat.handle_frame("{\"messageType\":\"users\",\"dataArray\":[\"carol\"]}");
    // nothing of the first roster survives
    assert_eq!(chat.users.len(), 1);
    assert_eq!(chat.users[0].name, "carol");
}

#[test]
fn message_frame_appends_to_transcript() {
    let (mut chat, _) = Chat::create("alice");
    chat.handle_frame("{\"messageType\":\"users\",\"dataArray\":[\"alice\",\"bob\"]}");
    let frame = "{\"messageType\":\"message\",\"data\":\"{\\\"from\\\":\\\"bob\\\",\\\"message\\\":\\\"hi\\\"}\"}";
    let render = chat.handle_frame(frame);
    assert!(render);
    assert_eq!(chat.messages.len(), 1);
    assert_eq!(chat.messages[0].from, "bob");
    assert_eq!(chat.messages[0].message, "hi");
    // the sender is in the roster, so the avatar lookup succeeds
    assert_eq!(
        chat.sender_avatar("bob"),
        Some(format!("{}bob.svg", AVATAR_BASE))
    );
}

#[test]
fn message_from_unknown_sender_keeps_transcript_and_degrades_lookup() {
    let (mut chat, _) = Chat::create("alice");
    let frame = "{\"messageType\":\"message\",\"data\":\"{\\\"from\\\":\\\"bob\\\",\\\"message\\\":\\\"hi\\\"}\"}";
    chat.handle_frame(frame);
    // the message is kept even though bob is not in the roster...
    assert_eq!(chat.messages.len(), 1);
    // ...and the avatar lookup degrades to None instead of failing
    assert_eq!(chat.sender_avatar("bob"), None);
}

#[test]
fn transcript_keeps_arrival_order_and_duplicates() {
    let (mut chat, _) = Chat::create("alice");
    let hi = "{\"messageType\":\"message\",\"data\":\"{\\\"from\\\":\\\"bob\\\",\\\"message\\\":\\\"hi\\\"}\"}";
    let yo = "{\"messageType\":\"message\",\"data\":\"{\\\"from\\\":\\\"alice\\\",\\\"message\\\":\\\"yo\\\"}\"}";
    chat.handle_frame(hi);
    chat.handle_frame(yo);
    chat.handle_frame(hi);
    assert_eq!(chat.messages.len(), 3);
    assert_eq!(chat.messages[0].message, "hi");
    assert_eq!(chat.messages[1].message, "yo");
    assert_eq!(chat.messages[2].message, "hi");
}

#[test]
fn register_frame_inbound_is_a_no_op() {
    let (mut chat, _) = Chat::create("alice");
    let render = chat.handle_frame("{\"messageType\":\"register\",\"data\":\"bob\"}");
    assert!(!render);
    assert!(chat.users.is_empty());
    assert!(chat.messages.is_empty());
}

#[test]
fn bad_frame_is_dropped_without_tearing_state_down() {
    let (mut chat, _) = Chat::create("alice");
    chat.handle_frame("{\"messageType\":\"users\",\"dataArray\":[\"bob\"]}");
    let render = chat.handle_frame("garbage");
    assert!(!render);
    assert_eq!(chat.users.len(), 1);
    // a later well-formed frame is still processed
    assert!(chat.handle_frame("{\"messageType\":\"users\",\"dataArray\":[\"carol\"]}"));
    assert_eq!(chat.users[0].name, "carol");
}

#[test]
fn bad_nested_payload_is_dropped() {
    let (mut chat, _) = Chat::create("alice");
    let render = chat.handle_frame("{\"messageType\":\"message\",\"data\":\"not a chat message\"}");
    assert!(!render);
    assert!(chat.messages.is_empty());
}

#[test]
fn submit_empty_input_sends_nothing() {
    let (chat, _) = Chat::create("alice");
    assert_eq!(chat.submit(""), None);
}

#[test]
fn submit_hello_encodes_a_message_envelope() {
    let (chat, _) = Chat::create("alice");
    let outbound = chat.submit("hello").expect("non-empty input is sent");
    assert_eq!(outbound, "{\"messageType\":\"message\",\"data\":\"hello\"}");
    match decode(&outbound) {
        Ok(Envelope::Message(t)) => assert_eq!(t, "hello"),
        _ => panic!("outbound frame is not a message envelope"),
    }
    // submitting does not touch the local transcript
    assert!(chat.messages.is_empty());
}

#[test]
fn update_dispatches_inbound_and_submit() {
    let (mut chat, _) = Chat::create("alice");
    let (render, out) = chat.update(Msg::HandleMsg(String::from(
        "{\"messageType\":\"users\",\"dataArray\":[\"bob\"]}",
    )));
    assert!(render);
    assert_eq!(out, None);
    assert_eq!(chat.users.len(), 1);

    let (render, out) = chat.update(Msg::SubmitMessage(String::from("hey")));
    assert!(!render);
    assert_eq!(
        out,
        Some(String::from("{\"messageType\":\"message\",\"data\":\"hey\"}"))
    );

    let (render, out) = chat.update(Msg::SubmitMessage(String::from("")));
    assert!(!render);
    assert_eq!(out, None);
}
