use respcache::align::align_text_after;
use respcache::chat::{Chat, ChatType};
use respcache::error::Error;
use respcache::user::User;

#[test]
fn aligns_two_lines_on_the_marker() {
    let out = align_text_after(':', String::from("ab: 1\nc: 22"));
    assert_eq!(out, "ab:  1\nc:  22\n");
}

#[test]
fn aligns_single_line_unchanged_but_terminated() {
    let out = align_text_after(':', String::from("name: 7"));
    assert_eq!(out, "name: 7\n");
}

#[test]
fn drops_empty_lines() {
    let out = align_text_after(':', String::from("a: 1\n\n\nbb: 2\n"));
    assert_eq!(out, "a:  1\nbb: 2\n");
}

#[test]
fn empty_text_aligns_to_nothing() {
    let out = align_text_after(':', String::from(""));
    assert_eq!(out, "");
}

#[test]
fn right_column_is_right_aligned() {
    let out = align_text_after('=', String::from("x=100\nlonger=1"));
    assert_eq!(out, "x=     100\nlonger=  1\n");
}

#[test]
fn chat_type_names() {
    assert_eq!(ChatType::Private.name(), "private");
    assert_eq!(
        ChatType::Group { title: String::from("t") }.name(),
        "group"
    );
    assert_eq!(
        ChatType::SuperGroup { title: String::from("t") }.name(),
        "supergroup"
    );
    assert_eq!(
        ChatType::Channel { title: String::from("t") }.name(),
        "channel"
    );
    let chat = Chat { id: 7, kind: ChatType::Private };
    assert_eq!(chat.kind.name(), "private");
}

#[test]
fn user_shown_name_prefers_username() {
    let user = User {
        id: 1,
        first_name: String::from("Ada"),
        is_bot: false,
        last_name: Some(String::from("Lovelace")),
        username: Some(String::from("ada")),
    };
    assert_eq!(user.shown_name(), "ada");
}

#[test]
fn user_shown_name_falls_back_to_full_name() {
    let user = User {
        id: 1,
        first_name: String::from("Ada"),
        is_bot: false,
        last_name: Some(String::from("Lovelace")),
        username: None,
    };
    assert_eq!(user.shown_name(), "Ada Lovelace");
}

#[test]
fn user_shown_name_falls_back_to_first_name() {
    let user = User {
        id: 1,
        first_name: String::from("Ada"),
        is_bot: false,
        last_name: None,
        username: None,
    };
    assert_eq!(user.shown_name(), "Ada");
}

#[test]
fn error_describe_names_each_case() {
    assert_eq!(Error::FramingViolation.describe(), "framing violation");
    assert_eq!(
        Error::ServerError(b"ERR".to_vec()).describe(),
        "server error reply"
    );
    assert_eq!(
        Error::TransportIo(String::from("broken pipe")).describe(),
        "transport i/o failure"
    );
    assert_eq!(
        Error::ConnectFailed(String::from("refused")).describe(),
        "connect failed"
    );
}
