use respcache::command::{get_command, set_command, set_expire_command, Command};
use respcache::error::Error;
use respcache::session::{interpret_get_reply, interpret_set_reply, Exchange};
use respcache::value::Value;

/// Run one whole exchange against canned server bytes.
fn run_exchange(command: Command, reply_bytes: &[u8]) -> Result<Vec<Value>, Error> {
    let (mut ex, _request) = Exchange::begin(command);
    ex.feed(reply_bytes);
    match ex.advance()? {
        true => Ok(ex.take_replies()),
        false => panic!("server bytes should complete the exchange"),
    }
}

/// What a cache server that holds `stored` replies to a one-command
/// request: `+OK` to a SET of any form, the stored value (or nil) to a GET.
fn fake_server(request: &[u8], stored: Option<&[u8]>) -> Vec<u8> {
    if request.starts_with(b"*2\r\n$3\r\nGET\r\n") {
        match stored {
            Some(v) => {
                let mut reply = format!("${}\r\n", v.len()).into_bytes();
                reply.extend_from_slice(v);
                reply.extend_from_slice(b"\r\n");
                reply
            }
            None => b"$-1\r\n".to_vec(),
        }
    } else {
        b"+OK\r\n".to_vec()
    }
}

#[test]
fn round_trip_set_then_get() {
    // The fake server stores whatever SET carries and hands it back to GET,
    // byte for byte — also for the empty value and one holding raw \r\n.
    for value in [b"plain".as_slice(), b"".as_slice(), b"a\r\nb\r\n".as_slice()] {
        let set = set_command(b"k", value);
        let (mut ex, request) = Exchange::begin(set);
        let reply = fake_server(&request, None);
        ex.feed(&reply);
        assert!(ex.advance().unwrap());
        let mut replies = ex.take_replies();
        interpret_set_reply(replies.remove(0)).unwrap();

        let get = get_command(b"k");
        let (mut ex, request) = Exchange::begin(get);
        let reply = fake_server(&request, Some(value));
        ex.feed(&reply);
        assert!(ex.advance().unwrap());
        let mut replies = ex.take_replies();
        let got = interpret_get_reply(replies.remove(0)).unwrap();
        assert_eq!(got, Some(value.to_vec()));
    }
}

#[test]
fn pipelining_keeps_submission_order() {
    let pipeline = Command::new(b"SET")
        .arg(b"a")
        .arg(b"1")
        .command(b"SET")
        .arg(b"b")
        .arg(b"2")
        .command(b"GET")
        .arg(b"a")
        .command(b"GET")
        .arg(b"b");
    let replies = run_exchange(pipeline, b"+OK\r\n+OK\r\n$1\r\n1\r\n$1\r\n2\r\n").unwrap();
    assert_eq!(
        replies,
        vec![
            Value::SimpleString(b"OK".to_vec()),
            Value::SimpleString(b"OK".to_vec()),
            Value::BulkString(b"1".to_vec()),
            Value::BulkString(b"2".to_vec()),
        ]
    );
}

#[test]
fn missing_key_is_none_not_an_error() {
    let replies = run_exchange(get_command(b"nonexistent"), b"$-1\r\n").unwrap();
    assert_eq!(replies, vec![Value::Nil]);
    let got = interpret_get_reply(Value::Nil).unwrap();
    assert_eq!(got, None);
}

#[test]
fn server_error_is_surfaced_with_exact_text() {
    let err = run_exchange(get_command(b"k"), b"-ERR unknown command 'GETT'\r\n").unwrap_err();
    assert_eq!(
        err,
        Error::ServerError(b"ERR unknown command 'GETT'".to_vec())
    );
}

#[test]
fn malformed_leading_byte_is_framing_violation() {
    let err = run_exchange(get_command(b"k"), b"!whatever\r\n").unwrap_err();
    assert_eq!(err, Error::FramingViolation);
}

#[test]
fn bytes_can_arrive_in_pieces() {
    let (mut ex, _request) = Exchange::begin(get_command(b"k"));
    assert!(!ex.advance().unwrap());
    ex.feed(b"$3");
    assert!(!ex.advance().unwrap());
    ex.feed(b"\r\nfo");
    assert!(!ex.advance().unwrap());
    ex.feed(b"o\r\n");
    assert!(ex.advance().unwrap());
    let replies = ex.take_replies();
    assert_eq!(replies, vec![Value::BulkString(b"foo".to_vec())]);
}

#[test]
fn set_acknowledgment_must_be_ok() {
    interpret_set_reply(Value::SimpleString(b"OK".to_vec())).unwrap();
    let err = interpret_set_reply(Value::SimpleString(b"NO".to_vec())).unwrap_err();
    assert_eq!(
        err,
        Error::AcknowledgmentMismatch(Value::SimpleString(b"NO".to_vec()))
    );
    let err = interpret_set_reply(Value::Integer(1)).unwrap_err();
    assert_eq!(err, Error::AcknowledgmentMismatch(Value::Integer(1)));
}

#[test]
fn get_of_unexpected_reply_is_mismatch() {
    let err = interpret_get_reply(Value::Integer(7)).unwrap_err();
    assert_eq!(err, Error::AcknowledgmentMismatch(Value::Integer(7)));
}

#[test]
fn set_and_expire_zero_ttl_is_accepted() {
    let replies = run_exchange(set_expire_command(b"k", b"v", 0), b"+OK\r\n").unwrap();
    let mut replies = replies;
    interpret_set_reply(replies.remove(0)).unwrap();
}
