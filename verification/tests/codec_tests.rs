use respcache::codec::{decode_value, Decoded};
use respcache::error::Error;
use respcache::value::Value;

fn decode_all(bytes: &[u8]) -> Result<(Value, usize), Error> {
    let buf: Vec<u8> = bytes.to_vec();
    match decode_value(&buf, 0)? {
        Decoded::Done { value, next } => Ok((value, next)),
        Decoded::Incomplete => panic!("expected a complete reply"),
    }
}

fn decode_partial(bytes: &[u8]) -> Result<Option<Value>, Error> {
    let buf: Vec<u8> = bytes.to_vec();
    match decode_value(&buf, 0)? {
        Decoded::Done { value, .. } => Ok(Some(value)),
        Decoded::Incomplete => Ok(None),
    }
}

#[test]
fn simple_string_reply() {
    let (v, next) = decode_all(b"+OK\r\n").unwrap();
    assert_eq!(v, Value::SimpleString(b"OK".to_vec()));
    assert_eq!(next, 5);
}

#[test]
fn simple_string_trims_only_line_break() {
    let (v, _) = decode_all(b"+hello world\r\n").unwrap();
    assert_eq!(v, Value::SimpleString(b"hello world".to_vec()));
}

#[test]
fn integer_reply() {
    let (v, _) = decode_all(b":1000\r\n").unwrap();
    assert_eq!(v, Value::Integer(1000));
}

#[test]
fn negative_integer_reply() {
    let (v, _) = decode_all(b":-42\r\n").unwrap();
    assert_eq!(v, Value::Integer(-42));
}

#[test]
fn integer_reply_extremes() {
    let (v, _) = decode_all(b":9223372036854775807\r\n").unwrap();
    assert_eq!(v, Value::Integer(i64::MAX));
    let (v, _) = decode_all(b":-9223372036854775808\r\n").unwrap();
    assert_eq!(v, Value::Integer(i64::MIN));
}

#[test]
fn integer_reply_out_of_range_is_framing() {
    assert_eq!(
        decode_partial(b":9223372036854775808\r\n"),
        Err(Error::FramingViolation)
    );
    assert_eq!(
        decode_partial(b":-9223372036854775809\r\n"),
        Err(Error::FramingViolation)
    );
}

#[test]
fn integer_reply_garbage_is_framing() {
    assert_eq!(decode_partial(b":12a\r\n"), Err(Error::FramingViolation));
    assert_eq!(decode_partial(b":\r\n"), Err(Error::FramingViolation));
}

#[test]
fn bulk_string_reply() {
    let (v, next) = decode_all(b"$3\r\nfoo\r\n").unwrap();
    assert_eq!(v, Value::BulkString(b"foo".to_vec()));
    assert_eq!(next, 9);
}

#[test]
fn empty_bulk_string_reply() {
    let (v, _) = decode_all(b"$0\r\n\r\n").unwrap();
    assert_eq!(v, Value::BulkString(Vec::new()));
}

#[test]
fn bulk_string_with_raw_line_breaks() {
    let (v, next) = decode_all(b"$7\r\na\r\nb\r\nc\r\n").unwrap();
    assert_eq!(v, Value::BulkString(b"a\r\nb\r\nc".to_vec()));
    assert_eq!(next, 13);
}

#[test]
fn nil_reply() {
    let (v, next) = decode_all(b"$-1\r\n").unwrap();
    assert_eq!(v, Value::Nil);
    assert_eq!(next, 5);
}

#[test]
fn negative_bulk_length_is_framing() {
    assert_eq!(decode_partial(b"$-2\r\n"), Err(Error::FramingViolation));
    assert_eq!(decode_partial(b"$-12\r\n"), Err(Error::FramingViolation));
}

#[test]
fn server_error_reply_carries_exact_message() {
    assert_eq!(
        decode_partial(b"-ERR unknown command\r\n"),
        Err(Error::ServerError(b"ERR unknown command".to_vec()))
    );
}

#[test]
fn bad_leading_byte_is_framing() {
    assert_eq!(decode_partial(b"!bogus\r\n"), Err(Error::FramingViolation));
    assert_eq!(decode_partial(b"?\r\n"), Err(Error::FramingViolation));
}

#[test]
fn array_reply() {
    let (v, _) = decode_all(b"*2\r\n$1\r\na\r\n:5\r\n").unwrap();
    assert_eq!(
        v,
        Value::Array(vec![Value::BulkString(b"a".to_vec()), Value::Integer(5)])
    );
}

#[test]
fn empty_array_reply() {
    let (v, _) = decode_all(b"*0\r\n").unwrap();
    assert_eq!(v, Value::Array(Vec::new()));
}

#[test]
fn nested_array_is_framing() {
    assert_eq!(
        decode_partial(b"*1\r\n*1\r\n+x\r\n"),
        Err(Error::FramingViolation)
    );
}

#[test]
fn negative_array_count_is_framing() {
    assert_eq!(decode_partial(b"*-1\r\n"), Err(Error::FramingViolation));
}

#[test]
fn incomplete_replies_ask_for_more() {
    assert_eq!(decode_partial(b"").unwrap(), None);
    assert_eq!(decode_partial(b"+OK").unwrap(), None);
    assert_eq!(decode_partial(b"$3\r\nfo").unwrap(), None);
    assert_eq!(decode_partial(b"$3\r\nfoo\r").unwrap(), None);
    assert_eq!(decode_partial(b"*2\r\n+a\r\n").unwrap(), None);
    assert_eq!(decode_partial(b"$18446744073709551616\r\n").unwrap(), None);
}

#[test]
fn error_inside_array_is_surfaced() {
    assert_eq!(
        decode_partial(b"*2\r\n+a\r\n-oops\r\n"),
        Err(Error::ServerError(b"oops".to_vec()))
    );
}

#[test]
fn empty_simple_string_reply() {
    let (v, next) = decode_all(b"+\r\n").unwrap();
    assert_eq!(v, Value::SimpleString(Vec::new()));
    assert_eq!(next, 3);
}

#[test]
fn bare_newline_terminates_a_header_line() {
    let (v, next) = decode_all(b"+OK\n").unwrap();
    assert_eq!(v, Value::SimpleString(b"OK".to_vec()));
    assert_eq!(next, 4);
}

#[test]
fn zero_integer_reply() {
    let (v, _) = decode_all(b":0\r\n").unwrap();
    assert_eq!(v, Value::Integer(0));
}

#[test]
fn leading_zeros_in_lengths_and_integers() {
    let (v, _) = decode_all(b"$03\r\nfoo\r\n").unwrap();
    assert_eq!(v, Value::BulkString(b"foo".to_vec()));
    let (v, _) = decode_all(b":007\r\n").unwrap();
    assert_eq!(v, Value::Integer(7));
}

#[test]
fn nil_inside_array() {
    let (v, _) = decode_all(b"*2\r\n$-1\r\n+x\r\n").unwrap();
    assert_eq!(
        v,
        Value::Array(vec![Value::Nil, Value::SimpleString(b"x".to_vec())])
    );
}

#[test]
fn decode_resumes_at_next() {
    let buf: Vec<u8> = b"+one\r\n+two\r\n".to_vec();
    let (v1, next) = match decode_value(&buf, 0).unwrap() {
        Decoded::Done { value, next } => (value, next),
        Decoded::Incomplete => panic!("first reply should be complete"),
    };
    assert_eq!(v1, Value::SimpleString(b"one".to_vec()));
    let v2 = match decode_value(&buf, next).unwrap() {
        Decoded::Done { value, .. } => value,
        Decoded::Incomplete => panic!("second reply should be complete"),
    };
    assert_eq!(v2, Value::SimpleString(b"two".to_vec()));
}
