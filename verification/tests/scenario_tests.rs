use respcache::command::{get_command, set_command};
use respcache::error::Error;
use respcache::pool::PoolState;
use respcache::session::{interpret_get_reply, interpret_set_reply, Exchange};
use respcache::value::Value;

/// A server that echoes `+OK` to any SET and `$3\r\nfoo\r\n` to any GET.
fn echo_server(request: &[u8]) -> Vec<u8> {
    if request.starts_with(b"*2\r\n$3\r\nGET\r\n") {
        b"$3\r\nfoo\r\n".to_vec()
    } else {
        b"+OK\r\n".to_vec()
    }
}

fn run(command: respcache::command::Command) -> Result<Vec<Value>, Error> {
    let (mut ex, request) = Exchange::begin(command);
    let reply = echo_server(&request);
    ex.feed(&reply);
    assert!(ex.advance()?);
    Ok(ex.take_replies())
}

#[test]
fn two_sets_then_a_get_over_a_pool_of_two() {
    // Pool of size 2; two callers hold one connection each and issue their
    // SETs with no coordination, then one of them runs a GET.
    let mut pool = PoolState::new(2);
    let slot_a = pool.try_acquire().expect("first caller gets a connection");
    let slot_b = pool.try_acquire().expect("second caller gets a connection");
    assert_ne!(slot_a, slot_b);
    // A third caller at this moment would have to wait.
    assert_eq!(pool.try_acquire(), None);

    let mut replies = run(set_command(b"alpha", b"1")).unwrap();
    interpret_set_reply(replies.remove(0)).expect("first SET succeeds");
    let mut replies = run(set_command(b"beta", b"2")).unwrap();
    interpret_set_reply(replies.remove(0)).expect("second SET succeeds");

    pool.release(slot_b);
    let slot_c = pool.try_acquire().expect("the freed connection is granted");
    assert_eq!(slot_c, slot_b);

    let mut replies = run(get_command(b"alpha")).unwrap();
    let got = interpret_get_reply(replies.remove(0)).unwrap();
    assert_eq!(got, Some(b"foo".to_vec()));

    pool.release(slot_a);
    pool.release(slot_c);
}
