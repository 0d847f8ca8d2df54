use respcache::command::{get_command, set_command, set_expire_command, Command};

#[test]
fn serialize_single_command() {
    let bytes = Command::new(b"GET").arg(b"key").serialize();
    assert_eq!(bytes, b"*2\r\n$3\r\nGET\r\n$3\r\nkey\r\n".to_vec());
}

#[test]
fn serialize_command_without_arguments() {
    let bytes = Command::new(b"PING").serialize();
    assert_eq!(bytes, b"*1\r\n$4\r\nPING\r\n".to_vec());
}

#[test]
fn serialize_pipeline_back_to_back() {
    let bytes = Command::new(b"SET")
        .arg(b"a")
        .arg(b"1")
        .command(b"GET")
        .arg(b"a")
        .serialize();
    assert_eq!(
        bytes,
        b"*3\r\n$3\r\nSET\r\n$1\r\na\r\n$1\r\n1\r\n*2\r\n$3\r\nGET\r\n$1\r\na\r\n".to_vec()
    );
}

#[test]
fn serialize_binary_argument() {
    let bytes = Command::new(b"SET").arg(b"k").arg(b"a\r\nb\0c").serialize();
    assert_eq!(
        bytes,
        b"*3\r\n$3\r\nSET\r\n$1\r\nk\r\n$6\r\na\r\nb\0c\r\n".to_vec()
    );
}

#[test]
fn get_command_wire_form() {
    let bytes = get_command(b"nonexistent").serialize();
    assert_eq!(bytes, b"*2\r\n$3\r\nGET\r\n$11\r\nnonexistent\r\n".to_vec());
}

#[test]
fn set_command_wire_form() {
    let bytes = set_command(b"key", b"value").serialize();
    assert_eq!(
        bytes,
        b"*3\r\n$3\r\nSET\r\n$3\r\nkey\r\n$5\r\nvalue\r\n".to_vec()
    );
}

#[test]
fn set_expire_command_wire_form() {
    let bytes = set_expire_command(b"k", b"v", 2500).serialize();
    assert_eq!(
        bytes,
        b"*5\r\n$3\r\nSET\r\n$1\r\nk\r\n$1\r\nv\r\n$2\r\nPX\r\n$4\r\n2500\r\n".to_vec()
    );
}

#[test]
fn set_expire_command_accepts_zero_ttl() {
    let bytes = set_expire_command(b"k", b"v", 0).serialize();
    assert_eq!(
        bytes,
        b"*5\r\n$3\r\nSET\r\n$1\r\nk\r\n$1\r\nv\r\n$2\r\nPX\r\n$1\r\n0\r\n".to_vec()
    );
}

#[test]
fn pipeline_len_counts_sub_commands() {
    let c = Command::new(b"SET").arg(b"a").arg(b"1").command(b"GET").arg(b"a");
    assert_eq!(c.pipeline_len(), 2);
}
