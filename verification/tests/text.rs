use client_server::protocol::{Command, Message};
use client_server::text::{ascii_string, decimal_string};

#[test]
fn decimal_string_writes_the_number() {
    assert_eq!(decimal_string(0), "0");
    assert_eq!(decimal_string(7), "7");
    assert_eq!(decimal_string(-7), "-7");
    assert_eq!(decimal_string(10), "10");
    assert_eq!(decimal_string(1000), "1000");
    assert_eq!(decimal_string(i32::MAX), "2147483647");
    assert_eq!(decimal_string(i32::MIN), "-2147483648");
    for v in [-100_000, -101, -1, 1, 99, 100, 101, 65_536, 1_000_000_007] {
        assert_eq!(decimal_string(v), v.to_string());
    }
}

#[test]
fn ascii_string_keeps_the_bytes() {
    assert_eq!(ascii_string(b"Hello, world".to_vec()), "Hello, world");
    assert_eq!(ascii_string(Vec::new()), "");
    assert_eq!(ascii_string(vec![0x00, 0x7f]), "\u{0}\u{7f}");
}

#[test]
fn a_command_is_shown_by_name_and_amount() {
    assert_eq!(Command::Ping.to_text(), "Ping");
    assert_eq!(Command::Fetch.to_text(), "Fetch");
    assert_eq!(Command::Increment(5).to_text(), "Increment(5)");
    assert_eq!(Command::Decrement(-3).to_text(), "Decrement(-3)");
    for cmd in [Command::Ping, Command::Fetch, Command::Increment(i32::MIN), Command::Decrement(12)]
    {
        assert_eq!(cmd.to_text(), format!("{:?}", cmd));
    }
}

#[test]
fn a_message_is_shown_by_its_body_or_else_its_command() {
    let reply = Message { cmd: None, body: Some("pong".to_string()) };
    assert_eq!(reply.to_text(), "pong");
    let request = Message { cmd: Some(Command::Increment(12)), body: None };
    assert_eq!(request.to_text(), "Increment(12)");
    let both = Message { cmd: Some(Command::Fetch), body: Some("7".to_string()) };
    assert_eq!(both.to_text(), "7");
}

#[test]
fn a_clone_is_equal() {
    let m = Message { cmd: Some(Command::Decrement(1)), body: Some("x".to_string()) };
    assert_eq!(m.clone(), m);
}
