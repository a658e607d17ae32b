use client_server::client::{command_from_draw, random_command, request_for, AMOUNT_LIMIT};
use client_server::protocol::{Command, Message};

#[test]
fn each_selector_stands_for_one_kind() {
    assert_eq!(command_from_draw(0, 17), Command::Ping);
    assert_eq!(command_from_draw(1, 17), Command::Increment(17));
    assert_eq!(command_from_draw(2, 17), Command::Decrement(17));
    assert_eq!(command_from_draw(3, 17), Command::Fetch);
    assert_eq!(command_from_draw(1, 0), Command::Increment(0));
    assert_eq!(command_from_draw(2, 999), Command::Decrement(999));
}

#[test]
fn a_random_command_keeps_to_the_amount_limit() {
    assert_eq!(AMOUNT_LIMIT, 1000);
    for _ in 0..5000 {
        match random_command() {
            Command::Increment(amount) | Command::Decrement(amount) => {
                assert!(0 <= amount && amount < AMOUNT_LIMIT);
            }
            Command::Ping | Command::Fetch => {}
        }
    }
}

#[test]
fn random_commands_are_of_every_kind_and_of_many_amounts() {
    let mut kinds = [false; 4];
    let mut low = false;
    let mut high = false;
    for _ in 0..5000 {
        match random_command() {
            Command::Ping => kinds[0] = true,
            Command::Increment(amount) => {
                kinds[1] = true;
                low |= amount < 500;
                high |= amount >= 500;
            }
            Command::Decrement(amount) => {
                kinds[2] = true;
                low |= amount < 500;
                high |= amount >= 500;
            }
            Command::Fetch => kinds[3] = true,
        }
    }
    assert_eq!(kinds, [true; 4]);
    assert!(low && high);
}

#[test]
fn a_request_carries_the_command_and_no_body() {
    assert_eq!(
        request_for(Command::Increment(3)),
        Message { cmd: Some(Command::Increment(3)), body: None }
    );
    assert_eq!(request_for(Command::Ping), Message { cmd: Some(Command::Ping), body: None });
}
