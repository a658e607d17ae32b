use client_server::codec::{decode, encode, DecodeError, BUF_SIZE};
use client_server::protocol::{Command, Message};
use client_server::server::{change_of, handle_connection, handle_request, respond, step};
use client_server::store::CounterStore;
use rayon::iter::{IntoParallelIterator, ParallelIterator};

fn request(cmd: Command) -> Message {
    Message { cmd: Some(cmd), body: None }
}

fn reply(body: &str) -> Message {
    Message { cmd: None, body: Some(body.to_string()) }
}

/// One connection: the request goes over the wire, and the reply comes back
/// over it.
fn send(store: &CounterStore, m: &Message) -> Message {
    let frame = m.to_stream();
    let mut buf = [0u8; BUF_SIZE];
    buf[..frame.len()].copy_from_slice(&frame);
    let done = handle_connection(&buf, frame.len(), store).unwrap();
    assert_eq!(&done.request, m);
    assert_eq!(done.frame, encode(&done.response));
    decode(&done.frame).unwrap()
}

#[test]
fn respond_gives_the_reply_to_each_command() {
    assert_eq!(respond(Some(Command::Ping), 5), reply("pong"));
    assert_eq!(respond(Some(Command::Increment(3)), 5), reply("success"));
    assert_eq!(respond(Some(Command::Decrement(3)), 5), reply("success"));
    assert_eq!(respond(Some(Command::Fetch), 5), reply("5"));
    assert_eq!(respond(Some(Command::Fetch), -12), reply("-12"));
    assert_eq!(respond(None, 5), reply("success"));
}

#[test]
fn step_gives_the_next_counter_and_the_reply() {
    assert_eq!(step(5, &request(Command::Ping)), (5, reply("pong")));
    assert_eq!(step(5, &request(Command::Increment(3))), (8, reply("success")));
    assert_eq!(step(5, &request(Command::Decrement(7))), (-2, reply("success")));
    assert_eq!(step(5, &request(Command::Fetch)), (5, reply("5")));
    assert_eq!(step(5, &Message { cmd: None, body: None }), (5, reply("success")));
    assert_eq!(step(i32::MAX, &request(Command::Increment(1))), (i32::MIN, reply("success")));
}

#[test]
fn ping_is_answered_with_pong() {
    let store = CounterStore::new();
    assert_eq!(send(&store, &request(Command::Ping)), reply("pong"));
    store.increment(41);
    assert_eq!(send(&store, &request(Command::Ping)), reply("pong"));
    assert_eq!(store.fetch(), 41);
}

#[test]
fn increment_is_answered_with_success_and_fetch_shows_it() {
    let store = CounterStore::new();
    assert_eq!(send(&store, &request(Command::Increment(5))), reply("success"));
    assert_eq!(send(&store, &request(Command::Fetch)), reply("5"));
    assert_eq!(send(&store, &request(Command::Decrement(8))), reply("success"));
    assert_eq!(send(&store, &request(Command::Fetch)), reply("-3"));
}

#[test]
fn fetch_after_two_increments_shows_seven() {
    let store = CounterStore::new();
    send(&store, &request(Command::Increment(10)));
    send(&store, &request(Command::Increment(-3)));
    assert_eq!(send(&store, &request(Command::Fetch)), reply("7"));
}

#[test]
fn a_hundred_concurrent_increments_add_up() {
    let store = CounterStore::new();
    (0..100).into_par_iter().for_each(|_| {
        assert_eq!(send(&store, &request(Command::Increment(1))), reply("success"));
    });
    assert_eq!(send(&store, &request(Command::Fetch)), reply("100"));
}

#[test]
fn a_request_without_a_command_is_answered_with_success() {
    let store = CounterStore::new();
    store.increment(3);
    assert_eq!(handle_request(&Message { cmd: None, body: None }, &store), reply("success"));
    assert_eq!(
        handle_request(&Message { cmd: None, body: Some("hello".to_string()) }, &store),
        reply("success")
    );
    assert_eq!(store.fetch(), 3);
}

#[test]
fn the_handler_agrees_with_the_step() {
    let store = CounterStore::new();
    let mut counter = 0;
    let requests = [
        request(Command::Increment(4)),
        request(Command::Fetch),
        request(Command::Decrement(9)),
        request(Command::Ping),
        Message { cmd: None, body: None },
        request(Command::Fetch),
    ];
    for m in requests {
        let (next, expected) = step(counter, &m);
        assert_eq!(handle_request(&m, &store), expected);
        assert_eq!(store.fetch(), next);
        counter = next;
    }
}

#[test]
fn bytes_that_are_no_request_get_no_reply() {
    let store = CounterStore::new();
    store.increment(9);
    let garbage = b"{\"cmd\":{\"Increment\":1}";
    assert_eq!(handle_connection(garbage, garbage.len(), &store).err(), Some(DecodeError::Malformed));
    let buf = [0u8; BUF_SIZE];
    assert_eq!(handle_connection(&buf, 0, &store).err(), Some(DecodeError::Empty));
    assert_eq!(handle_connection(&buf, BUF_SIZE, &store).err(), Some(DecodeError::Empty));
    assert_eq!(store.fetch(), 9);
}

#[test]
fn change_of_gives_the_amount_with_its_sign() {
    assert_eq!(change_of(Some(Command::Increment(5))), Some(5));
    assert_eq!(change_of(Some(Command::Increment(-5))), Some(-5));
    assert_eq!(change_of(Some(Command::Decrement(5))), Some(-5));
    assert_eq!(change_of(Some(Command::Decrement(-5))), Some(5));
    assert_eq!(change_of(Some(Command::Decrement(i32::MIN))), Some(i32::MIN));
    assert_eq!(change_of(Some(Command::Decrement(i32::MAX))), Some(i32::MIN + 1));
    assert_eq!(change_of(Some(Command::Ping)), None);
    assert_eq!(change_of(Some(Command::Fetch)), None);
    assert_eq!(change_of(None), None);
}

#[test]
fn a_decrement_takes_its_amount_off_the_store() {
    let store = CounterStore::new();
    assert_eq!(handle_request(&request(Command::Decrement(9)), &store), reply("success"));
    assert_eq!(store.fetch(), -9);
    assert_eq!(handle_request(&request(Command::Decrement(i32::MIN)), &store), reply("success"));
    assert_eq!(store.fetch(), (-9i32).wrapping_sub(i32::MIN));
    assert_eq!(handle_request(&request(Command::Increment(4)), &store), reply("success"));
    assert_eq!(store.fetch(), (-9i32).wrapping_sub(i32::MIN) + 4);
}

#[test]
fn a_request_in_another_form_is_served_alike() {
    let store = CounterStore::new();
    let text = b" { \"body\" : null , \"cmd\" : { \"Increment\" : 6 } } ";
    let done = handle_connection(text, text.len(), &store).unwrap();
    assert_eq!(done.request, request(Command::Increment(6)));
    assert_eq!(done.response, reply("success"));
    assert_eq!(store.fetch(), 6);
}
