//! What the server does with one request.

use crate::codec::{decoding, encoding, unpadded, DecodeError};
use crate::counter::{apply, counter_after, effect, wrap};
use crate::protocol::{Command, Message, MessageView};
use crate::store::CounterStore;
use crate::text::{decimal_string, decimal_text};
use vstd::prelude::*;

verus! {

/// The body of the reply to `cmd`, from a server whose counter holds
/// `counter` when the command takes effect.
pub open spec fn reply_body(cmd: Option<Command>, counter: i32) -> Seq<char> {
    match cmd {
        Some(Command::Ping) => "pong"@,
        Some(Command::Fetch) => decimal_text(counter as int),
        Some(Command::Increment(_)) => "success"@,
        Some(Command::Decrement(_)) => "success"@,
        None => "success"@,
    }
}

/// The reply to `cmd`: a body and no command.
pub open spec fn reply(cmd: Option<Command>, counter: i32) -> MessageView {
    MessageView { cmd: None, body: Some(reply_body(cmd, counter)) }
}

/// The counter after a request with the command `cmd`.
pub open spec fn counter_after_request(counter: i32, cmd: Option<Command>) -> i32 {
    match cmd {
        Some(c) => counter_after(counter, c),
        None => counter,
    }
}

/// Whether the reply to `cmd` shows the counter.
pub open spec fn shows_counter(cmd: Option<Command>) -> bool {
    cmd == Some(Command::Fetch)
}

/// The reply to `cmd`, where the counter held `counter` when the command took
/// effect.
pub fn respond(cmd: Option<Command>, counter: i32) -> (response: Message)
    ensures
        response@ == reply(cmd, counter),
{
    let body = match cmd {
        Some(Command::Ping) => "pong".to_owned(),
        Some(Command::Fetch) => decimal_string(counter),
        _ => "success".to_owned(),
    };
    Message { cmd: None, body: Some(body) }
}

/// One request to a server that has the counter to itself: the counter
/// afterwards, and the reply.
pub fn step(counter: i32, request: &Message) -> (r: (i32, Message))
    ensures
        r.0 == counter_after_request(counter, request@.cmd),
        r.1@ == reply(request@.cmd, counter),
{
    let next = match request.cmd {
        Some(cmd) => apply(counter, cmd),
        None => counter,
    };
    (next, respond(request.cmd, counter))
}

/// What `cmd` adds to the shared counter, wrapped around to 32 bits; `None`
/// for a command that leaves the counter alone.
pub fn change_of(cmd: Option<Command>) -> (change: Option<i32>)
    ensures
        change == (match cmd {
            Some(c) => if c is Increment || c is Decrement {
                Some(wrap(effect(c)))
            } else {
                None
            },
            None => None,
        }),
{
    match cmd {
        Some(Command::Increment(amount)) => Some(amount),
        Some(Command::Decrement(amount)) => Some(0i32.wrapping_sub(amount)),
        _ => None,
    }
}

/// Carries out `request` on the shared counter and gives the reply.
///
/// An increment or a decrement reaches the counter as one atomic addition of
/// [`change_of`] its command. The reply does not depend on the counter
/// unless the request fetches it; then it shows the value that the counter
/// held at the moment of the fetch.
pub fn handle_request(request: &Message, store: &CounterStore) -> (response: Message)
    ensures
        !shows_counter(request@.cmd) ==> response@ == reply(request@.cmd, 0),
        exists|counter: i32| response@ == #[trigger] reply(request@.cmd, counter),
{
    match change_of(request.cmd) {
        Some(change) => {
            store.increment(change);
        },
        None => {},
    }
    let seen: i32 = match request.cmd {
        Some(Command::Fetch) => store.fetch(),
        _ => 0,
    };
    let response = respond(request.cmd, seen);
    assert(response@ == reply(request@.cmd, seen));
    response
}

/// What one connection came to: the request that was read, the reply to it,
/// and the reply's bytes for the stream.
pub struct Exchange {
    pub request: Message,
    pub response: Message,
    pub frame: Vec<u8>,
}

/// Serves one connection: decodes the request that a single read has left in
/// the first `bytes_read` bytes of `buf`, carries it out on the shared
/// counter, and encodes the reply.
///
/// Bytes that are no request get no reply: the error is all that comes back,
/// and the counter is not touched.
pub fn handle_connection(buf: &[u8], bytes_read: usize, store: &CounterStore) -> (r: Result<
    Exchange,
    DecodeError,
>)
    requires
        bytes_read <= buf.len(),
    ensures
        match r {
            Ok(done) => {
                &&& decoding(buf@.take(bytes_read as int)) == Some(done.request@)
                &&& exists|counter: i32|
                    done.response@ == #[trigger] reply(done.request@.cmd, counter)
                &&& !shows_counter(done.request@.cmd) ==> done.response@ == reply(
                    done.request@.cmd,
                    0,
                )
                &&& done.frame@ == encoding(done.response@)
            },
            Err(e) => {
                &&& decoding(buf@.take(bytes_read as int)) is None
                &&& e == DecodeError::Empty <==> unpadded(buf@.take(bytes_read as int)).len() == 0
            },
        },
{
    match Message::from_stream(buf, bytes_read) {
        Ok(request) => {
            let response = handle_request(&request, store);
            let frame = response.to_stream();
            Ok(Exchange { request, response, frame })
        },
        Err(e) => Err(e),
    }
}

/// A ping is always answered with `pong`.
pub proof fn law_ping_gets_pong(counter: i32)
    ensures
        reply(Some(Command::Ping), counter) == (MessageView { cmd: None, body: Some("pong"@) }),
{
}

/// An increment or a decrement is answered with `success`, not with the
/// counter; and the counter then holds the change, so that a fetch that
/// follows shows it.
pub proof fn law_update_gets_success(counter: i32, amount: i32)
    ensures
        reply(Some(Command::Increment(amount)), counter).body == Some("success"@),
        reply(Some(Command::Decrement(amount)), counter).body == Some("success"@),
        reply(
            Some(Command::Fetch),
            counter_after_request(counter, Some(Command::Increment(amount))),
        ).body == Some(decimal_text(crate::counter::wrap(counter + amount) as int)),
        reply(
            Some(Command::Fetch),
            counter_after_request(counter, Some(Command::Decrement(amount))),
        ).body == Some(decimal_text(crate::counter::wrap(counter - amount) as int)),
{
}

/// A request without a command changes nothing and is answered with
/// `success`.
pub proof fn law_no_command_gets_success(counter: i32)
    ensures
        reply(None, counter) == (MessageView { cmd: None, body: Some("success"@) }),
        counter_after_request(counter, None) == counter,
{
}

} // verus!
