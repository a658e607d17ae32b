//! How the client chooses what to ask.

use crate::protocol::{Command, Message, MessageView};
use rand::Rng;
use vstd::prelude::*;

verus! {

/// The amounts that the client asks to add or subtract lie below this.
pub const AMOUNT_LIMIT: i32 = 1000;

/// Calls `gen_range` of the crate rand on the thread's own generator, with
/// the range from `low` up to, not including, `high`.
///
/// Trusted: the number that comes back lies in that range. The range must
/// not be empty; `gen_range` panics on an empty one.
#[verifier::external_body]
fn draw(low: i32, high: i32) -> (n: i32)
    requires
        low < high,
    ensures
        low <= n < high,
{
    rand::thread_rng().gen_range(low..high)
}

/// The command that the draws `selector` and `amount` stand for.
pub open spec fn chosen_command(selector: i32, amount: i32) -> Command {
    if selector == 0 {
        Command::Ping
    } else if selector == 1 {
        Command::Increment(amount)
    } else if selector == 2 {
        Command::Decrement(amount)
    } else {
        Command::Fetch
    }
}

/// The request that carries `cmd`.
pub open spec fn request(cmd: Command) -> MessageView {
    MessageView { cmd: Some(cmd), body: None }
}

/// The command for two draws: `selector` picks one of the four kinds, and
/// `amount` is what an increment or a decrement changes the counter by.
pub fn command_from_draw(selector: i32, amount: i32) -> (cmd: Command)
    requires
        0 <= selector <= 3,
    ensures
        cmd == chosen_command(selector, amount),
{
    if selector == 0 {
        Command::Ping
    } else if selector == 1 {
        Command::Increment(amount)
    } else if selector == 2 {
        Command::Decrement(amount)
    } else {
        Command::Fetch
    }
}

/// A command chosen at random: each of the four kinds alike, with an amount
/// from 0 up to, not including, [`AMOUNT_LIMIT`].
pub fn random_command() -> (cmd: Command)
    ensures
        exists|selector: i32, amount: i32|
            0 <= selector <= 3 && 0 <= amount < AMOUNT_LIMIT && cmd == #[trigger] chosen_command(
                selector,
                amount,
            ),
{
    let amount = draw(0, AMOUNT_LIMIT);
    let selector = draw(0, 4);
    let cmd = command_from_draw(selector, amount);
    assert(cmd == chosen_command(selector, amount));
    cmd
}

/// The request that carries `cmd`: the command and no body.
pub fn request_for(cmd: Command) -> (m: Message)
    ensures
        m@ == request(cmd),
{
    Message { cmd: Some(cmd), body: None }
}

} // verus!
