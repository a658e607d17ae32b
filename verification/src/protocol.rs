//! The messages that client and server exchange.

use crate::text::{decimal_string, decimal_text};
use vstd::prelude::*;
use vstd::string::StringExecFns;

verus! {

/// What a client may ask of the server.
#[derive(Clone, Copy, Debug, PartialEq, Eq, Structural)]
pub enum Command {
    /// Ask whether the server is alive; it answers `pong`.
    Ping,
    /// Add the amount to the server's counter.
    Increment(i32),
    /// Subtract the amount from the server's counter.
    Decrement(i32),
    /// Ask for the counter's current value.
    Fetch,
}

/// The unit of exchange, in both directions.
///
/// A request carries a command and no body; a reply carries a body and no
/// command. The type does not enforce this: each side keeps to it.
#[derive(Debug, PartialEq, Eq)]
pub struct Message {
    /// The command, on a request.
    pub cmd: Option<Command>,
    /// The text, on a reply.
    pub body: Option<String>,
}

/// What a [`Message`] holds, as mathematical values.
pub struct MessageView {
    pub cmd: Option<Command>,
    pub body: Option<Seq<char>>,
}

impl View for Message {
    type V = MessageView;

    open spec fn view(&self) -> MessageView {
        MessageView {
            cmd: self.cmd,
            body: match self.body {
                Some(s) => Some(s@),
                None => None,
            },
        }
    }
}

impl Clone for Message {
    fn clone(&self) -> (copy: Self)
        ensures
            copy@ == self@,
    {
        Message {
            cmd: self.cmd,
            body: match &self.body {
                Some(text) => Some(text.clone()),
                None => None,
            },
        }
    }
}

/// How a command is shown: its name, and the amount in brackets where it has
/// one.
pub open spec fn command_text(cmd: Command) -> Seq<char> {
    match cmd {
        Command::Ping => "Ping"@,
        Command::Fetch => "Fetch"@,
        Command::Increment(amount) => "Increment("@ + decimal_text(amount as int) + ")"@,
        Command::Decrement(amount) => "Decrement("@ + decimal_text(amount as int) + ")"@,
    }
}

/// How a message is shown: its body where it has one, else its command.
pub open spec fn message_text(m: MessageView) -> Seq<char> {
    match m.body {
        Some(text) => text,
        None => command_text(m.cmd->0),
    }
}

impl Command {
    /// The command as text, for a log line.
    pub fn to_text(&self) -> (s: String)
        ensures
            s@ == command_text(*self),
    {
        match *self {
            Command::Ping => "Ping".to_owned(),
            Command::Fetch => "Fetch".to_owned(),
            Command::Increment(amount) => {
                let mut s = "Increment(".to_owned();
                s.append(decimal_string(amount).as_str());
                s.append(")");
                s
            },
            Command::Decrement(amount) => {
                let mut s = "Decrement(".to_owned();
                s.append(decimal_string(amount).as_str());
                s.append(")");
                s
            },
        }
    }
}

impl Message {
    /// The message as text, for a log line: the body of a reply, the command
    /// of a request. A message that has neither has no text.
    pub fn to_text(&self) -> (s: String)
        requires
            self.body is Some || self.cmd is Some,
        ensures
            s@ == message_text(self@),
    {
        match &self.body {
            Some(text) => text.clone(),
            None => match self.cmd {
                Some(cmd) => cmd.to_text(),
                None => unreached(),
            },
        }
    }
}

} // verus!
