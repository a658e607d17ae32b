//! A message as any JSON text may hold it.
//!
//! The text is an object with the keys `cmd` and `body`, each of which may
//! be missing or `null`, and any other keys, which are passed over; or an
//! array of the two values. A command is its name as a string where it has
//! no amount, or an object with the name as its one key: the amount under
//! it, or `null` under the name of a command without one.

use crate::json::{json_reading, read_json, Json, JsonView};
use crate::protocol::{Command, Message, MessageView};
use vstd::prelude::*;

verus! {

/// The text under `key` in `fields`: under the last of them where there are
/// several, `None` where there is none.
pub open spec fn field(fields: Seq<(Seq<char>, Seq<u8>)>, key: Seq<char>) -> Option<Seq<u8>>
    decreases fields.len(),
{
    if fields.len() == 0 {
        None
    } else if fields.last().0 == key {
        Some(fields.last().1)
    } else {
        field(fields.drop_last(), key)
    }
}

/// The amount that `text` holds: an integer that fits 32 bits.
pub open spec fn amount_in(text: Seq<u8>) -> Option<i32> {
    match json_reading(text) {
        Some(JsonView::Number(Some(n))) => if i32::MIN <= n <= i32::MAX {
            Some(n as i32)
        } else {
            None
        },
        _ => None,
    }
}

/// The command with the name `name` and the text `value` under it.
pub open spec fn variant_in(name: Seq<char>, value: Seq<u8>) -> Option<Command> {
    if name == "Ping"@ {
        if json_reading(value) == Some(JsonView::Null) {
            Some(Command::Ping)
        } else {
            None
        }
    } else if name == "Fetch"@ {
        if json_reading(value) == Some(JsonView::Null) {
            Some(Command::Fetch)
        } else {
            None
        }
    } else if name == "Increment"@ {
        match amount_in(value) {
            Some(amount) => Some(Command::Increment(amount)),
            None => None,
        }
    } else if name == "Decrement"@ {
        match amount_in(value) {
            Some(amount) => Some(Command::Decrement(amount)),
            None => None,
        }
    } else {
        None
    }
}

/// The value of the field `cmd` that `text` holds: `Some(None)` for `null`,
/// `None` where it holds no such value.
pub open spec fn command_in(text: Seq<u8>) -> Option<Option<Command>> {
    match json_reading(text) {
        Some(JsonView::Null) => Some(None),
        Some(JsonView::Text(name)) => if name == "Ping"@ {
            Some(Some(Command::Ping))
        } else if name == "Fetch"@ {
            Some(Some(Command::Fetch))
        } else {
            None
        },
        Some(JsonView::Object(fields)) => if fields.len() == 1 {
            match variant_in(fields[0].0, fields[0].1) {
                Some(cmd) => Some(Some(cmd)),
                None => None,
            }
        } else {
            None
        },
        _ => None,
    }
}

/// The value of the field `body` that `text` holds: `Some(None)` for `null`,
/// `None` where it holds no such value.
pub open spec fn body_in(text: Seq<u8>) -> Option<Option<Seq<char>>> {
    match json_reading(text) {
        Some(JsonView::Null) => Some(None),
        Some(JsonView::Text(body)) => Some(Some(body)),
        _ => None,
    }
}

/// The message whose two fields have the texts `cmd` and `body`; a field
/// without a text is absent.
pub open spec fn message_in(cmd: Option<Seq<u8>>, body: Option<Seq<u8>>) -> Option<MessageView> {
    let read_cmd = match cmd {
        Some(text) => command_in(text),
        None => Some(None),
    };
    let read_body = match body {
        Some(text) => body_in(text),
        None => Some(None),
    };
    match (read_cmd, read_body) {
        (Some(c), Some(b)) => Some(MessageView { cmd: c, body: b }),
        _ => None,
    }
}

/// The message that the JSON text `bytes` holds, if it holds one.
pub open spec fn reading(bytes: Seq<u8>) -> Option<MessageView> {
    match json_reading(bytes) {
        Some(JsonView::Object(fields)) => message_in(field(fields, "cmd"@), field(fields, "body"@)),
        Some(JsonView::Array(items)) => if items.len() == 2 {
            message_in(Some(items[0]), Some(items[1]))
        } else {
            None
        },
        _ => None,
    }
}

/// The view of a message that may be missing.
pub open spec fn view_of(m: Option<Message>) -> Option<MessageView> {
    match m {
        Some(m) => Some(m@),
        None => None,
    }
}

/// Whether `s` is the text `literal`.
fn is_text(s: &String, literal: &str) -> (r: bool)
    ensures
        r == (s@ == literal@),
{
    let other = literal.to_owned();
    *s == other
}

/// Whether `text` holds `null`.
fn holds_null(text: &[u8]) -> (r: bool)
    ensures
        r == (json_reading(text@) == Some(JsonView::Null)),
{
    match read_json(text) {
        Some(Json::Null) => true,
        _ => false,
    }
}

/// The amount that `text` holds.
pub fn read_amount(text: &[u8]) -> (r: Option<i32>)
    ensures
        r == amount_in(text@),
{
    match read_json(text) {
        Some(Json::Number(Some(n))) => {
            if -2_147_483_648 <= n && n <= 2_147_483_647 {
                Some(n as i32)
            } else {
                None
            }
        },
        _ => None,
    }
}

/// The command with the name `name` and the text `value` under it.
pub fn read_variant(name: &String, value: &[u8]) -> (r: Option<Command>)
    ensures
        r == variant_in(name@, value@),
{
    if is_text(name, "Ping") {
        if holds_null(value) {
            Some(Command::Ping)
        } else {
            None
        }
    } else if is_text(name, "Fetch") {
        if holds_null(value) {
            Some(Command::Fetch)
        } else {
            None
        }
    } else if is_text(name, "Increment") {
        match read_amount(value) {
            Some(amount) => Some(Command::Increment(amount)),
            None => None,
        }
    } else if is_text(name, "Decrement") {
        match read_amount(value) {
            Some(amount) => Some(Command::Decrement(amount)),
            None => None,
        }
    } else {
        None
    }
}

/// The value of the field `cmd` that `text` holds.
pub fn read_command_value(text: &[u8]) -> (r: Option<Option<Command>>)
    ensures
        r == command_in(text@),
{
    match read_json(text) {
        Some(Json::Null) => Some(None),
        Some(Json::Text(name)) => {
            if is_text(&name, "Ping") {
                Some(Some(Command::Ping))
            } else if is_text(&name, "Fetch") {
                Some(Some(Command::Fetch))
            } else {
                None
            }
        },
        Some(Json::Object(fields)) => {
            if fields.len() == 1 {
                match read_variant(&fields[0].0, fields[0].1.as_slice()) {
                    Some(cmd) => Some(Some(cmd)),
                    None => None,
                }
            } else {
                None
            }
        },
        _ => None,
    }
}

/// The value of the field `body` that `text` holds.
pub fn read_body_value(text: &[u8]) -> (r: Option<Option<String>>)
    ensures
        match r {
            Some(Some(body)) => body_in(text@) == Some(Some(body@)),
            Some(None) => body_in(text@) == Some(None::<Seq<char>>),
            None => body_in(text@) is None,
        },
{
    match read_json(text) {
        Some(Json::Null) => Some(None),
        Some(Json::Text(body)) => Some(Some(body)),
        _ => None,
    }
}

/// The place of the text under `key` in `fields`.
fn find(fields: &Vec<(String, Vec<u8>)>, key: &str) -> (r: Option<usize>)
    ensures
        match r {
            Some(i) => i < fields.len() && field(
                fields@.map_values(|f: (String, Vec<u8>)| (f.0@, f.1@)),
                key@,
            ) == Some(fields[i as int].1@),
            None => field(fields@.map_values(|f: (String, Vec<u8>)| (f.0@, f.1@)), key@) is None,
        },
{
    let ghost all = fields@.map_values(|f: (String, Vec<u8>)| (f.0@, f.1@));
    let mut found: Option<usize> = None;
    let mut i: usize = 0;
    while i < fields.len()
        invariant
            i <= fields.len(),
            all == fields@.map_values(|f: (String, Vec<u8>)| (f.0@, f.1@)),
            match found {
                Some(at) => at < fields.len() && field(all.take(i as int), key@) == Some(
                    fields[at as int].1@,
                ),
                None => field(all.take(i as int), key@) is None,
            },
        decreases fields.len() - i,
    {
        assert(all.take(i + 1).drop_last() =~= all.take(i as int));
        assert(all.take(i + 1).last() == (fields[i as int].0@, fields[i as int].1@));
        if is_text(&fields[i].0, key) {
            found = Some(i);
        }
        i += 1;
    }
    assert(all.take(fields.len() as int) =~= all);
    found
}

/// The message whose two fields have the texts `cmd` and `body`.
pub fn read_fields(cmd: Option<&[u8]>, body: Option<&[u8]>) -> (r: Option<Message>)
    ensures
        view_of(r) == message_in(
            match cmd {
                Some(text) => Some(text@),
                None => None,
            },
            match body {
                Some(text) => Some(text@),
                None => None,
            },
        ),
{
    let read_cmd = match cmd {
        Some(text) => read_command_value(text),
        None => Some(None),
    };
    let read_body = match body {
        Some(text) => read_body_value(text),
        None => Some(None),
    };
    match (read_cmd, read_body) {
        (Some(c), Some(b)) => Some(Message { cmd: c, body: b }),
        _ => None,
    }
}

/// The message that the JSON text `bytes` holds, if it holds one.
pub fn read_message(bytes: &[u8]) -> (r: Option<Message>)
    ensures
        view_of(r) == reading(bytes@),
{
    match read_json(bytes) {
        Some(Json::Object(fields)) => {
            let cmd = match find(&fields, "cmd") {
                Some(i) => Some(fields[i].1.as_slice()),
                None => None,
            };
            let body = match find(&fields, "body") {
                Some(i) => Some(fields[i].1.as_slice()),
                None => None,
            };
            read_fields(cmd, body)
        },
        Some(Json::Array(items)) => {
            if items.len() == 2 {
                read_fields(Some(items[0].as_slice()), Some(items[1].as_slice()))
            } else {
                None
            }
        },
        _ => None,
    }
}

} // verus!
