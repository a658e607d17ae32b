//! The wire format of a message: a JSON object with the fields `cmd` and
//! `body`.
//!
//! ```text
//! {"cmd":"Ping","body":null}
//! {"cmd":{"Increment":5},"body":null}
//! {"cmd":null,"body":"success"}
//! ```
//!
//! [`encode`] writes one form: both fields, `cmd` first, no white space.
//! [`decode`] reads that form back to the message it was written from: see
//! [`law_decode_inverts_encode`]. Any other text it hands to serde_json, and
//! takes the message out of what serde_json read: see [`crate::schema`].

use crate::decimal::{decimal, decimal_at, lemma_decimal_at_unique, push_decimal, read_decimal};
use crate::escape::{lemma_quoted_at_unique, push_quoted, quoted, quoted_at, read_quoted, QUOTE};
use crate::protocol::{Command, Message, MessageView};
use crate::schema::{read_message, reading};
use crate::text::{lemma_utf8_injective, string_from_utf8};
use vstd::prelude::*;
use vstd::slice::slice_subrange;
use vstd::utf8::{encode_utf8, encode_utf8_valid_utf8};

verus! {

/// The size of the buffer that one read fills: no message on the wire is
/// longer.
pub const BUF_SIZE: usize = 1024;

/// The byte `}`.
pub const CLOSE: u8 = 0x7d;

/// Why bytes could not be decoded.
#[derive(Clone, Copy, Debug, PartialEq, Eq, Structural)]
pub enum DecodeError {
    /// There are no bytes but padding.
    Empty,
    /// The bytes hold no message.
    Malformed,
}

/// The bytes `{"cmd":`.
pub open spec fn cmd_key() -> Seq<u8> {
    seq![0x7bu8, 0x22u8, 0x63u8, 0x6du8, 0x64u8, 0x22u8, 0x3au8]
}

/// The bytes `,"body":`.
pub open spec fn body_key() -> Seq<u8> {
    seq![0x2cu8, 0x22u8, 0x62u8, 0x6fu8, 0x64u8, 0x79u8, 0x22u8, 0x3au8]
}

/// The bytes `null`.
pub open spec fn null() -> Seq<u8> {
    seq![0x6eu8, 0x75u8, 0x6cu8, 0x6cu8]
}

/// The bytes `"Ping"`.
pub open spec fn ping() -> Seq<u8> {
    seq![0x22u8, 0x50u8, 0x69u8, 0x6eu8, 0x67u8, 0x22u8]
}

/// The bytes `"Fetch"`.
pub open spec fn fetch() -> Seq<u8> {
    seq![0x22u8, 0x46u8, 0x65u8, 0x74u8, 0x63u8, 0x68u8, 0x22u8]
}

/// The bytes `{"Increment":`.
pub open spec fn increment_key() -> Seq<u8> {
    seq![
        0x7bu8,
        0x22u8,
        0x49u8,
        0x6eu8,
        0x63u8,
        0x72u8,
        0x65u8,
        0x6du8,
        0x65u8,
        0x6eu8,
        0x74u8,
        0x22u8,
        0x3au8,
    ]
}

/// The bytes `{"Decrement":`.
pub open spec fn decrement_key() -> Seq<u8> {
    seq![
        0x7bu8,
        0x22u8,
        0x44u8,
        0x65u8,
        0x63u8,
        0x72u8,
        0x65u8,
        0x6du8,
        0x65u8,
        0x6eu8,
        0x74u8,
        0x22u8,
        0x3au8,
    ]
}

/// The value of the field `cmd`.
pub open spec fn command_encoding(cmd: Option<Command>) -> Seq<u8> {
    match cmd {
        None => null(),
        Some(Command::Ping) => ping(),
        Some(Command::Fetch) => fetch(),
        Some(Command::Increment(v)) => increment_key() + decimal(v as int) + seq![CLOSE],
        Some(Command::Decrement(v)) => decrement_key() + decimal(v as int) + seq![CLOSE],
    }
}

/// The value of the field `body`.
pub open spec fn body_encoding(body: Option<Seq<char>>) -> Seq<u8> {
    match body {
        None => null(),
        Some(text) => quoted(encode_utf8(text)),
    }
}

/// The bytes that stand for the message `m` on the wire.
pub open spec fn encoding(m: MessageView) -> Seq<u8> {
    cmd_key() + command_encoding(m.cmd) + body_key() + body_encoding(m.body) + seq![CLOSE]
}

/// `bytes` without the zero bytes at its end.
pub open spec fn unpadded(bytes: Seq<u8>) -> Seq<u8>
    decreases bytes.len(),
{
    if bytes.len() > 0 && bytes.last() == 0 {
        unpadded(bytes.drop_last())
    } else {
        bytes
    }
}

/// The message that `bytes` stand for once their padding is taken off, if
/// they stand for one: the message that they are the encoding of, or else
/// the message that they hold when read as JSON.
pub open spec fn decoding(bytes: Seq<u8>) -> Option<MessageView> {
    if exists|m: MessageView| unpadded(bytes) == #[trigger] encoding(m) {
        Some(choose|m: MessageView| unpadded(bytes) == #[trigger] encoding(m))
    } else if unpadded(bytes).len() == 0 {
        None
    } else {
        reading(unpadded(bytes))
    }
}

/// Whether the value `cmd` of the field `cmd` stands in `b` from `pos` up to
/// `end`.
pub open spec fn command_at(b: Seq<u8>, pos: int, cmd: Option<Command>, end: int) -> bool {
    &&& 0 <= pos <= end <= b.len()
    &&& b.subrange(pos, end) == command_encoding(cmd)
}

/// Whether the value `body` of the field `body` stands in `b` from `pos` up
/// to `end`.
pub open spec fn body_at(b: Seq<u8>, pos: int, body: Option<Seq<char>>, end: int) -> bool {
    &&& 0 <= pos <= end <= b.len()
    &&& b.subrange(pos, end) == body_encoding(body)
}

/// Where `left + right` stands in `b`, `left` stands first and `right` behind
/// it.
proof fn lemma_split(b: Seq<u8>, pos: int, end: int, left: Seq<u8>, right: Seq<u8>)
    requires
        0 <= pos <= end <= b.len(),
        b.subrange(pos, end) == left + right,
    ensures
        pos + left.len() <= end,
        b.subrange(pos, pos + left.len()) == left,
        b.subrange(pos + left.len(), end) == right,
{
    let whole = b.subrange(pos, end);
    assert(whole.len() == left.len() + right.len());
    assert forall|i: int| 0 <= i < left.len() implies b[pos + i] == left[i] by {
        assert(whole[i] == left[i]);
    }
    assert forall|i: int| 0 <= i < right.len() implies b[pos + left.len() + i] == right[i] by {
        assert(whole[left.len() + i] == right[i]);
    }
    assert(b.subrange(pos, pos + left.len()) =~= left);
    assert(b.subrange(pos + left.len(), end) =~= right);
}

/// Where `left` stands in `b` and `right` behind it, `left + right` stands
/// there.
proof fn lemma_join(b: Seq<u8>, pos: int, mid: int, end: int)
    requires
        0 <= pos <= mid <= end <= b.len(),
    ensures
        b.subrange(pos, end) == b.subrange(pos, mid) + b.subrange(mid, end),
{
    assert(b.subrange(pos, end) =~= b.subrange(pos, mid) + b.subrange(mid, end));
}

fn cmd_key_bytes() -> (a: [u8; 7])
    ensures
        a@ == cmd_key(),
{
    let a: [u8; 7] = [0x7b, 0x22, 0x63, 0x6d, 0x64, 0x22, 0x3a];
    assert(a@ =~= cmd_key());
    a
}

fn body_key_bytes() -> (a: [u8; 8])
    ensures
        a@ == body_key(),
{
    let a: [u8; 8] = [0x2c, 0x22, 0x62, 0x6f, 0x64, 0x79, 0x22, 0x3a];
    assert(a@ =~= body_key());
    a
}

fn null_bytes() -> (a: [u8; 4])
    ensures
        a@ == null(),
{
    let a: [u8; 4] = [0x6e, 0x75, 0x6c, 0x6c];
    assert(a@ =~= null());
    a
}

fn ping_bytes() -> (a: [u8; 6])
    ensures
        a@ == ping(),
{
    let a: [u8; 6] = [0x22, 0x50, 0x69, 0x6e, 0x67, 0x22];
    assert(a@ =~= ping());
    a
}

fn fetch_bytes() -> (a: [u8; 7])
    ensures
        a@ == fetch(),
{
    let a: [u8; 7] = [0x22, 0x46, 0x65, 0x74, 0x63, 0x68, 0x22];
    assert(a@ =~= fetch());
    a
}

fn increment_key_bytes() -> (a: [u8; 13])
    ensures
        a@ == increment_key(),
{
    let a: [u8; 13] = [
        0x7b,
        0x22,
        0x49,
        0x6e,
        0x63,
        0x72,
        0x65,
        0x6d,
        0x65,
        0x6e,
        0x74,
        0x22,
        0x3a,
    ];
    assert(a@ =~= increment_key());
    a
}

fn decrement_key_bytes() -> (a: [u8; 13])
    ensures
        a@ == decrement_key(),
{
    let a: [u8; 13] = [
        0x7b,
        0x22,
        0x44,
        0x65,
        0x63,
        0x72,
        0x65,
        0x6d,
        0x65,
        0x6e,
        0x74,
        0x22,
        0x3a,
    ];
    assert(a@ =~= decrement_key());
    a
}

/// Appends the bytes of `lit`.
fn push_all(out: &mut Vec<u8>, lit: &[u8])
    ensures
        final(out)@ == old(out)@ + lit@,
{
    let mut i: usize = 0;
    while i < lit.len()
        invariant
            i <= lit.len(),
            out@ == old(out)@ + lit@.take(i as int),
        decreases lit.len() - i,
    {
        out.push(lit[i]);
        i += 1;
        assert(out@ =~= old(out)@ + lit@.take(i as int));
    }
    assert(lit@.take(lit.len() as int) =~= lit@);
}

/// Whether the bytes of `lit` stand in `b` at `pos`.
fn matches_at(b: &[u8], pos: usize, lit: &[u8]) -> (r: bool)
    requires
        pos <= b.len(),
    ensures
        r == (pos + lit.len() <= b.len() && b@.subrange(pos as int, pos + lit.len()) == lit@),
{
    if b.len() - pos < lit.len() {
        return false;
    }
    let mut i: usize = 0;
    while i < lit.len()
        invariant
            i <= lit.len(),
            pos + lit.len() <= b.len(),
            b@.subrange(pos as int, pos + i) == lit@.take(i as int),
        decreases lit.len() - i,
    {
        if b[pos + i] != lit[i] {
            assert(b@.subrange(pos as int, pos + lit.len())[i as int] != lit@[i as int]);
            return false;
        }
        i += 1;
        assert(b@.subrange(pos as int, pos + i) =~= lit@.take(i as int)) by {
            assert(b@.subrange(pos as int, pos + i).drop_last() =~= b@.subrange(
                pos as int,
                pos + i - 1,
            ));
            assert(lit@.take(i as int).drop_last() =~= lit@.take(i - 1));
        }
    }
    assert(lit@.take(lit.len() as int) =~= lit@);
    true
}

/// The bytes that stand for `m` on the wire. Every message has them.
pub fn encode(m: &Message) -> (bytes: Vec<u8>)
    ensures
        bytes@ == encoding(m@),
{
    let mut out: Vec<u8> = Vec::new();
    push_all(&mut out, &cmd_key_bytes());
    match m.cmd {
        None => {
            push_all(&mut out, &null_bytes());
        },
        Some(Command::Ping) => {
            push_all(&mut out, &ping_bytes());
        },
        Some(Command::Fetch) => {
            push_all(&mut out, &fetch_bytes());
        },
        Some(Command::Increment(v)) => {
            push_all(&mut out, &increment_key_bytes());
            push_decimal(&mut out, v);
            out.push(CLOSE);
        },
        Some(Command::Decrement(v)) => {
            push_all(&mut out, &decrement_key_bytes());
            push_decimal(&mut out, v);
            out.push(CLOSE);
        },
    }
    assert(out@ =~= cmd_key() + command_encoding(m@.cmd));
    push_all(&mut out, &body_key_bytes());
    match &m.body {
        None => {
            push_all(&mut out, &null_bytes());
        },
        Some(text) => {
            push_quoted(&mut out, text.as_str().as_bytes());
        },
    }
    out.push(CLOSE);
    assert(out@ =~= encoding(m@));
    out
}

/// Where a key, the decimal text of `v` and `}` stand in `b`, the key stands
/// first, the decimal text behind it, and `}` is the last byte.
proof fn lemma_numbered_at(b: Seq<u8>, pos: int, end: int, key: Seq<u8>, v: int)
    requires
        0 <= pos <= end <= b.len(),
        b.subrange(pos, end) == key + decimal(v) + seq![CLOSE],
    ensures
        pos + key.len() < end,
        b.subrange(pos, pos + key.len()) == key,
        decimal_at(b, pos + key.len(), v, end - 1),
        b[end - 1] == CLOSE,
{
    lemma_split(b, pos, end, key + decimal(v), seq![CLOSE]);
    lemma_split(b, pos, end - 1, key, decimal(v));
    assert(b.subrange(end - 1, end)[0] == CLOSE);
}

/// What stands in `b` where the value `cmd` of the field `cmd` stands.
proof fn lemma_command_at(b: Seq<u8>, pos: int, cmd: Option<Command>, end: int)
    requires
        command_at(b, pos, cmd, end),
    ensures
        pos + 4 <= end,
        match cmd {
            None => end == pos + 4 && b.subrange(pos, pos + 4) == null(),
            Some(Command::Ping) => end == pos + 6 && b.subrange(pos, pos + 6) == ping(),
            Some(Command::Fetch) => end == pos + 7 && b.subrange(pos, pos + 7) == fetch(),
            Some(Command::Increment(v)) => {
                &&& b.subrange(pos, pos + 13) == increment_key()
                &&& decimal_at(b, pos + 13, v as int, end - 1)
                &&& b[end - 1] == CLOSE
            },
            Some(Command::Decrement(v)) => {
                &&& b.subrange(pos, pos + 13) == decrement_key()
                &&& decimal_at(b, pos + 13, v as int, end - 1)
                &&& b[end - 1] == CLOSE
            },
        },
        b[pos] == command_encoding(cmd)[0],
        b[pos + 1] == command_encoding(cmd)[1],
        b[pos + 2] == command_encoding(cmd)[2],
{
    let text = b.subrange(pos, end);
    match cmd {
        Some(Command::Increment(v)) => {
            lemma_numbered_at(b, pos, end, increment_key(), v as int);
        },
        Some(Command::Decrement(v)) => {
            lemma_numbered_at(b, pos, end, decrement_key(), v as int);
        },
        _ => {},
    }
    assert(text.len() >= 4);
    assert(text[0] == b[pos] && text[1] == b[pos + 1] && text[2] == b[pos + 2]);
}

/// The value of the field `cmd` that stands in `b` at `pos` determines the
/// command and where it ends.
pub proof fn lemma_command_at_unique(
    b: Seq<u8>,
    pos: int,
    cmd1: Option<Command>,
    end1: int,
    cmd2: Option<Command>,
    end2: int,
)
    requires
        command_at(b, pos, cmd1, end1),
        command_at(b, pos, cmd2, end2),
    ensures
        cmd1 == cmd2,
        end1 == end2,
{
    lemma_command_at(b, pos, cmd1, end1);
    lemma_command_at(b, pos, cmd2, end2);
    match (cmd1, cmd2) {
        (Some(Command::Increment(v1)), Some(Command::Increment(v2))) => {
            lemma_decimal_at_unique(b, pos + 13, v1 as int, end1 - 1, v2 as int, end2 - 1);
        },
        (Some(Command::Decrement(v1)), Some(Command::Decrement(v2))) => {
            lemma_decimal_at_unique(b, pos + 13, v1 as int, end1 - 1, v2 as int, end2 - 1);
        },
        _ => {},
    }
}

/// What stands in `b` where the value `body` of the field `body` stands.
proof fn lemma_body_at(b: Seq<u8>, pos: int, body: Option<Seq<char>>, end: int)
    requires
        body_at(b, pos, body, end),
    ensures
        pos + 2 <= end,
        match body {
            None => end == pos + 4 && b.subrange(pos, pos + 4) == null(),
            Some(text) => quoted_at(b, pos, encode_utf8(text), end) && b[pos] == QUOTE,
        },
{
    let text = b.subrange(pos, end);
    assert(text.len() >= 2);
    assert(text[0] == b[pos]);
}

/// The value of the field `body` that stands in `b` at `pos` determines the
/// body and where it ends.
pub proof fn lemma_body_at_unique(
    b: Seq<u8>,
    pos: int,
    body1: Option<Seq<char>>,
    end1: int,
    body2: Option<Seq<char>>,
    end2: int,
)
    requires
        body_at(b, pos, body1, end1),
        body_at(b, pos, body2, end2),
    ensures
        body1 == body2,
        end1 == end2,
{
    lemma_body_at(b, pos, body1, end1);
    lemma_body_at(b, pos, body2, end2);
    assert(b.subrange(pos, pos + 2)[0] == b[pos]);
    match (body1, body2) {
        (Some(t1), Some(t2)) => {
            lemma_quoted_at_unique(b, pos, encode_utf8(t1), end1, encode_utf8(t2), end2);
            lemma_utf8_injective(t1, t2);
        },
        (None, None) => {},
        (None, Some(_)) => {
            assert(b.subrange(pos, pos + 4)[0] == b[pos]);
        },
        (Some(_), None) => {
            assert(b.subrange(pos, pos + 4)[0] == b[pos]);
        },
    }
}

/// Reads the decimal text at `pos` and the `}` behind it.
fn read_numbered(b: &[u8], pos: usize) -> (r: Option<(i32, usize)>)
    requires
        pos <= b.len(),
    ensures
        match r {
            Some((v, end)) => {
                &&& pos < end <= b.len()
                &&& decimal_at(b@, pos as int, v as int, end - 1)
                &&& b@[end - 1] == CLOSE
            },
            None => forall|v: i32, end: int|
                !(#[trigger] decimal_at(b@, pos as int, v as int, end) && end < b.len() && b@[end]
                    == CLOSE),
        },
{
    match read_decimal(b, pos) {
        Some((v, end)) => {
            if end < b.len() && b[end] == CLOSE {
                Some((v, end + 1))
            } else {
                assert forall|w: i32, other: int|
                    !(#[trigger] decimal_at(b@, pos as int, w as int, other) && other < b.len()
                        && b@[other] == CLOSE) by {
                    if decimal_at(b@, pos as int, w as int, other) {
                        lemma_decimal_at_unique(
                            b@,
                            pos as int,
                            v as int,
                            end as int,
                            w as int,
                            other,
                        );
                    }
                }
                None
            }
        },
        None => None,
    }
}

/// Reads the value of the field `cmd` that stands in `b` at `pos`.
///
/// Returns the command and the place just behind the value, or `None` where
/// no such value stands there.
pub fn read_command(b: &[u8], pos: usize) -> (r: Option<(Option<Command>, usize)>)
    requires
        pos <= b.len(),
    ensures
        match r {
            Some((cmd, end)) => command_at(b@, pos as int, cmd, end as int),
            None => forall|cmd: Option<Command>, end: int| !#[trigger]
                command_at(b@, pos as int, cmd, end),
        },
{
    let is_null = matches_at(b, pos, &null_bytes());
    let is_ping = matches_at(b, pos, &ping_bytes());
    let is_fetch = matches_at(b, pos, &fetch_bytes());
    let is_increment = matches_at(b, pos, &increment_key_bytes());
    let is_decrement = matches_at(b, pos, &decrement_key_bytes());
    let r = if is_null {
        Some((None, pos + 4))
    } else if is_ping {
        Some((Some(Command::Ping), pos + 6))
    } else if is_fetch {
        Some((Some(Command::Fetch), pos + 7))
    } else if is_increment {
        match read_numbered(b, pos + 13) {
            Some((v, end)) => Some((Some(Command::Increment(v)), end)),
            None => None,
        }
    } else if is_decrement {
        match read_numbered(b, pos + 13) {
            Some((v, end)) => Some((Some(Command::Decrement(v)), end)),
            None => None,
        }
    } else {
        None
    };
    proof {
        match r {
            Some((cmd, end)) => {
                if is_increment || is_decrement {
                    lemma_join(b@, pos as int, pos + 13, end - 1);
                    lemma_join(b@, pos as int, end - 1, end as int);
                    assert(b@.subrange(end - 1, end as int) =~= seq![CLOSE]);
                }
            },
            None => {
                assert forall|cmd: Option<Command>, end: int| !#[trigger]
                    command_at(b@, pos as int, cmd, end) by {
                    if command_at(b@, pos as int, cmd, end) {
                        lemma_command_at(b@, pos as int, cmd, end);
                        if is_increment {
                            assert(b@.subrange(pos as int, pos + 13)[2] == b@[pos + 2]);
                        }
                        if is_decrement {
                            assert(b@.subrange(pos as int, pos + 13)[2] == b@[pos + 2]);
                        }
                    }
                }
            },
        }
    }
    r
}

/// Reads the value of the field `body` that stands in `b` at `pos`.
///
/// Returns the body and the place just behind the value, or `None` where no
/// such value stands there.
pub fn read_body(b: &[u8], pos: usize) -> (r: Option<(Option<String>, usize)>)
    requires
        pos <= b.len(),
    ensures
        match r {
            Some((Some(text), end)) => body_at(b@, pos as int, Some(text@), end as int),
            Some((None, end)) => body_at(b@, pos as int, None, end as int),
            None => forall|body: Option<Seq<char>>, end: int| !#[trigger]
                body_at(b@, pos as int, body, end),
        },
{
    if matches_at(b, pos, &null_bytes()) {
        return Some((None, pos + 4));
    }
    let read = read_quoted(b, pos);
    proof {
        assert forall|body: Option<Seq<char>>, end: int| #[trigger]
            body_at(b@, pos as int, body, end) implies body is Some && quoted_at(
            b@,
            pos as int,
            encode_utf8(body->0),
            end,
        ) by {
            lemma_body_at(b@, pos as int, body, end);
        }
    }
    match read {
        Some((raw, end)) => {
            let ghost raw_bytes = raw@;
            match string_from_utf8(raw) {
                Some(text) => Some((Some(text), end)),
                None => {
                    assert forall|body: Option<Seq<char>>, other: int| !#[trigger]
                        body_at(b@, pos as int, body, other) by {
                        if body_at(b@, pos as int, body, other) {
                            lemma_quoted_at_unique(
                                b@,
                                pos as int,
                                raw_bytes,
                                end as int,
                                encode_utf8(body->0),
                                other,
                            );
                            encode_utf8_valid_utf8(body->0);
                        }
                    }
                    None
                },
            }
        },
        None => None,
    }
}

/// The message that `b` is the encoding of, byte for byte; `None` where it is
/// the encoding of none.
pub fn decode_exact(b: &[u8]) -> (r: Option<Message>)
    ensures
        match r {
            Some(m) => b@ == encoding(m@),
            None => forall|m: MessageView| b@ != #[trigger] encoding(m),
        },
{
    let n = b.len();
    proof {
        assert forall|m: MessageView| b@ == #[trigger] encoding(m) implies {
            &&& b@.subrange(0, 7) == cmd_key()
            &&& command_at(b@, 7, m.cmd, command_end(m))
            &&& b@.subrange(command_end(m), command_end(m) + 8) == body_key()
            &&& body_at(b@, command_end(m) + 8, m.body, n - 1)
            &&& b@[n - 1] == CLOSE
        } by {
            lemma_encoding_parts(m);
        }
    }
    if !matches_at(b, 0, &cmd_key_bytes()) {
        return None;
    }
    let (cmd, after_cmd) = match read_command(b, 7) {
        Some(found) => found,
        None => {
            return None;
        },
    };
    proof {
        assert forall|m: MessageView| b@ == #[trigger] encoding(m) implies m.cmd == cmd
            && command_end(m) == after_cmd by {
            lemma_command_at_unique(b@, 7, cmd, after_cmd as int, m.cmd, command_end(m));
        }
    }
    if !matches_at(b, after_cmd, &body_key_bytes()) {
        return None;
    }
    let (body, after_body) = match read_body(b, after_cmd + 8) {
        Some(found) => found,
        None => {
            return None;
        },
    };
    let message = Message { cmd, body };
    proof {
        assert(body_at(b@, after_cmd + 8, message@.body, after_body as int));
        assert forall|m: MessageView| b@ == #[trigger] encoding(m) implies m.body == message@.body
            && after_body == n - 1 by {
            lemma_body_at_unique(
                b@,
                after_cmd + 8,
                message@.body,
                after_body as int,
                m.body,
                n - 1,
            );
        }
    }
    if !(after_body < n && n - after_body == 1 && b[after_body] == CLOSE) {
        return None;
    }
    proof {
        lemma_join(b@, 0, 7, after_cmd as int);
        lemma_join(b@, 0, after_cmd as int, after_cmd + 8);
        lemma_join(b@, 0, after_cmd + 8, after_body as int);
        lemma_join(b@, 0, after_body as int, n as int);
        assert(b@.subrange(after_body as int, n as int) =~= seq![CLOSE]);
        assert(b@.subrange(0, n as int) =~= b@);
    }
    Some(message)
}

/// The message that `bytes` stand for.
///
/// The zero bytes at the end of `bytes` are padding and are taken off first.
/// Where what is left is the encoding of a message, that message is
/// returned. Any other text is read as JSON, and the message that it holds
/// is returned. Bytes that hold none are refused, as [`DecodeError::Empty`]
/// where nothing is left and as [`DecodeError::Malformed`] where something
/// is.
pub fn decode(bytes: &[u8]) -> (r: Result<Message, DecodeError>)
    ensures
        match r {
            Ok(m) => decoding(bytes@) == Some(m@),
            Err(e) => {
                &&& decoding(bytes@) is None
                &&& e == DecodeError::Empty <==> unpadded(bytes@).len() == 0
            },
        },
{
    let mut n: usize = bytes.len();
    assert(bytes@.take(n as int) =~= bytes@);
    while n > 0 && bytes[n - 1] == 0
        invariant
            n <= bytes.len(),
            unpadded(bytes@) == unpadded(bytes@.take(n as int)),
        decreases n,
    {
        assert(bytes@.take(n as int).drop_last() =~= bytes@.take(n - 1));
        n -= 1;
    }
    let b = slice_subrange(bytes, 0, n);
    assert(b@ =~= bytes@.take(n as int));
    assert(unpadded(bytes@) == b@);
    if n == 0 {
        proof {
            assert forall|m: MessageView| b@ != #[trigger] encoding(m) by {
                lemma_encoding_parts(m);
            }
        }
        return Err(DecodeError::Empty);
    }
    match decode_exact(b) {
        Some(message) => {
            proof {
                lemma_decoding_of_encoding(bytes@, message@);
            }
            Ok(message)
        },
        None => match read_message(b) {
            Some(message) => Ok(message),
            None => Err(DecodeError::Malformed),
        },
    }
}


/// Where the value of the field `cmd` ends in the encoding of `m`.
pub open spec fn command_end(m: MessageView) -> int {
    7 + command_encoding(m.cmd).len() as int
}

/// The parts of an encoding, and where each stands.
proof fn lemma_encoding_parts(m: MessageView)
    ensures
        encoding(m).len() == command_end(m) + 8 + body_encoding(m.body).len() + 1,
        encoding(m).subrange(0, 7) == cmd_key(),
        command_at(encoding(m), 7, m.cmd, command_end(m)),
        encoding(m).subrange(command_end(m), command_end(m) + 8) == body_key(),
        body_at(encoding(m), command_end(m) + 8, m.body, encoding(m).len() - 1),
        encoding(m).last() == CLOSE,
{
    let b = encoding(m);
    let ce = command_encoding(m.cmd);
    let be = body_encoding(m.body);
    let e1 = command_end(m);
    let e2 = e1 + 8 + be.len() as int;
    assert(b.subrange(0, b.len() as int) =~= b);
    lemma_split(b, 0, b.len() as int, cmd_key() + ce + body_key() + be, seq![CLOSE]);
    lemma_split(b, 0, e2, cmd_key() + ce + body_key(), be);
    lemma_split(b, 0, e1 + 8, cmd_key() + ce, body_key());
    lemma_split(b, 0, e1, cmd_key(), ce);
}

/// No two messages share an encoding.
pub proof fn lemma_encoding_injective(m1: MessageView, m2: MessageView)
    requires
        encoding(m1) == encoding(m2),
    ensures
        m1 == m2,
{
    let b = encoding(m1);
    lemma_encoding_parts(m1);
    lemma_encoding_parts(m2);
    let e1 = command_end(m1);
    let e2 = command_end(m2);
    lemma_command_at_unique(b, 7, m1.cmd, e1, m2.cmd, e2);
    lemma_body_at_unique(b, e1 + 8, m1.body, b.len() - 1, m2.body, b.len() - 1);
}

/// An encoding ends with `}`, so taking padding off leaves it as it is.
pub proof fn lemma_unpadded_encoding(m: MessageView, padding: Seq<u8>)
    requires
        forall|i: int| 0 <= i < padding.len() ==> padding[i] == 0,
    ensures
        unpadded(encoding(m) + padding) == encoding(m),
    decreases padding.len(),
{
    let whole = encoding(m) + padding;
    lemma_encoding_parts(m);
    if padding.len() == 0 {
        assert(whole =~= encoding(m));
    } else {
        assert(whole.last() == padding.last());
        assert(whole.drop_last() =~= encoding(m) + padding.drop_last());
        lemma_unpadded_encoding(m, padding.drop_last());
    }
}

/// Decoding is the inverse of encoding: the bytes of `m`, with or without
/// zero padding behind them, decode to `m`.
pub proof fn law_decode_inverts_encode(m: MessageView, padding: Seq<u8>)
    requires
        forall|i: int| 0 <= i < padding.len() ==> padding[i] == 0,
    ensures
        decoding(encoding(m) + padding) == Some(m),
{
    lemma_unpadded_encoding(m, padding);
    lemma_decoding_of_encoding(encoding(m) + padding, m);
}

/// Bytes that are the encoding of `m`, padding aside, decode to `m`,
/// whatever else they could be read as.
pub proof fn lemma_decoding_of_encoding(bytes: Seq<u8>, m: MessageView)
    requires
        unpadded(bytes) == encoding(m),
    ensures
        decoding(bytes) == Some(m),
{
    let found = choose|other: MessageView| unpadded(bytes) == #[trigger] encoding(other);
    lemma_encoding_injective(found, m);
}

impl Message {
    /// The bytes to hand to the stream, in a single write.
    pub fn to_stream(&self) -> (frame: Vec<u8>)
        ensures
            frame@ == encoding(self@),
    {
        encode(self)
    }

    /// The message that a single read has left in `buf`, of which it filled
    /// the first `bytes_read` bytes.
    pub fn from_stream(buf: &[u8], bytes_read: usize) -> (r: Result<Message, DecodeError>)
        requires
            bytes_read <= buf.len(),
        ensures
            match r {
                Ok(m) => decoding(buf@.take(bytes_read as int)) == Some(m@),
                Err(e) => {
                    &&& decoding(buf@.take(bytes_read as int)) is None
                    &&& e == DecodeError::Empty <==> unpadded(buf@.take(bytes_read as int)).len()
                        == 0
                },
            },
    {
        let filled = slice_subrange(buf, 0, bytes_read);
        assert(filled@ =~= buf@.take(bytes_read as int));
        decode(filled)
    }
}

} // verus!
