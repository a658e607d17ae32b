//! Quoted strings on the wire: the bytes between two quotes, with the quote,
//! the backslash and the control bytes written as escapes.
//!
//! Each byte of the string becomes one unit: itself, a backslash and a
//! letter, or `\u00` and two lower-case hex digits. No unit begins with a
//! quote and no unit begins another, so a quoted string can be read back in
//! one way only.

use vstd::prelude::*;

verus! {

/// The byte `"`.
pub const QUOTE: u8 = 0x22;

/// The byte `\`.
pub const BACKSLASH: u8 = 0x5c;

/// The lower-case hex digit for `n`, where `n < 16`.
pub open spec fn hex_digit(n: int) -> u8 {
    if n < 10 {
        (0x30 + n) as u8
    } else {
        (0x57 + n) as u8
    }
}

/// The unit that stands for the byte `b`.
#[verifier::opaque]
pub open spec fn escape_byte(b: u8) -> Seq<u8> {
    if b == 0x22 {
        seq![0x5cu8, 0x22u8]
    } else if b == 0x5c {
        seq![0x5cu8, 0x5cu8]
    } else if b == 0x08 {
        seq![0x5cu8, 0x62u8]
    } else if b == 0x09 {
        seq![0x5cu8, 0x74u8]
    } else if b == 0x0a {
        seq![0x5cu8, 0x6eu8]
    } else if b == 0x0c {
        seq![0x5cu8, 0x66u8]
    } else if b == 0x0d {
        seq![0x5cu8, 0x72u8]
    } else if b < 0x20 {
        seq![0x5cu8, 0x75u8, 0x30u8, 0x30u8, hex_digit(b as int / 16), hex_digit(b as int % 16)]
    } else {
        seq![b]
    }
}

/// The units of the bytes of `s`, one after the other.
pub open spec fn escaped(s: Seq<u8>) -> Seq<u8>
    decreases s.len(),
{
    if s.len() == 0 {
        Seq::empty()
    } else {
        escaped(s.drop_last()) + escape_byte(s.last())
    }
}

/// The string `s` as it stands on the wire, between its quotes.
pub open spec fn quoted(s: Seq<u8>) -> Seq<u8> {
    seq![QUOTE] + escaped(s) + seq![QUOTE]
}

/// Whether the quoted string `s` stands in `b` from `pos` up to `end`.
pub open spec fn quoted_at(b: Seq<u8>, pos: int, s: Seq<u8>, end: int) -> bool {
    &&& 0 <= pos <= end <= b.len()
    &&& b.subrange(pos, end) == quoted(s)
}

/// The byte that the unit at the front of `t` stands for, and the unit's
/// length; `None` where no unit begins `t`.
#[verifier::opaque]
pub open spec fn front_unit(t: Seq<u8>) -> Option<(u8, int)> {
    if t.len() == 0 || t[0] == QUOTE || t[0] < 0x20 {
        None
    } else if t[0] != BACKSLASH {
        Some((t[0], 1))
    } else if t.len() < 2 {
        None
    } else if t[1] == 0x22 {
        Some((0x22u8, 2))
    } else if t[1] == 0x5c {
        Some((0x5cu8, 2))
    } else if t[1] == 0x62 {
        Some((0x08u8, 2))
    } else if t[1] == 0x74 {
        Some((0x09u8, 2))
    } else if t[1] == 0x6e {
        Some((0x0au8, 2))
    } else if t[1] == 0x66 {
        Some((0x0cu8, 2))
    } else if t[1] == 0x72 {
        Some((0x0du8, 2))
    } else if t[1] == 0x75 && t.len() >= 6 && t[2] == 0x30 && t[3] == 0x30 && (t[4] == 0x30 || t[4]
        == 0x31) && is_hex_digit(t[5]) && !has_short_escape(control_byte(t[4], t[5])) {
        Some((control_byte(t[4], t[5]), 6))
    } else {
        None
    }
}

/// Whether `c` is a lower-case hex digit.
pub open spec fn is_hex_digit(c: u8) -> bool {
    0x30 <= c <= 0x39 || 0x61 <= c <= 0x66
}

/// The byte that the hex digits `high` and `low` stand for, where `high` is
/// `0` or `1`.
pub open spec fn control_byte(high: u8, low: u8) -> u8 {
    let l = if low <= 0x39 {
        low - 0x30
    } else {
        low - 0x57
    };
    ((high - 0x30) * 16 + l) as u8
}

/// Whether the control byte `b` is written as a backslash and a letter.
pub open spec fn has_short_escape(b: u8) -> bool {
    b == 0x08 || b == 0x09 || b == 0x0a || b == 0x0c || b == 0x0d
}

/// The unit of `x` is read back as `x`, whatever follows it.
pub proof fn lemma_front_unit_of_escape(x: u8, rest: Seq<u8>)
    ensures
        front_unit(escape_byte(x) + rest) == Some((x, escape_byte(x).len() as int)),
        escape_byte(x).len() >= 1,
        escape_byte(x)[0] != QUOTE,
{
    reveal(escape_byte);
    reveal(front_unit);
    let unit = escape_byte(x);
    let t = unit + rest;
    assert(forall|i: int| 0 <= i < unit.len() ==> t[i] == unit[i]);
    if x < 0x20 && !has_short_escape(x) {
        assert(t[4] == hex_digit(x as int / 16));
        assert(t[5] == hex_digit(x as int % 16));
        assert(control_byte(t[4], t[5]) == x);
    }
}

/// Where a unit begins `t`, it is the unit of the byte that it stands for.
pub proof fn lemma_front_unit_is_escape(t: Seq<u8>)
    ensures
        match front_unit(t) {
            Some((x, k)) => 0 < k <= t.len() && t.take(k) == escape_byte(x),
            None => true,
        },
{
    reveal(escape_byte);
    reveal(front_unit);
    if let Some((x, k)) = front_unit(t) {
        assert(t.take(k) =~= escape_byte(x));
    }
}

/// The units of a string that is not empty are the unit of its first byte
/// and then those of the rest.
pub proof fn lemma_escaped_front(s: Seq<u8>)
    requires
        s.len() > 0,
    ensures
        escaped(s) == escape_byte(s[0]) + escaped(s.drop_first()),
    decreases s.len(),
{
    if s.len() == 1 {
        assert(escaped(s.drop_last()) =~= Seq::<u8>::empty());
        assert(escaped(s.drop_first()) =~= Seq::<u8>::empty());
        assert(escaped(s) =~= escape_byte(s[0]) + escaped(s.drop_first()));
    } else {
        let t = s.drop_last();
        lemma_escaped_front(t);
        assert(t.drop_first() =~= s.drop_first().drop_last());
        assert(escaped(s.drop_first()) == escaped(t.drop_first()) + escape_byte(s.last()));
        assert(escaped(s) =~= escape_byte(s[0]) + escaped(s.drop_first()));
    }
}

/// Two readings of the same bytes agree: where the units of `s`, a quote and
/// `after_s` are the same bytes as the units of `raw` and `after_raw`, `raw`
/// is how `s` begins and `after_raw` holds the rest of `s`.
pub proof fn lemma_escaped_agree(s: Seq<u8>, after_s: Seq<u8>, raw: Seq<u8>, after_raw: Seq<u8>)
    requires
        escaped(s) + seq![QUOTE] + after_s == escaped(raw) + after_raw,
    ensures
        raw.len() <= s.len(),
        s.take(raw.len() as int) == raw,
        after_raw == escaped(s.skip(raw.len() as int)) + seq![QUOTE] + after_s,
    decreases raw.len(),
{
    let left = escaped(s) + seq![QUOTE] + after_s;
    let right = escaped(raw) + after_raw;
    if raw.len() == 0 {
        assert(s.skip(0) =~= s);
        assert(right =~= after_raw);
        assert(s.take(0) =~= raw);
    } else {
        let raw_rest = escaped(raw.drop_first()) + after_raw;
        lemma_escaped_front(raw);
        lemma_front_unit_of_escape(raw[0], raw_rest);
        assert(right =~= escape_byte(raw[0]) + raw_rest);
        if s.len() == 0 {
            assert(left[0] == QUOTE);
            assert(false);
        } else {
            let s_rest = escaped(s.drop_first()) + seq![QUOTE] + after_s;
            lemma_escaped_front(s);
            lemma_front_unit_of_escape(s[0], s_rest);
            assert(left =~= escape_byte(s[0]) + s_rest);
            let k = escape_byte(s[0]).len() as int;
            assert(s_rest =~= left.skip(k));
            assert(raw_rest =~= right.skip(k));
            lemma_escaped_agree(s.drop_first(), after_s, raw.drop_first(), after_raw);
            let n = raw.len() as int;
            assert(s[0] == raw[0]);
            assert forall|i: int| 0 <= i < n implies s.take(n)[i] == raw[i] by {
                if i > 0 {
                    assert(s.drop_first().take(n - 1)[i - 1] == raw.drop_first()[i - 1]);
                }
            }
            assert(s.take(n) =~= raw);
            assert(s.drop_first().skip(n - 1) =~= s.skip(n));
        }
    }
}

/// How a quoted string goes on. Where the quoted string `s` stands in `b` at
/// `pos`, and the bytes behind its opening quote, up to `i`, are the units of
/// `raw`, then `raw` is how `s` begins; and at `i` stands the closing quote,
/// if `raw` is all of `s`, or else the unit of the next byte of `s`.
pub proof fn lemma_quoted_continues(
    b: Seq<u8>,
    pos: int,
    i: int,
    raw: Seq<u8>,
    s: Seq<u8>,
    end: int,
)
    requires
        0 <= pos < i <= b.len(),
        b.subrange(pos + 1, i) == escaped(raw),
        quoted_at(b, pos, s, end),
    ensures
        raw.len() <= s.len(),
        s.take(raw.len() as int) == raw,
        i < end,
        raw.len() == s.len() ==> b[i] == QUOTE && end == i + 1 && s == raw,
        raw.len() < s.len() ==> b[i] != QUOTE && front_unit(b.skip(i)) is Some,
{
    let text = b.subrange(pos, end);
    let after_s = b.skip(end);
    let after_raw = b.skip(i);
    assert(text.len() == escaped(s).len() + 2);
    assert forall|j: int| 0 <= j < b.len() - pos - 1 implies (escaped(s) + seq![QUOTE] + after_s)[j]
        == b[pos + 1 + j] by {
        if j < escaped(s).len() + 1 {
            assert(text[j + 1] == b[pos + 1 + j]);
        }
    }
    assert(escaped(s) + seq![QUOTE] + after_s =~= b.skip(pos + 1));
    assert(escaped(raw) + after_raw =~= b.skip(pos + 1));
    lemma_escaped_agree(s, after_s, raw, after_raw);
    let k = raw.len() as int;
    let rest = s.skip(k);
    if rest.len() == 0 {
        assert(escaped(rest) =~= Seq::<u8>::empty());
        assert(after_raw[0] == QUOTE);
        assert(s.take(k) =~= s);
    } else {
        let tail = escaped(rest.drop_first()) + seq![QUOTE] + after_s;
        lemma_escaped_front(rest);
        lemma_front_unit_of_escape(rest[0], tail);
        assert(after_raw =~= escape_byte(rest[0]) + tail);
        assert(after_raw[0] == escape_byte(rest[0])[0]);
    }
}

/// The quoted string that stands in `b` at `pos` determines its bytes and
/// where it ends.
pub proof fn lemma_quoted_at_unique(
    b: Seq<u8>,
    pos: int,
    s1: Seq<u8>,
    end1: int,
    s2: Seq<u8>,
    end2: int,
)
    requires
        quoted_at(b, pos, s1, end1),
        quoted_at(b, pos, s2, end2),
    ensures
        s1 == s2,
        end1 == end2,
{
    let text = b.subrange(pos, end1);
    assert(text.len() == escaped(s1).len() + 2);
    assert(b.subrange(pos + 1, end1 - 1) =~= escaped(s1)) by {
        assert forall|j: int| 0 <= j < escaped(s1).len() implies b[pos + 1 + j] == escaped(s1)[j] by {
            assert(text[j + 1] == b[pos + 1 + j]);
        }
    }
    assert(b[end1 - 1] == text[text.len() - 1]);
    lemma_quoted_continues(b, pos, end1 - 1, s1, s2, end2);
}

/// The lower-case hex digit for `n`.
fn hex(n: u8) -> (c: u8)
    requires
        n < 16,
    ensures
        c == hex_digit(n as int),
{
    if n < 10 {
        0x30 + n
    } else {
        0x57 + n
    }
}

/// Appends the unit of `b`.
fn push_escape(out: &mut Vec<u8>, b: u8)
    ensures
        final(out)@ == old(out)@ + escape_byte(b),
{
    if b == 0x22 || b == 0x5c {
        out.push(BACKSLASH);
        out.push(b);
    } else if b == 0x08 {
        out.push(BACKSLASH);
        out.push(0x62);
    } else if b == 0x09 {
        out.push(BACKSLASH);
        out.push(0x74);
    } else if b == 0x0a {
        out.push(BACKSLASH);
        out.push(0x6e);
    } else if b == 0x0c {
        out.push(BACKSLASH);
        out.push(0x66);
    } else if b == 0x0d {
        out.push(BACKSLASH);
        out.push(0x72);
    } else if b < 0x20 {
        out.push(BACKSLASH);
        out.push(0x75);
        out.push(0x30);
        out.push(0x30);
        out.push(hex(b / 16));
        out.push(hex(b % 16));
    } else {
        out.push(b);
    }
    reveal(escape_byte);
    assert(out@ =~= old(out)@ + escape_byte(b));
}

/// Appends the string `s` as it stands on the wire, between its quotes.
pub fn push_quoted(out: &mut Vec<u8>, s: &[u8])
    ensures
        final(out)@ == old(out)@ + quoted(s@),
{
    out.push(QUOTE);
    let mut i: usize = 0;
    while i < s.len()
        invariant
            i <= s.len(),
            out@ == old(out)@ + seq![QUOTE] + escaped(s@.take(i as int)),
        decreases s.len() - i,
    {
        push_escape(out, s[i]);
        i += 1;
        assert(s@.take(i as int).drop_last() =~= s@.take(i - 1));
        assert(out@ =~= old(out)@ + seq![QUOTE] + escaped(s@.take(i as int)));
    }
    out.push(QUOTE);
    assert(s@.take(s.len() as int) =~= s@);
    assert(out@ =~= old(out)@ + quoted(s@));
}

/// Reads the unit that begins at `pos`: the byte that it stands for, and its
/// length.
fn read_unit(b: &[u8], pos: usize) -> (r: Option<(u8, usize)>)
    requires
        pos <= b.len(),
    ensures
        match r {
            Some((x, k)) => front_unit(b@.skip(pos as int)) == Some((x, k as int)),
            None => front_unit(b@.skip(pos as int)) is None,
        },
{
    let n = b.len();
    let ghost t = b@.skip(pos as int);
    reveal(front_unit);
    if pos >= n {
        return None;
    }
    let c = b[pos];
    assert(t[0] == c);
    if c == QUOTE || c < 0x20 {
        return None;
    }
    if c != BACKSLASH {
        return Some((c, 1));
    }
    if n - pos < 2 {
        return None;
    }
    let e = b[pos + 1];
    assert(t[1] == e);
    if e == 0x22 || e == 0x5c {
        Some((e, 2))
    } else if e == 0x62 {
        Some((0x08, 2))
    } else if e == 0x74 {
        Some((0x09, 2))
    } else if e == 0x6e {
        Some((0x0a, 2))
    } else if e == 0x66 {
        Some((0x0c, 2))
    } else if e == 0x72 {
        Some((0x0d, 2))
    } else if e == 0x75 && n - pos >= 6 {
        let high = b[pos + 4];
        let low = b[pos + 5];
        assert(t[2] == b@[pos + 2] && t[3] == b@[pos + 3] && t[4] == high && t[5] == low);
        if b[pos + 2] != 0x30 || b[pos + 3] != 0x30 || (high != 0x30 && high != 0x31) {
            return None;
        }
        let l: u8 = if 0x30 <= low && low <= 0x39 {
            low - 0x30
        } else if 0x61 <= low && low <= 0x66 {
            low - 0x57
        } else {
            return None;
        };
        let x: u8 = (high - 0x30) * 16 + l;
        if x == 0x08 || x == 0x09 || x == 0x0a || x == 0x0c || x == 0x0d {
            return None;
        }
        Some((x, 6))
    } else {
        None
    }
}

/// Reads the quoted string that stands in `b` at `pos`.
///
/// Returns the string's bytes and the place just behind its closing quote,
/// or `None` where no quoted string stands there.
pub fn read_quoted(b: &[u8], pos: usize) -> (r: Option<(Vec<u8>, usize)>)
    requires
        pos <= b.len(),
    ensures
        match r {
            Some((s, end)) => quoted_at(b@, pos as int, s@, end as int),
            None => forall|s: Seq<u8>, end: int| !#[trigger] quoted_at(b@, pos as int, s, end),
        },
{
    let n = b.len();
    if pos >= n || b[pos] != QUOTE {
        assert forall|s: Seq<u8>, end: int| !#[trigger] quoted_at(b@, pos as int, s, end) by {
            if quoted_at(b@, pos as int, s, end) {
                assert(quoted(s)[0] == QUOTE);
                assert(b@.subrange(pos as int, end).len() >= 2);
                assert(b@.subrange(pos as int, end)[0] == b@[pos as int]);
            }
        }
        return None;
    }
    let mut raw: Vec<u8> = Vec::new();
    let mut i: usize = pos + 1;
    assert(b@.subrange(pos + 1, i as int) =~= escaped(raw@));
    loop
        invariant
            pos < i <= n,
            n == b.len(),
            b@[pos as int] == QUOTE,
            b@.subrange(pos + 1, i as int) == escaped(raw@),
        decreases n - i,
    {
        if i < n && b[i] == QUOTE {
            assert(b@.subrange(pos as int, i + 1) =~= quoted(raw@));
            return Some((raw, i + 1));
        }
        match read_unit(b, i) {
            Some((x, k)) => {
                proof {
                    lemma_front_unit_is_escape(b@.skip(i as int));
                    assert(b@.subrange(i as int, i + k) =~= b@.skip(i as int).take(k as int));
                    assert(b@.subrange(pos + 1, i + k) =~= b@.subrange(pos + 1, i as int)
                        + b@.subrange(i as int, i + k));
                    assert(raw@.push(x).drop_last() =~= raw@);
                }
                raw.push(x);
                i += k;
            },
            None => {
                assert forall|s: Seq<u8>, end: int| !#[trigger]
                    quoted_at(b@, pos as int, s, end) by {
                    if quoted_at(b@, pos as int, s, end) {
                        lemma_quoted_continues(b@, pos as int, i as int, raw@, s, end);
                    }
                }
                return None;
            },
        }
    }
}

} // verus!
