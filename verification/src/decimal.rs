//! Signed integers as decimal text: an optional minus sign and the digits,
//! with no leading zero.

use vstd::prelude::*;

verus! {

/// The byte `0`.
pub const ZERO: u8 = 0x30;

/// The byte `-`.
pub const MINUS: u8 = 0x2d;

/// Whether `b` is one of the bytes `0` to `9`.
pub open spec fn is_digit(b: u8) -> bool {
    0x30 <= b <= 0x39
}

/// The digits of `n`, most significant first.
pub open spec fn digits(n: nat) -> Seq<u8>
    decreases n,
{
    if n < 10 {
        seq![(0x30 + n) as u8]
    } else {
        digits(n / 10).push((0x30 + n % 10) as u8)
    }
}

/// The decimal text of `v`.
pub open spec fn decimal(v: int) -> Seq<u8> {
    if v < 0 {
        seq![MINUS] + digits((-v) as nat)
    } else {
        digits(v as nat)
    }
}

/// The number that a run of digits stands for.
pub open spec fn digits_value(s: Seq<u8>) -> nat
    decreases s.len(),
{
    if s.len() == 0 {
        0
    } else {
        digits_value(s.drop_last()) * 10 + (s.last() - 0x30) as nat
    }
}

/// Whether every byte of `s` is a digit.
pub open spec fn all_digits(s: Seq<u8>) -> bool {
    forall|i: int| 0 <= i < s.len() ==> is_digit(#[trigger] s[i])
}

/// `digits(n)` is a run of at least one digit, starts with `0` only for
/// `n == 0`, and stands for `n`.
pub proof fn lemma_digits_shape(n: nat)
    ensures
        digits(n).len() >= 1,
        all_digits(digits(n)),
        digits(n)[0] == ZERO <==> n == 0,
        digits_value(digits(n)) == n,
    decreases n,
{
    if n < 10 {
        let s = digits(n);
        assert(digits_value(s.drop_last()) == 0);
    } else {
        lemma_digits_shape(n / 10);
        let s = digits(n);
        assert(s.drop_last() =~= digits(n / 10));
        assert(s[0] == digits(n / 10)[0]);
    }
}

/// A run of digits without a leading zero is the digits of its value.
pub proof fn lemma_digits_of_value(s: Seq<u8>)
    requires
        s.len() >= 1,
        all_digits(s),
        s.len() == 1 || s[0] != ZERO,
    ensures
        digits(digits_value(s)) == s,
        s[0] != ZERO ==> digits_value(s) >= 1,
    decreases s.len(),
{
    let t = s.drop_last();
    if s.len() == 1 {
        assert(digits_value(t) == 0);
        assert(digits(digits_value(s)) =~= s);
    } else {
        assert(t[0] == s[0]);
        lemma_digits_of_value(t);
        let v = digits_value(s);
        assert(v == digits_value(t) * 10 + (s.last() - 0x30) as nat);
        assert(v / 10 == digits_value(t));
        assert(v % 10 == (s.last() - 0x30) as nat);
        assert(digits(v) =~= s);
    }
}

/// Appends the digits of `n`.
fn push_digits(out: &mut Vec<u8>, n: u32)
    ensures
        final(out)@ == old(out)@ + digits(n as nat),
    decreases n,
{
    if n >= 10 {
        push_digits(out, n / 10);
    }
    out.push(ZERO + (n % 10) as u8);
    assert(out@ =~= old(out)@ + digits(n as nat));
}

/// Appends the decimal text of `v`.
pub fn push_decimal(out: &mut Vec<u8>, v: i32)
    ensures
        final(out)@ == old(out)@ + decimal(v as int),
{
    if v < 0 {
        out.push(MINUS);
        // The magnitude of `i32::MIN` does not fit an `i32`.
        let magnitude: u32 = (-(v as i64)) as u32;
        push_digits(out, magnitude);
        assert(out@ =~= old(out)@ + decimal(v as int));
    } else {
        push_digits(out, v as u32);
    }
}

/// Whether the decimal text of `v` stands in `b` from `pos` up to `end`, and no
/// digit follows it there.
pub open spec fn decimal_at(b: Seq<u8>, pos: int, v: int, end: int) -> bool {
    &&& 0 <= pos <= end <= b.len()
    &&& b.subrange(pos, end) == decimal(v)
    &&& (end == b.len() || !is_digit(b[end]))
}

/// A longer run of digits stands for at least ten times what a proper prefix
/// of it stands for.
proof fn lemma_value_grows(s: Seq<u8>, k: int)
    requires
        0 <= k < s.len(),
    ensures
        digits_value(s) >= digits_value(s.take(k)) * 10,
    decreases s.len(),
{
    let t = s.drop_last();
    if k == s.len() - 1 {
        assert(s.take(k) =~= t);
    } else {
        lemma_value_grows(t, k);
        assert(t.take(k) =~= s.take(k));
    }
}

/// What the bytes of `b` look like where the decimal text of a 32-bit `v`
/// stands: the sign, then `v`'s digits and nothing but them.
proof fn lemma_decimal_at(b: Seq<u8>, pos: int, v: int, end: int)
    requires
        decimal_at(b, pos, v, end),
        i32::MIN <= v <= i32::MAX,
    ensures
        pos < end,
        (b[pos] == MINUS) == (v < 0),
        ({
            let start = if v < 0 { pos + 1 } else { pos };
            &&& start < end
            &&& all_digits(b.subrange(start, end))
            &&& digits_value(b.subrange(start, end)) == (if v < 0 { -v } else { v })
            &&& (b[start] == ZERO ==> v == 0 && end == start + 1)
        }),
{
    let n = (if v < 0 { -v } else { v }) as nat;
    let start = if v < 0 { pos + 1 } else { pos };
    lemma_digits_shape(n);
    let text = b.subrange(pos, end);
    assert(text.len() == decimal(v).len());
    assert(b[pos] == text[0]);
    assert forall|i: int| 0 <= i < end - start implies b.subrange(start, end)[i] == digits(n)[i] by {
        assert(b[start + i] == text[start + i - pos]);
    }
    assert(b.subrange(start, end) =~= digits(n));
    assert(b[start] == digits(n)[0]);
}

/// The decimal text that stands in `b` at `pos` determines its number and
/// where it ends.
pub proof fn lemma_decimal_at_unique(b: Seq<u8>, pos: int, v1: int, end1: int, v2: int, end2: int)
    requires
        decimal_at(b, pos, v1, end1),
        decimal_at(b, pos, v2, end2),
        i32::MIN <= v1 <= i32::MAX,
        i32::MIN <= v2 <= i32::MAX,
    ensures
        v1 == v2,
        end1 == end2,
{
    lemma_decimal_at(b, pos, v1, end1);
    lemma_decimal_at(b, pos, v2, end2);
    let start = if v1 < 0 { pos + 1 } else { pos };
    if end1 < end2 {
        assert(is_digit(b.subrange(start, end2)[end1 - start]));
    } else if end2 < end1 {
        assert(is_digit(b.subrange(start, end1)[end2 - start]));
    }
}

/// Reads the decimal text of a 32-bit integer that stands in `b` at `pos`.
///
/// Returns the integer and the place just behind its text, or `None` where no
/// such text stands there: no digit, a leading zero, `-0`, or a number that
/// does not fit.
pub fn read_decimal(b: &[u8], pos: usize) -> (r: Option<(i32, usize)>)
    requires
        pos <= b.len(),
    ensures
        match r {
            Some((v, end)) => decimal_at(b@, pos as int, v as int, end as int),
            None => forall|v: i32, end: int| !#[trigger] decimal_at(b@, pos as int, v as int, end),
        },
{
    let n = b.len();
    let negative = pos < n && b[pos] == MINUS;
    let start: usize = if negative { pos + 1 } else { pos };
    let mut i: usize = start;
    let mut acc: u64 = 0;
    while i < n && ZERO <= b[i] && b[i] <= 0x39 && acc <= 214_748_364
        invariant
            start <= i <= n,
            n == b.len(),
            all_digits(b@.subrange(start as int, i as int)),
            acc == digits_value(b@.subrange(start as int, i as int)),
            acc <= 2_147_483_649,
        decreases n - i,
    {
        acc = acc * 10 + (b[i] - ZERO) as u64;
        i += 1;
        assert(b@.subrange(start as int, i as int).drop_last() =~= b@.subrange(
            start as int,
            i - 1,
        ));
    }
    let ghost run = b@.subrange(start as int, i as int);
    // What any text that stands here has in common with the run just read.
    assert forall|v: i32, end: int| #[trigger]
        decimal_at(b@, pos as int, v as int, end) implies (v < 0) == negative && start < end && (
    end >= i ==> all_digits(b@.subrange(start as int, end))) && digits_value(
        b@.subrange(start as int, end),
    ) == (if v < 0 { -v } else { v as int }) && (b@[start as int] == ZERO ==> end == start + 1) by {
        lemma_decimal_at(b@, pos as int, v as int, end);
    }
    if i < n && ZERO <= b[i] && b[i] <= 0x39 {
        // More digits follow a number that is already too large.
        assert forall|v: i32, end: int| !#[trigger] decimal_at(b@, pos as int, v as int, end) by {
            if decimal_at(b@, pos as int, v as int, end) {
                lemma_decimal_at(b@, pos as int, v as int, end);
                let full = b@.subrange(start as int, end);
                if end <= i {
                    assert(is_digit(b@.subrange(start as int, i as int + 1)[end - start]));
                } else {
                    assert(full.take(i - start) =~= run);
                    lemma_value_grows(full, i - start);
                }
            }
        }
        return None;
    }
    assert forall|v: i32, end: int| #[trigger]
        decimal_at(b@, pos as int, v as int, end) implies end == i by {
        lemma_decimal_at(b@, pos as int, v as int, end);
        if end < i {
            assert(is_digit(run[end - start]));
        } else if end > i {
            assert(is_digit(b@.subrange(start as int, end)[i - start]));
        }
    }
    if i == start {
        return None;
    }
    if b[start] == ZERO && i - start > 1 {
        return None;
    }
    proof {
        lemma_digits_of_value(run);
        assert(run[0] == b@[start as int]);
    }
    if negative {
        if acc == 0 || acc > 2_147_483_648 {
            return None;
        }
        let v: i32 = (-(acc as i64)) as i32;
        assert(b@.subrange(pos as int, i as int) =~= decimal(v as int));
        Some((v, i))
    } else {
        if acc > 2_147_483_647 {
            return None;
        }
        Some((acc as i32, i))
    }
}

} // verus!
