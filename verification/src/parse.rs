//! Parsing of text-mode outputs: unsigned 32-bit integers written in
//! decimal, or in hex, binary or octal under a `0x`, `0b` or `0o` prefix,
//! with surrounding whitespace ignored.

use vstd::prelude::*;
use crate::BreakError;

verus! {

/// ASCII whitespace: space, tab, line feed, carriage return.
pub open spec fn is_ws(b: u8) -> bool {
    b == 32 || b == 9 || b == 10 || b == 13
}

/// The value of an ASCII digit or letter digit, or 99 where it is none.
pub open spec fn digit_of(b: u8) -> int {
    if 48 <= b <= 57 {
        b - 48
    } else if 97 <= b <= 102 {
        b - 87
    } else if 65 <= b <= 70 {
        b - 55
    } else {
        99
    }
}

/// The sequence without its leading whitespace.
pub open spec fn trim_front(s: Seq<u8>) -> Seq<u8>
    decreases s.len(),
{
    if s.len() > 0 && is_ws(s[0]) {
        trim_front(s.drop_first())
    } else {
        s
    }
}

/// The sequence without its trailing whitespace.
pub open spec fn trim_back(s: Seq<u8>) -> Seq<u8>
    decreases s.len(),
{
    if s.len() > 0 && is_ws(s.last()) {
        trim_back(s.drop_last())
    } else {
        s
    }
}

/// The sequence without surrounding whitespace.
pub open spec fn trimmed(s: Seq<u8>) -> Seq<u8> {
    trim_back(trim_front(s))
}

/// The radix selected by a `0x`, `0b` or `0o` prefix; decimal otherwise.
pub open spec fn body_radix(t: Seq<u8>) -> int {
    if t.len() >= 2 && t[0] == 48 && t[1] == 120 {
        16
    } else if t.len() >= 2 && t[0] == 48 && t[1] == 98 {
        2
    } else if t.len() >= 2 && t[0] == 48 && t[1] == 111 {
        8
    } else {
        10
    }
}

/// The digits after any radix prefix.
pub open spec fn body_digits(t: Seq<u8>) -> Seq<u8> {
    if body_radix(t) == 10 {
        t
    } else {
        t.skip(2)
    }
}

/// A non-empty, all-valid digit string for the radix.
pub open spec fn digits_ok(d: Seq<u8>, radix: int) -> bool {
    d.len() > 0 && forall|i: int| 0 <= i < d.len() ==> digit_of(#[trigger] d[i]) < radix
}

/// The numeric value of a digit string.
pub open spec fn digits_val(d: Seq<u8>, radix: int) -> int
    decreases d.len(),
{
    if d.len() == 0 {
        0
    } else {
        digits_val(d.drop_last(), radix) * radix + digit_of(d.last())
    }
}

/// What a text-mode line denotes: an unsigned 32-bit integer written in
/// decimal, hex, binary or octal, or nothing.
pub open spec fn parse_u32_spec(s: Seq<u8>) -> Option<u32> {
    let t = trimmed(s);
    let radix = body_radix(t);
    let d = body_digits(t);
    if digits_ok(d, radix) && digits_val(d, radix) < 0x1_0000_0000 {
        Some(digits_val(d, radix) as u32)
    } else {
        None
    }
}

/// ASCII whitespace.
fn is_ws_exec(b: u8) -> (r: bool)
    ensures
        r == is_ws(b),
{
    b == 32 || b == 9 || b == 10 || b == 13
}

/// The digit value, or 99 where the byte is no digit.
fn digit_of_exec(b: u8) -> (r: u64)
    ensures
        r == digit_of(b),
{
    if 48 <= b && b <= 57 {
        (b - 48) as u64
    } else if 97 <= b && b <= 102 {
        (b - 87) as u64
    } else if 65 <= b && b <= 70 {
        (b - 55) as u64
    } else {
        99
    }
}

/// Dropping a leading whitespace run trims the front.
proof fn lemma_trim_front(s: Seq<u8>, j: int)
    requires
        0 <= j <= s.len(),
        forall|k: int| 0 <= k < j ==> is_ws(#[trigger] s[k]),
        j < s.len() ==> !is_ws(s[j]),
    ensures
        trim_front(s) == s.skip(j),
    decreases j,
{
    if j == 0 {
        assert(s.skip(0) =~= s);
    } else {
        lemma_trim_front(s.drop_first(), j - 1);
        assert(s.drop_first().skip(j - 1) =~= s.skip(j));
    }
}

/// Dropping a trailing whitespace run trims the back.
proof fn lemma_trim_back(s: Seq<u8>, e: int)
    requires
        0 <= e <= s.len(),
        forall|k: int| e <= k < s.len() ==> is_ws(#[trigger] s[k]),
        e > 0 ==> !is_ws(s[e - 1]),
    ensures
        trim_back(s) == s.subrange(0, e),
    decreases s.len() - e,
{
    if e == s.len() {
        if s.len() == 0 {
            assert(s.subrange(0, e) =~= s);
        } else {
            assert(s.subrange(0, e) =~= s);
        }
    } else {
        lemma_trim_back(s.drop_last(), e);
        assert(s.drop_last().subrange(0, e) =~= s.subrange(0, e));
    }
}

/// Digit strings denote non-negative values.
proof fn lemma_digits_val_nonneg(d: Seq<u8>, radix: int)
    requires
        2 <= radix,
        forall|i: int| 0 <= i < d.len() ==> digit_of(#[trigger] d[i]) < radix,
    ensures
        digits_val(d, radix) >= 0,
    decreases d.len(),
{
    if d.len() > 0 {
        lemma_digits_val_nonneg(d.drop_last(), radix);
        vstd::arithmetic::mul::lemma_mul_nonnegative(digits_val(d.drop_last(), radix), radix);
    }
}

/// Parses one text-mode output line.
pub fn parse_output(line: &[u8]) -> (r: Result<u32, BreakError>)
    ensures
        match r {
            Ok(v) => parse_u32_spec(line@) == Some(v),
            Err(e) => e == BreakError::OutputParseFailed && parse_u32_spec(line@) is None,
        },
{
    let len = line.len();
    let mut start: usize = 0;
    while start < len && is_ws_exec(line[start])
        invariant
            start <= len,
            len == line@.len(),
            forall|k: int| 0 <= k < start ==> is_ws(#[trigger] line@[k]),
        decreases len - start,
    {
        start = start + 1;
    }
    let mut end: usize = len;
    while end > start && is_ws_exec(line[end - 1])
        invariant
            start <= end <= len,
            len == line@.len(),
            forall|k: int| 0 <= k < start ==> is_ws(#[trigger] line@[k]),
            start < len ==> !is_ws(line@[start as int]),
            forall|k: int| end <= k < len ==> is_ws(#[trigger] line@[k]),
        decreases end,
    {
        end = end - 1;
    }
    proof {
        lemma_trim_front(line@, start as int);
        let mid = line@.skip(start as int);
        lemma_trim_back(mid, end - start);
        assert(mid.subrange(0, end - start) =~= line@.subrange(start as int, end as int));
        assert(trimmed(line@) == line@.subrange(start as int, end as int));
    }
    let ghost t = line@.subrange(start as int, end as int);
    let radix: u64;
    let mut i: usize;
    if end - start >= 2 && line[start] == 48 && line[start + 1] == 120 {
        radix = 16;
        i = start + 2;
    } else if end - start >= 2 && line[start] == 48 && line[start + 1] == 98 {
        radix = 2;
        i = start + 2;
    } else if end - start >= 2 && line[start] == 48 && line[start + 1] == 111 {
        radix = 8;
        i = start + 2;
    } else {
        radix = 10;
        i = start;
    }
    proof {
        assert(radix == body_radix(t));
        assert(body_digits(t) =~= line@.subrange(i as int, end as int));
    }
    let ghost d = line@.subrange(i as int, end as int);
    let dstart = i;
    if i == end {
        proof {
            assert(!digits_ok(d, radix as int));
        }
        return Err(BreakError::OutputParseFailed);
    }
    let mut acc: u64 = 0;
    while i < end
        invariant
            dstart <= i <= end <= len,
            len == line@.len(),
            2 <= radix <= 16,
            d == line@.subrange(dstart as int, end as int),
            radix == body_radix(trimmed(line@)),
            d == body_digits(trimmed(line@)),
            forall|k: int|
                dstart <= k < i ==> digit_of(#[trigger] line@[k]) < radix,
            acc <= 0x1_0000_0000,
            digits_val(line@.subrange(dstart as int, i as int), radix as int) < 0x1_0000_0000
                ==> acc == digits_val(line@.subrange(dstart as int, i as int), radix as int),
            digits_val(line@.subrange(dstart as int, i as int), radix as int) >= 0x1_0000_0000
                ==> acc == 0x1_0000_0000,
        decreases end - i,
    {
        let b = line[i];
        let v = digit_of_exec(b);
        if v >= radix {
            proof {
                assert(d[i - dstart] == line@[i as int]);
                assert(!digits_ok(d, radix as int));
            }
            return Err(BreakError::OutputParseFailed);
        }
        let ghost pre = line@.subrange(dstart as int, i as int);
        let ghost pre2 = line@.subrange(dstart as int, i as int + 1);
        proof {
            assert(pre2.drop_last() =~= pre);
            assert(pre2.last() == line@[i as int]);
            assert(digits_val(pre2, radix as int) == digits_val(pre, radix as int) * radix
                + digit_of(line@[i as int]));
            lemma_digits_val_nonneg(pre, radix as int);
            if digits_val(pre, radix as int) >= 0x1_0000_0000 {
                assert(digits_val(pre, radix as int) * radix >= digits_val(pre, radix as int)
                    * 2) by {
                    vstd::arithmetic::mul::lemma_mul_inequality(
                        2,
                        radix as int,
                        digits_val(pre, radix as int),
                    );
                    vstd::arithmetic::mul::lemma_mul_is_commutative(
                        radix as int,
                        digits_val(pre, radix as int),
                    );
                    vstd::arithmetic::mul::lemma_mul_is_commutative(
                        2,
                        digits_val(pre, radix as int),
                    );
                }
            }
        }
        if acc >= 0x1_0000_0000 {
            acc = 0x1_0000_0000;
        } else {
            proof {
                vstd::arithmetic::mul::lemma_mul_upper_bound(
                    acc as int,
                    0xffff_ffff,
                    radix as int,
                    16,
                );
            }
            acc = acc * radix + v;
            if acc > 0xffff_ffff {
                acc = 0x1_0000_0000;
            }
        }
        i = i + 1;
    }
    proof {
        assert(line@.subrange(dstart as int, i as int) == d);
        assert(digits_ok(d, radix as int)) by {
            assert forall|k: int| 0 <= k < d.len() implies digit_of(#[trigger] d[k])
                < radix by {
                assert(d[k] == line@[dstart + k]);
            }
        }
    }
    if acc <= 0xffff_ffff {
        Ok(acc as u32)
    } else {
        Err(BreakError::OutputParseFailed)
    }
}

/// An unsigned 32-bit integer from its four little-endian bytes.
pub fn output_from_le_bytes(b0: u8, b1: u8, b2: u8, b3: u8) -> (r: u32)
    ensures
        r == b0 + 0x100 * b1 + 0x1_0000 * b2 + 0x100_0000 * b3,
{
    b0 as u32 + 0x100 * (b1 as u32) + 0x1_0000 * (b2 as u32) + 0x100_0000 * (b3 as u32)
}

} // verus!
