//! Decimal integers as `str::parse` reads them, and as `{:0N}` writes them.
use vstd::prelude::*;
use crate::text::chars_of;

verus! {

pub open spec fn is_ascii_digit(c: char) -> bool {
    '0' <= c && c <= '9'
}

pub open spec fn digit_value(c: char) -> nat {
    (c as int - '0' as int) as nat
}

pub open spec fn all_ascii_digits(s: Seq<char>) -> bool {
    forall|i: int| 0 <= i < s.len() ==> is_ascii_digit(#[trigger] s[i])
}

/// The number that a string of decimal digits denotes, most significant digit first.
pub open spec fn decimal_value(s: Seq<char>) -> nat
    decreases s.len(),
{
    if s.len() == 0 {
        0
    } else {
        decimal_value(s.drop_last()) * 10 + digit_value(s.last())
    }
}

/// A non-empty run of ASCII digits whose value is at most `bound`.
pub open spec fn digits_within(s: Seq<char>, bound: int) -> bool {
    s.len() > 0 && all_ascii_digits(s) && decimal_value(s) <= bound
}

/// `s` with one leading `+` removed, if it has one.
pub open spec fn without_plus(s: Seq<char>) -> Seq<char> {
    if s.len() > 0 && s[0] == '+' {
        s.drop_first()
    } else {
        s
    }
}

/// What `s.parse::<u32>()` gives: an optional `+`, then at least one ASCII
/// digit, with a value that fits in `u32`.
pub open spec fn spec_parse_u32(s: Seq<char>) -> Option<u32> {
    let body = without_plus(s);
    if digits_within(body, u32::MAX as int) {
        Some(decimal_value(body) as u32)
    } else {
        None
    }
}

/// The number that `s` denotes if it is a non-empty string of ASCII digits
/// (leading zeros allowed) whose value fits in `u32`.
pub open spec fn spec_parse_digits(s: Seq<char>) -> Option<u32> {
    if digits_within(s, u32::MAX as int) {
        Some(decimal_value(s) as u32)
    } else {
        None
    }
}

/// What `s.parse::<i32>()` gives: an optional `+` or `-`, then at least one
/// ASCII digit, with a value that fits in `i32`.
pub open spec fn spec_parse_i32(s: Seq<char>) -> Option<i32> {
    if s.len() > 0 && s[0] == '-' {
        let body = s.drop_first();
        if digits_within(body, 0x8000_0000) {
            Some((0 - decimal_value(body)) as i32)
        } else {
            None
        }
    } else {
        let body = without_plus(s);
        if digits_within(body, i32::MAX as int) {
            Some(decimal_value(body) as i32)
        } else {
            None
        }
    }
}

/// The value of a digit string is at least the value of any of its prefixes.
pub proof fn lemma_prefix_value_le(s: Seq<char>, k: int)
    requires
        0 <= k <= s.len(),
    ensures
        decimal_value(s.take(k)) <= decimal_value(s),
    decreases s.len(),
{
    if k < s.len() {
        lemma_prefix_value_le(s.drop_last(), k);
        assert(s.drop_last().take(k) == s.take(k));
    } else {
        assert(s.take(k) == s);
    }
}

/// The digits of `v[start..]`, if they are all ASCII digits, at least one,
/// with a value at most `bound`.
fn digits_value_at_most(v: &Vec<char>, start: usize, bound: u64) -> (r: Option<u64>)
    requires
        start <= v.len(),
        bound <= 0x1_0000_0000,
    ensures
        ({
            let body = v@.subrange(start as int, v.len() as int);
            r == if digits_within(body, bound as int) {
                Some(decimal_value(body) as u64)
            } else {
                None::<u64>
            }
        }),
{
    let ghost body = v@.subrange(start as int, v.len() as int);
    let n = v.len();
    if start == n {
        return None;
    }
    let mut acc: u64 = 0;
    let mut i = start;
    while i < n
        invariant
            start <= i <= n,
            n == v.len(),
            bound <= 0x1_0000_0000,
            body == v@.subrange(start as int, n as int),
            all_ascii_digits(body.take(i - start)),
            acc == decimal_value(body.take(i - start)),
            acc <= bound,
        decreases n - i,
    {
        let c = v[i];
        let ghost k = i - start;
        assert(body.take(k + 1).drop_last() == body.take(k));
        assert(body[k] == c);
        if !('0' <= c && c <= '9') {
            assert(!is_ascii_digit(body[k]));
            return None;
        }
        let d = (c as u32 - '0' as u32) as u64;
        let next = acc * 10 + d;
        if next > bound {
            proof {
                if all_ascii_digits(body) {
                    lemma_prefix_value_le(body, k + 1);
                }
            }
            return None;
        }
        acc = next;
        i = i + 1;
        assert(all_ascii_digits(body.take(i - start))) by {
            assert forall|j: int| 0 <= j < body.take(i - start).len() implies is_ascii_digit(
                #[trigger] body.take(i - start)[j],
            ) by {
                if j < k {
                    assert(body.take(i - start)[j] == body.take(k)[j]);
                }
            }
        }
    }
    assert(body.take(n - start) == body);
    Some(acc)
}

/// Parses `s` as `s.parse::<u32>()` does.
pub fn parse_u32(s: &str) -> (r: Option<u32>)
    ensures
        r == spec_parse_u32(s@),
{
    let v = chars_of(s);
    let start: usize = if v.len() > 0 && v[0] == '+' { 1 } else { 0 };
    assert(v@.subrange(start as int, v.len() as int) == without_plus(s@));
    match digits_value_at_most(&v, start, 0xffff_ffff) {
        Some(x) => Some(x as u32),
        None => None,
    }
}

/// The number that `s` denotes if it is a non-empty string of ASCII digits
/// whose value fits in `u32`; no sign is allowed.
pub fn parse_digits(s: &str) -> (r: Option<u32>)
    ensures
        r == spec_parse_digits(s@),
{
    let v = chars_of(s);
    assert(v@.subrange(0, v.len() as int) == s@);
    match digits_value_at_most(&v, 0, 0xffff_ffff) {
        Some(x) => Some(x as u32),
        None => None,
    }
}

/// Parses `s` as `s.parse::<i32>()` does.
pub fn parse_i32(s: &str) -> (r: Option<i32>)
    ensures
        r == spec_parse_i32(s@),
{
    let v = chars_of(s);
    if v.len() > 0 && v[0] == '-' {
        assert(v@.subrange(1, v.len() as int) == s@.drop_first());
        match digits_value_at_most(&v, 1, 0x8000_0000) {
            Some(x) => Some((0 - (x as i64)) as i32),
            None => None,
        }
    } else {
        let start: usize = if v.len() > 0 && v[0] == '+' { 1 } else { 0 };
        assert(v@.subrange(start as int, v.len() as int) == without_plus(s@));
        match digits_value_at_most(&v, start, 0x7fff_ffff) {
            Some(x) => Some(x as i32),
            None => None,
        }
    }
}

/// Does the string represent a decimal integer with a leading `+` or `-`?
pub fn is_plus_or_minus_int(s: &str) -> (b: bool)
    ensures
        b == (s@.len() > 0 && (s@[0] == '+' || s@[0] == '-') && spec_parse_i32(s@) is Some),
{
    let v = chars_of(s);
    let signed = v.len() > 0 && (v[0] == '+' || v[0] == '-');
    signed && parse_i32(s).is_some()
}

} // verus!
