//! Calendar dates of the proleptic Gregorian calendar within the range that
//! `chrono::NaiveDate` holds, and their `YYYY/MM/DD` directory names.
use vstd::prelude::*;
use chrono::Datelike;
use crate::numbers::{
    all_ascii_digits, decimal_value, digit_value, is_ascii_digit, spec_parse_i32, spec_parse_u32,
    without_plus,
};


verus! {

/// The earliest year that `chrono::NaiveDate` holds.
pub const MIN_YEAR: i32 = -262143;

/// The latest year that `chrono::NaiveDate` holds.
pub const MAX_YEAR: i32 = 262142;

pub open spec fn is_leap_year(y: int) -> bool {
    y % 4 == 0 && (y % 100 != 0 || y % 400 == 0)
}

pub open spec fn days_in_month(y: int, m: int) -> int {
    if m == 2 {
        if is_leap_year(y) {
            29
        } else {
            28
        }
    } else if m == 4 || m == 6 || m == 9 || m == 11 {
        30
    } else {
        31
    }
}

/// A year, month and day that name a day that `chrono::NaiveDate` holds.
pub open spec fn valid_ymd(y: int, m: int, d: int) -> bool {
    &&& MIN_YEAR <= y <= MAX_YEAR
    &&& 1 <= m <= 12
    &&& 1 <= d <= days_in_month(y, m)
}

/// The number of days from 1970-01-01 to the given day (negative before it).
pub open spec fn day_number(y: int, m: int, d: int) -> int {
    let yy = if m <= 2 {
        y - 1
    } else {
        y
    };
    let mp = if m > 2 {
        m - 3
    } else {
        m + 9
    };
    365 * yy + yy / 4 - yy / 100 + yy / 400 + (153 * mp + 2) / 5 + d - 1 - 719468
}

/// The number of the earliest day that `chrono::NaiveDate` holds.
pub open spec fn first_day_number() -> int {
    day_number(MIN_YEAR as int, 1, 1)
}

/// The number of the latest day that `chrono::NaiveDate` holds.
pub open spec fn last_day_number() -> int {
    day_number(MAX_YEAR as int, 12, 31)
}

pub open spec fn day_number_in_range(n: int) -> bool {
    first_day_number() <= n <= last_day_number()
}

/// A valid calendar date.
#[derive(Debug, Clone, Copy, PartialEq, Eq, Structural)]
pub struct Date {
    year: i32,
    month: u32,
    day: u32,
}

impl View for Date {
    type V = (i32, u32, u32);

    open spec fn view(&self) -> (i32, u32, u32) {
        (self.spec_year(), self.spec_month(), self.spec_day())
    }
}

impl Date {
    pub closed spec fn spec_year(self) -> i32 {
        self.year
    }

    pub closed spec fn spec_month(self) -> u32 {
        self.month
    }

    pub closed spec fn spec_day(self) -> u32 {
        self.day
    }

    #[verifier::type_invariant]
    closed spec fn well_formed(self) -> bool {
        valid_ymd(self.year as int, self.month as int, self.day as int)
    }

    /// The number of days from 1970-01-01 to this date.
    pub open spec fn number(self) -> int {
        day_number(self@.0 as int, self@.1 as int, self@.2 as int)
    }

    /// Dates with the same year, month and day are the same date.
    pub proof fn lemma_view_injective(self, other: Date)
        ensures
            self@ == other@ ==> self == other,
    {
    }

    pub fn year(&self) -> (r: i32)
        ensures
            r == self@.0,
            valid_ymd(self@.0 as int, self@.1 as int, self@.2 as int),
    {
        proof {
            use_type_invariant(self);
        }
        self.year
    }

    pub fn month(&self) -> (r: u32)
        ensures
            r == self@.1,
    {
        self.month
    }

    pub fn day(&self) -> (r: u32)
        ensures
            r == self@.2,
    {
        self.day
    }

    /// The date with the given year, month and day, if there is one in range.
    pub fn from_ymd_opt(year: i32, month: u32, day: u32) -> (r: Option<Date>)
        ensures
            r is Some <==> valid_ymd(year as int, month as int, day as int),
            r matches Some(d) ==> d@ == (year, month, day),
    {
        naive_from_ymd(year, month, day)
    }

    /// The date `days` days after this one (before it, for a negative `days`),
    /// if that date is in range.
    pub fn checked_add_days(&self, days: i32) -> (r: Option<Date>)
        ensures
            r is Some <==> day_number_in_range(self.number() + days),
            r matches Some(d) ==> d.number() == self.number() + days,
    {
        naive_add_days(*self, days)
    }

    /// Whether this date comes before `other`.
    pub fn is_before(&self, other: &Date) -> (r: bool)
        ensures
            r == (self.number() < other.number()),
    {
        proof {
            use_type_invariant(self);
            use_type_invariant(other);
            lemma_day_number_order(
                self.year as int,
                self.month as int,
                self.day as int,
                other.year as int,
                other.month as int,
                other.day as int,
            );
        }
        if self.year != other.year {
            self.year < other.year
        } else if self.month != other.month {
            self.month < other.month
        } else {
            self.day < other.day
        }
    }
}

/// `chrono::NaiveDate::from_ymd_opt`: the date with this year, month and day,
/// `None` where the calendar has no such day or the year is out of chrono's range.
#[verifier::external_body]
fn naive_from_ymd(year: i32, month: u32, day: u32) -> (r: Option<Date>)
    ensures
        r is Some <==> valid_ymd(year as int, month as int, day as int),
        r matches Some(d) ==> d@ == (year, month, day),
{
    match chrono::NaiveDate::from_ymd_opt(year, month, day) {
        Some(n) => Some(Date { year: n.year(), month: n.month(), day: n.day() }),
        None => None,
    }
}

/// `chrono::NaiveDate::checked_add_signed` with a whole number of days
/// (`chrono::TimeDelta::days`): the date that many days later, `None` where that
/// date is out of chrono's range.
#[verifier::external_body]
fn naive_add_days(date: Date, days: i32) -> (r: Option<Date>)
    ensures
        r is Some <==> day_number_in_range(date.number() + days),
        r matches Some(d) ==> d.number() == date.number() + days,
{
    let start = chrono::NaiveDate::from_ymd_opt(date.year, date.month, date.day).unwrap();
    match start.checked_add_signed(chrono::TimeDelta::days(days as i64)) {
        Some(n) => Some(Date { year: n.year(), month: n.month(), day: n.day() }),
        None => None,
    }
}

/// The decimal digit for `n`, which is below ten.
pub open spec fn digit_char(n: int) -> char {
    ('0' as int + n) as char
}

/// The decimal digits of `n`, most significant first, without leading zeros.
pub open spec fn digits_of(n: nat) -> Seq<char>
    decreases n,
{
    if n < 10 {
        seq![digit_char(n as int)]
    } else {
        digits_of(n / 10).push(digit_char((n % 10) as int))
    }
}

pub open spec fn zeros(k: int) -> Seq<char> {
    Seq::new(k as nat, |i: int| '0')
}

/// `n` as `format!("{:0w$}", n)` writes it for a non-negative `n`.
pub open spec fn zero_padded(n: nat, width: nat) -> Seq<char> {
    let d = digits_of(n);
    if d.len() < width {
        zeros(width - d.len()) + d
    } else {
        d
    }
}

/// `n` as `format!("{:0w$}", n)` writes it: the sign comes first and counts
/// toward the width.
pub open spec fn sign_padded(n: int, width: nat) -> Seq<char> {
    if n < 0 {
        seq!['-'] + zero_padded((0 - n) as nat, (width - 1) as nat)
    } else {
        zero_padded(n as nat, width)
    }
}

/// The relative directory of a day, as `format!("{:04}/{:02}/{:02}", y, m, d)` writes it.
pub open spec fn date_dir_name(y: int, m: nat, d: nat) -> Seq<char> {
    sign_padded(y, 4) + seq!['/'] + zero_padded(m, 2) + seq!['/'] + zero_padded(d, 2)
}

fn digit_of(n: u32) -> (c: char)
    requires
        n < 10,
    ensures
        c == digit_char(n as int),
{
    let c = ((n as u8) + 48u8) as char;
    c
}

fn digit_count(n: u32) -> (k: u64)
    ensures
        k == digits_of(n as nat).len(),
        1 <= k <= n as nat + 1,
    decreases n,
{
    if n < 10 {
        1
    } else {
        digit_count(n / 10) + 1
    }
}

fn push_digits(out: &mut Vec<char>, n: u32)
    ensures
        final(out)@ == old(out)@ + digits_of(n as nat),
    decreases n,
{
    if n >= 10 {
        push_digits(out, n / 10);
    }
    out.push(digit_of(n % 10));
}

fn push_zero_padded(out: &mut Vec<char>, n: u32, width: usize)
    requires
        width <= 10,
    ensures
        final(out)@ == old(out)@ + zero_padded(n as nat, width as nat),
{
    let k = digit_count(n);
    let ghost start = out@;
    if k < width as u64 {
        let pad = width - k as usize;
        for i in 0..pad
            invariant
                out@ == start + zeros(i as int),
        {
            out.push('0');
            assert(zeros(i + 1) == zeros(i as int).push('0'));
        }
    }
    let ghost mid = out@;
    push_digits(out, n);
    assert(out@ == mid + digits_of(n as nat));
}

fn push_sign_padded(out: &mut Vec<char>, n: i32, width: usize)
    requires
        1 <= width <= 10,
    ensures
        final(out)@ == old(out)@ + sign_padded(n as int, width as nat),
{
    let ghost start = out@;
    if n < 0 {
        out.push('-');
        let m: u32 = if n == i32::MIN {
            0x8000_0000
        } else {
            (0 - n) as u32
        };
        push_zero_padded(out, m, width - 1);
        assert(out@ == start + (seq!['-'] + zero_padded(m as nat, (width - 1) as nat)));
    } else {
        push_zero_padded(out, n as u32, width);
    }
}

/// The directory of `date` relative to the base directory: `YYYY/MM/DD`.
pub fn date_dir(date: &Date) -> (r: Vec<char>)
    ensures
        r@ == date_dir_name(date@.0 as int, date@.1 as nat, date@.2 as nat),
{
    let mut out: Vec<char> = Vec::new();
    push_sign_padded(&mut out, date.year(), 4);
    out.push('/');
    push_zero_padded(&mut out, date.month(), 2);
    out.push('/');
    push_zero_padded(&mut out, date.day(), 2);
    assert(out@ =~= date_dir_name(date@.0 as int, date@.1 as nat, date@.2 as nat));
    out
}

pub proof fn lemma_digit_char(k: int)
    requires
        0 <= k < 10,
    ensures
        is_ascii_digit(digit_char(k)),
        digit_value(digit_char(k)) == k,
{
}

/// The digits of `n` are a non-empty run of ASCII digits whose value is `n`.
pub proof fn lemma_digits_of(n: nat)
    ensures
        digits_of(n).len() >= 1,
        all_ascii_digits(digits_of(n)),
        decimal_value(digits_of(n)) == n,
    decreases n,
{
    let d = digits_of(n);
    if n < 10 {
        lemma_digit_char(n as int);
        assert(d.drop_last() == Seq::<char>::empty());
        assert(decimal_value(Seq::<char>::empty()) == 0);
    } else {
        lemma_digits_of(n / 10);
        lemma_digit_char((n % 10) as int);
        assert(d.drop_last() == digits_of(n / 10));
        assert(n == (n / 10) * 10 + n % 10);
        assert forall|i: int| 0 <= i < d.len() implies is_ascii_digit(#[trigger] d[i]) by {
            if i < d.len() - 1 {
                assert(d[i] == digits_of(n / 10)[i]);
            }
        }
    }
}

pub proof fn lemma_zeros_value(k: int)
    requires
        k >= 0,
    ensures
        decimal_value(zeros(k)) == 0,
        all_ascii_digits(zeros(k)),
    decreases k,
{
    if k > 0 {
        lemma_zeros_value(k - 1);
        assert(zeros(k).drop_last() == zeros(k - 1));
    }
}

/// Leading zeros change neither the value of a digit string nor its being one.
pub proof fn lemma_leading_zeros(k: int, s: Seq<char>)
    requires
        k >= 0,
    ensures
        decimal_value(zeros(k) + s) == decimal_value(s),
        all_ascii_digits(s) ==> all_ascii_digits(zeros(k) + s),
    decreases s.len(),
{
    lemma_zeros_value(k);
    if s.len() == 0 {
        assert(zeros(k) + s == zeros(k));
    } else {
        lemma_leading_zeros(k, s.drop_last());
        assert((zeros(k) + s).drop_last() == zeros(k) + s.drop_last());
        assert((zeros(k) + s).last() == s.last());
    }
    if all_ascii_digits(s) {
        let t = zeros(k) + s;
        assert forall|i: int| 0 <= i < t.len() implies is_ascii_digit(#[trigger] t[i]) by {
            if i < k {
                assert(t[i] == zeros(k)[i]);
            } else {
                assert(t[i] == s[i - k]);
            }
        }
    }
}

/// A zero-padded number is a non-empty run of ASCII digits with the number's value.
pub proof fn lemma_zero_padded(n: nat, w: nat)
    ensures
        zero_padded(n, w).len() >= 1,
        zero_padded(n, w)[0] != '+' && zero_padded(n, w)[0] != '-',
        all_ascii_digits(zero_padded(n, w)),
        decimal_value(zero_padded(n, w)) == n,
{
    lemma_digits_of(n);
    let d = digits_of(n);
    if d.len() < w {
        lemma_leading_zeros(w - d.len(), d);
        assert(zero_padded(n, w)[0] == zeros(w - d.len())[0]);
    } else {
        assert(is_ascii_digit(d[0]));
    }
}

/// `parse::<u32>` reads back a number written zero-padded.
pub proof fn lemma_parse_zero_padded(n: nat, w: nat)
    requires
        n <= u32::MAX,
    ensures
        spec_parse_u32(zero_padded(n, w)) == Some(n as u32),
{
    lemma_zero_padded(n, w);
    assert(without_plus(zero_padded(n, w)) == zero_padded(n, w));
}

/// `parse::<i32>` reads back a number written sign-aware zero-padded.
pub proof fn lemma_parse_sign_padded(y: i32, w: nat)
    requires
        w >= 1,
    ensures
        spec_parse_i32(sign_padded(y as int, w)) == Some(y),
{
    if y < 0 {
        let m = (0 - y) as nat;
        lemma_zero_padded(m, (w - 1) as nat);
        let s = sign_padded(y as int, w);
        assert(s.drop_first() == zero_padded(m, (w - 1) as nat));
    } else {
        lemma_zero_padded(y as nat, w);
        assert(without_plus(zero_padded(y as nat, w)) == zero_padded(y as nat, w));
    }
}

/// The number of the first day of month `m` of year `y`.
pub open spec fn month_start(y: int, m: int) -> int {
    day_number(y, m, 1)
}

proof fn lemma_floor_step(y: int, k: int)
    requires
        k > 0,
    ensures
        y / k - (y - 1) / k == (if y % k == 0 {
            1int
        } else {
            0int
        }),
{
    vstd::arithmetic::div_mod::lemma_fundamental_div_mod(y, k);
    vstd::arithmetic::div_mod::lemma_fundamental_div_mod(y - 1, k);
    if y % k == 0 {
        assert((y - 1) % k == k - 1) by (nonlinear_arith)
            requires
                y == k * (y / k) + y % k,
                y % k == 0,
                k > 0,
                0 <= (y - 1) % k < k,
                y - 1 == k * ((y - 1) / k) + (y - 1) % k,
        ;
        assert(y / k - (y - 1) / k == 1) by (nonlinear_arith)
            requires
                y == k * (y / k),
                y - 1 == k * ((y - 1) / k) + k - 1,
                k > 0,
        ;
    } else {
        assert((y - 1) % k == y % k - 1) by (nonlinear_arith)
            requires
                y == k * (y / k) + y % k,
                0 < y % k < k,
                0 <= (y - 1) % k < k,
                y - 1 == k * ((y - 1) / k) + (y - 1) % k,
        ;
        assert(y / k - (y - 1) / k == 0) by (nonlinear_arith)
            requires
                y == k * (y / k) + y % k,
                y - 1 == k * ((y - 1) / k) + y % k - 1,
                k > 0,
        ;
    }
}

/// Each month starts the given number of days after the one before it.
pub proof fn lemma_next_month_start(y: int, m: int)
    requires
        1 <= m <= 12,
    ensures
        m < 12 ==> month_start(y, m + 1) == month_start(y, m) + days_in_month(y, m),
        m == 12 ==> month_start(y + 1, 1) == month_start(y, 12) + 31,
{
    if m == 2 {
        lemma_floor_step(y, 4);
        lemma_floor_step(y, 100);
        lemma_floor_step(y, 400);
        assert(is_leap_year(y) == (y % 4 == 0 && (y % 100 != 0 || y % 400 == 0)));
        if y % 100 == 0 {
            assert(y % 4 == 0) by (nonlinear_arith)
                requires
                    y % 100 == 0,
            ;
        }
        if y % 400 == 0 {
            assert(y % 100 == 0) by (nonlinear_arith)
                requires
                    y % 400 == 0,
            ;
        }
    }
}

/// A valid date lies in its month: from the month's first day up to the next
/// month's first day.
proof fn lemma_within_month(y: int, m: int, d: int)
    requires
        1 <= m <= 12,
        1 <= d <= days_in_month(y, m),
    ensures
        month_start(y, m) <= day_number(y, m, d) < month_start(y, m) + days_in_month(y, m),
{
}

/// Later months start no earlier than the end of earlier ones.
proof fn lemma_month_start_order(y1: int, m1: int, y2: int, m2: int)
    requires
        1 <= m1 <= 12,
        1 <= m2 <= 12,
        12 * y1 + m1 < 12 * y2 + m2,
    ensures
        month_start(y1, m1) + days_in_month(y1, m1) <= month_start(y2, m2),
    decreases 12 * y2 + m2 - 12 * y1 - m1,
{
    let (py, pm) = if m2 == 1 {
        (y2 - 1, 12int)
    } else {
        (y2, m2 - 1)
    };
    lemma_next_month_start(py, pm);
    if 12 * y1 + m1 < 12 * py + pm {
        lemma_month_start_order(y1, m1, py, pm);
    } else {
        assert(y1 == py && m1 == pm);
    }
}

/// Day numbers order valid dates as their years, then months, then days do.
pub proof fn lemma_day_number_order(y1: int, m1: int, d1: int, y2: int, m2: int, d2: int)
    requires
        valid_ymd(y1, m1, d1),
        valid_ymd(y2, m2, d2),
    ensures
        (day_number(y1, m1, d1) < day_number(y2, m2, d2)) == (y1 < y2 || (y1 == y2 && (m1 < m2 || (
        m1 == m2 && d1 < d2)))),
{
    lemma_within_month(y1, m1, d1);
    lemma_within_month(y2, m2, d2);
    if 12 * y1 + m1 < 12 * y2 + m2 {
        lemma_month_start_order(y1, m1, y2, m2);
    } else if 12 * y2 + m2 < 12 * y1 + m1 {
        lemma_month_start_order(y2, m2, y1, m1);
    }
}

/// No two valid dates share a day number.
pub proof fn lemma_day_number_injective(y1: int, m1: int, d1: int, y2: int, m2: int, d2: int)
    requires
        valid_ymd(y1, m1, d1),
        valid_ymd(y2, m2, d2),
        day_number(y1, m1, d1) == day_number(y2, m2, d2),
    ensures
        y1 == y2 && m1 == m2 && d1 == d2,
{
    lemma_within_month(y1, m1, d1);
    lemma_within_month(y2, m2, d2);
    if 12 * y1 + m1 < 12 * y2 + m2 {
        lemma_month_start_order(y1, m1, y2, m2);
    } else if 12 * y2 + m2 < 12 * y1 + m1 {
        lemma_month_start_order(y2, m2, y1, m1);
    } else {
        assert(y1 == y2 && m1 == m2);
    }
}

/// The valid date whose day number is `n` (there is at most one).
pub open spec fn date_of_number(n: int) -> (i32, u32, u32) {
    choose|t: (i32, u32, u32)| valid_ymd(t.0 as int, t.1 as int, t.2 as int) && day_number(t.0 as int, t.1 as int, t.2 as int) == n
}

/// A valid date is the date of its day number.
pub proof fn lemma_date_of_number(t: (i32, u32, u32))
    requires
        valid_ymd(t.0 as int, t.1 as int, t.2 as int),
    ensures
        date_of_number(day_number(t.0 as int, t.1 as int, t.2 as int)) == t,
{
    let n = day_number(t.0 as int, t.1 as int, t.2 as int);
    let u = date_of_number(n);
    assert(valid_ymd(u.0 as int, u.1 as int, u.2 as int) && day_number(u.0 as int, u.1 as int, u.2 as int) == n);
    lemma_day_number_injective(t.0 as int, t.1 as int, t.2 as int, u.0 as int, u.1 as int, u.2 as int);
}

/// A day's directory name has three parts separated by `/`, none empty,
/// none holding a `/`, none `.` or `..`, and does not start with `/`.
pub proof fn lemma_date_dir_name_shape(y: i32, m: u32, d: u32)
    ensures
        date_dir_name(y as int, m as nat, d as nat).len() > 0,
        date_dir_name(y as int, m as nat, d as nat)[0] != '/',
{
    lemma_zero_padded(m as nat, 2);
    lemma_zero_padded(d as nat, 2);
    if y < 0 {
        lemma_zero_padded((0 - y) as nat, 3);
    } else {
        lemma_zero_padded(y as nat, 4);
        assert(is_ascii_digit(zero_padded(y as nat, 4)[0]));
    }
}

/// Every valid date lies in the range of day numbers that `chrono::NaiveDate` holds.
pub proof fn lemma_valid_in_range(y: int, m: int, d: int)
    requires
        valid_ymd(y, m, d),
    ensures
        day_number_in_range(day_number(y, m, d)),
{
    lemma_within_month(y, m, d);
    lemma_within_month(MIN_YEAR as int, 1, 1);
    lemma_within_month(MAX_YEAR as int, 12, 31);
    if 12 * (MIN_YEAR as int) + 1 < 12 * y + m {
        lemma_month_start_order(MIN_YEAR as int, 1, y, m);
    }
    if 12 * y + m < 12 * (MAX_YEAR as int) + 12 {
        lemma_month_start_order(y, m, MAX_YEAR as int, 12);
    }
}

} // verus!
