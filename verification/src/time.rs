//! Local date-times: the calendar fields the notes' logic reads, the
//! chrono calls that produce them, and their `%Y-%m-%d %H:%M` rendering.
use vstd::prelude::*;
use chrono::{Datelike, Timelike};

verus! {

#[verifier::external_type_specification]
#[verifier::external_body]
pub struct ExNaiveDateTime(chrono::NaiveDateTime);

/// A date and time of day without a time zone: year, month, day, hour,
/// minute, second and nanosecond (at or above 10^9 during a leap second).
/// Values are only made from chrono's `NaiveDateTime`, whose fields they
/// hold.
#[derive(Clone, Copy, Debug)]
pub struct DateTime {
    year: i32,
    month: u32,
    day: u32,
    hour: u32,
    minute: u32,
    second: u32,
    nanosecond: u32,
    raw: chrono::NaiveDateTime,
}

/// The fields of a date-time, most significant first.
pub type Stamp = (i32, u32, u32, u32, u32, u32, u32);

impl View for DateTime {
    type V = Stamp;

    closed spec fn view(&self) -> Stamp {
        (self.year, self.month, self.day, self.hour, self.minute, self.second, self.nanosecond)
    }
}

/// Field ranges of every chrono `NaiveDateTime`.
pub open spec fn valid_stamp(s: Stamp) -> bool {
    &&& 1 <= s.1 <= 12
    &&& 1 <= s.2 <= 31
    &&& s.3 <= 23
    &&& s.4 <= 59
    &&& s.5 <= 59
    &&& s.6 < 2_000_000_000
}

/// Chronological order: lexicographic on the fields.
pub open spec fn stamp_le(a: Stamp, b: Stamp) -> bool {
    if a.0 != b.0 {
        a.0 < b.0
    } else if a.1 != b.1 {
        a.1 < b.1
    } else if a.2 != b.2 {
        a.2 < b.2
    } else if a.3 != b.3 {
        a.3 < b.3
    } else if a.4 != b.4 {
        a.4 < b.4
    } else if a.5 != b.5 {
        a.5 < b.5
    } else {
        a.6 <= b.6
    }
}

/// Strictly earlier.
pub open spec fn stamp_lt(a: Stamp, b: Stamp) -> bool {
    !stamp_le(b, a)
}

/// Chronological order is a total order on stamps.
pub proof fn lemma_stamp_order(a: Stamp, b: Stamp, c: Stamp)
    ensures
        stamp_le(a, a),
        stamp_le(a, b) || stamp_le(b, a),
        stamp_le(a, b) && stamp_le(b, a) ==> a == b,
        stamp_le(a, b) && stamp_le(b, c) ==> stamp_le(a, c),
{
}

/// Midnight at the start of the day of `s`.
pub open spec fn day_start(s: Stamp) -> Stamp {
    (s.0, s.1, s.2, 0, 0, 0, 0)
}

/// Midnight at the start of the first day of the month of `s`.
pub open spec fn month_start(s: Stamp) -> Stamp {
    (s.0, s.1, 1, 0, 0, 0, 0)
}

/// What `NaiveDateTime::parse_from_str(s, "%Y-%m-%dT%H:%M:%S")` gives.
pub uninterp spec fn chrono_parse_iso(s: Seq<char>) -> Option<Stamp>;

/// What `NaiveDateTime::checked_sub_signed(TimeDelta::try_days(days))` gives.
pub uninterp spec fn chrono_minus_days(s: Stamp, days: i64) -> Option<Stamp>;

/// `Weekday::num_days_from_monday` of the date `(year, month, day)`.
pub uninterp spec fn chrono_days_from_monday(year: i32, month: u32, day: u32) -> u32;

/// Parses `YYYY-MM-DDTHH:MM:SS` with chrono
/// (`NaiveDateTime::parse_from_str(s, "%Y-%m-%dT%H:%M:%S")`). The claim:
/// the result is the named parse of the text, and a parsed value has
/// chrono's field ranges. Which texts chrono accepts is not restated here.
#[verifier::external_body]
pub(crate) fn parse_iso(s: &str) -> (r: Option<DateTime>)
    ensures
        match r {
            Some(d) => chrono_parse_iso(s@) == Some(d@) && valid_stamp(d@),
            None => chrono_parse_iso(s@) is None,
        },
{
    match chrono::NaiveDateTime::parse_from_str(s, "%Y-%m-%dT%H:%M:%S") {
        Ok(n) => Some(DateTime {
            year: n.year(),
            month: n.month(),
            day: n.day(),
            hour: n.hour(),
            minute: n.minute(),
            second: n.second(),
            nanosecond: n.nanosecond(),
            raw: n,
        }),
        Err(_) => None,
    }
}

/// The local wall-clock time (`Local::now().naive_local()`). The claim:
/// the value has chrono's field ranges; which time it is is left open.
#[verifier::external_body]
pub(crate) fn local_now() -> (r: DateTime)
    ensures
        valid_stamp(r@),
{
    let n = chrono::Local::now().naive_local();
    DateTime {
        year: n.year(),
        month: n.month(),
        day: n.day(),
        hour: n.hour(),
        minute: n.minute(),
        second: n.second(),
        nanosecond: n.nanosecond(),
        raw: n,
    }
}

/// Midnight of the same day (`date().and_hms_opt(0, 0, 0)`, which always
/// exists). The claim: same date, time of day zero.
#[verifier::external_body]
pub(crate) fn start_of_day(d: &DateTime) -> (r: DateTime)
    requires
        valid_stamp(d@),
    ensures
        r@ == day_start(d@),
        valid_stamp(r@),
{
    let n = d.raw.date().and_hms_opt(0, 0, 0).unwrap();
    DateTime {
        year: n.year(),
        month: n.month(),
        day: n.day(),
        hour: n.hour(),
        minute: n.minute(),
        second: n.second(),
        nanosecond: n.nanosecond(),
        raw: n,
    }
}

/// `d` minus a number of whole days, or `None` when chrono cannot
/// represent the span or the result (`TimeDelta::try_days`,
/// `NaiveDateTime::checked_sub_signed`). The claim: the result is the named
/// chrono subtraction, with chrono's field ranges; subtracting a
/// non-negative span gives a time no later than `d` (chrono orders
/// date-times by date, then time of day, as `stamp_le` does).
#[verifier::external_body]
pub(crate) fn minus_days(d: &DateTime, days: i64) -> (r: Option<DateTime>)
    ensures
        match r {
            Some(x) => chrono_minus_days(d@, days) == Some(x@) && valid_stamp(x@),
            None => chrono_minus_days(d@, days) is None,
        },
        days >= 0 ==> (r matches Some(x) ==> stamp_le(x@, d@)),
{
    match chrono::TimeDelta::try_days(days).and_then(|t| d.raw.checked_sub_signed(t)) {
        Some(n) => Some(DateTime {
            year: n.year(),
            month: n.month(),
            day: n.day(),
            hour: n.hour(),
            minute: n.minute(),
            second: n.second(),
            nanosecond: n.nanosecond(),
            raw: n,
        }),
        None => None,
    }
}

/// Days since the last Monday (`weekday().num_days_from_monday()`). The
/// claim: the named weekday number of the date, below 7.
#[verifier::external_body]
pub(crate) fn days_from_monday(d: &DateTime) -> (r: u32)
    ensures
        r == chrono_days_from_monday(d@.0, d@.1, d@.2),
        r < 7,
{
    d.raw.weekday().num_days_from_monday()
}

/// Chronological comparison of two stamps.
pub fn stamp_le_exec(a: Stamp, b: Stamp) -> (r: bool)
    ensures
        r == stamp_le(a, b),
{
    if a.0 != b.0 {
        a.0 < b.0
    } else if a.1 != b.1 {
        a.1 < b.1
    } else if a.2 != b.2 {
        a.2 < b.2
    } else if a.3 != b.3 {
        a.3 < b.3
    } else if a.4 != b.4 {
        a.4 < b.4
    } else if a.5 != b.5 {
        a.5 < b.5
    } else {
        a.6 <= b.6
    }
}

impl DateTime {
    /// The fields as a tuple.
    pub fn stamp(&self) -> (r: Stamp)
        ensures
            r == self@,
    {
        (self.year, self.month, self.day, self.hour, self.minute, self.second, self.nanosecond)
    }
}

// ── Rendering ────────────────────────────────────────────────────────────────

pub open spec fn digit_char(d: nat) -> char {
    if d == 0 { '0' }
    else if d == 1 { '1' }
    else if d == 2 { '2' }
    else if d == 3 { '3' }
    else if d == 4 { '4' }
    else if d == 5 { '5' }
    else if d == 6 { '6' }
    else if d == 7 { '7' }
    else if d == 8 { '8' }
    else { '9' }
}

/// Decimal digits of `n`, without leading zeros (`0` for zero).
pub open spec fn decimal(n: nat) -> Seq<char>
    decreases n,
{
    if n < 10 {
        seq![digit_char(n)]
    } else {
        decimal(n / 10).push(digit_char(n % 10))
    }
}

/// `n` zero-padded on the left to at least `w` digits.
pub open spec fn zero_pad(n: nat, w: nat) -> Seq<char> {
    let d = decimal(n);
    if d.len() >= w {
        d
    } else {
        Seq::new((w - d.len()) as nat, |_i: int| '0') + d
    }
}

/// `%Y`: four digits for years 0 to 9999, otherwise a sign and at least
/// four digits.
pub open spec fn year_text(y: int) -> Seq<char> {
    if 0 <= y <= 9999 {
        zero_pad(y as nat, 4)
    } else if y < 0 {
        seq!['-'] + zero_pad((-y) as nat, 4)
    } else {
        seq!['+'] + zero_pad(y as nat, 4)
    }
}

/// `%Y-%m-%d %H:%M`.
pub open spec fn minutes_text(s: Stamp) -> Seq<char> {
    year_text(s.0 as int) + seq!['-'] + zero_pad(s.1 as nat, 2) + seq!['-'] + zero_pad(
        s.2 as nat,
        2,
    ) + seq![' '] + zero_pad(s.3 as nat, 2) + seq![':'] + zero_pad(s.4 as nat, 2)
}

/// The second as `%S` shows it: 60 during a leap second.
pub open spec fn shown_second(s: Stamp) -> nat {
    (s.5 + s.6 / 1_000_000_000) as nat
}

/// `%Y-%m-%dT%H:%M:%S`.
pub open spec fn iso_text(s: Stamp) -> Seq<char> {
    year_text(s.0 as int) + seq!['-'] + zero_pad(s.1 as nat, 2) + seq!['-'] + zero_pad(
        s.2 as nat,
        2,
    ) + seq!['T'] + zero_pad(s.3 as nat, 2) + seq![':'] + zero_pad(s.4 as nat, 2) + seq![':']
        + zero_pad(shown_second(s), 2)
}

fn digit(d: u64) -> (c: char)
    requires
        d < 10,
    ensures
        c == digit_char(d as nat),
{
    if d == 0 { '0' }
    else if d == 1 { '1' }
    else if d == 2 { '2' }
    else if d == 3 { '3' }
    else if d == 4 { '4' }
    else if d == 5 { '5' }
    else if d == 6 { '6' }
    else if d == 7 { '7' }
    else if d == 8 { '8' }
    else { '9' }
}

/// Decimal digits of `n`.
pub fn decimal_chars(n: u64) -> (r: Vec<char>)
    ensures
        r@ == decimal(n as nat),
    decreases n,
{
    if n < 10 {
        let mut r: Vec<char> = Vec::new();
        r.push(digit(n));
        r
    } else {
        let mut r = decimal_chars(n / 10);
        r.push(digit(n % 10));
        r
    }
}

/// `n` zero-padded to at least `w` digits.
pub fn zero_pad_chars(n: u64, w: usize) -> (r: Vec<char>)
    ensures
        r@ == zero_pad(n as nat, w as nat),
{
    let d = decimal_chars(n);
    if d.len() >= w {
        d
    } else {
        let mut r: Vec<char> = Vec::new();
        let k = w - d.len();
        for i in 0..k
            invariant
                r@ == Seq::new(i as nat, |_i: int| '0'),
        {
            r.push('0');
            assert(r@ =~= Seq::new((i + 1) as nat, |_i: int| '0'));
        }
        for i in 0..d.len()
            invariant
                r@ == Seq::new(k as nat, |_i: int| '0') + d@.take(i as int),
        {
            r.push(d[i]);
            assert(d@.take(i + 1) == d@.take(i as int).push(d@[i as int]));
        }
        assert(d@.take(d.len() as int) == d@);
        r
    }
}

fn push_all(r: &mut Vec<char>, s: &Vec<char>)
    ensures
        final(r)@ == old(r)@ + s@,
{
    let ghost start = r@;
    for i in 0..s.len()
        invariant
            r@ == start + s@.take(i as int),
    {
        r.push(s[i]);
        assert(s@.take(i + 1) == s@.take(i as int).push(s@[i as int]));
    }
    assert(s@.take(s.len() as int) == s@);
}

fn year_chars(y: i32) -> (r: Vec<char>)
    ensures
        r@ == year_text(y as int),
{
    if 0 <= y && y <= 9999 {
        zero_pad_chars(y as u64, 4)
    } else if y < 0 {
        let mut r: Vec<char> = Vec::new();
        r.push('-');
        let m: i64 = -(y as i64);
        let d = zero_pad_chars(m as u64, 4);
        push_all(&mut r, &d);
        r
    } else {
        let mut r: Vec<char> = Vec::new();
        r.push('+');
        let d = zero_pad_chars(y as u64, 4);
        push_all(&mut r, &d);
        r
    }
}

/// Renders date-time fields as `YYYY-MM-DD HH:MM`.
pub fn stamp_minutes_chars(s: Stamp) -> (r: Vec<char>)
    ensures
        r@ == minutes_text(s),
{
    let mut r = year_chars(s.0);
    r.push('-');
    push_all(&mut r, &zero_pad_chars(s.1 as u64, 2));
    r.push('-');
    push_all(&mut r, &zero_pad_chars(s.2 as u64, 2));
    r.push(' ');
    push_all(&mut r, &zero_pad_chars(s.3 as u64, 2));
    r.push(':');
    push_all(&mut r, &zero_pad_chars(s.4 as u64, 2));
    r
}

/// Renders a date-time as `YYYY-MM-DD HH:MM`.
pub fn minutes_chars(d: &DateTime) -> (r: Vec<char>)
    ensures
        r@ == minutes_text(d@),
{
    stamp_minutes_chars(d.stamp())
}

/// Renders a date-time as `YYYY-MM-DDTHH:MM:SS`, the form in which notes
/// record when they were written.
pub fn iso_timestamp(d: &DateTime) -> (r: String)
    ensures
        r@ == iso_text(d@),
{
    let s = d.stamp();
    let mut v = year_chars(s.0);
    v.push('-');
    push_all(&mut v, &zero_pad_chars(s.1 as u64, 2));
    v.push('-');
    push_all(&mut v, &zero_pad_chars(s.2 as u64, 2));
    v.push('T');
    push_all(&mut v, &zero_pad_chars(s.3 as u64, 2));
    v.push(':');
    push_all(&mut v, &zero_pad_chars(s.4 as u64, 2));
    v.push(':');
    let sec: u64 = s.5 as u64 + s.6 as u64 / 1_000_000_000;
    push_all(&mut v, &zero_pad_chars(sec, 2));
    crate::text::string_from(&v)
}

/// The current local time as `YYYY-MM-DDTHH:MM:SS`. Which time that is
/// depends on the clock; the text always has this form for some valid
/// date-time.
pub fn now_timestamp() -> (r: String)
    ensures
        exists|s: Stamp| valid_stamp(s) && r@ == iso_text(s),
{
    let now = local_now();
    let r = iso_timestamp(&now);
    assert(valid_stamp(now@) && r@ == iso_text(now@));
    r
}

} // verus!
