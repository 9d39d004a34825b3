//! Instants in the reference (UTC) time zone, and the decoder of the
//! fixed-width `YYYYMMDDTHHMMSS` timestamp form.

use vstd::prelude::*;
use chrono::Datelike;

verus! {

/// Smallest year that chrono's calendar can represent.
pub const FIRST_YEAR: i32 = -262143;

/// Largest year that chrono's calendar can represent.
pub const LAST_YEAR: i32 = 262142;

/// An absolute instant, to the second, in the reference time zone.
#[derive(Clone, Copy, Debug, PartialEq, Eq, Structural)]
pub struct Instant {
    pub year: i32,
    pub month: u32,
    pub day: u32,
    pub hour: u32,
    pub minute: u32,
    pub second: u32,
}

/// Gregorian leap-year rule (proleptic for years before 1583).
pub open spec fn is_leap_year(year: int) -> bool {
    year % 4 == 0 && (year % 100 != 0 || year % 400 == 0)
}

/// The number of days of `month` in `year`.
pub open spec fn days_in_month(year: int, month: int) -> int {
    if month == 2 {
        if is_leap_year(year) { 29 } else { 28 }
    } else if month == 4 || month == 6 || month == 9 || month == 11 {
        30
    } else {
        31
    }
}

/// The calendar day `year-month-day` exists.
pub open spec fn valid_date(year: int, month: int, day: int) -> bool {
    &&& 1 <= month <= 12
    &&& 1 <= day <= days_in_month(year, month)
}

/// Days in the months of `year` before `month`.
pub open spec fn days_before_month(year: int, month: int) -> int
    decreases month,
{
    if month <= 1 {
        0
    } else {
        days_before_month(year, month - 1) + days_in_month(year, month - 1)
    }
}

/// The ordinal day of the year, counting January 1st as 1.
pub open spec fn day_of_year(year: int, month: int, day: int) -> int {
    days_before_month(year, month) + day
}

impl Instant {
    /// The fields name an existing second of chrono's calendar.
    pub open spec fn wf(self) -> bool {
        &&& FIRST_YEAR <= self.year <= LAST_YEAR
        &&& valid_date(self.year as int, self.month as int, self.day as int)
        &&& self.hour < 24
        &&& self.minute < 60
        &&& self.second < 60
    }

    /// `self` lies strictly before `other`.
    pub open spec fn before(self, other: Instant) -> bool {
        if self.year != other.year {
            self.year < other.year
        } else if self.month != other.month {
            self.month < other.month
        } else if self.day != other.day {
            self.day < other.day
        } else if self.hour != other.hour {
            self.hour < other.hour
        } else if self.minute != other.minute {
            self.minute < other.minute
        } else {
            self.second < other.second
        }
    }

    /// `self` lies at or before `other`.
    pub open spec fn not_after(self, other: Instant) -> bool {
        !other.before(self)
    }

    /// Whether `self` lies strictly before `other`.
    pub fn precedes(&self, other: &Instant) -> (r: bool)
        ensures
            r == self.before(*other),
    {
        if self.year != other.year {
            self.year < other.year
        } else if self.month != other.month {
            self.month < other.month
        } else if self.day != other.day {
            self.day < other.day
        } else if self.hour != other.hour {
            self.hour < other.hour
        } else if self.minute != other.minute {
            self.minute < other.minute
        } else {
            self.second < other.second
        }
    }
}

/// `not_after` is transitive.
pub proof fn lemma_not_after_transitive(a: Instant, b: Instant, c: Instant)
    requires
        a.not_after(b),
        b.not_after(c),
    ensures
        a.not_after(c),
{
}

/// Of two distinct instants, one lies before the other.
pub proof fn lemma_before_total(a: Instant, b: Instant)
    ensures
        a.before(b) || b.before(a) || a == b,
{
}

/// Relies on chrono's `NaiveDate::from_ymd_opt`, which gives `None` exactly
/// when the calendar day does not exist, and `Datelike::ordinal`, the day of
/// the year counted from 1.
#[verifier::external_body]
fn chrono_ordinal(year: i32, month: u32, day: u32) -> (r: Option<u32>)
    requires
        FIRST_YEAR <= year <= LAST_YEAR,
    ensures
        r is Some <==> valid_date(year as int, month as int, day as int),
        r matches Some(o) ==> o == day_of_year(year as int, month as int, day as int),
{
    chrono::NaiveDate::from_ymd_opt(year, month, day).map(|d| d.ordinal())
}

impl Instant {
    /// Whether the fields name an existing second of chrono's calendar.
    pub fn is_valid(&self) -> (r: bool)
        ensures
            r == self.wf(),
    {
        if self.year < FIRST_YEAR || self.year > LAST_YEAR {
            return false;
        }
        if self.hour >= 24 || self.minute >= 60 || self.second >= 60 {
            return false;
        }
        chrono_ordinal(self.year, self.month, self.day).is_some()
    }

    /// The ordinal day of the year of this instant, January 1st being 1.
    pub fn ordinal(&self) -> (r: u32)
        requires
            self.wf(),
        ensures
            r == day_of_year(self.year as int, self.month as int, self.day as int),
    {
        match chrono_ordinal(self.year, self.month, self.day) {
            Some(o) => o,
            None => 0,
        }
    }
}


/// `c` is one of `0` to `9`.
pub open spec fn is_digit(c: char) -> bool {
    '0' <= c <= '9'
}

/// Every character of `s` is a decimal digit.
pub open spec fn all_digits(s: Seq<char>) -> bool {
    forall|i: int| 0 <= i < s.len() ==> is_digit(#[trigger] s[i])
}

/// The number that a string of decimal digits writes.
pub open spec fn digits_value(s: Seq<char>) -> int
    decreases s.len(),
{
    if s.len() == 0 {
        0
    } else {
        digits_value(s.drop_last()) * 10 + (s.last() as u32 - '0' as u32)
    }
}

/// `10^n`.
pub open spec fn pow10(n: nat) -> int
    decreases n,
{
    if n == 0 { 1 } else { 10 * pow10((n - 1) as nat) }
}

/// A string of `n` digits writes a number below `10^n`.
pub proof fn lemma_digits_value_bound(s: Seq<char>)
    requires
        all_digits(s),
    ensures
        0 <= digits_value(s) < pow10(s.len()),
    decreases s.len(),
{
    if s.len() > 0 {
        let t = s.drop_last();
        assert(all_digits(t)) by {
            assert forall|i: int| 0 <= i < t.len() implies is_digit(#[trigger] t[i]) by {
                assert(t[i] == s[i]);
            }
        }
        lemma_digits_value_bound(t);
        assert(is_digit(s[s.len() - 1]));
    }
}

/// The digits of `s` at character positions `from..to`, read as a number.
pub open spec fn field_of(s: Seq<char>, from: int, to: int) -> Option<int> {
    if all_digits(s.subrange(from, to)) {
        Some(digits_value(s.subrange(from, to)))
    } else {
        None
    }
}

/// What a timestamp of the form `YYYYMMDDTHHMMSS` denotes: the fields are
/// read at fixed character offsets; the separator and anything after the
/// fifteenth character are not looked at.
pub open spec fn decode_timestamp(s: Seq<char>) -> Option<Instant> {
    if s.len() < 15 {
        None
    } else {
        match (
            field_of(s, 0, 4),
            field_of(s, 4, 6),
            field_of(s, 6, 8),
            field_of(s, 9, 11),
            field_of(s, 11, 13),
            field_of(s, 13, 15),
        ) {
            (Some(y), Some(mo), Some(d), Some(h), Some(mi), Some(se)) => {
                let t = Instant {
                    year: y as i32,
                    month: mo as u32,
                    day: d as u32,
                    hour: h as u32,
                    minute: mi as u32,
                    second: se as u32,
                };
                if valid_date(y, mo, d) && h < 24 && mi < 60 && se < 60 {
                    Some(t)
                } else {
                    None
                }
            },
            _ => None,
        }
    }
}

/// Reads the decimal field at character positions `from..to` of `s`.
fn read_field(s: &str, from: usize, to: usize) -> (r: Option<u32>)
    requires
        from <= to <= s@.len(),
        to - from <= 4,
    ensures
        r matches Some(v) ==> field_of(s@, from as int, to as int) == Some(v as int),
        r is None ==> field_of(s@, from as int, to as int) is None,
{
    let mut acc: u32 = 0;
    let mut i: usize = from;
    while i < to
        invariant
            from <= i <= to <= s@.len(),
            to - from <= 4,
            all_digits(s@.subrange(from as int, i as int)),
            acc as int == digits_value(s@.subrange(from as int, i as int)),
        decreases to - i,
    {
        let c = s.get_char(i);
        if !('0' <= c && c <= '9') {
            assert(s@.subrange(from as int, to as int)[i - from] == c);
            return None;
        }
        let ghost prev = s@.subrange(from as int, i as int);
        let ghost next = s@.subrange(from as int, i + 1);
        proof {
            assert(next.drop_last() =~= prev);
            assert(next.last() == c);
            lemma_digits_value_bound(prev);
            assert(pow10(prev.len()) <= 1000) by {
                reveal_with_fuel(pow10, 4);
            }
            assert forall|k: int| 0 <= k < next.len() implies is_digit(#[trigger] next[k]) by {
                if k < prev.len() {
                    assert(next[k] == prev[k]);
                }
            }
        }
        acc = acc * 10 + (c as u32 - '0' as u32);
        i = i + 1;
    }
    Some(acc)
}

impl Instant {
    /// Decodes a `YYYYMMDDTHHMMSS` timestamp, in the reference time zone
    /// whatever zone marker follows; `None` where it is shorter than fifteen
    /// characters, a field is not all digits, or the fields name no instant.
    pub fn decode(raw: &str) -> (r: Option<Instant>)
        ensures
            r == decode_timestamp(raw@),
            r matches Some(t) ==> t.wf(),
    {
        let n = raw.unicode_len();
        if n < 15 {
            return None;
        }
        let year = read_field(raw, 0, 4);
        let month = read_field(raw, 4, 6);
        let day = read_field(raw, 6, 8);
        let hour = read_field(raw, 9, 11);
        let minute = read_field(raw, 11, 13);
        let second = read_field(raw, 13, 15);
        match (year, month, day, hour, minute, second) {
            (Some(y), Some(mo), Some(d), Some(h), Some(mi), Some(se)) => {
                proof {
                    let ys = raw@.subrange(0, 4);
                    lemma_digits_value_bound(ys);
                    reveal_with_fuel(pow10, 5);
                }
                if h >= 24 || mi >= 60 || se >= 60 {
                    return None;
                }
                let y = y as i32;
                match chrono_ordinal(y, mo, d) {
                    Some(_) => Some(Instant { year: y, month: mo, day: d, hour: h, minute: mi, second: se }),
                    None => None,
                }
            },
            _ => None,
        }
    }
}

} // verus!
