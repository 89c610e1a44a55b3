//! Calendar timestamps in the common reference timezone, their chronological
//! order, and their rendering as work-log date and time-of-day strings.

use vstd::prelude::*;

use crate::strutil;

verus! {

/// One instant, already normalized to the reference timezone. The earliest
/// start of a merged group is taken over these, and work-log submissions
/// carry their rendered date and time-of-day.
#[derive(Clone, Copy, PartialEq, Eq, Structural, Debug)]
pub struct Timestamp {
    pub year: u16,
    pub month: u8,
    pub day: u8,
    pub hour: u8,
    pub minute: u8,
    pub second: u8,
}

impl Timestamp {
    /// Field ranges of a calendar timestamp; rendering needs no more.
    pub open spec fn wf(self) -> bool {
        &&& self.year <= 9999
        &&& 1 <= self.month <= 12
        &&& 1 <= self.day <= 31
        &&& self.hour <= 23
        &&& self.minute <= 59
        &&& self.second <= 59
    }

    /// Chronological order: lexicographic over the calendar fields, which
    /// agrees with instant order once both sides sit in one timezone.
    pub open spec fn spec_le(self, other: Self) -> bool {
        if self.year != other.year {
            self.year < other.year
        } else if self.month != other.month {
            self.month < other.month
        } else if self.day != other.day {
            self.day < other.day
        } else if self.hour != other.hour {
            self.hour < other.hour
        } else if self.minute != other.minute {
            self.minute < other.minute
        } else {
            self.second <= other.second
        }
    }

    pub fn le(&self, other: &Self) -> (b: bool)
        ensures
            b == self.spec_le(*other),
    {
        if self.year != other.year {
            self.year < other.year
        } else if self.month != other.month {
            self.month < other.month
        } else if self.day != other.day {
            self.day < other.day
        } else if self.hour != other.hour {
            self.hour < other.hour
        } else if self.minute != other.minute {
            self.minute < other.minute
        } else {
            self.second <= other.second
        }
    }
}

/// The earlier of two timestamps.
pub open spec fn spec_ts_min(a: Timestamp, b: Timestamp) -> Timestamp {
    if a.spec_le(b) {
        a
    } else {
        b
    }
}

pub fn ts_min(a: Timestamp, b: Timestamp) -> (r: Timestamp)
    ensures
        r == spec_ts_min(a, b),
{
    if a.le(&b) {
        a
    } else {
        b
    }
}

/// The decimal digit character for `n` in `0..=9`.
pub open spec fn dec(n: int) -> char {
    if n == 0 {
        '0'
    } else if n == 1 {
        '1'
    } else if n == 2 {
        '2'
    } else if n == 3 {
        '3'
    } else if n == 4 {
        '4'
    } else if n == 5 {
        '5'
    } else if n == 6 {
        '6'
    } else if n == 7 {
        '7'
    } else if n == 8 {
        '8'
    } else {
        '9'
    }
}

fn digit_char(n: u16) -> (c: char)
    requires
        n <= 9,
    ensures
        c == dec(n as int),
{
    if n == 0 {
        '0'
    } else if n == 1 {
        '1'
    } else if n == 2 {
        '2'
    } else if n == 3 {
        '3'
    } else if n == 4 {
        '4'
    } else if n == 5 {
        '5'
    } else if n == 6 {
        '6'
    } else if n == 7 {
        '7'
    } else if n == 8 {
        '8'
    } else {
        '9'
    }
}

/// `YYYY-MM-DD`, zero padded.
pub open spec fn date_chars(t: Timestamp) -> Seq<char> {
    seq![
        dec(t.year as int / 1000),
        dec((t.year as int / 100) % 10),
        dec((t.year as int / 10) % 10),
        dec(t.year as int % 10),
        '-',
        dec(t.month as int / 10),
        dec(t.month as int % 10),
        '-',
        dec(t.day as int / 10),
        dec(t.day as int % 10),
    ]
}

/// `HH:MM:SS`, zero padded.
pub open spec fn time_chars(t: Timestamp) -> Seq<char> {
    seq![
        dec(t.hour as int / 10),
        dec(t.hour as int % 10),
        ':',
        dec(t.minute as int / 10),
        dec(t.minute as int % 10),
        ':',
        dec(t.second as int / 10),
        dec(t.second as int % 10),
    ]
}

/// Renders a timestamp as the work-log's calendar date and local
/// time-of-day strings.
pub fn datetime_to_date_and_time(date: &Timestamp) -> (r: (String, String))
    requires
        date.wf(),
    ensures
        r.0@ == date_chars(*date),
        r.1@ == time_chars(*date),
{
    let mut d: Vec<char> = Vec::new();
    d.push(digit_char(date.year / 1000));
    d.push(digit_char((date.year / 100) % 10));
    d.push(digit_char((date.year / 10) % 10));
    d.push(digit_char(date.year % 10));
    d.push('-');
    d.push(digit_char((date.month / 10) as u16));
    d.push(digit_char((date.month % 10) as u16));
    d.push('-');
    d.push(digit_char((date.day / 10) as u16));
    d.push(digit_char((date.day % 10) as u16));
    let date_str = strutil::chars_to_string(&d);
    let mut t: Vec<char> = Vec::new();
    t.push(digit_char((date.hour / 10) as u16));
    t.push(digit_char((date.hour % 10) as u16));
    t.push(':');
    t.push(digit_char((date.minute / 10) as u16));
    t.push(digit_char((date.minute % 10) as u16));
    t.push(':');
    t.push(digit_char((date.second / 10) as u16));
    t.push(digit_char((date.second % 10) as u16));
    let time_str = strutil::chars_to_string(&t);
    proof {
        assert(d@ =~= date_chars(*date));
        assert(t@ =~= time_chars(*date));
    }
    (date_str, time_str)
}

} // verus!
