//! UTC timestamps of a fixed width, `YYYY-MM-DD HH:MM:SS.NNNNNNNNN UTC`, so
//! that records sort by time as text.
use vstd::prelude::*;

verus! {

/// Seconds from 1970-01-01 to 10000-01-01: four-digit years only.
pub const STAMP_LIMIT: u64 = 253402300800;

pub open spec fn is_leap(y: nat) -> bool {
    (y % 4 == 0 && y % 100 != 0) || y % 400 == 0
}

pub open spec fn year_len(y: nat) -> nat {
    if is_leap(y) {
        366
    } else {
        365
    }
}

pub open spec fn month_len(y: nat, m: nat) -> nat {
    if m == 2 {
        if is_leap(y) {
            29
        } else {
            28
        }
    } else if m == 4 || m == 6 || m == 9 || m == 11 {
        30
    } else {
        31
    }
}

/// Days from 1970-01-01 to the first day of year `y`.
pub open spec fn days_before_year(y: nat) -> nat
    decreases y,
{
    if y <= 1970 {
        0
    } else {
        days_before_year((y - 1) as nat) + year_len((y - 1) as nat)
    }
}

/// Days from the first of January of year `y` to the first of month `m`.
pub open spec fn days_before_month(y: nat, m: nat) -> nat
    decreases m,
{
    if m <= 1 {
        0
    } else {
        days_before_month(y, (m - 1) as nat) + month_len(y, (m - 1) as nat)
    }
}

/// A moment in UTC, by its calendar fields.
#[derive(Debug, Clone, Copy, PartialEq, Eq, Structural)]
pub struct UtcTime {
    pub year: u64,
    pub month: u64,
    pub day: u64,
    pub hour: u64,
    pub minute: u64,
    pub second: u64,
    pub nanos: u32,
}

impl UtcTime {
    /// The fields name the moment `secs` seconds and `nanos` nanoseconds
    /// after 1970-01-01 00:00:00 UTC.
    pub open spec fn denotes(&self, secs: nat, nanos: nat) -> bool {
        &&& 1970 <= self.year
        &&& 1 <= self.month <= 12
        &&& 1 <= self.day <= month_len(self.year as nat, self.month as nat)
        &&& self.hour < 24 && self.minute < 60 && self.second < 60
        &&& self.nanos == nanos
        &&& days_before_year(self.year as nat) + days_before_month(
            self.year as nat,
            self.month as nat,
        ) + self.day - 1 == secs / 86400
        &&& self.hour * 3600 + self.minute * 60 + self.second == secs % 86400
    }
}

/// The calendar fields of a moment given in seconds and nanoseconds since
/// 1970-01-01 00:00:00 UTC.
pub fn utc_time(secs: u64, nanos: u32) -> (r: UtcTime)
    requires
        secs < STAMP_LIMIT,
    ensures
        r.denotes(secs as nat, nanos as nat),
{
    let days = secs / 86400;
    let rem = secs % 86400;
    let mut year: u64 = 1970;
    let mut left: u64 = days;
    loop
        invariant
            1970 <= year,
            365 * (year - 1970) <= days,
            days == secs / 86400,
            secs < STAMP_LIMIT,
            days_before_year(year as nat) + left == days,
        ensures
            1970 <= year,
            days_before_year(year as nat) + left == days,
            left < year_len(year as nat),
        decreases left,
    {
        let leap = (year % 4 == 0 && year % 100 != 0) || year % 400 == 0;
        let ylen: u64 = if leap { 366 } else { 365 };
        if left < ylen {
            break;
        }
        left = left - ylen;
        proof {
            lemma_days_before_year_grows((year + 1) as nat);
        }
        year = year + 1;
    }
    let leap = (year % 4 == 0 && year % 100 != 0) || year % 400 == 0;
    let mut month: u64 = 1;
    loop
        invariant
            1 <= month <= 12,
            leap == is_leap(year as nat),
            days_before_month(year as nat, month as nat) + left < year_len(year as nat),
            days_before_month(year as nat, month as nat) + left + days_before_year(year as nat)
                == days,
        ensures
            1 <= month <= 12,
            left < month_len(year as nat, month as nat),
            days_before_month(year as nat, month as nat) + left + days_before_year(year as nat)
                == days,
        decreases 12 - month,
    {
        let mlen: u64 = if month == 2 {
            if leap { 29 } else { 28 }
        } else if month == 4 || month == 6 || month == 9 || month == 11 {
            30
        } else {
            31
        };
        if left < mlen {
            break;
        }
        proof {
            lemma_year_is_twelve_months(year as nat);
            lemma_months_grow(year as nat, (month + 1) as nat, 13);
        }
        left = left - mlen;
        month = month + 1;
    }
    UtcTime {
        year,
        month,
        day: left + 1,
        hour: rem / 3600,
        minute: (rem % 3600) / 60,
        second: rem % 60,
        nanos,
    }
}

proof fn lemma_days_before_year_grows(y: nat)
    requires
        y > 1970,
    ensures
        days_before_year(y) >= 365 * (y - 1970),
    decreases y,
{
    if y > 1971 {
        lemma_days_before_year_grows((y - 1) as nat);
    }
}

proof fn lemma_year_is_twelve_months(y: nat)
    ensures
        days_before_month(y, 13) == year_len(y),
{
    reveal_with_fuel(days_before_month, 13);
}

proof fn lemma_months_grow(y: nat, a: nat, b: nat)
    requires
        a <= b,
    ensures
        days_before_month(y, a) <= days_before_month(y, b),
    decreases b - a,
{
    if a < b {
        lemma_months_grow(y, a, (b - 1) as nat);
    }
}

/// The last `w` decimal digits of `v`, as ASCII.
pub open spec fn digits(v: nat, w: nat) -> Seq<u8>
    decreases w,
{
    if w == 0 {
        Seq::empty()
    } else {
        digits(v / 10, (w - 1) as nat).push((48 + v % 10) as u8)
    }
}

/// The text of a moment: `YYYY-MM-DD HH:MM:SS.NNNNNNNNN UTC`.
pub open spec fn stamp_text(t: UtcTime) -> Seq<u8> {
    digits(t.year as nat, 4) + seq![45u8] + digits(t.month as nat, 2) + seq![45u8] + digits(
        t.day as nat,
        2,
    ) + seq![32u8] + digits(t.hour as nat, 2) + seq![58u8] + digits(t.minute as nat, 2) + seq![
        58u8,
    ] + digits(t.second as nat, 2) + seq![46u8] + digits(t.nanos as nat, 9) + seq![
        32u8,
        85u8,
        84u8,
        67u8,
    ]
}

fn push_digits(out: &mut Vec<u8>, v: u64, w: usize)
    requires
        w <= 20,
    ensures
        final(out)@ == old(out)@ + digits(v as nat, w as nat),
    decreases w,
{
    if w > 0 {
        push_digits(out, v / 10, w - 1);
        out.push((48 + v % 10) as u8);
        assert(final(out)@ =~= old(out)@ + digits(v as nat, w as nat));
    } else {
        assert(out@ =~= old(out)@ + digits(v as nat, 0));
    }
}

fn push_byte(out: &mut Vec<u8>, b: u8)
    ensures
        final(out)@ == old(out)@ + seq![b],
{
    out.push(b);
    assert(out@ =~= old(out)@ + seq![b]);
}

/// Formats a moment as fixed-width text.
pub fn format_stamp(t: &UtcTime) -> (r: Vec<u8>)
    ensures
        r@ == stamp_text(*t),
{
    let mut out: Vec<u8> = Vec::new();
    push_digits(&mut out, t.year, 4);
    push_byte(&mut out, 45u8);
    push_digits(&mut out, t.month, 2);
    push_byte(&mut out, 45u8);
    push_digits(&mut out, t.day, 2);
    push_byte(&mut out, 32u8);
    push_digits(&mut out, t.hour, 2);
    push_byte(&mut out, 58u8);
    push_digits(&mut out, t.minute, 2);
    push_byte(&mut out, 58u8);
    push_digits(&mut out, t.second, 2);
    push_byte(&mut out, 46u8);
    push_digits(&mut out, t.nanos as u64, 9);
    push_byte(&mut out, 32u8);
    push_byte(&mut out, 85u8);
    push_byte(&mut out, 84u8);
    push_byte(&mut out, 67u8);
    assert(out@ =~= stamp_text(*t));
    out
}

} // verus!
