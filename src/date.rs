//! Gregorian calendar arithmetic and UTC timestamps.
use crate::text::string_of;
use vstd::prelude::*;

verus! {

pub open spec fn leap(y: int) -> bool {
    (y % 4 == 0 && y % 100 != 0) || y % 400 == 0
}

pub open spec fn year_len(y: int) -> int {
    if leap(y) {
        366
    } else {
        365
    }
}

/// Days from 1970-01-01 to the first day of year `y`.
pub open spec fn days_before_year(y: int) -> int
    decreases y - 1970,
{
    if y <= 1970 {
        0
    } else {
        days_before_year(y - 1) + year_len(y - 1)
    }
}

/// Length of month `m` (1 to 12) of year `y`.
pub open spec fn month_len(y: int, m: int) -> int {
    if m == 2 {
        if leap(y) {
            29
        } else {
            28
        }
    } else if m == 4 || m == 6 || m == 9 || m == 11 {
        30
    } else {
        31
    }
}

/// Days from the first of year `y` to the first of its month `m`.
pub open spec fn days_before_month(y: int, m: int) -> int
    decreases m,
{
    if m <= 1 {
        0
    } else {
        days_before_month(y, m - 1) + month_len(y, m - 1)
    }
}

/// `(y, m, d)` is the calendar date that lies `days` days after 1970-01-01.
pub open spec fn is_date_of(days: int, y: int, m: int, d: int) -> bool {
    &&& y >= 1970
    &&& 1 <= m <= 12
    &&& 1 <= d <= month_len(y, m)
    &&& days_before_year(y) + days_before_month(y, m) + d - 1 == days
}

proof fn lemma_months_fill_year(y: int)
    ensures
        days_before_month(y, 13) == year_len(y),
{
    reveal_with_fuel(days_before_month, 13);
}

proof fn lemma_years_grow(a: int, b: int)
    requires
        1970 <= a < b,
    ensures
        days_before_year(a) + year_len(a) <= days_before_year(b),
    decreases b - a,
{
    if b > a + 1 {
        lemma_years_grow(a, b - 1);
    }
}

proof fn lemma_months_grow(y: int, a: int, b: int)
    requires
        1 <= a < b,
    ensures
        days_before_month(y, a) + month_len(y, a) <= days_before_month(y, b),
    decreases b - a,
{
    if b > a + 1 {
        lemma_months_grow(y, a, b - 1);
    }
}

proof fn lemma_date_within_year(days: int, y: int, m: int, d: int)
    requires
        is_date_of(days, y, m, d),
    ensures
        days_before_year(y) <= days < days_before_year(y) + year_len(y),
{
    lemma_months_fill_year(y);
    if m < 12 {
        lemma_months_grow(y, m, 13);
    }
    if m > 1 {
        lemma_months_grow(y, 1, m);
    }
}

/// A count of days names one calendar date only, so the contract of
/// `days_to_date` fixes its result.
pub proof fn lemma_date_unique(days: int, y1: int, m1: int, d1: int, y2: int, m2: int, d2: int)
    requires
        is_date_of(days, y1, m1, d1),
        is_date_of(days, y2, m2, d2),
    ensures
        y1 == y2 && m1 == m2 && d1 == d2,
{
    lemma_date_within_year(days, y1, m1, d1);
    lemma_date_within_year(days, y2, m2, d2);
    if y1 < y2 {
        lemma_years_grow(y1, y2);
    } else if y2 < y1 {
        lemma_years_grow(y2, y1);
    }
    assert(y1 == y2);
    if m1 < m2 {
        lemma_months_grow(y1, m1, m2);
    } else if m2 < m1 {
        lemma_months_grow(y1, m2, m1);
    }
}

/// Whether `y` is a Gregorian leap year.
pub fn is_leap_year(y: u64) -> (r: bool)
    ensures
        r == leap(y as int),
{
    (y % 4 == 0 && y % 100 != 0) || y % 400 == 0
}

fn month_days(y: u64, m: u64) -> (r: u64)
    ensures
        r == month_len(y as int, m as int),
{
    if m == 2 {
        if is_leap_year(y) {
            29
        } else {
            28
        }
    } else if m == 4 || m == 6 || m == 9 || m == 11 {
        30
    } else {
        31
    }
}

/// Converts a count of days since 1970-01-01 into `(year, month, day)`.
pub fn days_to_date(days_since_epoch: u64) -> (r: (u64, u64, u64))
    ensures
        is_date_of(days_since_epoch as int, r.0 as int, r.1 as int, r.2 as int),
{
    let mut y: u64 = 1970;
    let mut remaining: u64 = days_since_epoch;
    loop
        invariant
            1970 <= y,
            remaining <= days_since_epoch,
            (y - 1970) * 365 <= days_since_epoch - remaining,
            days_before_year(y as int) + remaining == days_since_epoch,
        ensures
            1970 <= y,
            remaining < year_len(y as int),
            days_before_year(y as int) + remaining == days_since_epoch,
        decreases remaining,
    {
        let days_in_year: u64 = if is_leap_year(y) {
            366
        } else {
            365
        };
        if remaining < days_in_year {
            break;
        }
        remaining -= days_in_year;
        y += 1;
    }
    let ghost rem0 = remaining;
    proof {
        lemma_months_fill_year(y as int);
    }
    let mut m: u64 = 1;
    while remaining >= month_days(y, m)
        invariant
            1 <= m <= 12,
            rem0 < year_len(y as int),
            days_before_month(y as int, 13) == year_len(y as int),
            days_before_month(y as int, m as int) + remaining == rem0,
            days_before_year(y as int) + rem0 == days_since_epoch,
        decreases 12 - m,
    {
        remaining -= month_days(y, m);
        if m == 12 {
            proof {
                assert(days_before_month(y as int, 13) == days_before_month(y as int, 12)
                    + month_len(y as int, 12));
            }
        }
        m += 1;
    }
    (y, m, remaining + 1)
}

/// The decimal digits of `n`.
pub open spec fn dec(n: nat) -> Seq<char>
    decreases n,
{
    if n < 10 {
        seq![('0' as u8 + n) as char]
    } else {
        dec(n / 10).push(('0' as u8 + n % 10) as char)
    }
}

/// The decimal digits of `n`, led by zeros up to `width` characters.
pub open spec fn padded(n: nat, width: nat) -> Seq<char> {
    if dec(n).len() >= width {
        dec(n)
    } else {
        Seq::new((width - dec(n).len()) as nat, |i: int| '0') + dec(n)
    }
}

/// `YYYY-MM-DDTHH:MM:SSZ` for the given fields.
pub open spec fn timestamp_text(y: nat, mo: nat, d: nat, h: nat, mi: nat, s: nat) -> Seq<char> {
    padded(y, 4) + seq!['-'] + padded(mo, 2) + seq!['-'] + padded(d, 2) + seq!['T'] + padded(h, 2)
        + seq![':'] + padded(mi, 2) + seq![':'] + padded(s, 2) + seq!['Z']
}

/// The UTC timestamp of `secs` seconds after the epoch: its date, then the
/// hours, minutes and seconds of the day.
pub open spec fn is_timestamp_of(secs: int, t: Seq<char>) -> bool {
    exists|y: nat, mo: nat, d: nat|
        #[trigger] is_date_of(secs / 86400, y as int, mo as int, d as int) && t == timestamp_text(
            y,
            mo,
            d,
            (secs % 86400 / 3600) as nat,
            (secs % 3600 / 60) as nat,
            (secs % 60) as nat,
        )
}

/// Appends the decimal digits of `n`.
fn push_decimal(out: &mut Vec<char>, n: u64)
    ensures
        final(out)@ == old(out)@ + dec(n as nat),
    decreases n,
{
    if n >= 10 {
        push_decimal(out, n / 10);
    }
    let c = ((n % 10) as u8 + '0' as u8) as char;
    out.push(c);
    proof {
        if n >= 10 {
            assert(final(out)@ =~= old(out)@ + dec(n as nat));
        } else {
            assert(final(out)@ =~= old(out)@ + dec(n as nat));
        }
    }
}

/// Appends the decimal digits of `n`, led by zeros up to `width` characters.
fn push_padded(out: &mut Vec<char>, n: u64, width: usize)
    ensures
        final(out)@ == old(out)@ + padded(n as nat, width as nat),
{
    let mut digits: Vec<char> = Vec::new();
    push_decimal(&mut digits, n);
    assert(digits@ =~= dec(n as nat));
    let mut k: usize = digits.len();
    let ghost start = out@;
    while k < width
        invariant
            digits@ == dec(n as nat),
            digits.len() <= k,
            digits.len() < width ==> k <= width,
            digits.len() >= width ==> k == digits.len(),
            out@ == start + Seq::new((k - digits.len()) as nat, |i: int| '0'),
        decreases width - k,
    {
        out.push('0');
        proof {
            assert(out@ =~= start + Seq::new((k + 1 - digits.len()) as nat, |i: int| '0'));
        }
        k += 1;
    }
    let ghost zeros = out@;
    let mut i: usize = 0;
    while i < digits.len()
        invariant
            i <= digits.len(),
            out@ == zeros + digits@.take(i as int),
        decreases digits.len() - i,
    {
        out.push(digits[i]);
        proof {
            assert(out@ =~= zeros + digits@.take(i + 1));
        }
        i += 1;
    }
    proof {
        assert(digits@.take(digits.len() as int) =~= digits@);
        if digits.len() < width {
            assert(k == width);
        } else {
            assert(zeros =~= start);
        }
        assert(out@ =~= old(out)@ + padded(n as nat, width as nat));
    }
}

/// Formats `secs` seconds after the epoch as `YYYY-MM-DDTHH:MM:SSZ` (UTC).
pub fn format_timestamp(secs: u64) -> (r: String)
    ensures
        is_timestamp_of(secs as int, r@),
{
    let days = secs / 86400;
    let time_of_day = secs % 86400;
    let hours = time_of_day / 3600;
    let minutes = (time_of_day % 3600) / 60;
    let seconds = time_of_day % 60;
    let (year, month, day) = days_to_date(days);
    let mut out: Vec<char> = Vec::new();
    push_padded(&mut out, year, 4);
    out.push('-');
    push_padded(&mut out, month, 2);
    out.push('-');
    push_padded(&mut out, day, 2);
    out.push('T');
    push_padded(&mut out, hours, 2);
    out.push(':');
    push_padded(&mut out, minutes, 2);
    out.push(':');
    push_padded(&mut out, seconds, 2);
    out.push('Z');
    proof {
        assert(secs % 3600 / 60 == secs % 86400 % 3600 / 60) by (nonlinear_arith);
        assert(secs % 60 == secs % 86400 % 60) by (nonlinear_arith);
        let t = timestamp_text(year as nat, month as nat, day as nat, hours as nat, minutes as nat, seconds as nat);
        assert(out@ =~= t);
    }
    string_of(out.as_slice())
}

/// Relies on `SystemTime::now` and `SystemTime::duration_since`: whole seconds
/// since the epoch (zero for a clock set before it).
#[verifier::external_body]
fn now_secs() -> (r: u64) {
    std::time::SystemTime::now().duration_since(std::time::SystemTime::UNIX_EPOCH).unwrap_or_default().as_secs()
}

/// The current UTC time as `YYYY-MM-DDTHH:MM:SSZ`.
pub fn get_timestamp() -> (r: String)
    ensures
        exists|secs: u64| #[trigger] is_timestamp_of(secs as int, r@),
{
    let secs = now_secs();
    format_timestamp(secs)
}

} // verus!
