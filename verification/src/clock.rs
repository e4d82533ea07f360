//! The system clock, and UTC dates and times counted from the Unix epoch.

use std::time::{Duration, SystemTime};
use vstd::arithmetic::div_mod::lemma_fundamental_div_mod_converse;
use vstd::prelude::*;
use vstd::string::*;
use vstd::utf8::*;

use crate::path::{byte_order, Order};
use crate::text::{self, decimal, digit_char, fill, zero_padded};

verus! {

/// A point in time as the operating system reports it.
#[verifier::external_type_specification]
#[verifier::external_body]
pub struct ExSystemTime(SystemTime);

/// `SystemTime::now` reads the system clock. Nothing is known of what it shows.
#[verifier::external_body]
fn current_time() -> (res: SystemTime) {
    SystemTime::now()
}

/// `SystemTime::duration_since` gives the time that passed from the Unix epoch to
/// `t`, or nothing where `t` is earlier. Points in time are opaque here, so how much
/// time that is stays unsaid.
#[verifier::external_body]
fn since_epoch(t: SystemTime) -> (res: Option<Duration>) {
    t.duration_since(std::time::UNIX_EPOCH).ok()
}

/// `Duration::as_secs` counts the whole seconds of a duration. Durations are opaque
/// here, so the count stays unsaid.
#[verifier::external_body]
fn whole_seconds(d: Duration) -> (res: u64) {
    d.as_secs()
}

// --- Calendar --------------------------------------------------------------

/// Whether `y` is a leap year of the Gregorian calendar.
pub open spec fn is_leap(y: int) -> bool {
    y % 4 == 0 && (y % 100 != 0 || y % 400 == 0)
}

/// The number of leap years from year 1 to `y` inclusive, counted downward before.
pub open spec fn leaps_through(y: int) -> int {
    y / 4 - y / 100 + y / 400
}

/// The days from 1 January 1970 to 1 January of year `y`.
pub open spec fn year_start(y: int) -> int {
    365 * (y - 1970) + leaps_through(y - 1) - leaps_through(1969)
}

/// The days of month `m` of year `y`.
pub open spec fn days_in_month(y: int, m: int) -> int {
    if m == 2 {
        if is_leap(y) {
            29
        } else {
            28
        }
    } else if m == 4 || m == 6 || m == 9 || m == 11 {
        30
    } else {
        31
    }
}

/// The days from 1 January to the first day of month `m` of year `y`.
pub open spec fn month_start(y: int, m: int) -> int
    decreases m,
{
    if m <= 1 {
        0
    } else {
        month_start(y, m - 1) + days_in_month(y, m - 1)
    }
}

/// Whether there is such a date.
pub open spec fn is_date(y: int, m: int, d: int) -> bool {
    1 <= m <= 12 && 1 <= d <= days_in_month(y, m)
}

/// The days from 1 January 1970 to the date.
pub open spec fn day_number(y: int, m: int, d: int) -> int {
    year_start(y) + month_start(y, m) + d - 1
}

proof fn lemma_month_starts(y: int)
    ensures
        month_start(y, 1) == 0,
        month_start(y, 2) == 31,
        month_start(y, 3) == 31 + days_in_month(y, 2),
        month_start(y, 4) == 62 + days_in_month(y, 2),
        month_start(y, 5) == 92 + days_in_month(y, 2),
        month_start(y, 6) == 123 + days_in_month(y, 2),
        month_start(y, 7) == 153 + days_in_month(y, 2),
        month_start(y, 8) == 184 + days_in_month(y, 2),
        month_start(y, 9) == 215 + days_in_month(y, 2),
        month_start(y, 10) == 245 + days_in_month(y, 2),
        month_start(y, 11) == 276 + days_in_month(y, 2),
        month_start(y, 12) == 306 + days_in_month(y, 2),
{
    reveal_with_fuel(month_start, 13);
}

proof fn lemma_quotient_step(y: int, n: int)
    requires
        n > 1,
    ensures
        y / n == (y - 1) / n + (if y % n == 0 {
            1int
        } else {
            0
        }),
{
    let q = y / n;
    let r = y % n;
    assert(y == n * q + r && 0 <= r < n) by (nonlinear_arith)
        requires
            n > 1,
            q == y / n,
            r == y % n,
    ;
    assert(n * q == q * n) by (nonlinear_arith);
    if r == 0 {
        assert((q - 1) * n == q * n - n) by (nonlinear_arith);
        lemma_fundamental_div_mod_converse(y - 1, n, q - 1, n - 1);
    } else {
        lemma_fundamental_div_mod_converse(y - 1, n, q, r - 1);
    }
}

proof fn lemma_leaps_step(y: int)
    ensures
        leaps_through(y) == leaps_through(y - 1) + (if is_leap(y) {
            1int
        } else {
            0
        }),
{
    lemma_quotient_step(y, 4);
    lemma_quotient_step(y, 100);
    lemma_quotient_step(y, 400);
    assert(y % 400 == 0 ==> y % 100 == 0);
    assert(y % 100 == 0 ==> y % 4 == 0);
}

/// Years follow each other without gap or overlap.
proof fn lemma_years_grow(y: int, z: int)
    requires
        y < z,
    ensures
        year_start(y) + 365 + (if is_leap(y) {
            1int
        } else {
            0
        }) <= year_start(z),
    decreases z - y,
{
    lemma_leaps_step(z - 1);
    if y < z - 1 {
        lemma_years_grow(y, z - 1);
    }
}

proof fn lemma_months_grow(y: int, m: int, n: int)
    requires
        1 <= m < n <= 13,
    ensures
        month_start(y, m) + days_in_month(y, m) <= month_start(y, n),
    decreases n - m,
{
    if m < n - 1 {
        lemma_months_grow(y, m, n - 1);
    }
}

/// Whether a date is earlier than another.
pub open spec fn is_earlier(a: (int, int, int), b: (int, int, int)) -> bool {
    a.0 < b.0 || (a.0 == b.0 && (a.1 < b.1 || (a.1 == b.1 && a.2 < b.2)))
}

/// Later dates have greater day numbers; so a day number belongs to one date only.
pub proof fn law_day_numbers_grow(a: (int, int, int), b: (int, int, int))
    requires
        is_date(a.0, a.1, a.2),
        is_date(b.0, b.1, b.2),
        is_earlier(a, b),
    ensures
        day_number(a.0, a.1, a.2) < day_number(b.0, b.1, b.2),
{
    lemma_month_starts(a.0);
    lemma_month_starts(b.0);
    lemma_months_grow(a.0, a.1, 13);
    assert(month_start(a.0, 13) == month_start(a.0, 12) + days_in_month(a.0, 12));
    if b.1 > 1 {
        lemma_months_grow(b.0, 1, b.1);
    }
    if a.0 < b.0 {
        lemma_years_grow(a.0, b.0);
    } else if a.1 < b.1 {
        lemma_months_grow(a.0, a.1, b.1);
    }
}

/// Split a day of a 400-year era, counted from 1 March, into the year of the era
/// (as centuries, spans of four years and single years) and the day of that year.
proof fn lemma_era_day(doe: int) -> (res: (int, int, int, int))
    requires
        0 <= doe <= 146096,
    ensures
        ({
            let (c, k, j, r) = res;
            &&& 0 <= c <= 3
            &&& 0 <= k <= 24
            &&& 0 <= j <= 3
            &&& 0 <= r <= 365
            &&& r == 365 ==> j == 3 && (k < 24 || c == 3)
            &&& doe == 36524 * c + 1461 * k + 365 * j + r
            &&& (doe - doe / 1460 + doe / 36524 - doe / 146096) / 365 == 100 * c + 4 * k + j
        }),
{
    let c = if doe / 36524 < 3 {
        doe / 36524
    } else {
        3
    };
    let s = doe - 36524 * c;
    let k = s / 1461;
    let u = s - 1461 * k;
    let j = if u / 365 < 3 {
        u / 365
    } else {
        3
    };
    let r = u - 365 * j;
    let t: int = if 24 * c + k + 365 * j + r >= 1460 {
        1
    } else {
        0
    };
    assert(doe / 1460 == 25 * c + k + t);
    let e: int = if doe == 146096 {
        1
    } else {
        0
    };
    assert(doe / 146096 == e);
    assert(doe / 36524 == c + e);
    assert(doe - doe / 1460 + doe / 36524 - doe / 146096 == 365 * (100 * c + 4 * k + j) + r - t);
    assert(0 <= r - t < 365);
    (c, k, j, r)
}

/// The month, counted from March, and the day of the month that a day of a year,
/// counted from 1 March, falls on.
proof fn lemma_year_day(r: int)
    requires
        0 <= r <= 365,
    ensures
        ({
            let mp = (5 * r + 2) / 153;
            let start = (153 * mp + 2) / 5;
            let len: int = if mp == 11 {
                29
            } else if mp == 1 || mp == 3 || mp == 6 || mp == 8 {
                30
            } else {
                31
            };
            &&& 0 <= mp <= 11
            &&& start <= r < start + len
        }),
{
}

/// The year that is `100 * c + 4 * k + j` years into an era.
proof fn lemma_year_of_era(era: int, c: int, k: int, j: int)
    requires
        0 <= c <= 3,
        0 <= k <= 24,
        0 <= j <= 3,
    ensures
        ({
            let y = 400 * era + 100 * c + 4 * k + j;
            &&& leaps_through(y) == 97 * era + 24 * c + k
            &&& is_leap(y) <==> j == 0 && (k > 0 || c == 0)
            &&& is_leap(y + 1) <==> j == 3 && (k < 24 || c == 3)
        }),
{
    let y = 400 * era + 100 * c + 4 * k + j;
    lemma_fundamental_div_mod_converse(y, 4, 100 * era + 25 * c + k, j);
    lemma_fundamental_div_mod_converse(y, 100, 4 * era + c, 4 * k + j);
    lemma_fundamental_div_mod_converse(y, 400, era, 100 * c + 4 * k + j);
    if j == 3 {
        lemma_fundamental_div_mod_converse(y + 1, 4, 100 * era + 25 * c + k + 1, 0);
        if k == 24 {
            lemma_fundamental_div_mod_converse(y + 1, 100, 4 * era + c + 1, 0);
            if c == 3 {
                lemma_fundamental_div_mod_converse(y + 1, 400, era + 1, 0);
            } else {
                lemma_fundamental_div_mod_converse(y + 1, 400, era, 100 * (c + 1));
            }
        } else {
            lemma_fundamental_div_mod_converse(y + 1, 100, 4 * era + c, 4 * k + 4);
        }
    } else {
        lemma_fundamental_div_mod_converse(y + 1, 4, 100 * era + 25 * c + k, j + 1);
    }
}

/// The date that is `r` days after 1 March of the year `100 * c + 4 * k + j` years
/// into an era.
proof fn lemma_date_in_era(era: int, c: int, k: int, j: int, r: int)
    requires
        0 <= c <= 3,
        0 <= k <= 24,
        0 <= j <= 3,
        0 <= r <= 365,
        r == 365 ==> j == 3 && (k < 24 || c == 3),
    ensures
        ({
            let y = 400 * era + 100 * c + 4 * k + j;
            let mp = (5 * r + 2) / 153;
            let d = r - (153 * mp + 2) / 5 + 1;
            let m = if mp < 10 {
                mp + 3
            } else {
                mp - 9
            };
            let year = if m <= 2 {
                y + 1
            } else {
                y
            };
            &&& is_date(year, m, d)
            &&& day_number(year, m, d) == 146097 * era + 36524 * c + 1461 * k + 365 * j + r
                - 719_468
        }),
{
    let y = 400 * era + 100 * c + 4 * k + j;
    lemma_year_day(r);
    lemma_year_of_era(era, c, k, j);
    lemma_leaps_step(y);
    assert(leaps_through(1969) == 477);
    let mp = (5 * r + 2) / 153;
    let year = if mp >= 10 {
        y + 1
    } else {
        y
    };
    lemma_month_starts(year);
    if mp >= 10 {
        assert(year_start(year) == 365 * (y + 1 - 1970) + leaps_through(y) - 477);
    } else {
        assert(year_start(year) == 365 * (y - 1970) + leaps_through(y - 1) - 477);
    }
}

/// Convert days since the Unix epoch to a `(year, month, day)` civil date.
pub fn civil_from_days(z: i64) -> (res: (i64, u32, u32))
    requires
        z <= i64::MAX - 719_468,
    ensures
        is_date(res.0 as int, res.1 as int, res.2 as int),
        day_number(res.0 as int, res.1 as int, res.2 as int) == z,
{
    // Count from 1 March of year 0, in eras of 400 years.
    let w: i64 = z + 719_468;
    let era: i64 = if w >= 0 {
        w / 146_097
    } else {
        -((146_096 - w) / 146_097)
    };
    let doe: i64 = w - era * 146_097;
    assert(0 <= doe <= 146_096);
    let ghost (c, k, j, r) = lemma_era_day(doe as int);
    let yoe: i64 = (doe - doe / 1460 + doe / 36_524 - doe / 146_096) / 365;
    assert(yoe == 100 * c + 4 * k + j);
    let y: i64 = yoe + era * 400;
    proof {
        lemma_fundamental_div_mod_converse(yoe as int, 4, 25 * c + k, j);
        lemma_fundamental_div_mod_converse(yoe as int, 100, c, 4 * k + j);
        lemma_year_day(r);
        lemma_date_in_era(era as int, c, k, j, r);
    }
    let doy: i64 = doe - (365 * yoe + yoe / 4 - yoe / 100);
    assert(doy == r);
    let mp: i64 = (5 * doy + 2) / 153;
    let d: i64 = doy - (153 * mp + 2) / 5 + 1;
    let m: i64 = if mp < 10 {
        mp + 3
    } else {
        mp - 9
    };
    let year: i64 = if m <= 2 {
        y + 1
    } else {
        y
    };
    (year, m as u32, d as u32)
}

// --- Moments ---------------------------------------------------------------

/// A second of UTC time.
#[derive(Debug, Clone, Copy, PartialEq, Eq, Structural)]
pub struct Moment {
    pub year: i64,
    pub month: u32,
    pub day: u32,
    pub hour: u32,
    pub minute: u32,
    pub second: u32,
}

impl Moment {
    /// Whether the moment has a date and a time of day, and lies `secs` seconds after
    /// the Unix epoch.
    pub open spec fn is_at(self, secs: int) -> bool {
        &&& is_date(self.year as int, self.month as int, self.day as int)
        &&& self.hour < 24
        &&& self.minute < 60
        &&& self.second < 60
        &&& secs == 86_400 * day_number(self.year as int, self.month as int, self.day as int) + 3600
            * self.hour + 60 * self.minute + self.second
    }
}

/// The moment `secs` seconds after the Unix epoch.
pub fn moment_at(secs: i64) -> (res: Moment)
    ensures
        res.is_at(secs as int),
{
    let days: i64 = if secs >= 0 {
        secs / 86_400
    } else {
        -(-(secs + 1) / 86_400) - 1
    };
    let tod: i64 = if secs >= 0 {
        secs % 86_400
    } else {
        86_399 - -(secs + 1) % 86_400
    };
    assert(0 <= tod < 86_400 && secs == 86_400 * days + tod);
    let (year, month, day) = civil_from_days(days);
    let hour = (tod / 3600) as u32;
    let minute = ((tod % 3600) / 60) as u32;
    let second = (tod % 60) as u32;
    assert(tod == 3600 * hour + 60 * minute + second);
    Moment { year, month, day, hour, minute, second }
}

/// A year with at least four characters, the sign included.
pub open spec fn year_text(y: int) -> Seq<char> {
    if y >= 0 {
        zero_padded(y as nat, 4)
    } else {
        "-"@ + zero_padded((-y) as nat, 3)
    }
}

/// A moment as `YYYY-MM-DDTHH:MM:SSZ`.
pub open spec fn rfc3339_text(m: Moment) -> Seq<char> {
    year_text(m.year as int) + "-"@ + zero_padded(m.month as nat, 2) + "-"@ + zero_padded(
        m.day as nat,
        2,
    ) + "T"@ + zero_padded(m.hour as nat, 2) + ":"@ + zero_padded(m.minute as nat, 2) + ":"@
        + zero_padded(m.second as nat, 2) + "Z"@
}

/// The date of a moment as `YYYYMMDD`.
pub open spec fn date_digits(m: Moment) -> Seq<char> {
    year_text(m.year as int) + (zero_padded(m.month as nat, 2) + zero_padded(m.day as nat, 2))
}

/// The time of day of a moment as `HHMMSS`.
pub open spec fn time_digits(m: Moment) -> Seq<char> {
    zero_padded(m.hour as nat, 2) + (zero_padded(m.minute as nat, 2) + zero_padded(
        m.second as nat,
        2,
    ))
}

/// A moment as `YYYYMMDDTHHMMSSZ`.
pub open spec fn compact_text(m: Moment) -> Seq<char> {
    date_digits(m) + ("T"@ + (time_digits(m) + "Z"@))
}

fn year_of(y: i64) -> (res: String)
    requires
        y > i64::MIN,
    ensures
        res@ == year_text(y as int),
{
    if y >= 0 {
        text::zero_padded_of(y as u64, 4)
    } else {
        let digits = text::zero_padded_of((-y) as u64, 3);
        text::concat("-", digits.as_str())
    }
}

impl Moment {
    /// The moment as `YYYY-MM-DDTHH:MM:SSZ`.
    pub fn rfc3339(&self) -> (res: String)
        requires
            self.year > i64::MIN,
        ensures
            res@ == rfc3339_text(*self),
    {
        let mut s = year_of(self.year);
        s.append("-");
        s.append(text::zero_padded_of(self.month as u64, 2).as_str());
        s.append("-");
        s.append(text::zero_padded_of(self.day as u64, 2).as_str());
        s.append("T");
        s.append(text::zero_padded_of(self.hour as u64, 2).as_str());
        s.append(":");
        s.append(text::zero_padded_of(self.minute as u64, 2).as_str());
        s.append(":");
        s.append(text::zero_padded_of(self.second as u64, 2).as_str());
        s.append("Z");
        s
    }

    /// The moment as a stamp that is safe in file names: `YYYYMMDDTHHMMSSZ`.
    pub fn compact(&self) -> (res: String)
        requires
            self.year > i64::MIN,
        ensures
            res@ == compact_text(*self),
    {
        let mut time = text::zero_padded_of(self.minute as u64, 2);
        time.append(text::zero_padded_of(self.second as u64, 2).as_str());
        time = text::concat(text::zero_padded_of(self.hour as u64, 2).as_str(), time.as_str());
        time.append("Z");
        let mut date = text::zero_padded_of(self.month as u64, 2);
        date.append(text::zero_padded_of(self.day as u64, 2).as_str());
        date = text::concat(year_of(self.year).as_str(), date.as_str());
        date.append(text::concat("T", time.as_str()).as_str());
        date
    }
}

/// The seconds that the clock shows, given how many have passed since the Unix epoch;
/// nothing where the clock shows an earlier time. More than fit count from the far end.
pub open spec fn shown_seconds(passed: Option<u64>) -> int {
    match passed {
        Some(n) => if n <= i64::MAX {
            n as int
        } else {
            n - u64::MAX - 1
        },
        None => 0,
    }
}

/// The seconds that the clock shows, given how many have passed since the Unix epoch,
/// if it shows no earlier time.
pub fn seconds_after(passed: Option<u64>) -> (res: i64)
    ensures
        res == shown_seconds(passed),
{
    match passed {
        Some(n) => if n <= i64::MAX as u64 {
            n as i64
        } else {
            -((u64::MAX - n) as i64) - 1
        },
        None => 0,
    }
}

/// The seconds from the Unix epoch to now; 0 where the clock shows an earlier time.
/// Which second that is depends on the clock alone, so nothing is said of it here;
/// [`seconds_after`] says what is made of each reading.
fn now_seconds() -> (res: i64) {
    let passed = match since_epoch(current_time()) {
        Some(d) => Some(whole_seconds(d)),
        None => None,
    };
    seconds_after(passed)
}

/// Whether a moment can be a second that the system clock shows.
pub open spec fn is_some_moment(m: Moment) -> bool {
    exists|secs: i64| m.is_at(secs as int)
}

/// The moment that the system clock shows.
pub fn now_civil() -> (res: Moment)
    ensures
        is_some_moment(res),
        res.year > i64::MIN,
{
    let secs = now_seconds();
    let m = moment_at(secs);
    assert(m.is_at(secs as int));
    proof {
        lemma_year_bound(m, secs as int);
    }
    m
}

proof fn lemma_year_bound(m: Moment, secs: int)
    requires
        m.is_at(secs),
        secs >= i64::MIN,
    ensures
        m.year > i64::MIN,
{
    let y = m.year as int;
    if y < -30_000_000_000_000_000 {
        lemma_month_starts(y);
        if m.month > 1 {
            lemma_months_grow(y, m.month as int, 13);
            assert(month_start(y, 13) == month_start(y, 12) + days_in_month(y, 12));
        }
        assert(leaps_through(y - 1) <= 0);
    }
}

/// The current UTC time as `YYYY-MM-DDTHH:MM:SSZ`.
pub fn now_rfc3339() -> (res: String)
    ensures
        exists|m: Moment| is_some_moment(m) && res@ == #[trigger] rfc3339_text(m),
{
    let m = now_civil();
    m.rfc3339()
}

/// The current UTC time as a stamp that is safe in file names: `YYYYMMDDTHHMMSSZ`.
/// Names backup archives.
pub fn now_compact() -> (res: String)
    ensures
        exists|m: Moment| is_some_moment(m) && res@ == #[trigger] compact_text(m),
{
    let m = now_civil();
    m.compact()
}

// --- Laws ------------------------------------------------------------------

/// Whether two texts differ, and the first character in which they do is less in `a`.
spec fn text_before(a: Seq<char>, b: Seq<char>) -> bool {
    exists|i: int|
        #![trigger a[i]]
        0 <= i < a.len() && i < b.len() && (a[i] as u32) < (b[i] as u32) && a.take(i) == b.take(i)
}

proof fn lemma_before_in_front(a: Seq<char>, b: Seq<char>, x: Seq<char>, y: Seq<char>)
    requires
        text_before(a, b),
    ensures
        text_before(a + x, b + y),
{
    let i = choose|i: int|
        #![trigger a[i]]
        0 <= i < a.len() && i < b.len() && (a[i] as u32) < (b[i] as u32) && a.take(i) == b.take(i);
    assert((a + x)[i] == a[i] && (b + y)[i] == b[i]);
    assert((a + x).take(i) =~= a.take(i));
    assert((b + y).take(i) =~= b.take(i));
}

proof fn lemma_before_behind(a: Seq<char>, x: Seq<char>, y: Seq<char>)
    requires
        text_before(x, y),
    ensures
        text_before(a + x, a + y),
{
    let i = choose|i: int|
        #![trigger x[i]]
        0 <= i < x.len() && i < y.len() && (x[i] as u32) < (y[i] as u32) && x.take(i) == y.take(i);
    let k = a.len() + i;
    assert((a + x)[k] == x[i] && (a + y)[k] == y[i]);
    assert((a + x).take(k) =~= a + x.take(i));
    assert((a + y).take(k) =~= a + y.take(i));
}

proof fn lemma_two_digits(n: nat)
    requires
        n < 100,
    ensures
        zero_padded(n, 2) == seq![digit_char(n / 10), digit_char(n % 10)],
{
    reveal_with_fuel(decimal, 3);
    if n < 10 {
        assert(fill('0', 1) =~= seq![digit_char(0)]);
    }
    assert(zero_padded(n, 2) =~= seq![digit_char(n / 10), digit_char(n % 10)]);
}

proof fn lemma_four_digits(n: nat)
    requires
        n < 10_000,
    ensures
        zero_padded(n, 4) == zero_padded(n / 100, 2) + zero_padded(n % 100, 2),
{
    let q = n / 10;
    let r = n / 100;
    let t = n / 1000;
    assert(q / 10 == r && r / 10 == t && t < 10 && (n % 100) / 10 == q % 10 && (n % 100) % 10 == n
        % 10);
    lemma_two_digits(r);
    lemma_two_digits(n % 100);
    let all = seq![digit_char(t), digit_char(r % 10), digit_char(q % 10), digit_char(n % 10)];
    assert(decimal(t) == seq![digit_char(t)]);
    if n < 10 {
        assert(decimal(n) == seq![digit_char(n)]);
    } else if n < 100 {
        assert(decimal(q) == seq![digit_char(q)]);
        assert(decimal(n) =~= seq![digit_char(q), digit_char(n % 10)]);
    } else if n < 1000 {
        assert(decimal(r) == seq![digit_char(r)]);
        assert(decimal(q) =~= seq![digit_char(r), digit_char(q % 10)]);
        assert(decimal(n) =~= seq![digit_char(r), digit_char(q % 10), digit_char(n % 10)]);
    } else {
        assert(decimal(r) =~= seq![digit_char(t), digit_char(r % 10)]);
        assert(decimal(q) =~= seq![digit_char(t), digit_char(r % 10), digit_char(q % 10)]);
        assert(decimal(n) =~= all);
    }
    assert(zero_padded(n, 4) =~= all);
    assert(zero_padded(r, 2) + zero_padded(n % 100, 2) =~= all);
}

proof fn lemma_two_digits_order(a: nat, b: nat)
    requires
        a < b < 100,
    ensures
        text_before(zero_padded(a, 2), zero_padded(b, 2)),
{
    lemma_two_digits(a);
    lemma_two_digits(b);
    let x = zero_padded(a, 2);
    let y = zero_padded(b, 2);
    if a / 10 < b / 10 {
        assert((x[0] as u32) < (y[0] as u32));
        assert(x.take(0) =~= y.take(0));
    } else {
        assert((x[1] as u32) < (y[1] as u32));
        assert(x.take(1) =~= y.take(1));
    }
}

proof fn lemma_four_digits_order(a: nat, b: nat)
    requires
        a < b < 10_000,
    ensures
        text_before(zero_padded(a, 4), zero_padded(b, 4)),
{
    lemma_four_digits(a);
    lemma_four_digits(b);
    if a / 100 < b / 100 {
        lemma_two_digits_order(a / 100, b / 100);
        lemma_before_in_front(
            zero_padded(a / 100, 2),
            zero_padded(b / 100, 2),
            zero_padded(a % 100, 2),
            zero_padded(b % 100, 2),
        );
    } else {
        lemma_two_digits_order(a % 100, b % 100);
        lemma_before_behind(
            zero_padded(a / 100, 2),
            zero_padded(a % 100, 2),
            zero_padded(b % 100, 2),
        );
    }
}

/// Where an earlier part of a stamp is less, or equal and the rest is less, so is the
/// whole.
proof fn lemma_part(a: nat, b: nat, x: Seq<char>, y: Seq<char>)
    requires
        a < b < 100 || (a == b && text_before(x, y)),
    ensures
        text_before(zero_padded(a, 2) + x, zero_padded(b, 2) + y),
{
    if a < b {
        lemma_two_digits_order(a, b);
        lemma_before_in_front(zero_padded(a, 2), zero_padded(b, 2), x, y);
    } else {
        lemma_before_behind(zero_padded(a, 2), x, y);
    }
}

proof fn lemma_time_order(a: Moment, b: Moment)
    requires
        a.hour < 24 && a.minute < 60 && a.second < 60,
        b.hour < 24 && b.minute < 60 && b.second < 60,
        3600 * a.hour + 60 * a.minute + a.second < 3600 * b.hour + 60 * b.minute + b.second,
    ensures
        text_before(time_digits(a), time_digits(b)),
{
    let sa = zero_padded(a.second as nat, 2);
    let sb = zero_padded(b.second as nat, 2);
    let ma = zero_padded(a.minute as nat, 2) + sa;
    let mb = zero_padded(b.minute as nat, 2) + sb;
    if a.hour == b.hour {
        if a.minute == b.minute {
            lemma_two_digits_order(a.second as nat, b.second as nat);
        }
        lemma_part(a.minute as nat, b.minute as nat, sa, sb);
    }
    lemma_part(a.hour as nat, b.hour as nat, ma, mb);
}

proof fn lemma_date_order(a: Moment, b: Moment)
    requires
        is_date(a.year as int, a.month as int, a.day as int),
        is_date(b.year as int, b.month as int, b.day as int),
        is_earlier(
            (a.year as int, a.month as int, a.day as int),
            (b.year as int, b.month as int, b.day as int),
        ),
        0 <= a.year <= 9999,
        0 <= b.year <= 9999,
    ensures
        text_before(date_digits(a), date_digits(b)),
{
    let da = zero_padded(a.day as nat, 2);
    let db = zero_padded(b.day as nat, 2);
    let ma = zero_padded(a.month as nat, 2) + da;
    let mb = zero_padded(b.month as nat, 2) + db;
    if a.year == b.year {
        if a.month == b.month {
            lemma_two_digits_order(a.day as nat, b.day as nat);
        }
        lemma_part(a.month as nat, b.month as nat, da, db);
        lemma_before_behind(year_text(a.year as int), ma, mb);
    } else {
        lemma_four_digits_order(a.year as nat, b.year as nat);
        lemma_before_in_front(year_text(a.year as int), year_text(b.year as int), ma, mb);
    }
}

proof fn lemma_stamp_order(a: Moment, b: Moment, s: int, t: int)
    requires
        a.is_at(s),
        b.is_at(t),
        s < t,
        0 <= a.year <= 9999,
        0 <= b.year <= 9999,
    ensures
        text_before(compact_text(a), compact_text(b)),
{
    let da = (a.year as int, a.month as int, a.day as int);
    let db = (b.year as int, b.month as int, b.day as int);
    if is_earlier(db, da) {
        law_day_numbers_grow(db, da);
    }
    assert(is_earlier(da, db) || da == db);
    let ta = time_digits(a) + "Z"@;
    let tb = time_digits(b) + "Z"@;
    if da == db {
        lemma_time_order(a, b);
        lemma_before_in_front(time_digits(a), time_digits(b), "Z"@, "Z"@);
        lemma_before_behind("T"@, ta, tb);
        lemma_before_behind(date_digits(a), "T"@ + ta, "T"@ + tb);
    } else {
        lemma_date_order(a, b);
        lemma_before_in_front(date_digits(a), date_digits(b), "T"@ + ta, "T"@ + tb);
    }
}

/// A compact stamp is made of digits and capital letters.
pub proof fn lemma_stamp_chars(m: Moment, s: int)
    requires
        m.is_at(s),
        0 <= m.year <= 9999,
    ensures
        forall|i: int|
            0 <= i < compact_text(m).len() ==> '0' <= #[trigger] compact_text(m)[i] <= 'Z',
{
    lemma_stamp_plain(m, s);
}

/// Whether a text is made of digits and capital letters.
spec fn is_plain(s: Seq<char>) -> bool {
    forall|i: int| 0 <= i < s.len() ==> '0' <= #[trigger] s[i] <= 'Z'
}

proof fn lemma_plain_digits(n: nat)
    requires
        n < 100,
    ensures
        is_plain(zero_padded(n, 2)),
        zero_padded(n, 2).len() == 2,
{
    lemma_two_digits(n);
}

proof fn lemma_stamp_plain(m: Moment, s: int)
    requires
        m.is_at(s),
        0 <= m.year <= 9999,
    ensures
        is_plain(compact_text(m)),
        compact_text(m).len() == 16,
{
    reveal_strlit("T");
    reveal_strlit("Z");
    lemma_four_digits(m.year as nat);
    lemma_plain_digits(m.year as nat / 100);
    lemma_plain_digits(m.year as nat % 100);
    lemma_plain_digits(m.month as nat);
    lemma_plain_digits(m.day as nat);
    lemma_plain_digits(m.hour as nat);
    lemma_plain_digits(m.minute as nat);
    lemma_plain_digits(m.second as nat);
    assert(is_plain(year_text(m.year as int)));
    assert(is_plain(date_digits(m)));
    assert(is_plain(time_digits(m)));
    assert(is_plain(time_digits(m) + "Z"@));
    assert(is_plain("T"@ + (time_digits(m) + "Z"@)));
}

proof fn lemma_byte_order_at(a: Seq<u8>, b: Seq<u8>, i: int)
    requires
        0 <= i < a.len(),
        i < b.len(),
        a[i] < b[i],
        forall|j: int| 0 <= j < i ==> a[j] == b[j],
    ensures
        byte_order(a, b) == Order::Less,
    decreases i,
{
    if i > 0 {
        assert(a[0] == b[0]);
        assert forall|j: int| 0 <= j < i - 1 implies a.drop_first()[j] == b.drop_first()[j] by {
            assert(a[j + 1] == b[j + 1]);
        }
        lemma_byte_order_at(a.drop_first(), b.drop_first(), i - 1);
    }
}

/// In the years 0 to 9999 a compact stamp has 16 characters, and stamps sort by time:
/// the one of an earlier moment comes first, byte by byte.
pub proof fn law_stamps_sort_by_time(a: Moment, b: Moment, s: int, t: int)
    requires
        a.is_at(s),
        b.is_at(t),
        s < t,
        0 <= a.year <= 9999,
        0 <= b.year <= 9999,
    ensures
        compact_text(a).len() == 16,
        compact_text(b).len() == 16,
        byte_order(encode_utf8(compact_text(a)), encode_utf8(compact_text(b))) == Order::Less,
{
    lemma_stamp_order(a, b, s, t);
    lemma_stamp_plain(a, s);
    lemma_stamp_plain(b, t);
    let x = compact_text(a);
    let y = compact_text(b);
    is_ascii_chars_encode_utf8(x);
    is_ascii_chars_encode_utf8(y);
    let i = choose|i: int|
        #![trigger x[i]]
        0 <= i < x.len() && i < y.len() && (x[i] as u32) < (y[i] as u32) && x.take(i) == y.take(i);
    assert forall|j: int| 0 <= j < i implies encode_utf8(x)[j] == encode_utf8(y)[j] by {
        assert(x.take(i)[j] == y.take(i)[j]);
    }
    lemma_byte_order_at(encode_utf8(x), encode_utf8(y), i);
}

/// A text without its dashes and colons.
pub open spec fn without_marks(s: Seq<char>) -> Seq<char>
    decreases s.len(),
{
    if s.len() == 0 {
        s
    } else if s.last() == '-' || s.last() == ':' {
        without_marks(s.drop_last())
    } else {
        without_marks(s.drop_last()).push(s.last())
    }
}

/// Whether a text holds neither a dash nor a colon.
spec fn is_unmarked(s: Seq<char>) -> bool {
    !s.contains('-') && !s.contains(':')
}

proof fn lemma_without_marks(a: Seq<char>, b: Seq<char>)
    ensures
        without_marks(a + b) == without_marks(a) + without_marks(b),
        is_unmarked(a) ==> without_marks(a) == a,
        is_unmarked(without_marks(a)),
    decreases a.len() + b.len(),
{
    if b.len() > 0 {
        lemma_without_marks(a, b.drop_last());
        assert((a + b).drop_last() =~= a + b.drop_last());
        assert((a + b).last() == b.last());
        assert(without_marks(a + b) =~= without_marks(a) + without_marks(b));
    } else {
        assert(a + b =~= a);
        assert(without_marks(a) + without_marks(b) =~= without_marks(a));
        if a.len() > 0 {
            let t = a.drop_last();
            let c = a.last();
            lemma_without_marks(t, b);
            assert(a =~= t.push(c));
            assert(a.contains(c));
            assert forall|x: char| t.contains(x) implies a.contains(x) by {
                let k = choose|k: int| 0 <= k < t.len() && t[k] == x;
                assert(a[k] == x);
            }
            let u = without_marks(t);
            assert forall|x: char| u.push(c).contains(x) implies u.contains(x) || x == c by {
                let k = choose|k: int| 0 <= k < u.push(c).len() && u.push(c)[k] == x;
                if k < u.len() {
                    assert(u[k] == x);
                }
            }
        }
    }
}

proof fn lemma_digits_unmarked(n: nat)
    requires
        n < 100,
    ensures
        zero_padded(n, 2).len() == 2,
        without_marks(zero_padded(n, 2)) == zero_padded(n, 2),
{
    lemma_two_digits(n);
    let z = zero_padded(n, 2);
    assert(z[0] != '-' && z[0] != ':' && z[1] != '-' && z[1] != ':');
    lemma_without_marks(z, Seq::empty());
}

/// In the years 0 to 9999 the compact stamp of a moment is its RFC 3339 text without
/// dashes and colons: 16 characters in place of 20, with a `T` between date and time
/// and a `Z` at the end.
pub proof fn law_compact_is_rfc3339_without_marks(m: Moment, s: int)
    requires
        m.is_at(s),
        0 <= m.year <= 9999,
    ensures
        rfc3339_text(m).len() == 20,
        rfc3339_text(m).last() == 'Z',
        compact_text(m) == without_marks(rfc3339_text(m)),
        compact_text(m).len() == 16,
        compact_text(m)[8] == 'T',
        compact_text(m).last() == 'Z',
        !compact_text(m).contains('-'),
        !compact_text(m).contains(':'),
{
    reveal_strlit("-");
    reveal_strlit(":");
    reveal_strlit("T");
    reveal_strlit("Z");
    let y1 = zero_padded(m.year as nat / 100, 2);
    let y2 = zero_padded(m.year as nat % 100, 2);
    let y = year_text(m.year as int);
    let mo = zero_padded(m.month as nat, 2);
    let d = zero_padded(m.day as nat, 2);
    let h = zero_padded(m.hour as nat, 2);
    let mi = zero_padded(m.minute as nat, 2);
    let se = zero_padded(m.second as nat, 2);
    lemma_four_digits(m.year as nat);
    lemma_digits_unmarked(m.year as nat / 100);
    lemma_digits_unmarked(m.year as nat % 100);
    lemma_digits_unmarked(m.month as nat);
    lemma_digits_unmarked(m.day as nat);
    lemma_digits_unmarked(m.hour as nat);
    lemma_digits_unmarked(m.minute as nat);
    lemma_digits_unmarked(m.second as nat);
    lemma_without_marks(y1, y2);
    let dash = "-"@;
    let colon = ":"@;
    assert(without_marks(dash) =~= Seq::empty()) by {
        assert(without_marks(dash.drop_last()) =~= Seq::empty());
    }
    assert(without_marks(colon) =~= Seq::empty()) by {
        assert(without_marks(colon.drop_last()) =~= Seq::empty());
    }
    assert(without_marks("T"@) == "T"@) by {
        lemma_without_marks("T"@, Seq::empty());
    }
    assert(without_marks("Z"@) == "Z"@) by {
        lemma_without_marks("Z"@, Seq::empty());
    }
    let p1 = y + dash;
    let p2 = p1 + mo;
    let p3 = p2 + dash;
    let p4 = p3 + d;
    let p5 = p4 + "T"@;
    let p6 = p5 + h;
    let p7 = p6 + colon;
    let p8 = p7 + mi;
    let p9 = p8 + colon;
    let p10 = p9 + se;
    lemma_without_marks(y, dash);
    lemma_without_marks(p1, mo);
    lemma_without_marks(p2, dash);
    lemma_without_marks(p3, d);
    lemma_without_marks(p4, "T"@);
    lemma_without_marks(p5, h);
    lemma_without_marks(p6, colon);
    lemma_without_marks(p7, mi);
    lemma_without_marks(p8, colon);
    lemma_without_marks(p9, se);
    lemma_without_marks(p10, "Z"@);
    let full = rfc3339_text(m);
    assert(full == p10 + "Z"@);
    lemma_without_marks(full, Seq::empty());
    assert(without_marks(full) =~= compact_text(m));
}

/// The day after a date.
pub open spec fn following_day(y: int, m: int, d: int) -> (int, int, int) {
    if d < days_in_month(y, m) {
        (y, m, d + 1)
    } else if m < 12 {
        (y, m + 1, 1)
    } else {
        (y + 1, 1, 1)
    }
}

/// One day number belongs to one date.
pub proof fn law_day_numbers_are_unique(a: (int, int, int), b: (int, int, int))
    requires
        is_date(a.0, a.1, a.2),
        is_date(b.0, b.1, b.2),
        day_number(a.0, a.1, a.2) == day_number(b.0, b.1, b.2),
    ensures
        a == b,
{
    if is_earlier(a, b) {
        law_day_numbers_grow(a, b);
    } else if is_earlier(b, a) {
        law_day_numbers_grow(b, a);
    }
}

proof fn lemma_following_day(y: int, m: int, d: int)
    requires
        is_date(y, m, d),
    ensures
        ({
            let (u, v, w) = following_day(y, m, d);
            is_date(u, v, w) && day_number(u, v, w) == day_number(y, m, d) + 1
        }),
{
    if d == days_in_month(y, m) {
        if m == 12 {
            lemma_month_starts(y);
            lemma_month_starts(y + 1);
            lemma_leaps_step(y);
        } else {
            assert(month_start(y, m + 1) == month_start(y, m) + days_in_month(y, m));
        }
    }
}

/// Days follow each other without gaps: the date of the next day number is the following
/// day of the calendar, before the epoch too.
pub proof fn law_days_follow(a: (int, int, int), b: (int, int, int))
    requires
        is_date(a.0, a.1, a.2),
        is_date(b.0, b.1, b.2),
        day_number(b.0, b.1, b.2) == day_number(a.0, a.1, a.2) + 1,
    ensures
        b == following_day(a.0, a.1, a.2),
{
    lemma_following_day(a.0, a.1, a.2);
    law_day_numbers_are_unique(b, following_day(a.0, a.1, a.2));
}

/// The seconds of a clock reading are those that have passed, where they fit, and none
/// where the clock is behind the epoch.
pub proof fn law_readings_are_kept(n: u64)
    ensures
        n <= i64::MAX ==> shown_seconds(Some(n)) == n,
        shown_seconds(None) == 0,
        n > i64::MAX ==> shown_seconds(Some(n)) == n - 0x1_0000_0000_0000_0000,
        i64::MIN <= shown_seconds(Some(n)) <= i64::MAX,
{
}

/// The calendar: a year has 365 days and, in a leap year, one more; a year is a leap year
/// where 4 divides it, but for the centuries that 400 does not divide.
pub proof fn law_years_have_their_days(y: int)
    ensures
        day_number(y + 1, 1, 1) - day_number(y, 1, 1) == if y % 4 == 0 && (y % 100 != 0 || y % 400
            == 0) {
            366int
        } else {
            365
        },
        day_number(1970, 1, 1) == 0,
        days_in_month(y, 2) == if y % 4 == 0 && (y % 100 != 0 || y % 400 == 0) {
            29int
        } else {
            28
        },
{
    lemma_month_starts(y);
    lemma_month_starts(y + 1);
    lemma_month_starts(1970);
    lemma_leaps_step(y);
}

} // verus!
