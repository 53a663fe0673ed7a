//! The history of a cell's file: the commits that touched it, how their
//! dates are written, and how a commit's diff of the file is put together.
use vstd::prelude::*;
use crate::text::{is_whitespace, is_ws, push_str_chars, string_of};

verus! {

/// A commit that touched a cell's file.
pub struct GitCommit {
    pub hash: String,
    pub author: String,
    pub author_date: String,
    pub message: String,
    pub diff: String,
}

pub struct GitCommitView {
    pub hash: Seq<char>,
    pub author: Seq<char>,
    pub author_date: Seq<char>,
    pub message: Seq<char>,
    pub diff: Seq<char>,
}

impl View for GitCommit {
    type V = GitCommitView;

    open spec fn view(&self) -> GitCommitView {
        GitCommitView {
            hash: self.hash@,
            author: self.author@,
            author_date: self.author_date@,
            message: self.message@,
            diff: self.diff@,
        }
    }
}

impl Clone for GitCommit {
    fn clone(&self) -> (r: Self)
        ensures
            r@ == self@,
    {
        GitCommit {
            hash: self.hash.clone(),
            author: self.author.clone(),
            author_date: self.author_date.clone(),
            message: self.message.clone(),
            diff: self.diff.clone(),
        }
    }
}

// ── the proleptic Gregorian calendar ─────────────────────────────────────────

pub open spec fn is_leap(y: int) -> bool {
    (y % 4 == 0 && y % 100 != 0) || y % 400 == 0
}

pub open spec fn days_in_month(y: int, m: int) -> int {
    if m == 2 {
        if is_leap(y) {
            29
        } else {
            28
        }
    } else if m == 4 || m == 6 || m == 9 || m == 11 {
        30
    } else {
        31
    }
}

/// A day of the proleptic Gregorian calendar.
pub open spec fn valid_date(y: int, m: int, d: int) -> bool {
    1 <= m <= 12 && 1 <= d <= days_in_month(y, m)
}

/// The number of leap years among the years `1..=y` (minus those among
/// `y+1..=0` where `y` is negative).
pub open spec fn leaps_through(y: int) -> int {
    y / 4 - y / 100 + y / 400
}

/// The days from 1970-01-01 to January 1 of year `y`.
pub open spec fn days_before_year(y: int) -> int {
    365 * (y - 1970) + leaps_through(y - 1) - leaps_through(1969)
}

/// The days from January 1 to the first day of month `m` of year `y`.
pub open spec fn days_before_month(y: int, m: int) -> int {
    let base: int = if m == 1 {
        0
    } else if m == 2 {
        31
    } else if m == 3 {
        59
    } else if m == 4 {
        90
    } else if m == 5 {
        120
    } else if m == 6 {
        151
    } else if m == 7 {
        181
    } else if m == 8 {
        212
    } else if m == 9 {
        243
    } else if m == 10 {
        273
    } else if m == 11 {
        304
    } else {
        334
    };
    base + if m > 2 && is_leap(y) {
        1int
    } else {
        0int
    }
}

/// The number of days from 1970-01-01 (the Unix epoch) to `y-m-d`.
pub open spec fn days_from_civil(y: int, m: int, d: int) -> int {
    days_before_year(y) + days_before_month(y, m) + d - 1
}

/// The days from March 1 of year 0 of a 400-year era to March 1 of year
/// `yoe` of it.
spec fn era_days(yoe: int) -> int {
    365 * yoe + yoe / 4 - yoe / 100
}

/// The year of its era that a day of a 400-year era falls in, where years
/// start on March 1.
proof fn lemma_year_of_era(doe: int)
    requires
        0 <= doe <= 146096,
    ensures
        ({
            let yoe = (doe - doe / 1460 + doe / 36524 - doe / 146096) / 365;
            &&& 0 <= yoe <= 399
            &&& era_days(yoe) <= doe
            &&& doe < era_days(yoe + 1) + (if yoe == 399 { 1int } else { 0int })
        }),
{
    if doe == 146096 {
        assert(doe / 1460 == 100);
        assert(doe / 36524 == 4);
        assert(doe / 146096 == 1);
        assert((doe - 100 + 4 - 1) / 365 == 399);
        assert(era_days(399) == 145731);
        assert(era_days(400) == 146096);
    } else {
        let c = doe / 36524;
        let r = doe % 36524;
        let q = r / 1461;
        let j = r % 1461;
        assert(0 <= c <= 3);
        assert(doe == 36524 * c + r);
        assert(r == 1461 * q + j);
        assert(0 <= q <= 24);
        assert(0 <= j <= 1460);
        assert(q == 24 ==> j <= 1459);
        let carry: int = if 24 * c + q + j >= 1460 { 1 } else { 0 };
        assert(doe == 1460 * (25 * c + q) + (24 * c + q + j));
        assert(doe / 1460 == 25 * c + q + carry);
        assert(doe / 146096 == 0);
        let t: int = if j / 365 > 3 { 3 } else { j / 365 };
        assert(0 <= t <= 3);
        assert(365 * t <= j);
        assert(t < 3 ==> j < 365 * (t + 1));
        assert(carry == 1 ==> j >= 1364);
        assert((j - carry) / 365 == t);
        let num = doe - doe / 1460 + doe / 36524 - doe / 146096;
        assert(num == 36500 * c + 1460 * q + (j - carry));
        assert(num == 365 * (100 * c + 4 * q) + (j - carry));
        assert(num / 365 == 100 * c + 4 * q + t);
        let yoe = 100 * c + 4 * q + t;
        assert(yoe / 4 == 25 * c + q);
        assert(yoe / 100 == c);
        assert(era_days(yoe) == 36524 * c + 1461 * q + 365 * t);
        if t < 3 {
            assert((yoe + 1) / 4 == 25 * c + q);
            assert((yoe + 1) / 100 == c);
        } else if q < 24 {
            assert((yoe + 1) / 4 == 25 * c + q + 1);
            assert((yoe + 1) / 100 == c);
        } else {
            assert(yoe + 1 == 100 * (c + 1));
            assert((yoe + 1) / 4 == 25 * (c + 1));
            assert((yoe + 1) / 100 == c + 1);
        }
    }
}

/// The first day of March-based month `mp` (0 for March, 11 for February),
/// counted from March 1.
spec fn march_month_start(mp: int) -> int {
    (153 * mp + 2) / 5
}

proof fn lemma_month_of_year(doy: int, year_len: int)
    requires
        year_len == 365 || year_len == 366,
        0 <= doy < year_len,
    ensures
        ({
            let mp = (5 * doy + 2) / 153;
            let d = doy - march_month_start(mp) + 1;
            &&& 0 <= mp <= 11
            &&& 1 <= d
            &&& mp <= 10 ==> doy < march_month_start(mp + 1)
            &&& mp == 11 ==> d <= year_len - 337
        }),
{
    let mp = (5 * doy + 2) / 153;
    assert(0 <= mp <= 11);
    assert(153 * mp <= 5 * doy + 2 < 153 * mp + 153);
    if mp == 0 { assert(march_month_start(0) == 0 && march_month_start(1) == 31); }
    else if mp == 1 { assert(march_month_start(1) == 31 && march_month_start(2) == 61); }
    else if mp == 2 { assert(march_month_start(2) == 61 && march_month_start(3) == 92); }
    else if mp == 3 { assert(march_month_start(3) == 92 && march_month_start(4) == 122); }
    else if mp == 4 { assert(march_month_start(4) == 122 && march_month_start(5) == 153); }
    else if mp == 5 { assert(march_month_start(5) == 153 && march_month_start(6) == 184); }
    else if mp == 6 { assert(march_month_start(6) == 184 && march_month_start(7) == 214); }
    else if mp == 7 { assert(march_month_start(7) == 214 && march_month_start(8) == 245); }
    else if mp == 8 { assert(march_month_start(8) == 245 && march_month_start(9) == 275); }
    else if mp == 9 { assert(march_month_start(9) == 275 && march_month_start(10) == 306); }
    else if mp == 10 { assert(march_month_start(10) == 306 && march_month_start(11) == 337); }
    else { assert(march_month_start(11) == 337); }
}

proof fn lemma_shift_div(a: int, k: int)
    ensures
        (400 * a + k) / 4 == 100 * a + k / 4,
        (400 * a + k) / 100 == 4 * a + k / 100,
        (400 * a + k) / 400 == a + k / 400,
        (400 * a + k) % 4 == k % 4,
        (400 * a + k) % 100 == k % 100,
        (400 * a + k) % 400 == k % 400,
{
    assert((400 * a + k) == 4 * (100 * a + k / 4) + k % 4);
    assert((400 * a + k) == 100 * (4 * a + k / 100) + k % 100);
    assert((400 * a + k) == 400 * (a + k / 400) + k % 400);
}

/// March 1 of year `400 * era + yoe` is day `era * 146097 + era_days(yoe)`
/// of the calendar that starts on March 1 of year 0, which is 719468 days
/// before the Unix epoch.
proof fn lemma_march_first(era: int, yoe: int)
    requires
        0 <= yoe <= 399,
    ensures
        days_before_year(400 * era + yoe) + 59 + (if is_leap(400 * era + yoe) { 1int } else { 0int })
            == era * 146097 + era_days(yoe) - 719468,
{
    let y = 400 * era + yoe;
    lemma_shift_div(era, yoe - 1);
    lemma_shift_div(era, yoe);
    assert(leaps_through(1969) == 477);
    if yoe == 0 {
        assert((y - 1) / 4 == 100 * era - 1);
        assert((y - 1) / 100 == 4 * era - 1);
        assert((y - 1) / 400 == era - 1);
        assert(y % 400 == 0);
    } else {
        assert((y - 1) / 4 == 100 * era + (yoe - 1) / 4);
        assert((y - 1) / 100 == 4 * era + (yoe - 1) / 100);
        assert((y - 1) / 400 == era);
        assert(y % 4 == yoe % 4);
        assert(y % 100 == yoe % 100);
        assert(y % 400 == yoe);
        assert(is_leap(y) == (yoe % 4 == 0 && yoe % 100 != 0));
        assert(yoe / 4 == (yoe - 1) / 4 + (if yoe % 4 == 0 { 1int } else { 0int }));
        assert(yoe / 100 == (yoe - 1) / 100 + (if yoe % 100 == 0 { 1int } else { 0int }));
    }
}

/// The length of the March-based year `yoe` of an era: 366 where the
/// February at its end has 29 days.
proof fn lemma_march_year_length(era: int, yoe: int)
    requires
        0 <= yoe <= 399,
    ensures
        era_days(yoe + 1) + (if yoe == 399 { 1int } else { 0int }) - era_days(yoe) == 365 + (if is_leap(
            400 * era + yoe + 1,
        ) {
            1int
        } else {
            0int
        }),
{
    let y = 400 * era + yoe + 1;
    lemma_shift_div(era, yoe + 1);
    if yoe == 399 {
        assert(y == 400 * (era + 1));
        assert(y % 400 == 0);
        assert(era_days(400) == 146096);
        assert(era_days(399) == 145731);
    } else {
        assert(y % 4 == (yoe + 1) % 4);
        assert(y % 100 == (yoe + 1) % 100);
        assert(y % 400 == yoe + 1);
        assert((yoe + 1) / 4 == yoe / 4 + (if (yoe + 1) % 4 == 0 { 1int } else { 0int }));
        assert((yoe + 1) / 100 == yoe / 100 + (if (yoe + 1) % 100 == 0 { 1int } else { 0int }));
    }
}

/// The steps by which `days_to_ymd` finds the date `days` days after the
/// epoch give a valid date that lies that many days after it.
proof fn lemma_civil(
    days: int,
    era: int,
    doe: int,
    yoe: int,
    doy: int,
    mp: int,
    d: int,
    mo: int,
    y: int,
)
    requires
        era == (days + 719468) / 146097,
        doe == days + 719468 - era * 146097,
        yoe == (doe - doe / 1460 + doe / 36524 - doe / 146096) / 365,
        doy == doe - era_days(yoe),
        mp == (5 * doy + 2) / 153,
        d == doy - march_month_start(mp) + 1,
        mo == (if mp < 10 { mp + 3 } else { mp - 9 }),
        y == (if mo <= 2 { yoe + era * 400 + 1 } else { yoe + era * 400 }),
    ensures
        valid_date(y, mo, d),
        days_from_civil(y, mo, d) == days,
{
    assert(0 <= doe <= 146096);
    lemma_year_of_era(doe);
    lemma_march_year_length(era, yoe);
    let year_len = era_days(yoe + 1) + (if yoe == 399 { 1int } else { 0int }) - era_days(yoe);
    assert(0 <= doy < year_len);
    lemma_month_of_year(doy, year_len);
    lemma_march_first(era, yoe);
    let y0 = 400 * era + yoe;
    assert(days_before_year(y0 + 1) == days_before_year(y0) + 365 + (if is_leap(y0) { 1int } else { 0int })) by {
        lemma_shift_div(era, yoe);
        if yoe == 399 {
            assert(y0 % 4 == 3);
        }
    }
    if mp == 0 { assert(march_month_start(0) == 0 && march_month_start(1) == 31); }
    else if mp == 1 { assert(march_month_start(1) == 31 && march_month_start(2) == 61); }
    else if mp == 2 { assert(march_month_start(2) == 61 && march_month_start(3) == 92); }
    else if mp == 3 { assert(march_month_start(3) == 92 && march_month_start(4) == 122); }
    else if mp == 4 { assert(march_month_start(4) == 122 && march_month_start(5) == 153); }
    else if mp == 5 { assert(march_month_start(5) == 153 && march_month_start(6) == 184); }
    else if mp == 6 { assert(march_month_start(6) == 184 && march_month_start(7) == 214); }
    else if mp == 7 { assert(march_month_start(7) == 214 && march_month_start(8) == 245); }
    else if mp == 8 { assert(march_month_start(8) == 245 && march_month_start(9) == 275); }
    else if mp == 9 { assert(march_month_start(9) == 275 && march_month_start(10) == 306); }
    else if mp == 10 { assert(march_month_start(10) == 306 && march_month_start(11) == 337); }
    else { assert(march_month_start(11) == 337); }
}

proof fn lemma_year_step(y: int)
    ensures
        days_before_year(y + 1) == days_before_year(y) + 365 + (if is_leap(y) { 1int } else { 0int }),
{
    assert((y / 4) - ((y - 1) / 4) == (if y % 4 == 0 { 1int } else { 0int }));
    assert((y / 100) - ((y - 1) / 100) == (if y % 100 == 0 { 1int } else { 0int }));
    assert((y / 400) - ((y - 1) / 400) == (if y % 400 == 0 { 1int } else { 0int }));
}

proof fn lemma_years_increase(a: int, b: int)
    requires
        a <= b,
    ensures
        days_before_year(a) <= days_before_year(b),
    decreases b - a,
{
    if a < b {
        lemma_year_step(a);
        lemma_years_increase(a + 1, b);
    }
}

/// A valid date lies in its year, and in its month.
proof fn lemma_date_in_year(y: int, m: int, d: int)
    requires
        valid_date(y, m, d),
    ensures
        days_before_year(y) <= days_from_civil(y, m, d) < days_before_year(y + 1),
        days_before_year(y) + days_before_month(y, m) <= days_from_civil(y, m, d),
        days_from_civil(y, m, d) < days_before_year(y) + days_before_month(y, m) + days_in_month(y, m),
        m < 12 ==> days_before_month(y, m) + days_in_month(y, m) == days_before_month(y, m + 1),
{
    lemma_year_step(y);
}

proof fn lemma_months_increase(y: int, a: int, b: int)
    requires
        1 <= a < b <= 12,
    ensures
        days_before_month(y, a) + days_in_month(y, a) <= days_before_month(y, b),
{
}

/// Two valid dates that lie the same number of days after the epoch are
/// the same date.
pub proof fn lemma_civil_unique(y1: int, m1: int, d1: int, y2: int, m2: int, d2: int)
    requires
        valid_date(y1, m1, d1),
        valid_date(y2, m2, d2),
        days_from_civil(y1, m1, d1) == days_from_civil(y2, m2, d2),
    ensures
        y1 == y2 && m1 == m2 && d1 == d2,
{
    lemma_date_in_year(y1, m1, d1);
    lemma_date_in_year(y2, m2, d2);
    if y1 < y2 {
        lemma_years_increase(y1 + 1, y2);
    } else if y2 < y1 {
        lemma_years_increase(y2 + 1, y1);
    }
    assert(y1 == y2);
    if m1 < m2 {
        lemma_months_increase(y1, m1, m2);
    } else if m2 < m1 {
        lemma_months_increase(y1, m2, m1);
    }
}

proof fn lemma_floor_div(z: int)
    ensures
        (if z >= 0 {
            z / 146097
        } else {
            -((146096 - z) / 146097)
        }) == z / 146097,
{
}

/// The date (year, month, day) that lies `days` days after 1970-01-01.
pub open spec fn civil_date(days: int) -> (int, int, int) {
    choose|ymd: (int, int, int)|
        valid_date(ymd.0, ymd.1, ymd.2) && days_from_civil(ymd.0, ymd.1, ymd.2) == days
}

/// Every day has its date: `civil_date(days)` is a valid date, `days` days
/// after the epoch, and the only one.
pub proof fn lemma_civil_date(days: int)
    ensures
        valid_date(civil_date(days).0, civil_date(days).1, civil_date(days).2),
        days_from_civil(civil_date(days).0, civil_date(days).1, civil_date(days).2) == days,
        forall|y: int, m: int, d: int|
            valid_date(y, m, d) && days_from_civil(y, m, d) == days ==> (y, m, d) == civil_date(
                days,
            ),
{
    let z = days + 719468;
    let era = z / 146097;
    let doe = z - era * 146097;
    let yoe = (doe - doe / 1460 + doe / 36524 - doe / 146096) / 365;
    let doy = doe - era_days(yoe);
    let mp = (5 * doy + 2) / 153;
    let d = doy - march_month_start(mp) + 1;
    let mo = if mp < 10 { mp + 3 } else { mp - 9 };
    let y = if mo <= 2 { yoe + era * 400 + 1 } else { yoe + era * 400 };
    lemma_civil(days, era, doe, yoe, doy, mp, d, mo, y);
    let w = (y, mo, d);
    assert(valid_date(w.0, w.1, w.2) && days_from_civil(w.0, w.1, w.2) == days);
    let c = civil_date(days);
    assert forall|y2: int, m2: int, d2: int|
        valid_date(y2, m2, d2) && days_from_civil(y2, m2, d2) == days implies (y2, m2, d2)
        == c by {
        lemma_civil_unique(y2, m2, d2, c.0, c.1, c.2);
    }
}

/// The calendar day after `y-m-d`.
pub open spec fn next_day(ymd: (int, int, int)) -> (int, int, int) {
    if ymd.2 < days_in_month(ymd.0, ymd.1) {
        (ymd.0, ymd.1, ymd.2 + 1)
    } else if ymd.1 < 12 {
        (ymd.0, ymd.1 + 1, 1)
    } else {
        (ymd.0 + 1, 1, 1)
    }
}

/// Whether date `a` comes before date `b` (by year, then month, then day).
pub open spec fn date_before(a: (int, int, int), b: (int, int, int)) -> bool {
    a.0 < b.0 || (a.0 == b.0 && (a.1 < b.1 || (a.1 == b.1 && a.2 < b.2)))
}

/// Consecutive days have consecutive dates: the date one day later is the
/// calendar day after, so dates only ever move forward.
pub proof fn law_next_day(days: int)
    ensures
        civil_date(days + 1) == next_day(civil_date(days)),
        date_before(civil_date(days), civil_date(days + 1)),
{
    lemma_civil_date(days);
    lemma_civil_date(days + 1);
    let c = civil_date(days);
    let n = next_day(c);
    lemma_date_in_year(c.0, c.1, c.2);
    lemma_year_step(c.0);
    assert(valid_date(n.0, n.1, n.2));
    assert(days_from_civil(n.0, n.1, n.2) == days + 1);
}

/// The date that lies `days` days after 1970-01-01, in the proleptic
/// Gregorian calendar: year (cut to `i32`), month `1..=12` and day.
#[verifier::rlimit(40)]
pub fn days_to_ymd(days: i64) -> (r: (i32, u32, u32))
    requires
        days <= i64::MAX - 719468,
    ensures
        r.0 == civil_date(days as int).0 as i32,
        r.1 == civil_date(days as int).1,
        r.2 == civil_date(days as int).2,
{
    // Shift to March 1 of year 0, the start of a 400-year era.
    let z = days + 719468;
    let t = if z >= 0 { z } else { z - 146096 };
    let era = t / 146097;
    proof {
        lemma_floor_div(z as int);
        assert(era == (z as int) / 146097);
        assert(-63131837319412 <= era <= 63131837319416);
    }
    let doe = z - era * 146097;
    assert(0 <= doe <= 146096);
    let yoe = (doe - doe / 1460 + doe / 36524 - doe / 146096) / 365;
    proof {
        lemma_year_of_era(doe as int);
    }
    let y = yoe + era * 400;
    let doy = doe - (365 * yoe + yoe / 4 - yoe / 100);
    assert(doy == doe - era_days(yoe as int));
    proof {
        lemma_march_year_length(era as int, yoe as int);
    }
    assert(0 <= doy <= 365);
    let mp = (5 * doy + 2) / 153;
    let d = doy - (153 * mp + 2) / 5 + 1;
    let mo = if mp < 10 { mp + 3 } else { mp - 9 };
    let y = if mo <= 2 { y + 1 } else { y };
    proof {
        lemma_civil(
            days as int,
            era as int,
            doe as int,
            yoe as int,
            doy as int,
            mp as int,
            d as int,
            mo as int,
            y as int,
        );
        lemma_civil_date(days as int);
    }
    (#[verifier::truncate] (y as i32), mo as u32, d as u32)
}

// ── writing numbers and dates ────────────────────────────────────────────────

pub open spec fn digit_char(n: int) -> char {
    (48 + n) as char
}

/// The decimal digits of `n`.
pub open spec fn decimal(n: nat) -> Seq<char>
    decreases n,
{
    if n < 10 {
        seq![digit_char(n as int)]
    } else {
        decimal(n / 10).push(digit_char((n % 10) as int))
    }
}

pub open spec fn zeros(k: int) -> Seq<char> {
    Seq::new(if k > 0 { k as nat } else { 0 }, |i: int| '0')
}

/// `v` written as `format!("{:0w}", v)` writes it: the sign of a negative
/// number, then as many zeros as bring the whole to `w` characters, then
/// the digits.
pub open spec fn padded(v: int, w: int) -> Seq<char> {
    let sign = if v < 0 {
        seq!['-']
    } else {
        seq![]
    };
    let digits = decimal((if v < 0 { -v } else { v }) as nat);
    sign + zeros(w - sign.len() - digits.len()) + digits
}

/// `t` seconds after the epoch (before it where negative), written
/// `YYYY-MM-DD hh:mm:ss`: the date of the day it falls in and the time
/// since that day's midnight.
pub open spec fn unix_time_text(t: int) -> Seq<char> {
    let days = t / 86400;
    let tod = t % 86400;
    let date = civil_date(days);
    padded((date.0 as i32) as int, 4) + seq!['-'] + padded(date.1, 2) + seq!['-'] + padded(date.2, 2)
        + seq![' '] + padded(tod / 3600, 2) + seq![':'] + padded((tod % 3600) / 60, 2) + seq![':']
        + padded(tod % 60, 2)
}

/// An author date in ISO form: the author's local clock time (`secs` after
/// the epoch, shifted by the offset), a space, and the offset `+hhmm` or
/// `-hhmm` of the author's time zone.
pub open spec fn author_date_text(secs: int, offset_minutes: int) -> Seq<char> {
    let abs = if offset_minutes < 0 {
        -offset_minutes
    } else {
        offset_minutes
    };
    unix_time_text(secs + 60 * offset_minutes) + seq![' '] + (if offset_minutes >= 0 {
        seq!['+']
    } else {
        seq!['-']
    }) + padded(abs / 60, 2) + padded(abs % 60, 2)
}

/// Appends `padded(v, w)` to `out`.
pub fn push_padded(out: &mut Vec<char>, v: i64, w: usize)
    ensures
        final(out)@ == old(out)@ + padded(v as int, w as int),
{
    let neg = v < 0;
    let a: u64 = if neg {
        (-(v as i128)) as u64
    } else {
        v as u64
    };
    // The digits, last first.
    let mut rev: Vec<char> = Vec::new();
    let mut m: u64 = a;
    let mut nd: u64 = 0;
    while m >= 10
        invariant
            decimal(a as nat) == decimal(m as nat) + rev@.reverse(),
            nd == rev.len(),
            nd + m <= a,
            a <= 0x8000_0000_0000_0000u64,
        decreases m,
    {
        let c = ((m % 10) as u8 + 48) as char;
        let ghost before = rev@;
        rev.push(c);
        proof {
            assert(rev@.reverse() =~= seq![c] + before.reverse());
            assert(c == digit_char((m % 10) as int));
        }
        m = m / 10;
        nd = nd + 1;
    }
    let first = (m as u8 + 48) as char;
    let ghost digits = decimal(a as nat);
    assert(digits =~= seq![first] + rev@.reverse());
    let sign_len: u64 = if neg { 1 } else { 0 };
    if neg {
        out.push('-');
    }
    let n_digits: u64 = nd + 1;
    let ghost start = out@;
    let w64 = w as u64;
    let mut k: u64 = sign_len + n_digits;
    while k < w64
        invariant
            w64 == w,
            sign_len + n_digits <= k <= w64 || (k == sign_len + n_digits && w64 < k),
            out@ == start + zeros(k - sign_len - n_digits),
        decreases w64 - k,
    {
        out.push('0');
        assert(zeros(k + 1 - sign_len - n_digits) =~= zeros(k - sign_len - n_digits).push('0'));
        k = k + 1;
    }
    let ghost mid = out@;
    out.push(first);
    let mut i = rev.len();
    while i > 0
        invariant
            i <= rev.len(),
            out@ == mid + seq![first] + rev@.reverse().take(rev.len() - i),
        decreases i,
    {
        i = i - 1;
        out.push(rev[i]);
        assert(rev@.reverse().take(rev.len() - i) =~= rev@.reverse().take(rev.len() - i - 1).push(
            rev@[i as int],
        ));
    }
    assert(rev@.reverse().take(rev.len() as int) == rev@.reverse());
    assert(zeros(k - sign_len - n_digits) =~= zeros(w - sign_len - n_digits));
}

/// Appends ` hh:mm:ss` for `tod` seconds after midnight to `out`.
fn push_clock(out: &mut Vec<char>, tod: i128)
    requires
        0 <= tod < 86400,
    ensures
        final(out)@ == old(out)@ + seq![' '] + padded(tod as int / 3600, 2) + seq![':'] + padded(
            (tod as int % 3600) / 60,
            2,
        ) + seq![':'] + padded(tod as int % 60, 2),
{
    let h = tod / 3600;
    let m = (tod % 3600) / 60;
    let s = tod % 60;
    out.push(' ');
    push_padded(out, h as i64, 2);
    out.push(':');
    push_padded(out, m as i64, 2);
    out.push(':');
    push_padded(out, s as i64, 2);
}

/// Appends `unix_time_text(t)` to `out`.
#[verifier::rlimit(40)]
fn push_date_time(out: &mut Vec<char>, t: i128)
    requires
        -0x1_0000_0000_0000_0000i128 < t < 0x1_0000_0000_0000_0000i128,
    ensures
        final(out)@ == old(out)@ + unix_time_text(t as int),
{
    let ghost start = out@;
    let mut days = t / 86400;
    let mut tod = t % 86400;
    if tod < 0 {
        tod = tod + 86400;
        days = days - 1;
    }
    proof {
        lemma_floor_86400(t as int, days as int, tod as int);
    }
    let (y, mo, d) = days_to_ymd(days as i64);
    let ghost date = civil_date(days as int);
    push_padded(out, y as i64, 4);
    out.push('-');
    push_padded(out, mo as i64, 2);
    out.push('-');
    push_padded(out, d as i64, 2);
    let ghost mid = out@;
    assert(mid == start + padded((date.0 as i32) as int, 4) + seq!['-'] + padded(date.1, 2) + seq!['-'] + padded(date.2, 2));
    push_clock(out, tod);
    assert(out@ =~= start + unix_time_text(t as int));
}

/// The floor division of `t` by a day's seconds, as `push_date_time` makes
/// it from Rust's truncating `/` and `%`.
proof fn lemma_floor_86400(t: int, days: int, tod: int)
    requires
        0 <= tod < 86400,
        t == 86400 * days + tod,
    ensures
        days == t / 86400,
        tod == t % 86400,
{
}

/// `secs` seconds after the epoch, written `YYYY-MM-DD hh:mm:ss` in UTC.
pub fn format_unix_time(secs: i64) -> (r: String)
    ensures
        r@ == unix_time_text(secs as int),
{
    let mut out: Vec<char> = Vec::new();
    push_date_time(&mut out, secs as i128);
    string_of(&out)
}

/// The date of a commit by an author in the time zone `offset_minutes`
/// east of UTC, in ISO form: `YYYY-MM-DD hh:mm:ss +hhmm`, the clock time
/// being the author's.
pub fn format_author_date(secs: i64, offset_minutes: i32) -> (r: String)
    ensures
        r@ == author_date_text(secs as int, offset_minutes as int),
{
    let mut out: Vec<char> = Vec::new();
    push_date_time(&mut out, secs as i128 + 60 * (offset_minutes as i128));
    out.push(' ');
    let sign = if offset_minutes >= 0 { '+' } else { '-' };
    out.push(sign);
    let abs: i64 = if offset_minutes < 0 { -(offset_minutes as i64) } else { offset_minutes as i64 };
    push_padded(&mut out, abs / 60, 2);
    push_padded(&mut out, abs % 60, 2);
    string_of(&out)
}

// ── a commit's diff of one file ──────────────────────────────────────────────

/// A line of a patch, as git prints it: its origin (`+`, `-`, ` ` or another
/// marker), whether it belongs to the cell's file, and its content where
/// that is valid UTF-8.
pub struct DiffLine {
    pub origin: char,
    pub in_file: bool,
    pub content: Option<String>,
}

/// The text that the lines of the cell's file add to a patch: each line's
/// origin where it is `+`, `-` or ` `, then its content.
pub open spec fn patch_text(lines: Seq<DiffLine>) -> Seq<char>
    decreases lines.len(),
{
    if lines.len() == 0 {
        seq![]
    } else {
        let l = lines.last();
        patch_text(lines.drop_last()) + if l.in_file {
            (if l.origin == '+' || l.origin == '-' || l.origin == ' ' {
                seq![l.origin]
            } else {
                seq![]
            }) + match l.content {
                Some(c) => c@,
                None => seq![],
            }
        } else {
            seq![]
        }
    }
}

/// `s` without its trailing whitespace.
pub open spec fn trim_end(s: Seq<char>) -> Seq<char>
    decreases s.len(),
{
    if s.len() > 0 && is_ws(s.last()) {
        trim_end(s.drop_last())
    } else {
        s
    }
}

/// The number of bytes that `c` takes in UTF-8.
pub open spec fn utf8_len(c: char) -> int {
    if (c as u32) < 0x80 {
        1
    } else if (c as u32) < 0x800 {
        2
    } else if (c as u32) < 0x10000 {
        3
    } else {
        4
    }
}

/// How many characters of `s` from `i` on fit, in UTF-8, in `limit` bytes.
pub open spec fn fitting_chars(s: Seq<char>, i: int, limit: int) -> int
    decreases s.len() - i,
{
    if i < 0 || i >= s.len() || utf8_len(s[i]) > limit {
        0
    } else {
        1 + fitting_chars(s, i + 1, limit - utf8_len(s[i]))
    }
}

/// The most bytes of a diff that are kept.
pub open spec fn diff_limit() -> int {
    8192
}

/// `…(truncated)`, which ends a diff that was cut.
pub open spec fn truncation_mark() -> Seq<char> {
    seq!['\u{2026}', '(', 't', 'r', 'u', 'n', 'c', 'a', 't', 'e', 'd', ')']
}

/// The diff of the cell's file in a commit: `None` where the commit does
/// not touch the file or adds no text for it; else that text without
/// trailing whitespace, cut to the longest prefix of at most 8192 bytes and
/// marked where it is longer.
pub open spec fn diff_text(touches: bool, lines: Seq<DiffLine>) -> Option<Seq<char>> {
    let t = trim_end(patch_text(lines));
    let k = fitting_chars(t, 0, diff_limit());
    if !touches || t.len() == 0 {
        None
    } else if k == t.len() {
        Some(t)
    } else {
        Some(t.take(k) + truncation_mark())
    }
}

fn utf8_len_exec(c: char) -> (r: u32)
    ensures
        r == utf8_len(c),
{
    let u = c as u32;
    if u < 0x80 {
        1
    } else if u < 0x800 {
        2
    } else if u < 0x10000 {
        3
    } else {
        4
    }
}

/// Puts together the diff of the cell's file in a commit; see `diff_text`.
pub fn file_diff(touches: bool, lines: &Vec<DiffLine>) -> (r: Option<String>)
    ensures
        match r {
            Some(d) => diff_text(touches, lines@) == Some(d@),
            None => diff_text(touches, lines@) is None,
        },
{
    if !touches {
        return None;
    }
    let mut out: Vec<char> = Vec::new();
    let mut i: usize = 0;
    while i < lines.len()
        invariant
            i <= lines.len(),
            out@ == patch_text(lines@.take(i as int)),
        decreases lines.len() - i,
    {
        let l = &lines[i];
        if l.in_file {
            if l.origin == '+' || l.origin == '-' || l.origin == ' ' {
                out.push(l.origin);
            }
            match &l.content {
                Some(c) => push_str_chars(&mut out, c.as_str()),
                None => {},
            }
        }
        assert(lines@.take(i + 1).drop_last() == lines@.take(i as int));
        i = i + 1;
    }
    assert(lines@.take(lines.len() as int) == lines@);
    // Drop the trailing whitespace.
    let ghost full = out@;
    while out.len() > 0 && is_whitespace(out[out.len() - 1])
        invariant
            trim_end(full) == trim_end(out@),
        decreases out.len(),
    {
        let ghost before = out@;
        out.pop();
        assert(out@ == before.drop_last());
    }
    assert(trim_end(full) == out@);
    if out.len() == 0 {
        return None;
    }
    // Keep the longest prefix that fits.
    let mut k: usize = 0;
    let mut budget: u32 = 8192;
    while k < out.len() && utf8_len_exec(out[k]) <= budget
        invariant
            k <= out.len(),
            budget <= 8192,
            fitting_chars(out@, 0, diff_limit()) == k + fitting_chars(out@, k as int, budget as int),
        decreases out.len() - k,
    {
        budget = budget - utf8_len_exec(out[k]);
        k = k + 1;
    }
    if k == out.len() {
        Some(string_of(&out))
    } else {
        out.truncate(k);
        push_str_chars(&mut out, "\u{2026}(truncated)");
        proof {
            reveal_strlit("\u{2026}(truncated)");
        }
        Some(string_of(&out))
    }
}

/// The most commits that a cell's history lists.
pub open spec fn history_limit() -> int {
    30
}

/// Whether a history already lists as many commits as it may; the walk
/// through the commits stops there.
pub fn history_is_full(commits: &Vec<GitCommit>) -> (r: bool)
    ensures
        r == (commits@.len() >= history_limit()),
{
    commits.len() >= 30
}

} // verus!
