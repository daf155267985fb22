//! Days and minutes on the Shanghai clock (UTC+8), and Gregorian dates.

use vstd::prelude::*;
use vstd::string::StringExecFns;
use crate::text::{decimal, pad2, push_char, push_decimal, push_pad2};

verus! {

/// Shanghai is eight hours ahead of UTC.
pub const TZ_OFFSET_SECS: i64 = 8 * 3600;

/// Whether `y` is a leap year of the (proleptic) Gregorian calendar.
pub open spec fn is_leap(y: int) -> bool {
    y % 4 == 0 && (y % 100 != 0 || y % 400 == 0)
}

/// Number of days in month `m` (1–12) of year `y`.
pub open spec fn month_len(y: int, m: int) -> int {
    if m == 2 {
        if is_leap(y) { 29 } else { 28 }
    } else if m == 4 || m == 6 || m == 9 || m == 11 {
        30
    } else {
        31
    }
}

/// Number of days in year `y` before the first of month `m`.
pub open spec fn days_before_month(y: int, m: int) -> int {
    let common: int = if m == 1 {
        0
    } else if m == 2 {
        31
    } else if m == 3 {
        59
    } else if m == 4 {
        90
    } else if m == 5 {
        120
    } else if m == 6 {
        151
    } else if m == 7 {
        181
    } else if m == 8 {
        212
    } else if m == 9 {
        243
    } else if m == 10 {
        273
    } else if m == 11 {
        304
    } else {
        334
    };
    common + if m > 2 && is_leap(y) { 1int } else { 0int }
}

/// Number of leap years from year 0 up to (not including) year `y`; for `y`
/// below 0, minus the number of leap years from `y` up to year 0.
pub open spec fn leaps_before(y: int) -> int {
    (y + 3) / 4 - (y + 99) / 100 + (y + 399) / 400
}

/// Whether (y, m, d) is a date of the Gregorian calendar.
pub open spec fn valid_date(y: int, m: int, d: int) -> bool {
    1 <= m <= 12 && 1 <= d <= month_len(y, m)
}

/// The day number of date (y, m, d): days since 1970-01-01.
pub open spec fn days_from_civil(y: int, m: int, d: int) -> int {
    365 * (y - 1970) + leaps_before(y) - leaps_before(1970) + days_before_month(y, m) + d - 1
}

/// Days since 0000-03-01 of day `d` of the `mp`-th month (March being 0) of the
/// year beginning on March 1 of year `y`.
spec fn march_days(y: int, mp: int, d: int) -> int {
    365 * y + y / 4 - y / 100 + y / 400 + (153 * mp + 2) / 5 + d - 1
}

/// Counting from January 1 and counting from March 1 agree.
proof fn lemma_march_days(y: int, mp: int, d: int)
    requires
        0 <= mp < 12,
    ensures
        ({
            let m = if mp < 10 { mp + 3 } else { mp - 9 };
            let yy = if m <= 2 { y + 1 } else { y };
            days_from_civil(yy, m, d) == march_days(y, mp, d) - 719468
        }),
{
    let q4 = y / 4;
    let q100 = y / 100;
    let q400 = y / 400;
    assert(y == 4 * q4 + y % 4 && 0 <= y % 4 < 4);
    assert(y == 100 * q100 + y % 100 && 0 <= y % 100 < 100);
    assert(y == 400 * q400 + y % 400 && 0 <= y % 400 < 400);
    if mp < 10 {
        assert((y + 3) / 4 == q4 + if y % 4 == 0 { 0int } else { 1int });
        assert((y + 99) / 100 == q100 + if y % 100 == 0 { 0int } else { 1int });
        assert((y + 399) / 400 == q400 + if y % 400 == 0 { 0int } else { 1int });
    } else {
        assert((y + 4) / 4 == q4 + 1);
        assert((y + 100) / 100 == q100 + 1);
        assert((y + 400) / 400 == q400 + 1);
    }
}

/// The day of the 400-year era `doe` split into century `c`, four-year block `q`,
/// year `a` in the block and day `doy` in the (March-based) year.
proof fn lemma_era_split(doe: int, c: int, q: int, a: int, doy: int)
    requires
        0 <= doe < 146097,
        c == if doe / 36524 == 4 { 3 } else { doe / 36524 },
        q == (doe - 36524 * c) / 1461,
        a == if (doe - 36524 * c - 1461 * q) / 365 == 4 { 3 } else { (doe - 36524 * c - 1461 * q) / 365 },
        doy == doe - 36524 * c - 1461 * q - 365 * a,
    ensures
        0 <= c <= 3,
        0 <= q <= 24,
        0 <= a <= 3,
        0 <= doy <= 365,
        doy == 365 ==> a == 3 && (q < 24 || c == 3),
        doe == 36524 * c + 1461 * q + 365 * a + doy,
{
    let r = doe - 36524 * c;
    assert(0 <= r <= 36524);
    assert(r == 36524 ==> c == 3);
    let t = r - 1461 * q;
    assert(0 <= q <= 24);
    assert(0 <= t <= 1460);
    assert(q == 24 ==> r >= 35064);
}

/// Year `yoe` of an era: its quarter and hundredth.
proof fn lemma_year_parts(era: int, c: int, q: int, a: int)
    requires
        0 <= c <= 3,
        0 <= q <= 24,
        0 <= a <= 3,
    ensures
        ({
            let y = 400 * era + 100 * c + 4 * q + a;
            &&& y / 4 == 100 * era + 25 * c + q
            &&& y / 100 == 4 * era + c
            &&& y / 400 == era
        }),
{
    let y = 400 * era + 100 * c + 4 * q + a;
    assert(y == 4 * (100 * era + 25 * c + q) + a);
    assert(y == 100 * (4 * era + c) + (4 * q + a));
    assert(y == 400 * era + (100 * c + 4 * q + a));
}

/// Day `doy` of a March-based year falls in month `mp` (March being 0) on day `d`.
proof fn lemma_month_split(doy: int, mp: int, d: int)
    requires
        0 <= doy <= 365,
        mp == (5 * doy + 2) / 153,
        d == doy - (153 * mp + 2) / 5 + 1,
    ensures
        0 <= mp < 12,
        1 <= d,
        mp < 11 ==> d <= if mp == 1 || mp == 3 || mp == 6 || mp == 8 { 30int } else { 31int },
        mp == 11 ==> d <= 28 || (d == 29 && doy == 365),
        mp < 10 ==> (153 * mp + 2) / 5 + d - 1 == doy,
        mp >= 10 ==> (153 * mp + 2) / 5 + d - 1 == doy,
{
}

/// The date of day number `z` (days since 1970-01-01): year, month (1–12) and day.
pub fn civil_from_days(z: i64) -> (r: (i64, u32, u32))
    requires
        i64::MIN + 719468 <= z <= i64::MAX - 719468,
    ensures
        valid_date(r.0 as int, r.1 as int, r.2 as int),
        days_from_civil(r.0 as int, r.1 as int, r.2 as int) == z,
{
    let zz = z + 719468;
    let era = match zz.checked_div_euclid(146097) {
        Some(e) => e,
        None => 0,
    };
    assert(era == zz as int / 146097);
    assert(0 <= zz - era * 146097 < 146097);
    let doe = (zz - era * 146097) as u64;
    let c0 = doe / 36524;
    let c = if c0 == 4 { 3 } else { c0 };
    let r = doe - 36524 * c;
    let q = r / 1461;
    let t = r - 1461 * q;
    let a0 = t / 365;
    let a = if a0 == 4 { 3 } else { a0 };
    proof {
        lemma_era_split(doe as int, c as int, q as int, a as int, (doe - 36524 * c - 1461 * q - 365 * a) as int);
    }
    let doy = t - 365 * a;
    let yoe = 100 * c + 4 * q + a;
    let mp = (5 * doy + 2) / 153;
    proof {
        lemma_month_split(doy as int, mp as int, doy - (153 * mp + 2) / 5 + 1);
    }
    let d = (doy - (153 * mp + 2) / 5 + 1) as u32;
    let m = if mp < 10 { mp + 3 } else { mp - 9 } as u32;
    let y = yoe as i64 + era * 400;
    proof {
        lemma_year_parts(era as int, c as int, q as int, a as int);
        lemma_march_days(y as int, mp as int, d as int);
        assert(march_days(y as int, mp as int, d as int) == zz);
        if mp == 11 && d == 29 {
            let yy = y as int + 1;
            if q == 24 {
                assert(yy == 400 * (era + 1));
            } else {
                assert(yy == 4 * (100 * era + 25 * c + q + 1));
                assert(yy == 100 * (4 * era + c) + 4 * (q + 1));
            }
            assert(is_leap(yy));
        }
    }
    (if m <= 2 { y + 1 } else { y }, m, d)
}


/// Day number of January 1 of year `y`.
pub open spec fn year_start(y: int) -> int {
    days_from_civil(y, 1, 1)
}

proof fn lemma_year_length(y: int)
    ensures
        year_start(y + 1) == year_start(y) + 365 + if is_leap(y) { 1int } else { 0int },
{
    let q4 = y / 4;
    let q100 = y / 100;
    let q400 = y / 400;
    assert(y == 4 * q4 + y % 4 && 0 <= y % 4 < 4);
    assert(y == 100 * q100 + y % 100 && 0 <= y % 100 < 100);
    assert(y == 400 * q400 + y % 400 && 0 <= y % 400 < 400);
    assert((y + 3) / 4 == q4 + if y % 4 == 0 { 0int } else { 1int });
    assert((y + 99) / 100 == q100 + if y % 100 == 0 { 0int } else { 1int });
    assert((y + 399) / 400 == q400 + if y % 400 == 0 { 0int } else { 1int });
    assert((y + 4) / 4 == q4 + 1);
    assert((y + 100) / 100 == q100 + 1);
    assert((y + 400) / 400 == q400 + 1);
}

proof fn lemma_years_increase(a: int, b: int)
    requires
        a <= b,
    ensures
        year_start(a) <= year_start(b),
    decreases b - a,
{
    if a < b {
        lemma_year_length(b - 1);
        lemma_years_increase(a, b - 1);
    }
}

/// A valid date lies within its year.
proof fn lemma_within_year(y: int, m: int, d: int)
    requires
        valid_date(y, m, d),
    ensures
        year_start(y) <= days_from_civil(y, m, d) < year_start(y + 1),
{
    lemma_year_length(y);
}

/// Two dates with the same day number are the same date: each day has one date.
pub proof fn lemma_one_date_per_day(y1: int, m1: int, d1: int, y2: int, m2: int, d2: int)
    requires
        valid_date(y1, m1, d1),
        valid_date(y2, m2, d2),
        days_from_civil(y1, m1, d1) == days_from_civil(y2, m2, d2),
    ensures
        y1 == y2 && m1 == m2 && d1 == d2,
{
    lemma_within_year(y1, m1, d1);
    lemma_within_year(y2, m2, d2);
    if y1 < y2 {
        lemma_years_increase(y1 + 1, y2);
    } else if y2 < y1 {
        lemma_years_increase(y2 + 1, y1);
    }
    assert(y1 == y2);
}

/// The date of day number `z`.
pub open spec fn civil(z: int) -> (int, int, int) {
    choose|t: (int, int, int)| valid_date(t.0, t.1, t.2) && days_from_civil(t.0, t.1, t.2) == z
}

/// `n` zeros.
pub open spec fn zeros(n: int) -> Seq<char>
    decreases n,
{
    if n <= 0 {
        Seq::empty()
    } else {
        zeros(n - 1).push('0')
    }
}

/// `y` in decimal, padded with zeros to four characters counting a minus sign (`{:04}`).
pub open spec fn pad4(y: int) -> Seq<char> {
    if y >= 0 {
        zeros(4 - decimal(y as nat).len()) + decimal(y as nat)
    } else {
        "-"@ + zeros(3 - decimal((-y) as nat).len()) + decimal((-y) as nat)
    }
}

/// "YYYY-MM-DD"
pub open spec fn date_text(y: int, m: int, d: int) -> Seq<char> {
    pad4(y) + "-"@ + pad2(m as nat) + "-"@ + pad2(d as nat)
}

/// The date of day number `z` as "YYYY-MM-DD".
pub open spec fn day_text(z: int) -> Seq<char> {
    let t = civil(z);
    date_text(t.0, t.1, t.2)
}

fn push_zeros(s: &mut String, n: usize)
    ensures
        final(s)@ == old(s)@ + zeros(n as int),
    decreases n,
{
    if n > 0 {
        push_zeros(s, n - 1);
        push_char(s, '0');
    }
    assert(final(s)@ =~= old(s)@ + zeros(n as int));
}

fn decimal_len(n: u64) -> (k: u64)
    ensures
        k == decimal(n as nat).len(),
        k <= n + 1 || k == 1,
    decreases n,
{
    if n < 10 {
        1
    } else {
        let k = decimal_len(n / 10);
        assert(decimal(n as nat).len() == decimal((n / 10) as nat).len() + 1);
        k + 1
    }
}

/// Appends `y` padded to four characters (`{:04}`).
fn push_pad4(s: &mut String, y: i64)
    ensures
        final(s)@ == old(s)@ + pad4(y as int),
{
    let ghost start = s@;
    if y >= 0 {
        let u = y as u64;
        let k = decimal_len(u);
        if k < 4 {
            push_zeros(s, (4 - k) as usize);
        } else {
            assert(zeros(4 - k) =~= Seq::<char>::empty());
            assert(s@ =~= start + zeros(4 - k));
        }
        push_decimal(s, u);
        assert(s@ =~= start + (zeros(4 - decimal(y as nat).len()) + decimal(y as nat)));
    } else {
        let a: u64 = if y == i64::MIN { 9223372036854775808u64 } else { (-y) as u64 };
        assert(a as int == -(y as int));
        push_char(s, '-');
        let k = decimal_len(a);
        let ghost mid = s@;
        if k < 3 {
            push_zeros(s, (3 - k) as usize);
        } else {
            assert(zeros(3 - k) =~= Seq::<char>::empty());
            assert(s@ =~= mid + zeros(3 - k));
        }
        push_decimal(s, a);
        assert(s@ =~= start + ("-"@ + zeros(3 - decimal((-y) as nat).len()) + decimal((-y) as nat))) by {
            reveal_strlit("-");
        }
    }
}

/// Day number `z` as a date "YYYY-MM-DD".
pub fn date_str(z: i64) -> (s: String)
    requires
        i64::MIN + 719468 <= z <= i64::MAX - 719468,
    ensures
        s@ == day_text(z as int),
{
    let (y, m, d) = civil_from_days(z);
    proof {
        let t = civil(z as int);
        assert(valid_date(t.0, t.1, t.2) && days_from_civil(t.0, t.1, t.2) == z) by {
            assert(valid_date(y as int, m as int, d as int) && days_from_civil(y as int, m as int, d as int) == z);
        }
        lemma_one_date_per_day(t.0, t.1, t.2, y as int, m as int, d as int);
    }
    let mut s = String::new();
    push_pad4(&mut s, y);
    s.append("-");
    push_pad2(&mut s, m as u64);
    s.append("-");
    push_pad2(&mut s, d as u64);
    s
}

/// Day number in Shanghai (days since 1970-01-01, UTC+8) at `secs` seconds after the Unix epoch.
pub fn day_of_secs(secs: i64) -> (day: i64)
    requires
        secs <= i64::MAX - TZ_OFFSET_SECS,
    ensures
        day == (secs + TZ_OFFSET_SECS) / 86400,
{
    match (secs + TZ_OFFSET_SECS).checked_div_euclid(86400) {
        Some(d) => d,
        None => 0,
    }
}

/// Minute of the Shanghai day (0–1439) at `secs` seconds after the Unix epoch.
pub fn minute_of_secs(secs: u64) -> (m: u32)
    requires
        secs <= u64::MAX - 8 * 3600,
    ensures
        m == ((secs + 8 * 3600) % 86400) / 60,
        m < 1440,
{
    (((secs + 8 * 3600) % 86400) / 60) as u32
}

/// The minute of the day the watches go by: a pinned minute (wrapped into the
/// day) when one is given, else the minute of the Shanghai clock at `secs`.
pub fn shanghai_minute(pinned: Option<u32>, secs: u64) -> (m: u32)
    requires
        secs <= u64::MAX - 8 * 3600,
    ensures
        pinned matches Some(p) ==> m == p % 1440,
        pinned is None ==> m == ((secs + 8 * 3600) % 86400) / 60,
        m < 1440,
{
    match pinned {
        Some(p) => p % 1440,
        None => minute_of_secs(secs),
    }
}
} // verus!
