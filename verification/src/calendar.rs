//! Days since the Unix epoch as proleptic Gregorian dates.

use vstd::prelude::*;

verus! {

/// Integer division rounding toward zero, as Rust's `/` on signed integers.
pub open spec fn trunc_div(a: int, b: int) -> int {
    if a >= 0 {
        a / b
    } else {
        -((-a) / b)
    }
}

/// The 400-year era of the day `z` counted from 0000-03-01.
pub open spec fn era_of(z: int) -> int {
    trunc_div(if z >= 0 { z } else { z - 146096 }, 146097)
}

/// The year of an era (years starting on March 1) that holds the day
/// `doe` of the era.
pub open spec fn year_of_era(doe: int) -> int {
    trunc_div(doe - trunc_div(doe, 1460) + trunc_div(doe, 36524) - trunc_div(doe, 146096), 365)
}

/// The day of the era on which the year `yoe` of the era starts.
pub open spec fn year_start(yoe: int) -> int {
    365 * yoe + trunc_div(yoe, 4) - trunc_div(yoe, 100)
}

/// The month, counted from March as 0, of the day `doy` of a year that
/// starts on March 1.
pub open spec fn month_of_year(doy: int) -> int {
    trunc_div(5 * doy + 2, 153)
}

/// The day of the month of the day `doy` of a year that starts on March 1.
pub open spec fn day_of_month(doy: int) -> int {
    doy - trunc_div(153 * month_of_year(doy) + 2, 5) + 1
}

/// The date `(year, month, day)` of the day `days` after 1970-01-01, by
/// the era-based conversion: shift the epoch to 0000-03-01, split into
/// 400-year eras, then into the year of the era and the day of that year
/// counted from March.
pub open spec fn civil(days: int) -> (int, int, int) {
    let z = days + 719468;
    let era = era_of(z);
    let doe = z - era * 146097;
    let yoe = year_of_era(doe);
    let doy = doe - year_start(yoe);
    let mp = month_of_year(doy);
    let d = day_of_month(doy);
    let m = mp + if mp < 10 { 3int } else { -9int };
    (yoe + era * 400 + if m <= 2 { 1int } else { 0int }, m, d)
}

/// A leap year of the proleptic Gregorian calendar.
pub open spec fn is_leap(y: int) -> bool {
    y % 4 == 0 && (y % 100 != 0 || y % 400 == 0)
}

/// The number of days of the month `m` of the year `y`.
pub open spec fn days_in_month(y: int, m: int) -> int {
    if m == 2 {
        if is_leap(y) { 29 } else { 28 }
    } else if m == 4 || m == 6 || m == 9 || m == 11 {
        30
    } else {
        31
    }
}

/// The day after the date `(y, m, d)`.
pub open spec fn next_date(date: (int, int, int)) -> (int, int, int) {
    let (y, m, d) = date;
    if d < days_in_month(y, m) {
        (y, m, d + 1)
    } else if m < 12 {
        (y, m + 1, 1)
    } else {
        (y + 1, 1, 1)
    }
}

/// A real date: a month from 1 to 12, a day within that month.
pub open spec fn valid_date(date: (int, int, int)) -> bool {
    1 <= date.1 <= 12 && 1 <= date.2 <= days_in_month(date.0, date.1)
}

/// The length of a month counted from March as 0, with February at 29.
spec fn month_length(mp: int) -> int {
    if mp == 1 || mp == 3 || mp == 6 || mp == 8 {
        30
    } else if mp == 11 {
        29
    } else {
        31
    }
}

/// The number of days of the year `yoe` of an era: 366 where the
/// February that ends it has 29 days.
spec fn year_length(yoe: int) -> int {
    if is_leap(yoe + 1) { 366 } else { 365 }
}

/// What the conversion does within one year, for every day of a year.
spec fn year_fact(doy: int) -> bool {
    let mp = month_of_year(doy);
    let d = day_of_month(doy);
    &&& 0 <= mp <= 11
    &&& 1 <= d <= month_length(mp)
    &&& mp == 11 ==> d == doy - 336
    &&& doy == 0 ==> mp == 0 && d == 1
    &&& doy < 365 ==> if d < month_length(mp) {
        month_of_year(doy + 1) == mp && day_of_month(doy + 1) == d + 1
    } else {
        month_of_year(doy + 1) == mp + 1 && day_of_month(doy + 1) == 1
    }
}

/// Where each year of an era starts and ends.
spec fn era_fact(yoe: int) -> bool {
    let s = year_start(yoe);
    let e = s + year_length(yoe) - 1;
    &&& year_of_era(s) == yoe
    &&& year_of_era(e) == yoe
    &&& yoe < 399 ==> year_start(yoe + 1) == e + 1
    &&& yoe == 399 ==> e == 146096
}

proof fn lemma_month_bounds(doy: int)
    requires
        0 <= doy <= 366,
    ensures
        0 <= month_of_year(doy) <= 11 || doy == 366,
        month_of_year(doy) == (5 * doy + 2) / 153,
        153 * month_of_year(doy) <= 5 * doy + 2 < 153 * month_of_year(doy) + 153,
        day_of_month(doy) == doy - (153 * month_of_year(doy) + 2) / 5 + 1,
{
}

proof fn lemma_year_facts(doy: int)
    requires
        0 <= doy <= 365,
    ensures
        year_fact(doy),
{
    lemma_month_bounds(doy);
    lemma_month_bounds(doy + 1);
    let mp = month_of_year(doy);
    let mp1 = month_of_year(doy + 1);
    // The first day of each month, counted from March 1.
    assert(mp == 0 ==> 0 <= doy <= 30);
    assert(mp == 1 ==> 31 <= doy <= 60);
    assert(mp == 2 ==> 61 <= doy <= 91);
    assert(mp == 3 ==> 92 <= doy <= 121);
    assert(mp == 4 ==> 122 <= doy <= 152);
    assert(mp == 5 ==> 153 <= doy <= 183);
    assert(mp == 6 ==> 184 <= doy <= 213);
    assert(mp == 7 ==> 214 <= doy <= 244);
    assert(mp == 8 ==> 245 <= doy <= 274);
    assert(mp == 9 ==> 275 <= doy <= 305);
    assert(mp == 10 ==> 306 <= doy <= 336);
    assert(mp == 11 ==> 337 <= doy <= 365);
    if mp == 0 {
        assert((153 * 0 + 2) / 5 == 0);
    } else if mp == 1 {
        assert((153 * 1 + 2) / 5 == 31);
    } else if mp == 2 {
        assert((153 * 2 + 2) / 5 == 61);
    } else if mp == 3 {
        assert((153 * 3 + 2) / 5 == 92);
    } else if mp == 4 {
        assert((153 * 4 + 2) / 5 == 122);
    } else if mp == 5 {
        assert((153 * 5 + 2) / 5 == 153);
    } else if mp == 6 {
        assert((153 * 6 + 2) / 5 == 184);
    } else if mp == 7 {
        assert((153 * 7 + 2) / 5 == 214);
    } else if mp == 8 {
        assert((153 * 8 + 2) / 5 == 245);
    } else if mp == 9 {
        assert((153 * 9 + 2) / 5 == 275);
    } else if mp == 10 {
        assert((153 * 10 + 2) / 5 == 306);
    } else {
        assert((153 * 11 + 2) / 5 == 337);
    }
    if mp1 == 0 {
        assert((153 * 0 + 2) / 5 == 0);
    } else if mp1 == 1 {
        assert((153 * 1 + 2) / 5 == 31);
    } else if mp1 == 2 {
        assert((153 * 2 + 2) / 5 == 61);
    } else if mp1 == 3 {
        assert((153 * 3 + 2) / 5 == 92);
    } else if mp1 == 4 {
        assert((153 * 4 + 2) / 5 == 122);
    } else if mp1 == 5 {
        assert((153 * 5 + 2) / 5 == 153);
    } else if mp1 == 6 {
        assert((153 * 6 + 2) / 5 == 184);
    } else if mp1 == 7 {
        assert((153 * 7 + 2) / 5 == 214);
    } else if mp1 == 8 {
        assert((153 * 8 + 2) / 5 == 245);
    } else if mp1 == 9 {
        assert((153 * 9 + 2) / 5 == 275);
    } else if mp1 == 10 {
        assert((153 * 10 + 2) / 5 == 306);
    } else if mp1 == 11 {
        assert((153 * 11 + 2) / 5 == 337);
    }
}


proof fn lemma_era_facts(yoe: int)
    requires
        0 <= yoe <= 399,
    ensures
        era_fact(yoe),
{
    let c = yoe / 100;
    let u = yoe % 100;
    let w = u / 4;
    let r = u % 4;
    let q = yoe / 4;
    assert(yoe == 100 * c + 4 * w + r);
    assert(0 <= c <= 3 && 0 <= w <= 24 && 0 <= r <= 3);
    assert(q == 25 * c + w);
    let s = year_start(yoe);
    assert(s == 36524 * c + 365 * u + w);
    assert(s == 1460 * q + 365 * r + q - c);
    // the start of the year
    assert(s / 1460 == q);
    assert(s / 36524 == c);
    assert(s / 146096 == 0);
    assert(year_of_era(s) == yoe);
    // whether the year holds a February 29
    let leap = is_leap(yoe + 1);
    assert((yoe + 1) % 4 == 0 <==> r == 3);
    assert((yoe + 1) % 100 == 0 <==> u == 99);
    assert((yoe + 1) % 400 == 0 <==> yoe == 399);
    assert(leap <==> r == 3 && (u != 99 || c == 3));
    let l: int = if leap { 1 } else { 0 };
    let e = s + year_length(yoe) - 1;
    assert(e == s + 364 + l);
    // the end of the year
    let k: int = if r == 3 { 1 } else { 0 };
    let last: int = if yoe == 399 { 1 } else { 0 };
    assert(e / 1460 == q + k);
    assert(e / 36524 == c + last);
    assert(e / 146096 == last);
    assert(year_of_era(e) == yoe);
    if yoe < 399 {
        let n = yoe + 1;
        let ku: int = if u == 99 { 1 } else { 0 };
        assert(n / 4 == q + k);
        assert(n / 100 == c + ku);
        assert(year_start(n) == e + 1);
    }
}

proof fn lemma_year_of_era_grows(x: int, y: int)
    requires
        0 <= x <= y <= 146096,
    ensures
        year_of_era(x) <= year_of_era(y),
{
    let tx = x - x / 1460 + x / 36524 - x / 146096;
    let ty = y - y / 1460 + y / 36524 - y / 146096;
    assert(1460 * (x / 1460) <= x < 1460 * (x / 1460) + 1460);
    assert(1460 * (y / 1460) <= y < 1460 * (y / 1460) + 1460);
    assert(36524 * (x / 36524) <= x < 36524 * (x / 36524) + 36524);
    assert(36524 * (y / 36524) <= y < 36524 * (y / 36524) + 36524);
    assert(y / 1460 - x / 1460 <= y - x);
    assert(x / 36524 <= y / 36524);
    if y == 146096 && x < 146096 {
        assert(y / 36524 == 4);
        assert(x / 36524 <= 3);
    }
    assert(tx <= ty);
    assert(year_of_era(x) == tx / 365);
    assert(year_of_era(y) == ty / 365);
}

/// The year of the era that holds the day `doe`, and where that day lies
/// in it.
proof fn lemma_day_in_year(doe: int)
    requires
        0 <= doe <= 146096,
    ensures
        0 <= year_of_era(doe) <= 399,
        year_start(year_of_era(doe)) <= doe <= year_start(year_of_era(doe)) + year_length(
            year_of_era(doe),
        ) - 1,
{
    lemma_year_of_era_grows(0, doe);
    lemma_year_of_era_grows(doe, 146096);
    lemma_era_facts(0);
    lemma_era_facts(399);
    let yoe = year_of_era(doe);
    assert(0 <= yoe <= 399);
    lemma_era_facts(yoe);
    let s = year_start(yoe);
    let e = s + year_length(yoe) - 1;
    if doe < s {
        // the year before ends just before `s`
        lemma_era_facts(yoe - 1);
        lemma_year_of_era_grows(doe, s - 1);
    }
    if doe > e {
        // the next year starts just after `e`
        lemma_era_facts(yoe + 1);
        lemma_year_of_era_grows(e + 1, doe);
    }
}

/// The day after the day `doe` of an era, when it is not the era's last.
proof fn lemma_next_day_of_era(doe: int)
    requires
        0 <= doe < 146096,
    ensures
        ({
            let yoe = year_of_era(doe);
            let doy = doe - year_start(yoe);
            if doy < year_length(yoe) - 1 {
                year_of_era(doe + 1) == yoe && doe + 1 - year_start(yoe) == doy + 1
            } else {
                yoe < 399 && year_of_era(doe + 1) == yoe + 1 && doe + 1 - year_start(yoe + 1) == 0
            }
        }),
{
    lemma_day_in_year(doe);
    lemma_day_in_year(doe + 1);
    let yoe = year_of_era(doe);
    lemma_era_facts(yoe);
    lemma_year_of_era_grows(doe, doe + 1);
    let n = year_of_era(doe + 1);
    lemma_era_facts(n);
    if n > yoe {
        lemma_era_facts(yoe + 1);
        if n > yoe + 1 {
            lemma_year_of_era_grows(year_start(yoe + 1), doe + 1);
        }
    }
}

proof fn lemma_era_floor(z: int)
    ensures
        era_of(z) == z / 146097,
        0 <= z - era_of(z) * 146097 <= 146096,
{
    if z < 0 {
        let w = 146096 - z;
        let q = w / 146097;
        let r = w % 146097;
        assert(w == 146097 * q + r && 0 <= r < 146097);
        assert(z == 146097 * (-q) + (146096 - r));
        assert(era_of(z) == -q);
    }
}

/// The date of the day `doy` of the year `yoe` of the era `era`.
spec fn date_of(era: int, yoe: int, doy: int) -> (int, int, int) {
    let mp = month_of_year(doy);
    let d = day_of_month(doy);
    let m = mp + if mp < 10 { 3int } else { -9int };
    (yoe + era * 400 + if m <= 2 { 1int } else { 0int }, m, d)
}

proof fn lemma_civil_parts(days: int)
    ensures
        ({
            let z = days + 719468;
            let era = era_of(z);
            let doe = z - era * 146097;
            let yoe = year_of_era(doe);
            &&& 0 <= doe <= 146096
            &&& 0 <= yoe <= 399
            &&& 0 <= doe - year_start(yoe) <= year_length(yoe) - 1
            &&& civil(days) == date_of(era, yoe, doe - year_start(yoe))
        }),
{
    let z = days + 719468;
    lemma_era_floor(z);
    lemma_day_in_year(z - era_of(z) * 146097);
}

proof fn lemma_leap_in_era(era: int, k: int)
    ensures
        is_leap(era * 400 + k) == is_leap(k),
{
    assert((era * 400 + k) % 4 == k % 4) by (nonlinear_arith);
    assert((era * 400 + k) % 100 == k % 100) by (nonlinear_arith);
    assert((era * 400 + k) % 400 == k % 400) by (nonlinear_arith);
}

proof fn lemma_date_valid(era: int, yoe: int, doy: int)
    requires
        0 <= yoe <= 399,
        0 <= doy <= year_length(yoe) - 1,
    ensures
        valid_date(date_of(era, yoe, doy)),
{
    lemma_year_facts(doy);
    lemma_leap_in_era(era, yoe + 1);
    assert(yoe + era * 400 + 1 == era * 400 + (yoe + 1));
}

proof fn lemma_date_next(era: int, yoe: int, doy: int)
    requires
        0 <= yoe <= 399,
        0 <= doy < year_length(yoe) - 1,
    ensures
        date_of(era, yoe, doy + 1) == next_date(date_of(era, yoe, doy)),
{
    lemma_year_facts(doy);
    lemma_year_facts(doy + 1);
    lemma_leap_in_era(era, yoe + 1);
    assert(yoe + era * 400 + 1 == era * 400 + (yoe + 1));
}

proof fn lemma_date_year_end(era: int, yoe: int)
    requires
        0 <= yoe < 399,
    ensures
        date_of(era, yoe + 1, 0) == next_date(date_of(era, yoe, year_length(yoe) - 1)),
{
    lemma_year_facts(year_length(yoe) - 1);
    lemma_year_facts(0);
    lemma_leap_in_era(era, yoe + 1);
    assert(yoe + era * 400 + 1 == era * 400 + (yoe + 1));
}

proof fn lemma_date_era_end(era: int)
    ensures
        date_of(era + 1, 0, 0) == next_date(date_of(era, 399, 365)),
{
    lemma_year_facts(365);
    lemma_year_facts(0);
    lemma_leap_in_era(era, 400);
    assert(399 + era * 400 + 1 == era * 400 + 400);
    assert(is_leap(400int));
}

/// Every day is a real date: a month from 1 to 12 and a day within that
/// month, February having 29 days in leap years only.
pub proof fn lemma_civil_valid(days: int)
    ensures
        valid_date(civil(days)),
{
    lemma_civil_parts(days);
    let z = days + 719468;
    let era = era_of(z);
    let doe = z - era * 146097;
    let yoe = year_of_era(doe);
    lemma_date_valid(era, yoe, doe - year_start(yoe));
}

/// The day after a day is the next calendar date: the day after in the
/// same month, the first of the next month, or New Year's Day.
pub proof fn lemma_civil_next_day(days: int)
    ensures
        civil(days + 1) == next_date(civil(days)),
{
    lemma_civil_parts(days);
    lemma_civil_parts(days + 1);
    let z = days + 719468;
    let era = era_of(z);
    let doe = z - era * 146097;
    let yoe = year_of_era(doe);
    let doy = doe - year_start(yoe);
    lemma_era_floor(z);
    lemma_era_floor(z + 1);
    if doe < 146096 {
        assert(era_of(z + 1) == era);
        lemma_next_day_of_era(doe);
        if doy < year_length(yoe) - 1 {
            lemma_date_next(era, yoe, doy);
        } else {
            lemma_date_year_end(era, yoe);
        }
    } else {
        assert(era_of(z + 1) == era + 1);
        lemma_day_in_year(doe);
        lemma_era_facts(399);
        lemma_era_facts(yoe);
        assert(yoe == 399) by {
            lemma_year_of_era_grows(year_start(399), doe);
        }
        assert(doy == 365);
        lemma_era_facts(0);
        assert(year_of_era(0) == 0);
        lemma_date_era_end(era);
    }
}

/// The largest day count that the conversion accepts without overflow.
pub open spec fn max_days() -> int {
    i64::MAX - 719468
}

proof fn lemma_era(z: int)
    requires
        i64::MIN + 719468 <= z <= i64::MAX,
    ensures
        ({
            let era = trunc_div(if z >= 0 { z } else { z - 146096 }, 146097);
            &&& 0 <= z - era * 146097 <= 146096
            &&& i64::MIN <= era * 146097 <= i64::MAX
            &&& era * 146097 <= z
            &&& i64::MIN / 146097 - 1 <= era <= i64::MAX / 146097
        }),
{
    let era = trunc_div(if z >= 0 { z } else { z - 146096 }, 146097);
    if z >= 0 {
        assert(era == z / 146097);
        assert(0 <= z - era * 146097 <= 146096) by (nonlinear_arith)
            requires
                era == z / 146097,
                z >= 0,
        ;
        assert(era <= i64::MAX / 146097) by (nonlinear_arith)
            requires
                era == z / 146097,
                z <= i64::MAX,
                z >= 0,
        ;
    } else {
        let w = -(z - 146096);
        assert(era == -(w / 146097));
        assert(0 <= z - era * 146097 <= 146096) by (nonlinear_arith)
            requires
                era == -(w / 146097),
                w == 146096 - z,
                z < 0,
        ;
        assert(i64::MIN / 146097 - 1 <= era) by (nonlinear_arith)
            requires
                era == -(w / 146097),
                w == 146096 - z,
                z >= i64::MIN + 719468,
        ;
    }
}

proof fn lemma_year_of_era(doe: int)
    requires
        0 <= doe <= 146096,
    ensures
        ({
            let t = doe - doe / 1460 + doe / 36524 - doe / 146096;
            let yoe = t / 365;
            let doy = doe - (365 * yoe + yoe / 4 - yoe / 100);
            &&& 0 <= t
            &&& 0 <= yoe <= 399
            &&& 0 <= doy <= 365
        }),
{
    lemma_day_in_year(doe);
    let t = doe - doe / 1460 + doe / 36524 - doe / 146096;
    assert(year_of_era(doe) == t / 365);
    assert(0 <= t);
}

proof fn lemma_month_day(doy: int)
    requires
        0 <= doy <= 365,
    ensures
        ({
            let mp = (5 * doy + 2) / 153;
            let d = doy - (153 * mp + 2) / 5 + 1;
            &&& 0 <= mp <= 11
            &&& 1 <= d <= 31
        }),
{
    let mp = (5 * doy + 2) / 153;
    assert(153 * mp <= 5 * doy + 2 < 153 * mp + 153);
    assert(0 <= mp <= 11);
    let q = (153 * mp + 2) / 5;
    assert(5 * q <= 153 * mp + 2 < 5 * q + 5);
    let d = doy - q + 1;
    assert(1 <= d <= 31);
}

/// The proleptic Gregorian date `(year, month, day)` of the day
/// `days_since_epoch` days after 1970-01-01.
pub fn civil_from_days(days_since_epoch: i64) -> (r: (i64, u32, u32))
    requires
        days_since_epoch <= max_days(),
    ensures
        r.0 == civil(days_since_epoch as int).0,
        r.1 == civil(days_since_epoch as int).1,
        r.2 == civil(days_since_epoch as int).2,
        1 <= r.1 <= 12,
        1 <= r.2 <= 31,
        r.2 <= days_in_month(r.0 as int, r.1 as int),
        days_since_epoch >= 0 ==> r.0 >= 1970,
{
    proof {
        lemma_civil_valid(days_since_epoch as int);
    }
    let z = days_since_epoch + 719468;
    proof {
        lemma_era(z as int);
    }
    let era = if z >= 0 { z } else { z - 146096 } / 146097;
    let day_of_era = z - era * 146097;
    proof {
        lemma_year_of_era(day_of_era as int);
    }
    let year_of_era = (day_of_era - day_of_era / 1460 + day_of_era / 36524 - day_of_era / 146096)
        / 365;
    let mut year = year_of_era + era * 400;
    let day_of_year = day_of_era - (365 * year_of_era + year_of_era / 4 - year_of_era / 100);
    proof {
        lemma_month_day(day_of_year as int);
    }
    let month_prime = (5 * day_of_year + 2) / 153;
    let day = day_of_year - (153 * month_prime + 2) / 5 + 1;
    let month = month_prime + if month_prime < 10 { 3 } else { -9 };
    year += if month <= 2 { 1 } else { 0 };
    (year, month as u32, day as u32)
}

} // verus!
