use vstd::prelude::*;

verus! {

/// Gregorian leap-year rule (proleptic calendar, astronomical year numbering).
pub open spec fn is_leap_year(y: int) -> bool {
    (y % 4 == 0 && y % 100 != 0) || y % 400 == 0
}

/// Number of days of month `m` (1..=12) of year `y`.
pub open spec fn days_in_month(y: int, m: int) -> int {
    if m == 2 {
        if is_leap_year(y) { 29 } else { 28 }
    } else if m == 4 || m == 6 || m == 9 || m == 11 {
        30
    } else {
        31
    }
}

/// `(y, m, d)` names a day that exists in the proleptic Gregorian calendar.
pub open spec fn is_valid_date(y: int, m: int, d: int) -> bool {
    1 <= m <= 12 && 1 <= d <= days_in_month(y, m)
}

/// Year of the March-based calendar in which month `m` of year `y` falls.
pub open spec fn march_year(y: int, m: int) -> int {
    if m <= 2 { y - 1 } else { y }
}

/// Month index counted from March (March = 0, ..., February = 11).
pub open spec fn march_month(m: int) -> int {
    if m > 2 { m - 3 } else { m + 9 }
}

/// Days from March 1st to the first day of the March-based month `mp`.
pub open spec fn days_before_march_month(mp: int) -> int {
    (153 * mp + 2) / 5
}

/// Day number since 1970-01-01 of the civil date `(y, m, d)`, in closed form.
pub open spec fn days_from_civil(y: int, m: int, d: int) -> int {
    let yp = march_year(y, m);
    365 * yp + yp / 4 - yp / 100 + yp / 400 + days_before_march_month(march_month(m)) + d - 1
        - 719468
}

/// Days of the shifted year `yoe` of a 400-year cycle (it ends with the
/// February of year `yoe + 1`).
pub open spec fn shifted_year_len(yoe: int) -> int {
    if is_leap_year(yoe + 1) { 366 } else { 365 }
}

/// Days before the shifted year `yoe` within its 400-year cycle.
pub open spec fn days_before_yoe(yoe: int) -> int {
    365 * yoe + yoe / 4 - yoe / 100
}

/// Shifted year within the cycle of the cycle day `doe`.
pub open spec fn yoe_of_doe(doe: int) -> int {
    (doe - doe / 1460 + doe / 36524 - doe / 146096) / 365
}

/// March-based month of the day `doy` of a shifted year.
pub open spec fn march_month_of_doy(doy: int) -> int {
    (5 * doy + 2) / 153
}

/// Civil date `(year, month, day)` of the day number `z` since 1970-01-01.
pub open spec fn civil_from_days(z: int) -> (int, int, int) {
    let zz = z + 719468;
    let era = zz / 146097;
    let doe = zz - era * 146097;
    let yoe = yoe_of_doe(doe);
    let doy = doe - days_before_yoe(yoe);
    let mp = march_month_of_doy(doy);
    let d = doy - days_before_march_month(mp) + 1;
    let m = if mp < 10 { mp + 3 } else { mp - 9 };
    let y = yoe + era * 400;
    (if m <= 2 { y + 1 } else { y }, m, d)
}

/// The calendar day after `(y, m, d)`.
pub open spec fn next_date(y: int, m: int, d: int) -> (int, int, int) {
    if d < days_in_month(y, m) {
        (y, m, d + 1)
    } else if m < 12 {
        (y, m + 1, 1)
    } else {
        (y + 1, 1, 1)
    }
}

pub(crate) proof fn lemma_yoe_of_doe(doe: int)
    requires
        0 <= doe <= 146096,
    ensures
        0 <= yoe_of_doe(doe) <= 399,
        days_before_yoe(yoe_of_doe(doe)) <= doe,
        doe < days_before_yoe(yoe_of_doe(doe)) + shifted_year_len(yoe_of_doe(doe)),
{
}

pub(crate) proof fn lemma_doe_of_yoe(yoe: int, doy: int)
    requires
        0 <= yoe <= 399,
        0 <= doy < shifted_year_len(yoe),
    ensures
        0 <= days_before_yoe(yoe) + doy <= 146096,
        yoe_of_doe(days_before_yoe(yoe) + doy) == yoe,
{
}

/// Length of the March-based month `mp` in a shifted year whose February
/// has `feb` days.
pub open spec fn march_month_len(mp: int, feb: int) -> int {
    if mp == 11 { feb } else { days_before_march_month(mp + 1) - days_before_march_month(mp) }
}

pub(crate) proof fn lemma_month_of_doy(doy: int, feb: int)
    requires
        28 <= feb <= 29,
        0 <= doy < 337 + feb,
    ensures
        0 <= march_month_of_doy(doy) <= 11,
        days_before_march_month(march_month_of_doy(doy)) <= doy,
        doy < days_before_march_month(march_month_of_doy(doy)) + march_month_len(
            march_month_of_doy(doy),
            feb,
        ),
{
}

pub(crate) proof fn lemma_doy_of_month(mp: int, d: int, feb: int)
    requires
        28 <= feb <= 29,
        0 <= mp <= 11,
        0 <= d < march_month_len(mp, feb),
    ensures
        march_month_of_doy(days_before_march_month(mp) + d) == mp,
        days_before_march_month(mp) + d < 337 + feb,
{
}

pub(crate) proof fn lemma_month_len(y: int, m: int)
    requires
        1 <= m <= 12,
    ensures
        march_month_len(march_month(m), days_in_month(march_year(y, m) + 1, 2)) == days_in_month(
            y,
            m,
        ),
{
}


pub(crate) proof fn lemma_div_shift(a: int, k: int, b: int)
    requires
        k > 0,
    ensures
        (a * k + b) / k == a + b / k,
        (a * k + b) % k == b % k,
{
    vstd::arithmetic::div_mod::lemma_fundamental_div_mod(b, k);
    assert(a * k + b == (a + b / k) * k + b % k) by (nonlinear_arith)
        requires
            b == k * (b / k) + b % k,
    ;
    vstd::arithmetic::div_mod::lemma_fundamental_div_mod_converse(a * k + b, k, a + b / k, b % k);
}

pub(crate) proof fn lemma_year_decomp(era: int, yoe: int)
    requires
        0 <= yoe <= 399,
    ensures
        ({
            let y = era * 400 + yoe;
            365 * y + y / 4 - y / 100 + y / 400 == era * 146097 + days_before_yoe(yoe)
        }),
        is_leap_year(era * 400 + yoe + 1) == is_leap_year(yoe + 1),
{
    lemma_div_shift(era * 100, 4, yoe);
    lemma_div_shift(era * 4, 100, yoe);
    lemma_div_shift(era, 400, yoe);
    lemma_div_shift(era * 100, 4, yoe + 1);
    lemma_div_shift(era * 4, 100, yoe + 1);
    lemma_div_shift(era, 400, yoe + 1);
    assert(era * 100 * 4 == era * 400) by (nonlinear_arith);
    assert(era * 4 * 100 == era * 400) by (nonlinear_arith);
}

/// The civil date of every day number exists in the calendar and maps back
/// to that day number.
pub proof fn lemma_civil_from_days(z: int)
    ensures
        ({
            let (y, m, d) = civil_from_days(z);
            is_valid_date(y, m, d) && days_from_civil(y, m, d) == z
        }),
{
    let zz = z + 719468;
    let era = zz / 146097;
    let doe = zz - era * 146097;
    lemma_yoe_of_doe(doe);
    let yoe = yoe_of_doe(doe);
    let doy = doe - days_before_yoe(yoe);
    lemma_year_decomp(era, yoe);
    let feb: int = if is_leap_year(yoe + 1) { 29 } else { 28 };
    lemma_month_of_doy(doy, feb);
    let mp = march_month_of_doy(doy);
    let (y, m, d) = civil_from_days(z);
    assert(march_month(m) == mp);
    assert(march_year(y, m) == era * 400 + yoe);
    lemma_month_len(y, m);
}


/// A day that exists in the calendar is recovered from its day number.
pub proof fn lemma_days_to_civil(y: int, m: int, d: int)
    requires
        is_valid_date(y, m, d),
    ensures
        civil_from_days(days_from_civil(y, m, d)) == (y, m, d),
{
    let yp = march_year(y, m);
    let era = yp / 400;
    let yoe = yp % 400;
    let mp = march_month(m);
    let doy = days_before_march_month(mp) + d - 1;
    assert(yp == era * 400 + yoe);
    lemma_year_decomp(era, yoe);
    let feb = days_in_month(yp + 1, 2);
    lemma_month_len(y, m);
    lemma_doy_of_month(mp, d - 1, feb);
    lemma_doe_of_yoe(yoe, doy);
    let doe = days_before_yoe(yoe) + doy;
    lemma_div_shift(era, 146097, doe);
    assert(days_from_civil(y, m, d) + 719468 == era * 146097 + doe);
}

/// Two days of the calendar with the same day number are the same day.
pub proof fn lemma_days_from_civil_injective(y1: int, m1: int, d1: int, y2: int, m2: int, d2: int)
    requires
        is_valid_date(y1, m1, d1),
        is_valid_date(y2, m2, d2),
        days_from_civil(y1, m1, d1) == days_from_civil(y2, m2, d2),
    ensures
        y1 == y2 && m1 == m2 && d1 == d2,
{
    lemma_days_to_civil(y1, m1, d1);
    lemma_days_to_civil(y2, m2, d2);
}

/// Day numbers count days: the next calendar day has the next day number.
pub proof fn lemma_next_date(y: int, m: int, d: int)
    requires
        is_valid_date(y, m, d),
    ensures
        ({
            let (y2, m2, d2) = next_date(y, m, d);
            is_valid_date(y2, m2, d2) && days_from_civil(y2, m2, d2) == days_from_civil(y, m, d) + 1
        }),
{
    if d == days_in_month(y, m) && m == 2 {
        lemma_leap_count(y);
    }
}

/// The Gregorian leap-day count grows by one exactly at leap years.
pub(crate) proof fn lemma_leap_count(y: int)
    ensures
        (y / 4 - y / 100 + y / 400) - ((y - 1) / 4 - (y - 1) / 100 + (y - 1) / 400) == if is_leap_year(
            y,
        ) {
            1int
        } else {
            0
        },
{
    assert(y / 4 - (y - 1) / 4 == if y % 4 == 0 { 1int } else { 0 });
    assert(y / 100 - (y - 1) / 100 == if y % 100 == 0 { 1int } else { 0 });
    assert(y / 400 - (y - 1) / 400 == if y % 400 == 0 { 1int } else { 0 });
    assert(y % 100 == 0 ==> y % 4 == 0);
    assert(y % 400 == 0 ==> y % 100 == 0);
}

pub(crate) proof fn lemma_days_into_year(y: int, m: int, d: int)
    requires
        1 <= m <= 12,
    ensures
        days_from_civil(y, m, d) - days_from_civil(y, 1, 1) == days_from_civil(2001, m, 1)
            - days_from_civil(2001, 1, 1) + d - 1 + if m > 2 && is_leap_year(y) {
            1int
        } else {
            0
        },
{
    lemma_leap_count(y);
    lemma_leap_count(2001);
}

/// Day number zero is 1970-01-01.
pub proof fn lemma_epoch()
    ensures
        days_from_civil(1970, 1, 1) == 0,
        civil_from_days(0) == (1970int, 1int, 1int),
{
    lemma_days_to_civil(1970, 1, 1);
}


} // verus!
