//! Calendar quantities used by evapotranspiration formulas.
use vstd::prelude::*;

use crate::calendar::{
    civil_from_days, lemma_civil_from_days, days_from_civil, is_leap_year, lemma_days_into_year, days_in_month,
};
use crate::forcing::civil_from_epoch_day;

verus! {

/// Days of a common year before the first day of month `m` (1..=12).
fn common_days_before_month(m: u32) -> (r: u32)
    requires
        1 <= m <= 12,
    ensures
        r == days_from_civil(2001, m as int, 1) - days_from_civil(2001, 1, 1),
{
    match m {
        1 => 0,
        2 => 31,
        3 => 59,
        4 => 90,
        5 => 120,
        6 => 151,
        7 => 181,
        8 => 212,
        9 => 243,
        10 => 273,
        11 => 304,
        _ => 334,
    }
}

/// Day of the year (1 for January 1st) of the day number `z`.
#[verifier::opaque]
pub open spec fn day_of_year_of(z: int) -> int {
    z - days_from_civil(civil_from_days(z).0, 1, 1) + 1
}

/// Day of the year counts the days of a year from 1: January 1st is day 1,
/// and each following day of the same year is one more.
pub proof fn lemma_day_of_year_counts(z: int)
    ensures
        civil_from_days(z).1 == 1 && civil_from_days(z).2 == 1 ==> day_of_year_of(z) == 1,
        civil_from_days(z + 1).0 == civil_from_days(z).0 ==> day_of_year_of(z + 1)
            == day_of_year_of(z) + 1,
{
    reveal(day_of_year_of);
    lemma_civil_from_days(z);
}

/// Gregorian leap-year test on a machine integer.
fn leap_year(y: i64) -> (r: bool)
    ensures
        r == is_leap_year(y as int),
{
    (y % 4 == 0 && y % 100 != 0) || y % 400 == 0
}

/// Day of the year (1..=366) of the day number `epoch_day`.
pub fn day_of_year(epoch_day: i64) -> (r: u32)
    requires
        epoch_day <= i64::MAX - 719_468,
    ensures
        r == day_of_year_of(epoch_day as int),
        1 <= r <= if is_leap_year(civil_from_days(epoch_day as int).0) { 366int } else { 365 },
{
    let (y, m, d) = civil_from_epoch_day(epoch_day);
    proof {
        reveal(day_of_year_of);
    }
    let leap = leap_year(y);
    let base = common_days_before_month(m);
    let ghost year_start = days_from_civil(y as int, 1, 1);
    proof {
        lemma_days_into_year(y as int, m as int, d as int);
        assert(civil_from_days(epoch_day as int).0 == y);
        assert(epoch_day - year_start == base + d - 1 + if m > 2 && leap { 1int } else { 0 });
        assert(base + d <= 365) by {
            assert(d <= days_in_month(y as int, m as int));
        }
    }
    base + d + if leap && m > 2 { 1 } else { 0 }
}


/// Day of the year of each of the `n` days from `start_epoch_day` on.
pub fn days_of_year_from(start_epoch_day: i64, n: usize) -> (r: Vec<u32>)
    requires
        n <= i64::MAX,
        n == 0 || start_epoch_day + n - 1 <= i64::MAX - 719_468,
    ensures
        r@.len() == n,
        forall|i: int|
            0 <= i < n ==> #[trigger] r@[i] == day_of_year_of(start_epoch_day + i),
{
    let mut out: Vec<u32> = Vec::with_capacity(n);
    let mut i: usize = 0;
    while i < n
        invariant
            i <= n,
            n <= i64::MAX,
            n == 0 || start_epoch_day + n - 1 <= i64::MAX - 719_468,
            out@.len() == i,
            forall|h: int|
                0 <= h < i ==> #[trigger] out@[h] == day_of_year_of(start_epoch_day + h),
        decreases n - i,
    {
        out.push(day_of_year(start_epoch_day + i as i64));
        i = i + 1;
    }
    out
}

} // verus!
