//! Forcing series for hydrological engines: canonical variables, the
//! daily date axis in days since the Unix epoch, and alignment of series to
//! their common period.
use vstd::prelude::*;
use vstd::string::*;
use vstd::utf8::encode_utf8;

use crate::calendar::{
    civil_from_days, days_in_month, days_before_march_month, days_before_yoe, march_month, march_year, days_from_civil, is_leap_year, is_valid_date, lemma_civil_from_days,
    lemma_days_to_civil, lemma_month_of_doy, lemma_year_decomp, lemma_yoe_of_doe,
};
use crate::date_text::{
    date_text, day_field, epoch_day_text, is_digit_char, is_text_day, lemma_epoch_day_text_chars,
    lemma_parsed_date_range, month_field, parse_field, parsed_date, push_zero_padded, year_field,
};
use crate::csv_text::{lemma_split_commas_push, lemma_split_commas_single, split_commas};
use crate::error::DownscaleError;

verus! {

/// The `i64` arithmetic of [`epoch_day_from_civil`] stays in range for
/// `(year, month, day)`: the March-based year (and the shift by 399 that
/// floors its era), the days of whole eras, and the sums with the days
/// within the era and with the epoch offset.
pub open spec fn civil_arithmetic_in_range(year: int, month: int, day: int) -> bool {
    let y = march_year(year, month);
    let era = y / 400;
    let doe = days_before_yoe(y - era * 400) + days_before_march_month(march_month(month)) + day
        - 1;
    &&& i64::MIN <= y
    &&& y < 0 ==> i64::MIN <= y - 399
    &&& i64::MIN <= era * 146_097 <= i64::MAX
    &&& i64::MIN <= era * 146_097 + doe <= i64::MAX
    &&& i64::MIN <= era * 146_097 + doe - 719_468
}

/// Days since 1970-01-01 of the civil date `(year, month, day)` (Hinnant's
/// algorithm, valid for the whole proleptic Gregorian calendar).
pub fn epoch_day_from_civil(year: i64, month: u32, day: u32) -> (r: i64)
    requires
        civil_arithmetic_in_range(year as int, month as int, day as int),
    ensures
        r == days_from_civil(year as int, month as int, day as int),
{
    let y: i64 = if month <= 2 { year - 1 } else { year };
    let shifted: i64 = if y >= 0 { y } else { y - 399 };
    let era: i64 = shifted / 400;
    proof {
        if y < 0 {
            assert(era == -((399 - y) / 400));
            assert(era == y / 400);
        }
    }
    let yoe: i64 = y - era * 400;
    let mp: i64 = if month > 2 { (month - 3) as i64 } else { (month + 9) as i64 };
    let doy: i64 = (153 * mp + 2) / 5 + day as i64 - 1;
    let doe: i64 = yoe * 365 + yoe / 4 - yoe / 100 + doy;
    proof {
        lemma_year_decomp(era as int, yoe as int);
    }
    era * 146_097 + doe - 719_468
}


/// Civil date `(year, month, day)` of the day number `z` since 1970-01-01.
pub fn civil_from_epoch_day(z: i64) -> (r: (i64, u32, u32))
    requires
        z <= i64::MAX - 719_468,
    ensures
        is_valid_date(r.0 as int, r.1 as int, r.2 as int),
        days_from_civil(r.0 as int, r.1 as int, r.2 as int) == z,
        (r.0 as int, r.1 as int, r.2 as int) == civil_from_days(z as int),
{
    let zz: i64 = z + 719_468;
    let shifted: i64 = if zz >= 0 { zz } else { zz - 146_096 };
    let era: i64 = shifted / 146_097;
    proof {
        if zz < 0 {
            assert(era == -((146_096 - zz) / 146_097));
            assert(era == zz / 146_097);
        }
    }
    let doe: i64 = zz - era * 146_097;
    proof {
        lemma_yoe_of_doe(doe as int);
    }
    let yoe: i64 = (doe - doe / 1460 + doe / 36_524 - doe / 146_096) / 365;
    let y: i64 = yoe + era * 400;
    let doy: i64 = doe - (365 * yoe + yoe / 4 - yoe / 100);
    proof {
        let feb: int = if is_leap_year(yoe + 1) { 29 } else { 28 };
        lemma_month_of_doy(doy as int, feb);
        lemma_civil_from_days(z as int);
    }
    let mp: i64 = (5 * doy + 2) / 153;
    let d: u32 = (doy - (153 * mp + 2) / 5 + 1) as u32;
    let m: u32 = (if mp < 10 { mp + 3 } else { mp - 9 }) as u32;
    (if m <= 2 { y + 1 } else { y }, m, d)
}



fn invalid_date(date: &str) -> (e: DownscaleError)
    ensures
        e matches DownscaleError::InvalidDate { value } && value@ == date@,
{
    DownscaleError::InvalidDate { value: date.to_owned() }
}

/// Parses `YYYY-MM-DD` into days since the epoch, checking that the date
/// exists.
pub fn parse_date(date: &str) -> (r: Result<i64, DownscaleError>)
    ensures
        match r {
            Ok(z) => parsed_date(date.spec_bytes()) matches Some((y, m, d)) && z == days_from_civil(
                y,
                m,
                d,
            ),
            Err(e) => parsed_date(date.spec_bytes()) is None && (e matches DownscaleError::InvalidDate {
                value,
            } && value@ == date@),
        },
        r matches Ok(z) ==> is_text_day(z as int),
        r matches Ok(z) ==> {
            let (y, m, d) = civil_from_days(z as int);
            &&& year_field(date.spec_bytes()) == Some(y)
            &&& month_field(date.spec_bytes()) == Some(m)
            &&& day_field(date.spec_bytes()) == Some(d)
        },
{
    let bytes = date.as_bytes();
    if bytes.len() < 10 || bytes[4] != 45 || bytes[7] != 45 {
        return Err(invalid_date(date));
    }
    let year = match parse_field(bytes, 0, 4, true) {
        Some(v) => v,
        None => return Err(invalid_date(date)),
    };
    let month = match parse_field(bytes, 5, 7, false) {
        Some(v) => v,
        None => return Err(invalid_date(date)),
    };
    let day = match parse_field(bytes, 8, 10, false) {
        Some(v) => v,
        None => return Err(invalid_date(date)),
    };
    if month < 1 || month > 12 || day < 1 || day > 31 {
        return Err(invalid_date(date));
    }
    let z = epoch_day_from_civil(year, month as u32, day as u32);
    let (y2, m2, d2) = civil_from_epoch_day(z);
    proof {
        if is_valid_date(year as int, month as int, day as int) {
            lemma_days_to_civil(year as int, month as int, day as int);
        }
    }
    if y2 != year || m2 != month as u32 || d2 != day as u32 {
        return Err(invalid_date(date));
    }
    proof {
        lemma_parsed_date_range(date.spec_bytes());
        lemma_parsed_date_exists(date.spec_bytes());
    }
    Ok(z)
}

/// A date text that parses names a day of the calendar: its month is one of
/// the twelve, its day lies within that month, and the date reads back
/// unchanged through its day number.
pub proof fn lemma_parsed_date_exists(b: Seq<u8>)
    ensures
        parsed_date(b) matches Some((y, m, d)) ==> {
            &&& 1 <= m <= 12
            &&& 1 <= d <= days_in_month(y, m)
            &&& civil_from_days(days_from_civil(y, m, d)) == (y, m, d)
            &&& year_field(b) == Some(y) && month_field(b) == Some(m) && day_field(b) == Some(d)
        },
{
    if let Some((y, m, d)) = parsed_date(b) {
        lemma_days_to_civil(y, m, d);
    }
}

/// Formats days since the epoch as `YYYY-MM-DD`.
pub fn format_date(epoch_day: i64) -> (r: String)
    requires
        epoch_day <= i64::MAX - 719_468,
    ensures
        r@ == epoch_day_text(epoch_day as int),
{
    let (y, m, d) = civil_from_epoch_day(epoch_day);
    let mut out = String::new();
    if y >= 0 {
        push_zero_padded(&mut out, y as u64, 4);
    } else {
        proof {
            reveal_strlit("-");
        }
        out.append("-");
        push_zero_padded(&mut out, (-y) as u64, 3);
    }
    proof {
        reveal_strlit("-");
    }
    out.append("-");
    push_zero_padded(&mut out, m as u64, 2);
    out.append("-");
    push_zero_padded(&mut out, d as u64, 2);
    assert(out@ =~= date_text(y as int, m as int, d as int));
    out
}


/// Forcing variable with its canonical column name and unit.
#[derive(Debug, Clone, Copy, PartialEq, Eq, Hash, Structural)]
pub enum Variable {
    /// Precipitation (mm/day). Column `pr`.
    Precipitation,
    /// Potential evapotranspiration (mm/day). Column `pet`.
    Pet,
    /// Mean temperature (degC). Column `tmean`.
    TemperatureMean,
}

impl Variable {
    /// Canonical column name.
    pub open spec fn column_text(self) -> Seq<char> {
        match self {
            Variable::Precipitation => seq!['p', 'r'],
            Variable::Pet => seq!['p', 'e', 't'],
            Variable::TemperatureMean => seq!['t', 'm', 'e', 'a', 'n'],
        }
    }

    /// Unit of the variable.
    pub open spec fn unit_text(self) -> Seq<char> {
        match self {
            Variable::Precipitation | Variable::Pet => seq!['m', 'm', '/', 'd'],
            Variable::TemperatureMean => seq!['d', 'e', 'g', 'C'],
        }
    }

    /// Canonical column name (recognised by the hydrological model reader).
    pub fn column_name(self) -> (r: &'static str)
        ensures
            r@ == self.column_text(),
    {
        proof {
            reveal_strlit("pr");
            reveal_strlit("pet");
            reveal_strlit("tmean");
        }
        match self {
            Variable::Precipitation => "pr",
            Variable::Pet => "pet",
            Variable::TemperatureMean => "tmean",
        }
    }

    /// Unit of the variable.
    pub fn unit(self) -> (r: &'static str)
        ensures
            r@ == self.unit_text(),
    {
        proof {
            reveal_strlit("mm/d");
            reveal_strlit("degC");
        }
        match self {
            Variable::Precipitation | Variable::Pet => "mm/d",
            Variable::TemperatureMean => "degC",
        }
    }
}

/// Bytes of a date held in a `String`.
pub open spec fn date_bytes(s: String) -> Seq<u8> {
    encode_utf8(s@)
}

/// Day number named by a date text that parses.
pub open spec fn text_day(s: String) -> int {
    let (y, m, d) = parsed_date(date_bytes(s)).unwrap();
    days_from_civil(y, m, d)
}

/// The first `k` dates parse, and each follows the previous one by a day.
#[verifier::opaque]
pub open spec fn contiguous_prefix(dates: Seq<String>, k: int) -> bool {
    &&& forall|j: int| 0 <= j < k ==> parsed_date(date_bytes(#[trigger] dates[j])) is Some
    &&& forall|j: int| 0 < j < k ==> text_day(#[trigger] dates[j]) == text_day(dates[j - 1]) + 1
}

/// A contiguous daily forcing series.
#[derive(Debug)]
pub struct ForcingSeries<T> {
    variable: Variable,
    start_day: i64,
    values: Vec<T>,
}

impl<T> ForcingSeries<T> {
    #[verifier::type_invariant]
    spec fn well_formed(self) -> bool {
        &&& self.values.len() >= 1
        &&& is_text_day(self.start_day as int)
        &&& is_text_day(self.start_day + self.values.len() - 1)
    }

    /// Variable of the series.
    pub closed spec fn variable_view(self) -> Variable {
        self.variable
    }

    /// First day of the series (days since the epoch).
    pub closed spec fn start(self) -> int {
        self.start_day as int
    }

    /// Daily values, from the first day on.
    pub closed spec fn values_view(self) -> Seq<T> {
        self.values@
    }

    /// Builds a series from ISO dates and paired values, checking that the
    /// values are finite and that the axis is daily and contiguous (no gap,
    /// no disorder). `first_non_finite` is the index of the first value that
    /// is not a finite number, as the caller's test of the values finds it.
    pub fn from_dates(
        variable: Variable,
        dates: &[String],
        values: Vec<T>,
        first_non_finite: Option<usize>,
    ) -> (r: Result<Self, DownscaleError>)
        ensures
            dates@.len() != values@.len() ==> r == Err::<Self, DownscaleError>(
                DownscaleError::LengthMismatch {
                    left_name: "dates",
                    left: dates@.len() as usize,
                    right_name: "values",
                    right: values@.len() as usize,
                },
            ),
            dates@.len() == values@.len() && dates@.len() == 0 ==> (r matches Err(
                DownscaleError::SeriesTooShort { name, len, min },
            ) && name@ == variable.column_text() && len == 0 && min == 1),
            dates@.len() == values@.len() && dates@.len() >= 1 && first_non_finite is Some ==> (
            r matches Err(DownscaleError::NonFinite { name, index }) && name@
                == variable.column_text() && first_non_finite == Some(index)),
            dates@.len() == values@.len() && dates@.len() >= 1 && first_non_finite is None ==> (r is Ok
                <==> contiguous_prefix(dates@, dates@.len() as int)),
            r matches Ok(s) ==> s.variable_view() == variable && s.start() == text_day(dates@[0])
                && s.values_view() == values@,
            r matches Ok(s) ==> forall|j: int|
                0 <= j < dates@.len() ==> {
                    let (y, m, d) = civil_from_days(s.start() + j);
                    &&& year_field(date_bytes(#[trigger] dates@[j])) == Some(y)
                    &&& month_field(date_bytes(dates@[j])) == Some(m)
                    &&& day_field(date_bytes(dates@[j])) == Some(d)
                },
            r matches Err(e) ==> (dates@.len() == values@.len() && dates@.len() >= 1
                && first_non_finite is None ==> exists|k: int|
                0 <= k < dates@.len() && contiguous_prefix(dates@, k) && !contiguous_prefix(
                    dates@,
                    k + 1,
                ) && #[trigger] stop_error(dates@, k, variable, e)),
    {
        if dates.len() != values.len() {
            return Err(
                DownscaleError::LengthMismatch {
                    left_name: "dates",
                    left: dates.len(),
                    right_name: "values",
                    right: values.len(),
                },
            );
        }
        if values.len() == 0 {
            return Err(
                DownscaleError::SeriesTooShort { name: variable.column_name(), len: 0, min: 1 },
            );
        }
        if let Some(index) = first_non_finite {
            return Err(DownscaleError::NonFinite { name: variable.column_name(), index });
        }
        let start_day = match read_daily_axis(variable, dates) {
            Ok(z) => z,
            Err(e) => return Err(e),
        };
        proof {
            lemma_contiguous_dates(dates@, dates@.len() as int);
        }
        Ok(ForcingSeries { variable, start_day, values })
    }

    /// Variable of the series.
    pub fn variable(&self) -> (r: Variable)
        ensures
            r == self.variable_view(),
    {
        self.variable
    }

    /// First day (days since the epoch).
    pub fn start_day(&self) -> (r: i64)
        ensures
            r == self.start(),
            is_text_day(r as int),
    {
        proof {
            use_type_invariant(self);
        }
        self.start_day
    }

    /// Last day (days since the epoch, inclusive).
    pub fn end_day(&self) -> (r: i64)
        ensures
            r == self.start() + self.values_view().len() - 1,
            is_text_day(r as int),
    {
        proof {
            use_type_invariant(self);
        }
        self.start_day + self.values.len() as i64 - 1
    }

    /// Daily values.
    pub fn values(&self) -> (r: &[T])
        ensures
            r@ == self.values_view(),
    {
        self.values.as_slice()
    }
}

/// Reads a non-empty daily axis of date texts and returns its first day.
fn read_daily_axis(variable: Variable, dates: &[String]) -> (r: Result<i64, DownscaleError>)
    requires
        dates@.len() >= 1,
    ensures
        r is Ok <==> contiguous_prefix(dates@, dates@.len() as int),
        r matches Ok(z) ==> z == text_day(dates@[0]) && is_text_day(z as int) && is_text_day(
            z + dates@.len() - 1,
        ),
        r matches Err(e) ==> exists|k: int|
            0 <= k < dates@.len() && contiguous_prefix(dates@, k) && !contiguous_prefix(dates@, k + 1)
                && #[trigger] stop_error(dates@, k, variable, e),
{
    assert(contiguous_prefix(dates@, 0)) by {
        reveal(contiguous_prefix);
    }
    let mut start_day: i64 = 0;
    let mut prev: i64 = 0;
    let mut i: usize = 0;
    while i < dates.len()
        invariant
            i <= dates@.len(),
            contiguous_prefix(dates@, i as int),
            i > 0 ==> prev == text_day(dates@[i - 1]),
            i > 0 ==> start_day == text_day(dates@[0]),
            i > 0 ==> is_text_day(prev as int),
        decreases dates@.len() - i,
    {
        proof {
            lemma_prefix_step(dates@, i as int);
        }
        let day = match parse_date(dates[i].as_str()) {
            Ok(z) => z,
            Err(e) => {
                proof {
                    lemma_prefix_stops(dates@, i as int);
                }
                assert(stop_error(dates@, i as int, variable, e));
                return Err(e);
            },
        };
        if i == 0 {
            start_day = day;
        } else if day != prev + 1 {
            proof {
                lemma_prefix_stops(dates@, i as int);
            }
            let e = DownscaleError::NonContiguous {
                name: variable.column_name(),
                date: format_date(prev),
                gap_days: day - prev,
            };
            assert(stop_error(dates@, i as int, variable, e));
            return Err(e);
        }
        prev = day;
        i = i + 1;
    }
    proof {
        lemma_contiguous_range(dates@);
    }
    Ok(start_day)
}

/// One more date extends a contiguous run exactly when it parses and, after
/// the first date, follows the previous one by a day.
proof fn lemma_prefix_step(dates: Seq<String>, k: int)
    requires
        0 <= k < dates.len(),
    ensures
        contiguous_prefix(dates, k + 1) <==> contiguous_prefix(dates, k) && parsed_date(
            date_bytes(dates[k]),
        ) is Some && (k > 0 ==> text_day(dates[k]) == text_day(dates[k - 1]) + 1),
{
    reveal(contiguous_prefix);
}

/// A run of dates that fails to extend past index `k` fails for every
/// longer prefix too.
proof fn lemma_prefix_stops(dates: Seq<String>, k: int)
    requires
        0 <= k < dates.len(),
    ensures
        !contiguous_prefix(dates, k + 1) ==> !contiguous_prefix(dates, dates.len() as int),
{
    reveal(contiguous_prefix);
    if contiguous_prefix(dates, dates.len() as int) {
        assert(contiguous_prefix(dates, k + 1));
    }
}

/// The error with which reading `dates` stops at index `k`: the date does
/// not parse, or it does not follow the previous date by one day.
pub open spec fn stop_error(dates: Seq<String>, k: int, variable: Variable, e: DownscaleError) -> bool {
    if parsed_date(date_bytes(dates[k])) is None {
        e matches DownscaleError::InvalidDate { value } && value@ == dates[k]@
    } else {
        &&& k >= 1
        &&& e matches DownscaleError::NonContiguous { name, date, gap_days }
        &&& name@ == variable.column_text()
        &&& date@ == epoch_day_text(text_day(dates[k - 1]))
        &&& gap_days == text_day(dates[k]) - text_day(dates[k - 1])
    }
}

/// A contiguous run of date texts names consecutive calendar days: the
/// text at position `j` reads as the date of the day `j` days after the
/// first.
pub proof fn lemma_contiguous_dates(dates: Seq<String>, n: int)
    requires
        1 <= n <= dates.len(),
        contiguous_prefix(dates, n),
    ensures
        forall|j: int|
            0 <= j < n ==> {
                let (y, m, d) = civil_from_days(text_day(dates[0]) + j);
                &&& year_field(date_bytes(#[trigger] dates[j])) == Some(y)
                &&& month_field(date_bytes(dates[j])) == Some(m)
                &&& day_field(date_bytes(dates[j])) == Some(d)
            },
{
    assert forall|j: int| 0 <= j < n implies {
        let (y, m, d) = civil_from_days(text_day(dates[0]) + j);
        &&& year_field(date_bytes(#[trigger] dates[j])) == Some(y)
        &&& month_field(date_bytes(dates[j])) == Some(m)
        &&& day_field(date_bytes(dates[j])) == Some(d)
    } by {
        lemma_contiguous_day(dates, n, j);
        reveal(contiguous_prefix);
        lemma_parsed_date_exists(date_bytes(dates[j]));
    }
}

proof fn lemma_contiguous_day(dates: Seq<String>, n: int, j: int)
    requires
        0 <= j < n <= dates.len(),
        contiguous_prefix(dates, n),
    ensures
        text_day(dates[j]) == text_day(dates[0]) + j,
    decreases j,
{
    if j > 0 {
        lemma_contiguous_day(dates, n, j - 1);
        reveal(contiguous_prefix);
    }
}

/// The days of a contiguous run of date texts all lie in the text range.
proof fn lemma_contiguous_range(dates: Seq<String>)
    requires
        dates.len() >= 1,
        contiguous_prefix(dates, dates.len() as int),
    ensures
        text_day(dates[dates.len() - 1]) == text_day(dates[0]) + dates.len() - 1,
        is_text_day(text_day(dates[0])),
    decreases dates.len(),
{
    reveal(contiguous_prefix);
    lemma_parsed_date_range(date_bytes(dates[0]));
    if dates.len() > 1 {
        let shorter = dates.drop_last();
        assert(contiguous_prefix(shorter, shorter.len() as int)) by {
            assert forall|j: int| 0 <= j < shorter.len() implies parsed_date(
                date_bytes(#[trigger] shorter[j]),
            ) is Some by {
                assert(shorter[j] == dates[j]);
            }
            assert forall|j: int| 0 < j < shorter.len() implies text_day(#[trigger] shorter[j])
                == text_day(shorter[j - 1]) + 1 by {
                assert(shorter[j] == dates[j]);
                assert(shorter[j - 1] == dates[j - 1]);
            }
        }
        lemma_contiguous_range(shorter);
        assert(text_day(dates[dates.len() - 1]) == text_day(dates[dates.len() - 2]) + 1);
    }
}


/// Last day of a series (inclusive).
pub open spec fn series_end<T>(s: ForcingSeries<T>) -> int {
    s.start() + s.values_view().len() - 1
}

/// Some series before position `i` has the variable of series `i`.
pub open spec fn has_earlier_twin<T>(ss: Seq<ForcingSeries<T>>, i: int) -> bool {
    exists|j: int| 0 <= j < i && ss[j].variable_view() == #[trigger] ss[i].variable_view()
}

/// Every series starts no later than every series ends: the periods share
/// at least one day.
pub open spec fn periods_overlap<T>(ss: Seq<ForcingSeries<T>>) -> bool {
    forall|a: int, b: int|
        0 <= a < ss.len() && 0 <= b < ss.len() ==> #[trigger] ss[a].start() <= series_end(
            #[trigger] ss[b],
        )
}

/// Forcing series aligned to a common period: the structure a
/// hydrological engine consumes.
#[derive(Debug)]
pub struct ForcingSet<T> {
    start_day: i64,
    columns: Vec<(Variable, Vec<T>)>,
}

impl<T> ForcingSet<T> {
    #[verifier::type_invariant]
    spec fn well_formed(self) -> bool {
        &&& self.columns@.len() >= 1
        &&& self.columns@[0].1@.len() >= 1
        &&& forall|k: int|
            0 <= k < self.columns@.len() ==> (#[trigger] self.columns@[k]).1@.len()
                == self.columns@[0].1@.len()
        &&& forall|j: int, k: int|
            0 <= j < k < self.columns@.len() ==> (#[trigger] self.columns@[j]).0 != (
            #[trigger] self.columns@[k]).0
        &&& is_text_day(self.start_day as int)
        &&& is_text_day(self.start_day + self.columns@[0].1@.len() - 1)
    }

    /// First day of the common period (days since the epoch).
    pub closed spec fn start(self) -> int {
        self.start_day as int
    }

    /// Number of days of the common period.
    pub closed spec fn day_count(self) -> nat {
        if self.columns@.len() == 0 {
            0
        } else {
            self.columns@[0].1@.len()
        }
    }

    /// Variables of the columns, in column order.
    pub closed spec fn column_variables(self) -> Seq<Variable> {
        self.columns@.map_values(|c: (Variable, Vec<T>)| c.0)
    }

    /// Values of the columns, in column order.
    pub closed spec fn column_values(self) -> Seq<Seq<T>> {
        self.columns@.map_values(|c: (Variable, Vec<T>)| c.1@)
    }

    /// Aligns series to their common period (intersection of their axes).
    pub fn align(series: Vec<ForcingSeries<T>>) -> (r: Result<Self, DownscaleError>)
        ensures
            series@.len() == 0 ==> r == Err::<Self, DownscaleError>(
                DownscaleError::InvalidParameter { name: "series", value: 0, expected: ">= 1 serie" },
            ),
            series@.len() >= 1 && (exists|i: int|
                0 <= i < series@.len() && #[trigger] has_earlier_twin(series@, i)) ==> exists|i: int|
                0 <= i < series@.len() && #[trigger] has_earlier_twin(series@, i) && (forall|h: int|
                    0 <= h < i ==> !has_earlier_twin(series@, h)) && r == Err::<Self, DownscaleError>(
                    DownscaleError::InvalidParameter {
                        name: "series",
                        value: i as i64,
                        expected: "variables sin repetir",
                    },
                ),
            series@.len() >= 1 && (forall|i: int|
                0 <= i < series@.len() ==> !#[trigger] has_earlier_twin(series@, i))
                && !periods_overlap(series@) ==> r == Err::<Self, DownscaleError>(
                DownscaleError::NoOverlap,
            ),
            series@.len() >= 1 && (forall|i: int|
                0 <= i < series@.len() ==> !#[trigger] has_earlier_twin(series@, i))
                && periods_overlap(series@) ==> r is Ok,
            r matches Ok(set) ==> {
                &&& forall|k: int| 0 <= k < series@.len() ==> (#[trigger] series@[k]).start() <= set.start()
                &&& exists|k: int| 0 <= k < series@.len() && (#[trigger] series@[k]).start() == set.start()
                &&& forall|k: int|
                    0 <= k < series@.len() ==> set.start() + set.day_count() - 1 <= series_end(
                        #[trigger] series@[k],
                    )
                &&& exists|k: int|
                    0 <= k < series@.len() && set.start() + set.day_count() - 1 == series_end(
                        #[trigger] series@[k],
                    )
                &&& set.column_variables() == series@.map_values(
                    |s: ForcingSeries<T>| s.variable_view(),
                )
                &&& set.column_values().len() == series@.len()
                &&& forall|k: int|
                    0 <= k < series@.len() ==> #[trigger] set.column_values()[k] == series@[k].values_view().subrange(
                        set.start() - series@[k].start(),
                        set.start() - series@[k].start() + set.day_count(),
                    )
            },
    {
        let n = series.len();
        if n == 0 {
            return Err(
                DownscaleError::InvalidParameter { name: "series", value: 0, expected: ">= 1 serie" },
            );
        }
        if let Some(i) = first_twin(&series) {
            return Err(
                DownscaleError::InvalidParameter {
                    name: "series",
                    value: i as i64,
                    expected: "variables sin repetir",
                },
            );
        }
        let (start, end) = common_period(&series);
        if end < start {
            proof {
                let a = choose|h: int| 0 <= h < n && (#[trigger] series@[h]).start() == start;
                let b = choose|h: int| 0 <= h < n && end == series_end(#[trigger] series@[h]);
                assert(series@[a].start() > series_end(series@[b]));
            }
            return Err(DownscaleError::NoOverlap);
        }
        let len = (end - start + 1) as usize;
        let ghost ss = series@;
        let mut rest = series;
        let mut columns: Vec<(Variable, Vec<T>)> = Vec::new();
        while rest.len() > 0
            invariant
                columns@.len() + rest@.len() == ss.len(),
                rest@ == ss.subrange(columns@.len() as int, ss.len() as int),
                forall|h: int| 0 <= h < ss.len() ==> (#[trigger] ss[h]).start() <= start,
                forall|h: int| 0 <= h < ss.len() ==> end <= series_end(#[trigger] ss[h]),
                len == end - start + 1,
                forall|c: int|
                    0 <= c < columns@.len() ==> (#[trigger] columns@[c]).0 == ss[c].variable_view()
                        && columns@[c].1@ == ss[c].values_view().subrange(
                        start - ss[c].start(),
                        start - ss[c].start() + len,
                    ),
            decreases rest@.len(),
        {
            let s = rest.remove(0);
            proof {
                use_type_invariant(&s);
            }
            let offset = (start - s.start_day) as usize;
            let variable = s.variable;
            let mut values = s.values;
            let mut tail = values.split_off(offset);
            tail.truncate(len);
            columns.push((variable, tail));
        }
        proof {
            assert forall|c: int| 0 <= c < columns@.len() implies (#[trigger] columns@[c]).1@.len()
                == len by {
                let sc = ss[c];
                assert(sc.start() <= start && end <= series_end(sc));
            }
            assert forall|a: int, b: int| 0 <= a < b < columns@.len() implies (
            #[trigger] columns@[a]).0 != (#[trigger] columns@[b]).0 by {
                assert(!has_earlier_twin(ss, b));
            }
        }
        Ok(ForcingSet { start_day: start, columns })
    }
}


impl<T> ForcingSet<T> {
    /// Number of days of the common period.
    pub fn len(&self) -> (r: usize)
        ensures
            r == self.day_count(),
            r >= 1,
    {
        proof {
            use_type_invariant(self);
        }
        self.columns[0].1.len()
    }

    /// `true` if the period has no day.
    pub fn is_empty(&self) -> (r: bool)
        ensures
            r == (self.day_count() == 0),
    {
        self.len() == 0
    }

    /// First day of the common period (days since the epoch).
    pub fn start_day(&self) -> (r: i64)
        ensures
            r == self.start(),
    {
        self.start_day
    }

    /// Variables present, in column order.
    pub fn variables(&self) -> (r: Vec<Variable>)
        ensures
            r@ == self.column_variables(),
    {
        let mut out: Vec<Variable> = Vec::new();
        let mut k: usize = 0;
        while k < self.columns.len()
            invariant
                k <= self.columns@.len(),
                out@ == self.column_variables().subrange(0, k as int),
            decreases self.columns@.len() - k,
        {
            out.push(self.columns[k].0);
            k = k + 1;
        }
        assert(out@ =~= self.column_variables());
        out
    }

    /// Values of a variable, if it is present.
    pub fn series(&self, variable: Variable) -> (r: Option<&[T]>)
        ensures
            match r {
                Some(vals) => exists|k: int|
                    0 <= k < self.column_variables().len() && #[trigger] self.column_variables()[k]
                        == variable && vals@ == self.column_values()[k],
                None => forall|k: int|
                    0 <= k < self.column_variables().len() ==> #[trigger] self.column_variables()[k]
                        != variable,
            },
    {
        let mut k: usize = 0;
        while k < self.columns.len()
            invariant
                k <= self.columns@.len(),
                forall|h: int| 0 <= h < k ==> #[trigger] self.column_variables()[h] != variable,
            decreases self.columns@.len() - k,
        {
            if self.columns[k].0 == variable {
                assert(self.column_variables()[k as int] == variable);
                return Some(self.columns[k].1.as_slice());
            }
            k = k + 1;
        }
        None
    }
}

/// `,name` for each variable, in order.
pub open spec fn header_cells(vars: Seq<Variable>) -> Seq<char>
    decreases vars.len(),
{
    if vars.len() == 0 {
        Seq::empty()
    } else {
        header_cells(vars.drop_last()) + seq![','] + vars.last().column_text()
    }
}

/// `,cell` for each cell, in order.
pub open spec fn row_cells(cells: Seq<Seq<char>>) -> Seq<char>
    decreases cells.len(),
{
    if cells.len() == 0 {
        Seq::empty()
    } else {
        row_cells(cells.drop_last()) + seq![','] + cells.last()
    }
}

/// The cells of day `i` of the columns.
pub open spec fn day_cells(columns: Seq<Seq<String>>, i: int) -> Seq<Seq<char>> {
    Seq::new(columns.len(), |k: int| columns[k][i]@)
}

/// Rows of the first `n` days: the date, the cells, a line end.
pub open spec fn csv_rows(start: int, columns: Seq<Seq<String>>, n: nat) -> Seq<char>
    decreases n,
{
    if n == 0 {
        Seq::empty()
    } else {
        csv_rows(start, columns, (n - 1) as nat) + epoch_day_text(start + n - 1) + row_cells(
            day_cells(columns, n - 1),
        ) + seq!['\n']
    }
}

/// The canonical CSV: header `date,<col>...` and one row per day.
pub open spec fn csv_text(
    vars: Seq<Variable>,
    columns: Seq<Seq<String>>,
    start: int,
    n: nat,
) -> Seq<char> {
    seq!['d', 'a', 't', 'e'] + header_cells(vars) + seq!['\n'] + csv_rows(start, columns, n)
}

/// A column name holds neither a comma nor a line end.
proof fn lemma_column_text_plain(v: Variable)
    ensures
        !v.column_text().contains(','),
        !v.column_text().contains('\n'),
{
    let t = v.column_text();
    assert forall|i: int| 0 <= i < t.len() implies t[i] != ',' && t[i] != '\n' by {}
}

proof fn lemma_header_fields(vars: Seq<Variable>)
    ensures
        split_commas(seq!['d', 'a', 't', 'e'] + header_cells(vars)) == seq![seq!['d', 'a', 't', 'e']]
            + vars.map_values(|v: Variable| v.column_text()),
        !(seq!['d', 'a', 't', 'e'] + header_cells(vars)).contains('\n'),
    decreases vars.len(),
{
    let date = seq!['d', 'a', 't', 'e'];
    if vars.len() == 0 {
        assert(date + header_cells(vars) =~= date);
        assert forall|i: int| 0 <= i < date.len() implies date[i] != ',' && date[i] != '\n' by {}
        lemma_split_commas_single(date);
        assert(vars.map_values(|v: Variable| v.column_text()) =~= Seq::<Seq<char>>::empty());
        assert(seq![date] + Seq::<Seq<char>>::empty() =~= seq![date]);
    } else {
        let prev = vars.drop_last();
        let t = vars.last().column_text();
        lemma_header_fields(prev);
        lemma_column_text_plain(vars.last());
        let h0 = date + header_cells(prev);
        assert(date + header_cells(vars) =~= h0 + seq![','] + t);
        lemma_split_commas_push(h0, t);
        assert(prev.map_values(|v: Variable| v.column_text()).push(t) =~= vars.map_values(
            |v: Variable| v.column_text(),
        ));
        assert((seq![date] + prev.map_values(|v: Variable| v.column_text())).push(t) =~= seq![date]
            + vars.map_values(|v: Variable| v.column_text()));
        let h = h0 + seq![','] + t;
        assert forall|i: int| 0 <= i < h.len() implies h[i] != '\n' by {
            if i < h0.len() {
                assert(h[i] == h0[i]);
            } else if i > h0.len() {
                assert(h[i] == t[i - h0.len() - 1]);
            }
        }
    }
}

/// The header of the canonical CSV names the columns in column order, the
/// order of the cells of each row: the text starts with a line `h` whose
/// comma-separated fields are `date` and then the column name of each
/// variable in turn.
pub proof fn lemma_csv_header(vars: Seq<Variable>, columns: Seq<Seq<String>>, start: int, n: nat) -> (h:
    Seq<char>)
    ensures
        csv_text(vars, columns, start, n) == h.push('\n') + csv_rows(start, columns, n),
        !h.contains('\n'),
        split_commas(h) == seq![seq!['d', 'a', 't', 'e']] + vars.map_values(
            |v: Variable| v.column_text(),
        ),
{
    let h = seq!['d', 'a', 't', 'e'] + header_cells(vars);
    lemma_header_fields(vars);
    assert(csv_text(vars, columns, start, n) =~= h.push('\n') + csv_rows(start, columns, n));
    h
}

proof fn lemma_row_cells_fields(p: Seq<char>, cells: Seq<Seq<char>>)
    requires
        forall|k: int| 0 <= k < cells.len() ==> !(#[trigger] cells[k]).contains(','),
        forall|k: int| 0 <= k < cells.len() ==> !(#[trigger] cells[k]).contains('\n'),
        !p.contains('\n'),
    ensures
        split_commas(p + row_cells(cells)) == split_commas(p) + cells,
        !(p + row_cells(cells)).contains('\n'),
    decreases cells.len(),
{
    if cells.len() == 0 {
        assert(p + row_cells(cells) =~= p);
        assert(split_commas(p) + cells =~= split_commas(p));
    } else {
        let prev = cells.drop_last();
        let t = cells.last();
        assert(t == cells[cells.len() - 1]);
        lemma_row_cells_fields(p, prev);
        let h0 = p + row_cells(prev);
        assert(p + row_cells(cells) =~= h0 + seq![','] + t);
        lemma_split_commas_push(h0, t);
        assert((split_commas(p) + prev).push(t) =~= split_commas(p) + cells);
        let h = h0 + seq![','] + t;
        assert forall|i: int| 0 <= i < h.len() implies h[i] != '\n' by {
            if i < h0.len() {
                assert(h[i] == h0[i]);
            } else if i > h0.len() {
                assert(h[i] == t[i - h0.len() - 1]);
            }
        }
    }
}

/// Row `i` of the canonical CSV is one line: the text of day `start + i`
/// and then, field by field, the cell of each column on that day in column
/// order (the order of the header), when no cell holds a comma or a line
/// end.
pub proof fn lemma_csv_row(start: int, columns: Seq<Seq<String>>, i: nat) -> (row: Seq<char>)
    requires
        forall|k: int| 0 <= k < columns.len() ==> i < (#[trigger] columns[k]).len(),
        forall|k: int|
            0 <= k < columns.len() ==> !(#[trigger] columns[k])[i as int]@.contains(',')
                && !columns[k][i as int]@.contains('\n'),
    ensures
        csv_rows(start, columns, i + 1) == csv_rows(start, columns, i) + row.push('\n'),
        !row.contains('\n'),
        split_commas(row) == seq![epoch_day_text(start + i)] + Seq::new(
            columns.len(),
            |k: int| columns[k][i as int]@,
        ),
{
    let date = epoch_day_text(start + i);
    let cells = day_cells(columns, i as int);
    lemma_epoch_day_text_chars(start + i);
    assert forall|q: int| 0 <= q < date.len() implies date[q] != ',' && date[q] != '\n' by {
        assert(is_digit_char(date[q]) || date[q] == '-');
    }
    lemma_split_commas_single(date);
    assert forall|k: int| 0 <= k < cells.len() implies !(#[trigger] cells[k]).contains(',')
        && !cells[k].contains('\n') by {
        assert(cells[k] == columns[k][i as int]@);
    }
    lemma_row_cells_fields(date, cells);
    let row = date + row_cells(cells);
    assert(cells =~= Seq::new(columns.len(), |k: int| columns[k][i as int]@));
    assert(csv_rows(start, columns, i + 1) =~= csv_rows(start, columns, i) + row.push('\n'));
    row
}

impl ForcingSet<String> {
    /// Appends `,<cell>` for each column's cell on day `i`.
    fn append_day_cells(&self, out: &mut String, i: usize)
        requires
            i < self.day_count(),
        ensures
            final(out)@ == old(out)@ + row_cells(day_cells(self.column_values(), i as int)),
    {
        proof {
            use_type_invariant(self);
        }
        let ghost cols = self.column_values();
        let ghost row_start = out@;
        let ghost cells = day_cells(cols, i as int);
        let ncols = self.columns.len();
        let mut k: usize = 0;
        while k < ncols
            invariant
                self.well_formed(),
                ncols == self.columns@.len() == cols.len() == cells.len(),
                cols == self.column_values(),
                cells == day_cells(cols, i as int),
                i < self.columns@[0].1@.len(),
                k <= ncols,
                out@ == row_start + row_cells(cells.subrange(0, k as int)),
            decreases ncols - k,
        {
            proof {
                reveal_strlit(",");
                assert(cells.subrange(0, k + 1).drop_last() =~= cells.subrange(0, k as int));
                assert(self.columns@[k as int].1@.len() == self.columns@[0].1@.len());
            }
            out.append(",");
            out.append(self.columns[k].1[i].as_str());
            k = k + 1;
        }
        assert(cells.subrange(0, ncols as int) =~= cells);
    }

    /// Canonical CSV of the set, with the cells as the strings hold them:
    /// header `date,<col>...` and one row per day.
    pub fn to_csv(&self) -> (r: String)
        ensures
            r@ == csv_text(
                self.column_variables(),
                self.column_values(),
                self.start(),
                self.day_count(),
            ),
    {
        proof {
            use_type_invariant(self);
            reveal_strlit("date");
            reveal_strlit(",");
            reveal_strlit("\n");
        }
        let ghost vars = self.column_variables();
        let ghost cols = self.column_values();
        let mut out = String::new();
        out.append("date");
        let ncols = self.columns.len();
        let mut k: usize = 0;
        while k < ncols
            invariant
                ncols == self.columns@.len() == vars.len(),
                vars == self.column_variables(),
                k <= ncols,
                out@ == seq!['d', 'a', 't', 'e'] + header_cells(vars.subrange(0, k as int)),
            decreases ncols - k,
        {
            proof {
                reveal_strlit(",");
                assert(vars.subrange(0, k + 1).drop_last() =~= vars.subrange(0, k as int));
            }
            out.append(",");
            out.append(self.columns[k].0.column_name());
            k = k + 1;
        }
        assert(vars.subrange(0, ncols as int) =~= vars);
        out.append("\n");
        let ghost head = out@;
        let n = self.columns[0].1.len();
        let mut i: usize = 0;
        while i < n
            invariant
                self.well_formed(),
                ncols == self.columns@.len() == cols.len(),
                cols == self.column_values(),
                n == self.columns@[0].1@.len(),
                i <= n,
                out@ == head + csv_rows(self.start(), cols, i as nat),
            decreases n - i,
        {
            let date = format_date(self.start_day + i as i64);
            out.append(date.as_str());
            self.append_day_cells(&mut out, i);
            proof {
                reveal_strlit("\n");
            }
            out.append("\n");
            i = i + 1;
        }
        out
    }
}

impl<T: Clone> Clone for ForcingSeries<T> {
    fn clone(&self) -> (r: Self)
        ensures
            r.variable_view() == self.variable_view(),
            r.start() == self.start(),
            r.values_view().len() == self.values_view().len(),
            forall|i: int|
                0 <= i < self.values_view().len() ==> cloned::<T>(
                    self.values_view()[i],
                    #[trigger] r.values_view()[i],
                ),
    {
        proof {
            use_type_invariant(self);
        }
        ForcingSeries { variable: self.variable, start_day: self.start_day, values: self.values.clone() }
    }
}

impl<T: Clone> Clone for ForcingSet<T> {
    fn clone(&self) -> (r: Self)
        ensures
            r.start() == self.start(),
            r.day_count() == self.day_count(),
            r.column_variables() == self.column_variables(),
            r.column_values().len() == self.column_values().len(),
            forall|k: int, i: int|
                0 <= k < self.column_values().len() && 0 <= i < self.column_values()[k].len()
                    ==> r.column_values()[k].len() == self.column_values()[k].len() && cloned::<T>(
                    self.column_values()[k][i],
                    #[trigger] r.column_values()[k][i],
                ),
    {
        proof {
            use_type_invariant(self);
        }
        let mut columns: Vec<(Variable, Vec<T>)> = Vec::new();
        let mut k: usize = 0;
        while k < self.columns.len()
            invariant
                k <= self.columns@.len(),
                columns@.len() == k,
                forall|c: int|
                    0 <= c < k ==> (#[trigger] columns@[c]).0 == self.columns@[c].0
                        && columns@[c].1@.len() == self.columns@[c].1@.len(),
                forall|c: int, i: int|
                    0 <= c < k && 0 <= i < self.columns@[c].1@.len() ==> cloned::<T>(
                        self.columns@[c].1@[i],
                        #[trigger] columns@[c].1@[i],
                    ),
            decreases self.columns@.len() - k,
        {
            let v = self.columns[k].1.clone();
            columns.push((self.columns[k].0, v));
            k = k + 1;
        }
        let r = ForcingSet { start_day: self.start_day, columns };
        assert(r.column_variables() =~= self.column_variables());
        assert forall|k: int, i: int|
            0 <= k < self.column_values().len() && 0 <= i < self.column_values()[k].len()
                implies r.column_values()[k].len() == self.column_values()[k].len() && cloned::<T>(
            self.column_values()[k][i],
            #[trigger] r.column_values()[k][i],
        ) by {
            assert(self.column_values()[k] == self.columns@[k].1@);
            assert(r.column_values()[k] == r.columns@[k].1@);
        }
        r
    }
}

/// Index of the first series whose variable already occurred before it.
fn first_twin<T>(series: &Vec<ForcingSeries<T>>) -> (r: Option<usize>)
    ensures
        match r {
            Some(i) => i < series@.len() && has_earlier_twin(series@, i as int) && forall|h: int|
                0 <= h < i ==> !#[trigger] has_earlier_twin(series@, h),
            None => forall|i: int| 0 <= i < series@.len() ==> !#[trigger] has_earlier_twin(series@, i),
        },
{
    let n = series.len();
    let mut i: usize = 0;
    while i < n
        invariant
            n == series@.len(),
            i <= n,
            forall|h: int| 0 <= h < i ==> !#[trigger] has_earlier_twin(series@, h),
        decreases n - i,
    {
        let mut j: usize = 0;
        while j < i
            invariant
                n == series@.len(),
                j <= i < n,
                forall|h: int| 0 <= h < i ==> !#[trigger] has_earlier_twin(series@, h),
                forall|h: int|
                    0 <= h < j ==> series@[h].variable_view() != series@[i as int].variable_view(),
            decreases i - j,
        {
            if series[j].variable() == series[i].variable() {
                assert(has_earlier_twin(series@, i as int));
                return Some(i);
            }
            j = j + 1;
        }
        i = i + 1;
    }
    None
}

/// Latest start and earliest end of a non-empty list of series.
fn common_period<T>(series: &Vec<ForcingSeries<T>>) -> (r: (i64, i64))
    requires
        series@.len() >= 1,
    ensures
        is_text_day(r.0 as int),
        is_text_day(r.1 as int),
        forall|h: int| 0 <= h < series@.len() ==> (#[trigger] series@[h]).start() <= r.0,
        exists|h: int| 0 <= h < series@.len() && (#[trigger] series@[h]).start() == r.0,
        forall|h: int| 0 <= h < series@.len() ==> r.1 <= series_end(#[trigger] series@[h]),
        exists|h: int| 0 <= h < series@.len() && r.1 == series_end(#[trigger] series@[h]),
{
    let n = series.len();
    let mut start = series[0].start_day();
    let mut end = series[0].end_day();
    let mut k: usize = 1;
    while k < n
        invariant
            n == series@.len(),
            1 <= k <= n,
            is_text_day(start as int),
            is_text_day(end as int),
            forall|h: int| 0 <= h < k ==> (#[trigger] series@[h]).start() <= start,
            exists|h: int| 0 <= h < k && (#[trigger] series@[h]).start() == start,
            forall|h: int| 0 <= h < k ==> end <= series_end(#[trigger] series@[h]),
            exists|h: int| 0 <= h < k && end == series_end(#[trigger] series@[h]),
        decreases n - k,
    {
        let s = series[k].start_day();
        let e = series[k].end_day();
        if s > start {
            start = s;
        }
        if e < end {
            end = e;
        }
        k = k + 1;
    }
    (start, end)
}

} // verus!
