use vstd::prelude::*;

verus! {

/// Errors of the library.
#[derive(Debug, Clone, PartialEq)]
pub enum DownscaleError {
    /// An input series is empty or too short for the operation.
    SeriesTooShort {
        /// Name of the series.
        name: &'static str,
        /// Length received.
        len: usize,
        /// Minimum length required.
        min: usize,
    },
    /// Two series that must have the same length differ.
    LengthMismatch {
        /// Name of the left series.
        left_name: &'static str,
        /// Length of the left series.
        left: usize,
        /// Name of the right series.
        right_name: &'static str,
        /// Length of the right series.
        right: usize,
    },
    /// A series holds a value that is not finite.
    NonFinite {
        /// Name of the series.
        name: &'static str,
        /// Index of the first such value.
        index: usize,
    },
    /// A parameter is out of range.
    InvalidParameter {
        /// Name of the parameter.
        name: &'static str,
        /// Value received.
        value: i64,
        /// Description of the expected range.
        expected: &'static str,
    },
    /// A date that does not parse as `YYYY-MM-DD` or does not exist.
    InvalidDate {
        /// Text received.
        value: String,
    },
    /// A daily axis with a gap or out of order.
    NonContiguous {
        /// Name of the series.
        name: &'static str,
        /// Last valid date before the jump.
        date: String,
        /// Size of the jump in days (1 = contiguous).
        gap_days: i64,
    },
    /// The forcing series share no common period.
    NoOverlap,
}


/// Verdict on a series of `len` values: too short for `min_len`, else the
/// first value that is not finite, if there is one.
pub open spec fn series_verdict(
    name: &'static str,
    len: usize,
    min_len: usize,
    first_non_finite: Option<usize>,
) -> Result<(), DownscaleError> {
    if len < min_len {
        Err(DownscaleError::SeriesTooShort { name, len, min: min_len })
    } else {
        match first_non_finite {
            Some(index) => Err(DownscaleError::NonFinite { name, index }),
            None => Ok(()),
        }
    }
}

/// Checks a series of `len` values against a minimum length and then for
/// a value that is not finite; `first_non_finite` is the index of the first
/// such value, if any.
pub fn check_series(
    name: &'static str,
    len: usize,
    min_len: usize,
    first_non_finite: Option<usize>,
) -> (r: Result<(), DownscaleError>)
    ensures
        r == series_verdict(name, len, min_len, first_non_finite),
{
    if len < min_len {
        return Err(DownscaleError::SeriesTooShort { name, len, min: min_len });
    }
    match first_non_finite {
        Some(index) => Err(DownscaleError::NonFinite { name, index }),
        None => Ok(()),
    }
}

/// Checks that two series have the same length.
pub fn check_same_len<A, B>(
    left_name: &'static str,
    left: &[A],
    right_name: &'static str,
    right: &[B],
) -> (r: Result<(), DownscaleError>)
    ensures
        left@.len() == right@.len() ==> r == Ok::<(), DownscaleError>(()),
        left@.len() != right@.len() ==> r == Err::<(), DownscaleError>(
            DownscaleError::LengthMismatch {
                left_name,
                left: left@.len() as usize,
                right_name,
                right: right@.len() as usize,
            },
        ),
{
    if left.len() != right.len() {
        return Err(
            DownscaleError::LengthMismatch {
                left_name,
                left: left.len(),
                right_name,
                right: right.len(),
            },
        );
    }
    Ok(())
}

} // verus!
