//! Shape of the predictor matrices of analog and regression downscaling.
use vstd::prelude::*;

use crate::error::{check_series, series_verdict, DownscaleError};

verus! {

/// Fewest days a predictor matrix needs for a fit.
pub const MIN_FIT_ROWS: usize = 2;

/// Verdict on a predictor matrix of `pred_len` values, `n_features` per
/// day, against `obs_len` observations: the number of rows, or the first
/// error in this order: `n_features` is zero; the length is not a multiple
/// of it; the matrix is shorter than `MIN_FIT_ROWS` rows or holds a
/// non-finite value; the observations are shorter than `MIN_FIT_ROWS` or
/// hold a non-finite value; the rows and the observations differ in number (an
/// invalid parameter).
pub open spec fn matrix_verdict(
    pred_len: usize,
    n_features: usize,
    pred_first_non_finite: Option<usize>,
    obs_len: usize,
    obs_first_non_finite: Option<usize>,
) -> Result<usize, DownscaleError> {
    if n_features == 0 {
        Err(DownscaleError::InvalidParameter { name: "n_features", value: 0, expected: ">= 1" })
    } else if pred_len % n_features != 0 {
        Err(
            DownscaleError::InvalidParameter {
                name: "predictors",
                value: pred_len as i64,
                expected: "largo múltiplo de n_features",
            },
        )
    } else {
        match series_verdict(
            "predictors",
            pred_len,
            (MIN_FIT_ROWS * n_features) as usize,
            pred_first_non_finite,
        ) {
            Err(e) => Err(e),
            Ok(_) => match series_verdict("obs", obs_len, MIN_FIT_ROWS, obs_first_non_finite) {
                Err(e) => Err(e),
                Ok(_) => if pred_len / n_features == obs_len {
                    Ok(obs_len)
                } else {
                    Err(
                        DownscaleError::InvalidParameter {
                            name: "obs",
                            value: obs_len as i64,
                            expected: "largo igual al número de filas de predictores",
                        },
                    )
                },
            },
        }
    }
}

/// The matrix passes only with one row per observation: a verdict
/// `Ok(rows)` means that `rows` rows of `n_features` values make up the
/// whole matrix, that there are exactly `rows` observations, at least
/// `MIN_FIT_ROWS`, and that no value was found non-finite; a matrix whose
/// length is not `obs_len * n_features` (with `n_features >= 1`) is refused.
pub proof fn lemma_matrix_verdict_rows(
    pred_len: usize,
    n_features: usize,
    pred_first_non_finite: Option<usize>,
    obs_len: usize,
    obs_first_non_finite: Option<usize>,
)
    ensures
        matrix_verdict(pred_len, n_features, pred_first_non_finite, obs_len, obs_first_non_finite)
            matches Ok(rows) ==> {
            &&& n_features >= 1
            &&& rows * n_features == pred_len
            &&& rows == obs_len
            &&& rows >= MIN_FIT_ROWS
            &&& pred_first_non_finite is None
            &&& obs_first_non_finite is None
        },
        n_features == 0 || pred_len != obs_len * n_features ==> matrix_verdict(
            pred_len,
            n_features,
            pred_first_non_finite,
            obs_len,
            obs_first_non_finite,
        ) is Err,
{
    if n_features > 0 && pred_len % n_features == 0 {
        vstd::arithmetic::div_mod::lemma_fundamental_div_mod(pred_len as int, n_features as int);
        assert(pred_len == n_features * (pred_len / n_features));
        assert(n_features * (pred_len / n_features) == (pred_len / n_features) * n_features) by (
        nonlinear_arith);
    }
}

/// Checks a predictor matrix flattened by day against its observations and
/// returns its number of rows; the first non-finite index of each input, if
/// any, is given by the caller.
pub fn check_matrix(
    pred_len: usize,
    n_features: usize,
    pred_first_non_finite: Option<usize>,
    obs_len: usize,
    obs_first_non_finite: Option<usize>,
) -> (r: Result<usize, DownscaleError>)
    requires
        n_features == 0 || pred_len % n_features != 0 || MIN_FIT_ROWS * n_features <= usize::MAX,
    ensures
        r == matrix_verdict(
            pred_len,
            n_features,
            pred_first_non_finite,
            obs_len,
            obs_first_non_finite,
        ),
        r matches Ok(rows) ==> rows * n_features == pred_len && rows == obs_len && rows
            >= MIN_FIT_ROWS,
        pred_len != obs_len * n_features ==> r is Err,
{
    proof {
        lemma_matrix_verdict_rows(
            pred_len,
            n_features,
            pred_first_non_finite,
            obs_len,
            obs_first_non_finite,
        );
    }
    if n_features == 0 {
        return Err(DownscaleError::InvalidParameter { name: "n_features", value: 0, expected: ">= 1" });
    }
    if pred_len % n_features != 0 {
        return Err(
            DownscaleError::InvalidParameter {
                name: "predictors",
                value: pred_len as i64,
                expected: "largo múltiplo de n_features",
            },
        );
    }
    match check_series("predictors", pred_len, MIN_FIT_ROWS * n_features, pred_first_non_finite) {
        Err(e) => return Err(e),
        Ok(_) => {},
    }
    match check_series("obs", obs_len, MIN_FIT_ROWS, obs_first_non_finite) {
        Err(e) => return Err(e),
        Ok(_) => {},
    }
    let rows = pred_len / n_features;
    if rows != obs_len {
        return Err(
            DownscaleError::InvalidParameter {
                name: "obs",
                value: obs_len as i64,
                expected: "largo igual al número de filas de predictores",
            },
        );
    }
    Ok(rows)
}

/// Checks the number `k` of analogs against the `rows` of the archive:
/// `1 <= k <= rows`.
pub fn check_analog_count(k: usize, rows: usize) -> (r: Result<(), DownscaleError>)
    ensures
        1 <= k <= rows ==> r == Ok::<(), DownscaleError>(()),
        !(1 <= k <= rows) ==> r == Err::<(), DownscaleError>(
            DownscaleError::InvalidParameter {
                name: "k",
                value: k as i64,
                expected: "1 <= k <= filas del archivo",
            },
        ),
{
    if k == 0 || k > rows {
        return Err(
            DownscaleError::InvalidParameter {
                name: "k",
                value: k as i64,
                expected: "1 <= k <= filas del archivo",
            },
        );
    }
    Ok(())
}

/// Checks that a linear regression on `n_features` predictors plus an
/// intercept has at least as many `rows` as coefficients.
pub fn check_regression_rows(rows: usize, n_features: usize) -> (r: Result<(), DownscaleError>)
    requires
        n_features < usize::MAX,
    ensures
        rows >= n_features + 1 ==> r == Ok::<(), DownscaleError>(()),
        rows < n_features + 1 ==> r == Err::<(), DownscaleError>(
            DownscaleError::SeriesTooShort { name: "obs", len: rows, min: (n_features + 1) as usize },
        ),
{
    let p = n_features + 1;
    if rows < p {
        return Err(DownscaleError::SeriesTooShort { name: "obs", len: rows, min: p });
    }
    Ok(())
}

} // verus!
