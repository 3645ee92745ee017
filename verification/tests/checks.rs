use downscale_core::analog::{check_analog_count, check_matrix, check_regression_rows, MIN_FIT_ROWS};
use downscale_core::error::check_series;
use downscale_core::mbcn::validate_matrix;
use downscale_core::DownscaleError;

#[test]
fn check_series_length_comes_before_finiteness() {
    assert_eq!(check_series("obs", 5, 2, None), Ok(()));
    assert_eq!(
        check_series("obs", 1, 2, Some(0)),
        Err(DownscaleError::SeriesTooShort { name: "obs", len: 1, min: 2 })
    );
    assert_eq!(
        check_series("obs", 3, 2, Some(1)),
        Err(DownscaleError::NonFinite { name: "obs", index: 1 })
    );
}

#[test]
fn check_matrix_errors_in_order() {
    assert_eq!(MIN_FIT_ROWS, 2);
    assert_eq!(check_matrix(6, 3, None, 2, None), Ok(2));
    assert_eq!(
        check_matrix(6, 0, None, 2, None),
        Err(DownscaleError::InvalidParameter { name: "n_features", value: 0, expected: ">= 1" })
    );
    assert_eq!(
        check_matrix(7, 3, None, 2, None),
        Err(DownscaleError::InvalidParameter {
            name: "predictors",
            value: 7,
            expected: "largo múltiplo de n_features",
        })
    );
    assert_eq!(
        check_matrix(3, 3, None, 1, None),
        Err(DownscaleError::SeriesTooShort { name: "predictors", len: 3, min: 6 })
    );
    assert_eq!(
        check_matrix(6, 3, Some(4), 1, None),
        Err(DownscaleError::NonFinite { name: "predictors", index: 4 })
    );
    assert_eq!(
        check_matrix(6, 3, None, 1, None),
        Err(DownscaleError::SeriesTooShort { name: "obs", len: 1, min: 2 })
    );
    assert_eq!(
        check_matrix(6, 3, None, 2, Some(0)),
        Err(DownscaleError::NonFinite { name: "obs", index: 0 })
    );
    assert_eq!(
        check_matrix(9, 3, None, 2, None),
        Err(DownscaleError::InvalidParameter {
            name: "obs",
            value: 2,
            expected: "largo igual al número de filas de predictores",
        })
    );
}

#[test]
fn validate_matrix_counts_rows() {
    assert_eq!(validate_matrix(8, 2, None), Ok(4));
    assert_eq!(
        validate_matrix(8, 0, None),
        Err(DownscaleError::InvalidParameter {
            name: "n_vars",
            value: 0,
            expected: "n_vars >= 1 y largo múltiplo de n_vars",
        })
    );
    assert_eq!(
        validate_matrix(9, 2, None),
        Err(DownscaleError::InvalidParameter {
            name: "n_vars",
            value: 2,
            expected: "n_vars >= 1 y largo múltiplo de n_vars",
        })
    );
    assert_eq!(
        validate_matrix(2, 2, None),
        Err(DownscaleError::SeriesTooShort { name: "predictors", len: 2, min: 4 })
    );
    assert_eq!(
        validate_matrix(8, 2, Some(5)),
        Err(DownscaleError::NonFinite { name: "predictors", index: 5 })
    );
}

#[test]
fn analog_count_must_lie_in_the_archive() {
    assert_eq!(check_analog_count(1, 3), Ok(()));
    assert_eq!(check_analog_count(3, 3), Ok(()));
    for k in [0usize, 4] {
        assert_eq!(
            check_analog_count(k, 3),
            Err(DownscaleError::InvalidParameter {
                name: "k",
                value: k as i64,
                expected: "1 <= k <= filas del archivo",
            })
        );
    }
}

#[test]
fn regression_needs_a_row_per_coefficient() {
    assert_eq!(check_regression_rows(3, 2), Ok(()));
    assert_eq!(
        check_regression_rows(2, 2),
        Err(DownscaleError::SeriesTooShort { name: "obs", len: 2, min: 3 })
    );
}

#[test]
fn analog_rejects_row_count_unlike_obs() {
    // Three rows of one feature against two observations.
    assert!(matches!(
        check_matrix(3, 1, None, 2, None),
        Err(DownscaleError::InvalidParameter { name: "obs", .. })
    ));
}
