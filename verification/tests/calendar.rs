use downscale_core::forcing::{civil_from_epoch_day, epoch_day_from_civil, format_date, parse_date};
use downscale_core::pet::{day_of_year, days_of_year_from};
use downscale_core::DownscaleError;

fn is_leap(y: i64) -> bool {
    (y % 4 == 0 && y % 100 != 0) || y % 400 == 0
}

fn days_in_month(y: i64, m: u32) -> u32 {
    match m {
        2 => {
            if is_leap(y) {
                29
            } else {
                28
            }
        }
        4 | 6 | 9 | 11 => 30,
        _ => 31,
    }
}

#[test]
fn next_calendar_day_has_next_day_number() {
    for (y, m, d) in [(2023, 12, 31), (2023, 2, 28), (2024, 2, 28), (2024, 2, 29), (1900, 2, 28), (2000, 2, 29), (-1, 12, 31), (1969, 12, 31)] {
        let (y2, m2, d2) = if d < days_in_month(y, m) {
            (y, m, d + 1)
        } else if m < 12 {
            (y, m + 1, 1)
        } else {
            (y + 1, 1, 1)
        };
        assert_eq!(epoch_day_from_civil(y, m, d) + 1, epoch_day_from_civil(y2, m2, d2));
    }
    assert_eq!(epoch_day_from_civil(1900, 2, 28) + 1, epoch_day_from_civil(1900, 3, 1));
}

#[test]
fn civil_roundtrip_over_a_wide_range() {
    let mut z: i64 = -1_100_000;
    while z <= 3_000_000 {
        let (y, m, d) = civil_from_epoch_day(z);
        assert!((1..=12).contains(&m));
        assert!(d >= 1 && d <= days_in_month(y, m));
        assert_eq!(epoch_day_from_civil(y, m, d), z);
        z += 997;
    }
    assert_eq!(civil_from_epoch_day(epoch_day_from_civil(10_000, 1, 1)), (10_000, 1, 1));
    assert_eq!(civil_from_epoch_day(epoch_day_from_civil(-12_345, 7, 9)), (-12_345, 7, 9));
}

#[test]
fn format_then_parse_gives_the_day_back() {
    for (y, m, d) in [(-999, 1, 1), (-5, 3, 7), (0, 2, 29), (1950, 1, 1), (9999, 12, 31)] {
        let z = epoch_day_from_civil(y, m, d);
        assert_eq!(parse_date(&format_date(z)), Ok(z));
    }
    assert_eq!(format_date(epoch_day_from_civil(-5, 3, 7)), "-005-03-07");
    assert_eq!(format_date(epoch_day_from_civil(7, 11, 2)), "0007-11-02");
}

#[test]
fn format_of_five_digit_years_does_not_parse() {
    let z = epoch_day_from_civil(10_000, 1, 1);
    assert_eq!(format_date(z), "10000-01-01");
    assert!(parse_date(&format_date(z)).is_err());
    let z = epoch_day_from_civil(-1000, 1, 1);
    assert_eq!(format_date(z), "-1000-01-01");
    assert!(parse_date(&format_date(z)).is_err());
}

#[test]
fn parse_date_reads_fields_as_integer_parsing_does() {
    assert_eq!(parse_date("+123-01-05"), Ok(epoch_day_from_civil(123, 1, 5)));
    assert_eq!(parse_date("2023-+1-05"), parse_date("2023-01-05"));
    assert_eq!(parse_date("2023-01-05T12:00"), parse_date("2023-01-05"));
    assert!(parse_date("2023--1-05").is_err());
    assert!(parse_date("2023-00-05").is_err());
    assert!(parse_date("2023-01-32").is_err());
    assert!(parse_date("2023-04-31").is_err());
    assert!(parse_date("1900-02-29").is_err());
    assert!(parse_date("2000-02-29").is_ok());
    assert!(parse_date("2023-01-0").is_err());
    assert!(parse_date("2023/01/05").is_err());
    assert!(parse_date("+-12-01-05").is_err());
}

#[test]
fn invalid_date_error_holds_the_text() {
    assert_eq!(
        parse_date("2023-02-30"),
        Err(DownscaleError::InvalidDate { value: "2023-02-30".to_string() })
    );
}

#[test]
fn day_of_year_of_century_years() {
    assert_eq!(day_of_year(parse_date("1900-03-01").unwrap()), 60);
    assert_eq!(day_of_year(parse_date("2000-03-01").unwrap()), 61);
    assert_eq!(day_of_year(parse_date("1900-12-31").unwrap()), 365);
    assert_eq!(day_of_year(parse_date("1970-01-01").unwrap()), 1);
}

#[test]
fn days_of_year_cross_the_year_end() {
    let start = parse_date("2023-12-30").unwrap();
    assert_eq!(days_of_year_from(start, 4), vec![364, 365, 1, 2]);
    assert!(days_of_year_from(start, 0).is_empty());
}
