use downscale_core::forcing::parse_date;
use downscale_core::pet::day_of_year;

#[test]
fn day_of_year_handles_leap_years() {
    assert_eq!(day_of_year(parse_date("2023-01-01").unwrap()), 1);
    assert_eq!(day_of_year(parse_date("2023-12-31").unwrap()), 365);
    assert_eq!(day_of_year(parse_date("2024-02-29").unwrap()), 60);
    assert_eq!(day_of_year(parse_date("2024-03-01").unwrap()), 61);
    assert_eq!(day_of_year(parse_date("2024-12-31").unwrap()), 366);
}
