use downscale_core::forcing::{
    civil_from_epoch_day, epoch_day_from_civil, format_date, parse_date, ForcingSeries, ForcingSet,
    Variable,
};
use downscale_core::DownscaleError;

fn dates(items: &[&str]) -> Vec<String> {
    items.iter().map(ToString::to_string).collect()
}

fn cells(values: &[f64]) -> Vec<String> {
    values.iter().map(ToString::to_string).collect()
}

#[test]
fn epoch_day_roundtrip_and_known_values() {
    assert_eq!(epoch_day_from_civil(1970, 1, 1), 0);
    assert_eq!(epoch_day_from_civil(2000, 3, 1), 11017);
    assert_eq!(civil_from_epoch_day(0), (1970, 1, 1));
    assert_eq!(
        epoch_day_from_civil(2000, 2, 29) + 1,
        epoch_day_from_civil(2000, 3, 1)
    );
    for z in [-150_000, -1, 0, 1, 10_958, 20_000, 150_000] {
        let (y, m, d) = civil_from_epoch_day(z);
        assert_eq!(epoch_day_from_civil(y, m, d), z);
    }
}

#[test]
fn parse_date_rejects_nonexistent_dates() {
    assert!(parse_date("2023-02-28").is_ok());
    assert!(parse_date("2023-02-29").is_err());
    assert!(parse_date("2024-02-29").is_ok());
    assert!(parse_date("2023-13-01").is_err());
    assert!(parse_date("garbage").is_err());
    assert_eq!(format_date(parse_date("1950-01-01").unwrap()), "1950-01-01");
}

#[test]
fn series_detects_gaps_and_disorder() {
    let v = vec![1.0, 2.0, 3.0];
    let gap = ForcingSeries::from_dates(
        Variable::Precipitation,
        &dates(&["2000-01-01", "2000-01-02", "2000-01-04"]),
        v.clone(),
        None,
    )
    .unwrap_err();
    assert_eq!(
        gap,
        DownscaleError::NonContiguous {
            name: "pr",
            date: "2000-01-02".into(),
            gap_days: 2
        }
    );
    assert!(ForcingSeries::from_dates(
        Variable::Precipitation,
        &dates(&["2000-01-02", "2000-01-01", "2000-01-03"]),
        v.clone(),
        None,
    )
    .is_err());
    assert!(ForcingSeries::from_dates(
        Variable::Precipitation,
        &dates(&["2000-02-28", "2000-02-29", "2000-03-01"]),
        v,
        None,
    )
    .is_ok());
}

#[test]
fn align_intersects_periods() {
    let pr = ForcingSeries::from_dates(
        Variable::Precipitation,
        &dates(&["2000-01-01", "2000-01-02", "2000-01-03", "2000-01-04"]),
        vec![1.0, 2.0, 3.0, 4.0],
        None,
    )
    .unwrap();
    let pet = ForcingSeries::from_dates(
        Variable::Pet,
        &dates(&["2000-01-03", "2000-01-04", "2000-01-05"]),
        vec![30.0, 40.0, 50.0],
        None,
    )
    .unwrap();
    let set = ForcingSet::align(vec![pr, pet]).unwrap();
    assert_eq!(set.len(), 2);
    assert_eq!(format_date(set.start_day()), "2000-01-03");
    assert_eq!(set.series(Variable::Precipitation).unwrap(), &[3.0, 4.0]);
    assert_eq!(set.series(Variable::Pet).unwrap(), &[30.0, 40.0]);
}

#[test]
fn align_rejects_disjoint_and_duplicates() {
    let a = ForcingSeries::from_dates(
        Variable::Precipitation,
        &dates(&["2000-01-01", "2000-01-02"]),
        vec![1.0, 2.0],
        None,
    )
    .unwrap();
    let b = ForcingSeries::from_dates(
        Variable::Pet,
        &dates(&["2010-01-01", "2010-01-02"]),
        vec![1.0, 2.0],
        None,
    )
    .unwrap();
    assert_eq!(
        ForcingSet::align(vec![a.clone(), b]).unwrap_err(),
        DownscaleError::NoOverlap
    );
    assert!(ForcingSet::align(vec![a.clone(), a]).is_err());
}

#[test]
fn csv_matches_rainflow_contract() {
    let d = dates(&["2000-01-01", "2000-01-02"]);
    let pr = ForcingSeries::from_dates(Variable::Precipitation, &d, cells(&[0.0, 5.5]), None).unwrap();
    let pet = ForcingSeries::from_dates(Variable::Pet, &d, cells(&[3.0, 3.25]), None).unwrap();
    let t = ForcingSeries::from_dates(Variable::TemperatureMean, &d, cells(&[14.5, 15.0]), None).unwrap();
    let set = ForcingSet::align(vec![pr, pet, t]).unwrap();
    assert_eq!(
        set.to_csv(),
        "date,pr,pet,tmean\n2000-01-01,0,3,14.5\n2000-01-02,5.5,3.25,15\n"
    );
}

#[test]
fn from_dates_reports_each_error() {
    assert_eq!(
        ForcingSeries::from_dates(Variable::Pet, &dates(&["2000-01-01"]), vec![1.0, 2.0], None).unwrap_err(),
        DownscaleError::LengthMismatch { left_name: "dates", left: 1, right_name: "values", right: 2 }
    );
    assert_eq!(
        ForcingSeries::<f64>::from_dates(Variable::Pet, &[], vec![], None).unwrap_err(),
        DownscaleError::SeriesTooShort { name: "pet", len: 0, min: 1 }
    );
    assert_eq!(
        ForcingSeries::from_dates(Variable::Pet, &dates(&["2000-01-01", "2000-13-01"]), vec![1, 2], None)
            .unwrap_err(),
        DownscaleError::InvalidDate { value: "2000-13-01".into() }
    );
    assert_eq!(
        ForcingSeries::from_dates(Variable::TemperatureMean, &dates(&["2000-01-02", "2000-01-01"]), vec![1, 2], None)
            .unwrap_err(),
        DownscaleError::NonContiguous { name: "tmean", date: "2000-01-02".into(), gap_days: -1 }
    );
}

#[test]
fn series_accessors() {
    let s = ForcingSeries::from_dates(
        Variable::Pet,
        &dates(&["1999-12-31", "2000-01-01", "2000-01-02"]),
        vec![7, 8, 9],
        None,
    )
    .unwrap();
    assert_eq!(s.variable(), Variable::Pet);
    assert_eq!(format_date(s.start_day()), "1999-12-31");
    assert_eq!(format_date(s.end_day()), "2000-01-02");
    assert_eq!(s.values(), &[7, 8, 9]);
}

#[test]
fn align_reports_empty_and_duplicate_inputs() {
    assert_eq!(
        ForcingSet::<i32>::align(vec![]).unwrap_err(),
        DownscaleError::InvalidParameter { name: "series", value: 0, expected: ">= 1 serie" }
    );
    let d = dates(&["2000-01-01"]);
    let a = ForcingSeries::from_dates(Variable::Pet, &d, vec![1], None).unwrap();
    let b = ForcingSeries::from_dates(Variable::Precipitation, &d, vec![2], None).unwrap();
    let c = ForcingSeries::from_dates(Variable::Pet, &d, vec![3], None).unwrap();
    assert_eq!(
        ForcingSet::align(vec![a, b, c]).unwrap_err(),
        DownscaleError::InvalidParameter { name: "series", value: 2, expected: "variables sin repetir" }
    );
}

#[test]
fn aligned_set_keeps_column_order_and_values_by_day() {
    let a = ForcingSeries::from_dates(
        Variable::TemperatureMean,
        &dates(&["2000-02-27", "2000-02-28", "2000-02-29", "2000-03-01"]),
        vec![1, 2, 3, 4],
        None,
    )
    .unwrap();
    let b = ForcingSeries::from_dates(Variable::Pet, &dates(&["2000-02-29", "2000-03-01", "2000-03-02"]), vec![10, 20, 30], None)
        .unwrap();
    let set = ForcingSet::align(vec![a, b]).unwrap();
    assert_eq!(set.variables(), vec![Variable::TemperatureMean, Variable::Pet]);
    assert_eq!(format_date(set.start_day()), "2000-02-29");
    assert_eq!(set.len(), 2);
    assert!(!set.is_empty());
    assert_eq!(set.series(Variable::TemperatureMean).unwrap(), &[3, 4]);
    assert_eq!(set.series(Variable::Pet).unwrap(), &[10, 20]);
    assert_eq!(set.series(Variable::Precipitation), None);
}

#[test]
fn csv_of_a_single_column_crossing_a_year() {
    let s = ForcingSeries::from_dates(
        Variable::Precipitation,
        &dates(&["1999-12-31", "2000-01-01"]),
        vec!["1.5".to_string(), "0".to_string()],
        None,
    )
    .unwrap();
    let set = ForcingSet::align(vec![s]).unwrap();
    assert_eq!(set.to_csv(), "date,pr\n1999-12-31,1.5\n2000-01-01,0\n");
}

#[test]
fn cloned_series_aligns_the_same() {
    let s = ForcingSeries::from_dates(Variable::Pet, &dates(&["2000-01-01", "2000-01-02"]), vec![1, 2], None).unwrap();
    let t = s.clone();
    assert_eq!(t.values(), s.values());
    assert_eq!(t.start_day(), s.start_day());
    let set = ForcingSet::align(vec![t]).unwrap();
    let copy = set.clone();
    assert_eq!(copy.series(Variable::Pet).unwrap(), &[1, 2]);
}

#[test]
fn from_dates_reports_non_finite_after_lengths() {
    let d = dates(&["2000-01-01", "2000-01-02"]);
    assert_eq!(
        ForcingSeries::from_dates(Variable::Precipitation, &d, vec![1, 2], Some(1)).unwrap_err(),
        DownscaleError::NonFinite { name: "pr", index: 1 }
    );
    assert!(matches!(
        ForcingSeries::from_dates(Variable::Precipitation, &d, vec![1], Some(0)).unwrap_err(),
        DownscaleError::LengthMismatch { .. }
    ));
    // The finiteness verdict comes before the axis is read.
    assert_eq!(
        ForcingSeries::from_dates(Variable::Pet, &dates(&["x", "y"]), vec![1, 2], Some(0)).unwrap_err(),
        DownscaleError::NonFinite { name: "pet", index: 0 }
    );
}

#[test]
fn parse_date_rejects_text_cut_inside_a_character() {
    let s = "2000-01-0\u{e9}";
    assert_eq!(parse_date(s), Err(DownscaleError::InvalidDate { value: s.to_string() }));
    let s = "2000-01-01\u{e9}";
    assert_eq!(parse_date(s), Ok(10957));
}
