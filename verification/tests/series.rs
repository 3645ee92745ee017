use downscale_core::series::{pair_by_date, pair_matrix_series};

fn texts(items: &[&str]) -> Vec<String> {
    items.iter().map(|s| s.to_string()).collect()
}

#[test]
fn pairs_intersection_in_order() {
    let a_dates = texts(&["2000-01-01", "2000-01-02", "2000-01-03"]);
    let a_values = vec![1.0, 2.0, 3.0];
    let b_dates = texts(&["2000-01-03", "2000-01-01"]);
    let b_values = vec![30.0, 10.0];
    let (dates, va, vb) = pair_by_date(&a_dates, &a_values, &b_dates, &b_values).unwrap();
    assert_eq!(dates, vec!["2000-01-01", "2000-01-03"]);
    assert_eq!(va, vec![1.0, 3.0]);
    assert_eq!(vb, vec![10.0, 30.0]);
}

#[test]
fn pairing_takes_the_last_repeated_date_of_the_second_series() {
    let a_dates = texts(&["2000-01-01", "2000-01-01"]);
    let b_dates = texts(&["2000-01-01", "2000-01-02", "2000-01-01"]);
    let (dates, va, vb) = pair_by_date(&a_dates, &[1, 2], &b_dates, &[10, 20, 30]).unwrap();
    assert_eq!(dates, vec!["2000-01-01", "2000-01-01"]);
    assert_eq!(va, vec![1, 2]);
    assert_eq!(vb, vec![30, 30]);
}

#[test]
fn pairing_compares_exact_text_and_zips() {
    // Same day, other text: no pair.
    assert_eq!(
        pair_by_date(&texts(&["2000-01-01"]), &[1], &texts(&["2000-01-01T00"]), &[2]),
        None
    );
    // A date of `b` past its values is not read.
    assert_eq!(
        pair_by_date(&texts(&["2000-01-02"]), &[1], &texts(&["2000-01-01", "2000-01-02"]), &[5]),
        None
    );
    // A date of `a` past its values is not read either.
    assert_eq!(
        pair_by_date(&texts(&["2000-01-01", "2000-01-02"]), &[1], &texts(&["2000-01-02"]), &[5]),
        None
    );
    assert_eq!(pair_by_date::<i32>(&[], &[], &[], &[]), None);
}

#[test]
fn matrix_pairs_rows_by_date() {
    let m_dates = texts(&["2000-01-01", "2000-01-03"]);
    let m_data = vec![1012.0, 60.0, 1015.0, 55.0];
    let obs_dates = texts(&["2000-01-03", "2000-01-01"]);
    let obs_values = vec![3.0, 1.0];
    let (data, n, y) = pair_matrix_series(&m_dates, &m_data, 2, &obs_dates, &obs_values).unwrap();
    assert_eq!(n, 2);
    assert_eq!(data, vec![1012.0, 60.0, 1015.0, 55.0]);
    assert_eq!(y, vec![1.0, 3.0]);

    let (data, _, y) =
        pair_matrix_series(&m_dates, &m_data, 2, &texts(&["2000-01-03"]), &[9.0]).unwrap();
    assert_eq!(data, vec![1015.0, 55.0]);
    assert_eq!(y, vec![9.0]);
    assert_eq!(pair_matrix_series(&m_dates, &m_data, 2, &texts(&["1999-12-31"]), &[9.0]), None);
}

#[test]
fn pairing_many_days_is_exact() {
    let n = 3000;
    let a_dates: Vec<String> = (0..n).map(|i| format!("d{i:05}")).collect();
    let a_values: Vec<usize> = (0..n).collect();
    // Every third day, in reverse order.
    let b_dates: Vec<String> = (0..n).rev().filter(|i| i % 3 == 0).map(|i| format!("d{i:05}")).collect();
    let b_values: Vec<usize> = (0..n).rev().filter(|i| i % 3 == 0).map(|i| i * 10).collect();
    let (dates, va, vb) = pair_by_date(&a_dates, &a_values, &b_dates, &b_values).unwrap();
    assert_eq!(dates.len(), n / 3);
    for (k, d) in dates.iter().enumerate() {
        assert_eq!(*d, format!("d{:05}", 3 * k));
        assert_eq!(va[k], 3 * k);
        assert_eq!(vb[k], 30 * k);
    }
}
