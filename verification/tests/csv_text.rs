use downscale_core::csv_text::{
    date_value_fields, field_is_date_word, field_looks_like_date, header_columns, row_fields,
    split_fields, trim_text,
};

#[test]
fn trim_text_drops_unicode_white_space_at_both_ends() {
    assert_eq!(trim_text("  a b \t"), "a b");
    assert_eq!(trim_text("\u{3000}\u{a0}x\u{2009}\n"), "x");
    assert_eq!(trim_text(" \t "), "");
    assert_eq!(trim_text(""), "");
    assert_eq!(trim_text("x"), "x");
}

#[test]
fn split_fields_follows_split_and_trim() {
    assert_eq!(split_fields(" a , b,,c "), vec!["a", "b", "", "c"]);
    assert_eq!(split_fields(""), vec![""]);
    assert_eq!(split_fields("a,"), vec!["a", ""]);
    assert_eq!(split_fields(",,"), vec!["", "", ""]);
}

#[test]
fn date_shape_counts_utf8_bytes() {
    assert!(field_looks_like_date("2020-01-01"));
    assert!(field_looks_like_date("2020-01-01T00:00"));
    assert!(!field_looks_like_date("20200101"));
    assert!(!field_looks_like_date("x2020-01-01"));
    assert!(!field_looks_like_date("20-1-1"));
    assert!(!field_looks_like_date(""));
    // Eight bytes but only five characters.
    assert!(field_looks_like_date("1-\u{e9}\u{e9}\u{e9}"));
    assert!(!field_looks_like_date("1-\u{e9}\u{e9}"));
}

#[test]
fn date_word_ignores_ascii_case_only() {
    assert!(field_is_date_word("date"));
    assert!(field_is_date_word("DaTe"));
    assert!(!field_is_date_word("dates"));
    assert!(!field_is_date_word("time"));
    assert!(!field_is_date_word(""));
}

#[test]
fn date_value_fields_splits_at_first_comma() {
    assert_eq!(
        date_value_fields("2020-01-01, 3.5"),
        Some(("2020-01-01".to_string(), "3.5".to_string()))
    );
    assert_eq!(
        date_value_fields(" 2020-01-02 ,1,2"),
        Some(("2020-01-02".to_string(), "1,2".to_string()))
    );
    assert_eq!(date_value_fields("2020-01-03,"), Some(("2020-01-03".to_string(), String::new())));
    assert_eq!(date_value_fields("date,value"), None);
    assert_eq!(date_value_fields("2020-01-01"), None);
    assert_eq!(date_value_fields("20200101,3"), None);
    assert_eq!(date_value_fields(""), None);
}

#[test]
fn header_columns_wants_date_first_and_one_more() {
    assert_eq!(
        header_columns(" Date , tas, pr"),
        Some(vec!["tas".to_string(), "pr".to_string()])
    );
    assert_eq!(header_columns("DATE,x"), Some(vec!["x".to_string()]));
    assert_eq!(header_columns("date"), None);
    assert_eq!(header_columns("time,tas"), None);
    assert_eq!(header_columns(""), None);
}

#[test]
fn row_fields_wants_the_right_count_and_a_date() {
    assert_eq!(
        row_fields("2020-01-01, 1, 2", 2),
        Some(("2020-01-01".to_string(), vec!["1".to_string(), "2".to_string()]))
    );
    assert_eq!(row_fields("2020-01-01,1", 2), None);
    assert_eq!(row_fields("2020-01-01,1,2,3", 2), None);
    assert_eq!(row_fields("day 1,1,2", 2), None);
    assert_eq!(row_fields("2020-01-01,NA,", 2), Some(("2020-01-01".to_string(), vec!["NA".to_string(), String::new()])));
}

#[test]
fn series_reader_lines_keep_only_date_rows() {
    let text = "lat,lon\n-33,70\n\ndate,pr\n2000-01-01,1.5\n2000-01-02,-9999\n2000-01-03,NA\n2000-01-04,0\n";
    let kept: Vec<(String, String)> = text.lines().filter_map(date_value_fields).collect();
    assert_eq!(
        kept,
        vec![
            ("2000-01-01".to_string(), "1.5".to_string()),
            ("2000-01-02".to_string(), "-9999".to_string()),
            ("2000-01-03".to_string(), "NA".to_string()),
            ("2000-01-04".to_string(), "0".to_string()),
        ]
    );
}

#[test]
fn matrix_reader_header_and_rows() {
    let text = "date,pmsl,rh\n2000-01-01,1012.0,60\n2000-01-02,1008.0,-9999\n2000-01-03,1015.0,55\n";
    let mut lines = text.lines();
    let columns = header_columns(lines.next().unwrap()).unwrap();
    assert_eq!(columns, vec!["pmsl", "rh"]);
    let rows: Vec<(String, Vec<String>)> =
        lines.filter_map(|l| row_fields(l, columns.len())).collect();
    assert_eq!(rows.len(), 3);
    assert_eq!(rows[0].0, "2000-01-01");
    assert_eq!(rows[1].1, vec!["1008.0", "-9999"]);
    assert_eq!(rows[2].1, vec!["1015.0", "55"]);
}
