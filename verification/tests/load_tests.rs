use taigi_picker::load::{decode_rows, find_column, load_entries, str_eq, LoadError};

#[test]
fn loads_rows_in_source_order() {
    let data = b"poj_unicode,english\nbah,meat\ntsa-po,man\n";
    let entries = load_entries(data).unwrap();
    assert_eq!(entries.len(), 2);
    assert_eq!(entries[0].poj_unicode, "bah");
    assert_eq!(entries[0].english, "meat");
    assert_eq!(entries[1].poj_unicode, "tsa-po");
    assert_eq!(entries[1].english, "man");
}

#[test]
fn extra_columns_are_ignored() {
    let data = b"id,english,poj_unicode\n7,meat,bah\n";
    let entries = load_entries(data).unwrap();
    assert_eq!(entries.len(), 1);
    assert_eq!(entries[0].poj_unicode, "bah");
    assert_eq!(entries[0].english, "meat");
}

#[test]
fn rows_with_spaces_in_the_form_are_excluded() {
    let data = b"poj_unicode,english\nbah,meat\ntsa po,man\nchui,water\n";
    let entries = load_entries(data).unwrap();
    assert_eq!(entries.len(), 2);
    assert_eq!(entries[0].poj_unicode, "bah");
    assert_eq!(entries[1].poj_unicode, "chui");
}

#[test]
fn rows_with_tabs_in_the_form_are_excluded() {
    let data = b"poj_unicode,english\na\tb,glossed\nok,fine\n";
    let entries = load_entries(data).unwrap();
    assert_eq!(entries.len(), 1);
    assert_eq!(entries[0].poj_unicode, "ok");
}

#[test]
fn no_loaded_form_contains_whitespace() {
    let data = b"poj_unicode,english\nbah,meat\ntsa po,man\nx y z,three\nsolo,alone\n";
    let entries = load_entries(data).unwrap();
    for e in &entries {
        assert!(!e.poj_unicode.chars().any(|c| c.is_whitespace()));
    }
    assert_eq!(entries.len(), 2);
}

#[test]
fn missing_gloss_column_fails_whole_load() {
    let data = b"poj_unicode,remark\nbah,meat\n";
    let err = load_entries(data).unwrap_err();
    match err {
        LoadError::MissingColumn { name } => assert_eq!(name, "english"),
        _ => panic!("expected a missing-column error"),
    }
}

#[test]
fn missing_form_column_fails_whole_load() {
    let data = b"word,english\nbah,meat\n";
    let err = load_entries(data).unwrap_err();
    match err {
        LoadError::MissingColumn { name } => assert_eq!(name, "poj_unicode"),
        _ => panic!("expected a missing-column error"),
    }
}

#[test]
fn ragged_row_fails_whole_load() {
    let data = b"poj_unicode,english\nbah,meat\nlonely\nchui,water\n";
    let err = load_entries(data).unwrap_err();
    assert!(matches!(err, LoadError::Csv { .. }));
}

#[test]
fn decode_rows_rejects_first_short_row() {
    let rows = vec![
        vec!["bah".to_string(), "meat".to_string()],
        vec!["lonely".to_string()],
        vec!["chui".to_string(), "water".to_string()],
    ];
    let err = decode_rows(&rows, 0, 1).unwrap_err();
    assert!(matches!(err, LoadError::ShortRow { row: 1 }));
}

#[test]
fn decode_rows_keeps_order_and_filters() {
    let rows = vec![
        vec!["meat".to_string(), "bah".to_string()],
        vec!["man".to_string(), "tsa po".to_string()],
        vec!["water".to_string(), "chui".to_string()],
    ];
    let entries = decode_rows(&rows, 1, 0).unwrap();
    assert_eq!(entries.len(), 2);
    assert_eq!(entries[0].poj_unicode, "bah");
    assert_eq!(entries[0].english, "meat");
    assert_eq!(entries[1].poj_unicode, "chui");
    assert_eq!(entries[1].english, "water");
}

#[test]
fn find_column_returns_first_match() {
    let header = vec!["a".to_string(), "b".to_string(), "b".to_string()];
    assert_eq!(find_column(&header, "b"), Some(1));
    assert_eq!(find_column(&header, "a"), Some(0));
    assert_eq!(find_column(&header, "c"), None);
}

#[test]
fn str_eq_compares_characters() {
    assert!(str_eq("", ""));
    assert!(str_eq("tâi-gí", "tâi-gí"));
    assert!(!str_eq("tâi-gí", "tai-gi"));
    assert!(!str_eq("abc", "abcd"));
}
