use taigi_picker::bag::TaigiEntryBag;
use taigi_picker::entry::TaigiEntry;
use taigi_picker::output::join_romanized;
use taigi_picker::selection::{get_parse_err, SelectionError};

fn entry(poj: &str, eng: &str) -> TaigiEntry {
    TaigiEntry::new(poj.to_string(), eng.to_string())
}

fn three_entry_bag() -> TaigiEntryBag {
    TaigiEntryBag::new(vec![entry("bah", "meat"), entry("tsa-po", "man"), entry("chui", "water")])
}

#[test]
fn round_trip_preserves_selection_order() {
    let bag = three_entry_bag();
    let picked = bag.get_entries_from_selection_output("2 0 1").unwrap();
    let forms: Vec<&str> = picked.iter().map(|e| e.romanized()).collect();
    assert_eq!(forms, vec!["chui", "bah", "tsa-po"]);
}

#[test]
fn round_trip_allows_repeats() {
    let bag = three_entry_bag();
    let picked = bag.get_entries_from_selection_output("1 1").unwrap();
    let forms: Vec<&str> = picked.iter().map(|e| e.romanized()).collect();
    assert_eq!(forms, vec!["tsa-po", "tsa-po"]);
}

#[test]
fn single_token_resolves_to_single_entry() {
    let bag = three_entry_bag();
    let picked = bag.get_entries_from_selection_output("0").unwrap();
    assert_eq!(picked.len(), 1);
    assert_eq!(picked[0].romanized(), "bah");
    assert_eq!(picked[0].english, "meat");
}

#[test]
fn out_of_range_index_names_the_offender() {
    let bag = three_entry_bag();
    let err = bag.get_entries_from_selection_output("5").unwrap_err();
    assert!(matches!(err, SelectionError::Lookup { index: 5 }));
}

#[test]
fn in_range_then_out_of_range_aborts_whole_resolution() {
    let bag = three_entry_bag();
    let err = bag.get_entries_from_selection_output("0 3").unwrap_err();
    assert!(matches!(err, SelectionError::Lookup { index: 3 }));
}

#[test]
fn non_numeric_token_carries_raw_output() {
    let bag = three_entry_bag();
    let err = bag.get_entries_from_selection_output("abc").unwrap_err();
    match err {
        SelectionError::Parse { raw } => assert_eq!(raw, "abc"),
        SelectionError::Lookup { .. } => panic!("expected a parse error"),
    }
}

#[test]
fn empty_output_is_a_parse_error() {
    let bag = three_entry_bag();
    let err = bag.get_entries_from_selection_output("").unwrap_err();
    match err {
        SelectionError::Parse { raw } => assert_eq!(raw, ""),
        SelectionError::Lookup { .. } => panic!("expected a parse error"),
    }
}

#[test]
fn doubled_space_makes_an_empty_token() {
    let bag = three_entry_bag();
    let err = bag.get_entries_from_selection_output("1  2").unwrap_err();
    assert!(matches!(err, SelectionError::Parse { .. }));
}

#[test]
fn negative_token_is_a_parse_error() {
    let bag = three_entry_bag();
    let err = bag.get_entries_from_selection_output("-1").unwrap_err();
    assert!(matches!(err, SelectionError::Parse { .. }));
}

#[test]
fn oversized_token_is_a_parse_error() {
    let bag = three_entry_bag();
    // one more than usize::MAX on a 64-bit machine
    let err = bag.get_entries_from_selection_output("18446744073709551616").unwrap_err();
    assert!(matches!(err, SelectionError::Parse { .. }));
}

#[test]
fn largest_index_still_parses() {
    let bag = three_entry_bag();
    let token = format!("{}", usize::MAX);
    let err = bag.get_entries_from_selection_output(&token).unwrap_err();
    assert!(matches!(err, SelectionError::Lookup { index: usize::MAX }));
}

#[test]
fn get_parse_err_carries_raw_output() {
    match get_parse_err("zzz 9") {
        SelectionError::Parse { raw } => assert_eq!(raw, "zzz 9"),
        SelectionError::Lookup { .. } => panic!("expected a parse error"),
    }
}

#[test]
fn end_to_end_scenario_prints_selected_forms() {
    let bag = TaigiEntryBag::new(vec![entry("bah", "meat"), entry("tsa-po", "man")]);
    let blob = bag.get_selector_input();
    let expected = format!(
        "\x1B[1mbah\x1B[0m  \x1B[3m{}meat\x1B[0m\n\x1B[1mtsa-po\x1B[0m  \x1B[3m{}man\x1B[0m",
        " ".repeat(12),
        " ".repeat(9),
    );
    assert_eq!(blob, expected);

    let one = bag.get_entries_from_selection_output("0").unwrap();
    assert_eq!(join_romanized(&one), "bah");

    let two = bag.get_entries_from_selection_output("1 0").unwrap();
    assert_eq!(join_romanized(&two), "tsa-po bah");
}
