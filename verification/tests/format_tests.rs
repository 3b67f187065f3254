use taigi_picker::bag::TaigiEntryBag;
use taigi_picker::entry::TaigiEntry;

fn entry(poj: &str, eng: &str) -> TaigiEntry {
    TaigiEntry::new(poj.to_string(), eng.to_string())
}

fn expected_line(poj: &str, eng: &str) -> String {
    let pad = 15usize.saturating_sub(poj.chars().count());
    format!(
        "\x1B[1m{poj}\x1B[0m{delim}\x1B[3m{blank:width$}{eng}\x1B[0m",
        poj = poj,
        delim = "  ",
        blank = "",
        eng = eng,
        width = pad,
    )
}

#[test]
fn line_has_twelve_spaces_for_three_char_form() {
    let line = TaigiEntryBag::format_str(&entry("bah", "meat"));
    assert_eq!(line, format!("\x1B[1mbah\x1B[0m  \x1B[3m{}meat\x1B[0m", " ".repeat(12)));
}

#[test]
fn line_has_nine_spaces_for_six_char_form() {
    let line = TaigiEntryBag::format_str(&entry("tsa-po", "man"));
    assert_eq!(line, format!("\x1B[1mtsa-po\x1B[0m  \x1B[3m{}man\x1B[0m", " ".repeat(9)));
}

#[test]
fn width_is_counted_in_unicode_scalars() {
    // "pe̍h-ōe-jī" is 10 scalars (the combining mark counts as one), so
    // five spaces of padding follow.
    let poj = "pe\u{30d}h-\u{14d}e-j\u{12b}";
    assert_eq!(poj.chars().count(), 10);
    let line = TaigiEntryBag::format_str(&entry(poj, "romanization"));
    assert_eq!(line, expected_line(poj, "romanization"));
}

#[test]
fn form_at_target_width_gets_no_padding() {
    let poj = "abcdefghijklmno";
    assert_eq!(poj.chars().count(), 15);
    let line = TaigiEntryBag::format_str(&entry(poj, "x"));
    assert_eq!(line, format!("\x1B[1m{}\x1B[0m  \x1B[3mx\x1B[0m", poj));
}

#[test]
fn form_past_target_width_gets_no_padding() {
    let poj = "abcdefghijklmnopqr";
    let line = TaigiEntryBag::format_str(&entry(poj, "y"));
    assert_eq!(line, format!("\x1B[1m{}\x1B[0m  \x1B[3my\x1B[0m", poj));
}

#[test]
fn blob_joins_lines_with_newlines_in_order() {
    let entries = vec![entry("bah", "meat"), entry("tsa-po", "man")];
    let blob = TaigiEntryBag::format_for_selection(&entries);
    let expected = format!("{}\n{}", expected_line("bah", "meat"), expected_line("tsa-po", "man"));
    assert_eq!(blob, expected);
}

#[test]
fn blob_of_no_entries_is_empty() {
    let blob = TaigiEntryBag::format_for_selection(&[]);
    assert_eq!(blob, "");
}

#[test]
fn formatting_twice_is_byte_identical() {
    let entries = vec![entry("bah", "meat"), entry("tsa-po", "man")];
    let first = TaigiEntryBag::format_for_selection(&entries);
    let second = TaigiEntryBag::format_for_selection(&entries);
    assert_eq!(first, second);
}

#[test]
fn cached_blob_is_stable_across_reads() {
    let bag = TaigiEntryBag::new(vec![entry("bah", "meat"), entry("tsa-po", "man")]);
    let first = bag.get_selector_input().to_string();
    let second = bag.get_selector_input().to_string();
    assert_eq!(first, second);
    assert_eq!(
        first,
        TaigiEntryBag::format_for_selection(&[entry("bah", "meat"), entry("tsa-po", "man")])
    );
}
