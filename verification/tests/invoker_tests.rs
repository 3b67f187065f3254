use taigi_picker::output::{join_romanized, strip_trailing_newlines};
use taigi_picker::preview::{construct_preview_command, get_fzf_args};
use taigi_picker::entry::TaigiEntry;

#[test]
fn preview_command_interpolates_delimiter_into_awk() {
    // Built exactly as the invoker interpolates it; note the trailing
    // space after each piped awk call and after the for-list.
    let awk_cmd = format!("awk -F \"{delim}\" \"{{printf \\\"%s \\\",\\$1}}\"", delim = "  ");
    let current_word_cmd = format!(
        "\n            echo -en \"\\e[1m\";\n            echo -n {{}} | {awk_cmd}; \n            echo -en \"\\e[0m\";\n            ",
        awk_cmd = awk_cmd
    );
    let expected = format!(
        "\n        if [[ \"{{+}}\" == \"{{}}\" ]]; then\n            {current_word_cmd}\n        else\n            for selection in {{+}}; \n                do echo -n \"$selection\" | {awk_cmd}; \n            done\n            {current_word_cmd}\n        fi",
        awk_cmd = awk_cmd,
        current_word_cmd = current_word_cmd
    );
    assert_eq!(construct_preview_command(), expected);
}

#[test]
fn selector_arguments_are_fixed() {
    let args = get_fzf_args();
    assert_eq!(args.len(), 11);
    assert_eq!(args[0], "--ansi");
    assert_eq!(args[1], "--reverse");
    assert_eq!(args[2], "--multi");
    assert_eq!(args[3], "--bind");
    assert_eq!(args[4], "tab:toggle+down+clear-query+first");
    assert_eq!(args[5], "--bind");
    assert_eq!(args[6], "enter:execute(echo {+n})+cancel");
    assert_eq!(args[7], "--preview");
    assert_eq!(args[8], construct_preview_command());
    assert_eq!(args[9], "--preview-window");
    assert_eq!(args[10], "up:1");
}

#[test]
fn trailing_newlines_are_stripped() {
    assert_eq!(strip_trailing_newlines("3\n"), "3");
    assert_eq!(strip_trailing_newlines("1 0\n\n\n"), "1 0");
    assert_eq!(strip_trailing_newlines("a\nb\n"), "a\nb");
    assert_eq!(strip_trailing_newlines(""), "");
    assert_eq!(strip_trailing_newlines("\n\n"), "");
    assert_eq!(strip_trailing_newlines("no newline"), "no newline");
    assert_eq!(strip_trailing_newlines("spaces kept \n"), "spaces kept ");
}

#[test]
fn romanized_forms_join_with_single_spaces() {
    let entries = vec![
        TaigiEntry::new("tsa-po".to_string(), "man".to_string()),
        TaigiEntry::new("bah".to_string(), "meat".to_string()),
    ];
    assert_eq!(join_romanized(&entries), "tsa-po bah");
    let one = vec![TaigiEntry::new("chui".to_string(), "water".to_string())];
    assert_eq!(join_romanized(&one), "chui");
    let none: Vec<TaigiEntry> = vec![];
    assert_eq!(join_romanized(&none), "");
}
