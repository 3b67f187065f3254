use vstd::prelude::*;

verus! {

/// The awk snippet the preview runs: split the line on the two-space
/// delimiter and print the first field followed by a space. Its
/// delimiter literal must match the one the display formatter inserts.
pub open spec fn awk_cmd_spec() -> Seq<char> {
    "awk -F \"  \" \"{printf \\\"%s \\\",\\$1}\""@
}

/// The snippet printing the highlighted row's romanized form in bold.
pub open spec fn current_word_cmd_spec() -> Seq<char> {
    "\n            echo -en \"\\e[1m\";\n            echo -n {} | "@ + awk_cmd_spec()
        + "; \n            echo -en \"\\e[0m\";\n            "@
}

/// The whole preview expression. The selector substitutes the
/// highlighted line for `{}` and all selected lines for `{+}`; the two
/// substitutions coincide exactly when nothing is selected, which the
/// leading comparison uses to tell the two situations apart.
pub open spec fn preview_command_spec() -> Seq<char> {
    "\n        if [[ \"{+}\" == \"{}\" ]]; then\n            "@ + current_word_cmd_spec()
        + "\n        else\n            for selection in {+}; \n                do echo -n \"$selection\" | "@
        + awk_cmd_spec() + "; \n            done\n            "@ + current_word_cmd_spec()
        + "\n        fi"@
}

/// Appends the highlighted-row snippet to the command being built.
fn append_current_word_cmd(s: &mut String)
    ensures
        final(s)@ == old(s)@ + current_word_cmd_spec(),
{
    s.append("\n            echo -en \"\\e[1m\";\n            echo -n {} | ");
    s.append("awk -F \"  \" \"{printf \\\"%s \\\",\\$1}\"");
    s.append("; \n            echo -en \"\\e[0m\";\n            ");
    proof {
        assert(s@ =~= old(s)@ + current_word_cmd_spec());
    }
}

/// Builds the selector's preview expression, interpolating the awk
/// field-extraction snippet around the delimiter.
pub fn construct_preview_command() -> (r: String)
    ensures
        r@ == preview_command_spec(),
{
    let mut s = String::new();
    s.append("\n        if [[ \"{+}\" == \"{}\" ]]; then\n            ");
    append_current_word_cmd(&mut s);
    s.append(
        "\n        else\n            for selection in {+}; \n                do echo -n \"$selection\" | ",
    );
    s.append("awk -F \"  \" \"{printf \\\"%s \\\",\\$1}\"");
    s.append("; \n            done\n            ");
    append_current_word_cmd(&mut s);
    s.append("\n        fi");
    proof {
        assert(s@ =~= preview_command_spec());
    }
    s
}

/// The selector's fixed invocation: full-screen reversed layout,
/// multi-select, styling codes interpreted, the quick-pick and confirm
/// key bindings, and a one-row preview pane running the preview
/// expression.
pub fn get_fzf_args() -> (r: Vec<String>)
    ensures
        r@.len() == 11,
        r@[0]@ == "--ansi"@,
        r@[1]@ == "--reverse"@,
        r@[2]@ == "--multi"@,
        r@[3]@ == "--bind"@,
        r@[4]@ == "tab:toggle+down+clear-query+first"@,
        r@[5]@ == "--bind"@,
        r@[6]@ == "enter:execute(echo {+n})+cancel"@,
        r@[7]@ == "--preview"@,
        r@[8]@ == preview_command_spec(),
        r@[9]@ == "--preview-window"@,
        r@[10]@ == "up:1"@,
{
    let mut v: Vec<String> = Vec::new();
    v.push(String::from_str("--ansi"));
    v.push(String::from_str("--reverse"));
    v.push(String::from_str("--multi"));
    v.push(String::from_str("--bind"));
    v.push(String::from_str("tab:toggle+down+clear-query+first"));
    v.push(String::from_str("--bind"));
    v.push(String::from_str("enter:execute(echo {+n})+cancel"));
    v.push(String::from_str("--preview"));
    v.push(construct_preview_command());
    v.push(String::from_str("--preview-window"));
    v.push(String::from_str("up:1"));
    v
}

} // verus!
