use vlerv::cli::{absolute, deep_link, missing_path_lines, parse_cli, unknown_verb_line, usage_lines, CliAction};

fn args(a: &[&str]) -> Vec<String> {
    a.iter().map(|s| s.to_string()).collect()
}

#[test]
fn the_command_line_is_read_verb_then_path() {
    assert_eq!(parse_cli(&args(&["vlerv"])), CliAction::Usage);
    assert_eq!(parse_cli(&args(&["vlerv", "open"])), CliAction::MissingPath("open".into()));
    assert_eq!(parse_cli(&args(&["vlerv", "reveal"])), CliAction::MissingPath("reveal".into()));
    assert_eq!(parse_cli(&args(&["vlerv", "delete", "x"])), CliAction::UnknownVerb("delete".into()));
    assert_eq!(
        parse_cli(&args(&["vlerv", "open", "a b.html", "extra"])),
        CliAction::Run { verb: "open".into(), path: "a b.html".into() }
    );
}

#[test]
fn a_relative_path_is_made_absolute_against_the_working_directory() {
    assert_eq!(absolute("/w/a.html", "/home/x"), "/w/a.html");
    assert_eq!(absolute("docs/a.html", "/home/x"), "/home/x/docs/a.html");
    assert_eq!(absolute("a.html", "/"), "/a.html");
}

#[test]
fn the_deep_link_encodes_everything_but_the_unreserved_characters() {
    assert_eq!(deep_link("open", "/w/a b.html"), "vlerv://open?path=%2Fw%2Fa%20b.html");
    assert_eq!(deep_link("reveal", "/w/año-1_x~.md"), "vlerv://reveal?path=%2Fw%2Fa%C3%B1o-1_x~.md");
}

#[test]
fn the_command_explains_itself() {
    assert_eq!(usage_lines()[0], "Usage: vlerv open <path>");
    assert_eq!(usage_lines().len(), 4);
    assert_eq!(missing_path_lines("open"), vec!["Usage: vlerv open <path>".to_string(), "Error: missing path argument for 'open' verb".to_string()]);
    assert_eq!(unknown_verb_line("delete"), "vlerv: unknown verb 'delete'");
}
