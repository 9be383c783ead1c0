use vlerv::args::{resolve_arg_path, validate_device_query, validate_optional_scope, validate_ttl};
use vlerv::beam::{DEFAULT_TTL_HOURS, MAX_TTL_HOURS};
use vlerv::peers::Scope;

fn cwd() -> String {
    "/work/project".to_string()
}

#[test]
fn an_absolute_path_passes_through_unchanged() {
    let got = resolve_arg_path("/w/report.html", &cwd(), None).unwrap();
    assert_eq!(got, "/w/report.html");
}

#[test]
fn a_relative_path_resolves_against_the_working_directory() {
    let got = resolve_arg_path("dist/report.html", &cwd(), None).unwrap();
    assert_eq!(got, "/work/project/dist/report.html");
    assert_eq!(
        resolve_arg_path("  dist/report.html  ", &cwd(), None).unwrap(),
        "/work/project/dist/report.html"
    );
}

#[test]
fn a_tilde_expands_only_when_a_home_directory_is_known() {
    let home = "/Users/x".to_string();
    assert_eq!(
        resolve_arg_path("~/notes/a.md", &cwd(), Some(&home)).unwrap(),
        "/Users/x/notes/a.md"
    );
    assert_eq!(resolve_arg_path("~", &cwd(), Some(&home)).unwrap(), home);
    assert!(resolve_arg_path("~/a.md", &cwd(), None).is_err());
    assert_eq!(
        resolve_arg_path("~other/a.md", &cwd(), Some(&home)).unwrap(),
        "/work/project/~other/a.md"
    );
}

#[test]
fn empty_and_nul_paths_are_refused() {
    assert_eq!(resolve_arg_path("", &cwd(), None).unwrap_err(), "path must not be empty");
    assert_eq!(resolve_arg_path("   ", &cwd(), None).unwrap_err(), "path must not be empty");
    assert_eq!(
        resolve_arg_path("/w/a\0b.html", &cwd(), None).unwrap_err(),
        "path must not contain NUL bytes"
    );
}

#[test]
fn ttl_defaults_to_a_day_and_refuses_out_of_range_values() {
    assert_eq!(validate_ttl(None).unwrap(), DEFAULT_TTL_HOURS);
    assert_eq!(validate_ttl(Some(1)).unwrap(), 1);
    assert_eq!(validate_ttl(Some(MAX_TTL_HOURS)).unwrap(), MAX_TTL_HOURS);
    assert!(validate_ttl(Some(0)).is_err());
    assert!(validate_ttl(Some(MAX_TTL_HOURS + 1)).is_err());
    assert!(validate_ttl(Some(u32::MAX)).is_err());
}

#[test]
fn a_device_query_must_carry_something_to_match_on() {
    assert_eq!(validate_device_query("  MacBook  ").unwrap(), "MacBook");
    assert!(validate_device_query("").is_err());
    assert!(validate_device_query("\t \n").is_err());
}

#[test]
fn an_optional_scope_keeps_the_difference_between_none_and_a_named_grant() {
    assert_eq!(validate_optional_scope(None).unwrap(), None);
    assert_eq!(validate_optional_scope(Some(" control ")).unwrap(), Some(Scope::Control));
    assert_eq!(validate_optional_scope(Some("view-open")).unwrap(), Some(Scope::ViewOpen));
    assert_eq!(validate_optional_scope(Some("browse")).unwrap(), Some(Scope::Browse));
    assert!(validate_optional_scope(Some("")).is_err());
    assert!(validate_optional_scope(Some("Control")).is_err());
    assert!(validate_optional_scope(Some("admin")).is_err());
}

#[test]
fn an_out_of_range_ttl_names_the_range_and_the_value() {
    assert_eq!(validate_ttl(Some(0)).unwrap_err(), "ttl_hours must be between 1 and 720, got 0");
}

#[test]
fn a_refused_scope_lists_the_valid_ones() {
    let err = validate_optional_scope(Some("admin")).unwrap_err();
    assert!(err.ends_with("use \"view-open\", \"browse\" or \"control\""), "{err}");
}
