use lup::cli::{parse, validate, ParsedArgs, HELP, VERSION};
use lup::{Boundary, KindFilter};

fn parse_strs(bs: &[&[u8]]) -> Result<ParsedArgs, String> {
    parse(bs.iter().map(|b| b.to_vec()).collect())
}

#[test]
fn parses_query_only() {
    let a = parse_strs(&[b".env"]).unwrap();
    assert_eq!(a.query.as_deref(), Some(b".env".as_ref()));
    assert!(!a.all);
}

#[test]
fn parses_short_flags() {
    let a = parse_strs(&[b"-a", b".env"]).unwrap();
    assert!(a.all);
    assert_eq!(a.query.as_deref(), Some(b".env".as_ref()));
}

#[test]
fn parses_stacked_short_flags() {
    let a = parse_strs(&[b"-ae", b".env"]).unwrap();
    assert!(a.all);
    assert!(a.echo);
}

#[test]
fn parses_long_flags() {
    let a = parse_strs(&[b"--all", b"--null", b".env"]).unwrap();
    assert!(a.all);
    assert!(a.null_terminate);
}

#[test]
fn rejects_unknown_short_flag() {
    let r = parse_strs(&[b"-x", b".env"]);
    assert!(r.is_err());
}

#[test]
fn rejects_unknown_long_flag() {
    let r = parse_strs(&[b"--bogus", b".env"]);
    assert!(r.is_err());
}

#[test]
fn double_dash_treats_remainder_as_positional() {
    let a = parse_strs(&[b"--", b"-x"]).unwrap();
    assert_eq!(a.query.as_deref(), Some(b"-x".as_ref()));
}

#[test]
fn completions_consumes_shell_argument() {
    let a = parse_strs(&[b"--completions", b"zsh"]).unwrap();
    assert_eq!(a.completions_shell.as_deref(), Some(b"zsh".as_ref()));
}

#[test]
fn mutex_violation_g_r() {
    let r = parse_strs(&[b"-g", b"-r", b".env"]);
    assert!(r.is_err());
    let err = r.unwrap_err();
    assert!(err.contains("-g") || err.contains("--git"));
}

#[test]
fn mutex_violation_f_d() {
    let r = parse_strs(&[b"-f", b"-d", b".env"]);
    assert!(r.is_err());
}

#[test]
fn mutex_violation_l_p() {
    let r = parse_strs(&[b"-L", b"-P", b".env"]);
    assert!(r.is_err());
}

#[test]
fn missing_query_is_error() {
    let r = parse_strs(&[b"-a"]);
    assert!(r.is_err());
}

#[test]
fn help_short_circuits_missing_query() {
    let a = parse_strs(&[b"-h"]).unwrap();
    assert!(a.help);
    assert!(a.query.is_none());
}

#[test]
fn version_short_circuits_missing_query() {
    let a = parse_strs(&[b"-V"]).unwrap();
    assert!(a.version);
}

#[test]
fn completions_short_circuits_missing_query() {
    let a = parse_strs(&[b"--completions", b"bash"]).unwrap();
    assert_eq!(a.completions_shell.as_deref(), Some(b"bash".as_ref()));
    assert!(a.query.is_none());
}

#[test]
fn help_text_mentions_examples() {
    assert!(HELP.contains("source $(lup .env)"));
    assert!(HELP.contains("eval $(lup -e .env)"));
}

#[test]
fn version_constant_is_set() {
    assert_eq!(VERSION, "0.1.0");
}

#[test]
fn unknown_short_flag_message_names_the_flag() {
    let err = parse_strs(&[b"-ax", b".env"]).unwrap_err();
    assert_eq!(err, "unknown short flag: -x");
}

#[test]
fn unknown_long_flag_message_names_the_flag() {
    let err = parse_strs(&[b"--bogus", b".env"]).unwrap_err();
    assert_eq!(err, "unknown flag: --bogus");
}

#[test]
fn unknown_long_flag_with_invalid_utf8_is_shown_lossily() {
    let err = parse_strs(&[b"--b\xffd"]).unwrap_err();
    assert_eq!(err, "unknown flag: --b\u{fffd}d");
}

#[test]
fn completions_without_shell_is_error() {
    let err = parse_strs(&[b"--completions"]).unwrap_err();
    assert_eq!(err, "--completions requires <SHELL>");
}

#[test]
fn completions_takes_next_argument_verbatim() {
    let a = parse_strs(&[b"--completions", b"--all"]).unwrap();
    assert_eq!(a.completions_shell.as_deref(), Some(b"--all".as_ref()));
    assert!(!a.all);
}

#[test]
fn later_positional_replaces_query() {
    let a = parse_strs(&[b".env", b".git"]).unwrap();
    assert_eq!(a.query.as_deref(), Some(b".git".as_ref()));
}

#[test]
fn single_dash_is_positional() {
    let a = parse_strs(&[b"-"]).unwrap();
    assert_eq!(a.query.as_deref(), Some(b"-".as_ref()));
}

#[test]
fn flags_after_double_dash_are_positional() {
    let a = parse_strs(&[b"--", b"-a", b"-b"]).unwrap();
    assert_eq!(a.query.as_deref(), Some(b"-b".as_ref()));
    assert!(!a.all);
}

#[test]
fn every_short_and_long_flag_is_recognized() {
    let a = parse_strs(&[b"-aegfL0hV", b".env"]).unwrap();
    assert!(a.all && a.echo && a.git && a.files_only && a.follow_explicit);
    assert!(a.null_terminate && a.help && a.version);
    let b = parse_strs(&[
        b"--echo", b"--relative", b"--root", b"--dirs", b"--no-follow", b"--help", b"--version", b"q",
    ])
    .unwrap();
    assert!(b.echo && b.relative && b.root && b.dirs_only && b.no_follow_explicit);
    assert!(b.help && b.version);
    assert!(!b.effective_follow());
}

#[test]
fn mutex_messages_are_exact() {
    assert_eq!(
        parse_strs(&[b"-f", b"-d", b"x"]).unwrap_err(),
        "flags -f/--files and -d/--dirs are mutually exclusive"
    );
    assert_eq!(
        parse_strs(&[b"-L", b"-P", b"x"]).unwrap_err(),
        "flags -L/--follow and -P/--no-follow are mutually exclusive"
    );
    assert_eq!(parse_strs(&[b"-a"]).unwrap_err(), "missing positional query argument");
}

#[test]
fn validate_accepts_default_with_query() {
    let mut a = ParsedArgs::default();
    assert_eq!(validate(&a), Err("missing positional query argument".to_string()));
    a.query = Some(b".env".to_vec());
    assert_eq!(validate(&a), Ok(()));
    a.git = true;
    a.root = true;
    assert!(validate(&a).is_err());
}

#[test]
fn effective_follow_defaults_to_true() {
    let a = parse_strs(&[b".env"]).unwrap();
    assert!(a.effective_follow());
    let b = parse_strs(&[b"-P", b".env"]).unwrap();
    assert!(!b.effective_follow());
}

#[test]
fn settings_select_filter_and_boundary() {
    let a = parse_strs(&[b"-f", b"-g", b".env"]).unwrap();
    assert_eq!(a.kind_filter(), Some(KindFilter::Files));
    assert_eq!(a.boundary(), Boundary::Git);
    let b = parse_strs(&[b"-d", b"-r", b".env"]).unwrap();
    assert_eq!(b.kind_filter(), Some(KindFilter::Dirs));
    assert_eq!(b.boundary(), Boundary::Root);
    let c = parse_strs(&[b".env"]).unwrap();
    assert_eq!(c.kind_filter(), None);
    assert_eq!(c.boundary(), Boundary::Home);
}

#[test]
fn settings_build_the_query() {
    let a = parse_strs(&[b"-a0P", b"--relative", b".env"]).unwrap();
    let q = a.to_query().unwrap();
    assert_eq!(q.path, b".env");
    assert!(q.all && q.null_terminate && q.relative && !q.follow && !q.echo);
    let h = parse_strs(&[b"-h"]).unwrap();
    assert!(h.to_query().is_none());
}

#[test]
fn flag_order_does_not_matter() {
    let a = parse_strs(&[b"-a", b".env", b"--null", b"-g"]).unwrap();
    let b = parse_strs(&[b".env", b"-g", b"--null", b"-a"]).unwrap();
    assert_eq!(a, b);
}

#[test]
fn query_may_come_anywhere_among_flags() {
    let a = parse_strs(&[b"-a", b"--null", b".env"]).unwrap();
    let b = parse_strs(&[b"--null", b".env", b"-a"]).unwrap();
    let c = parse_strs(&[b".env", b"-a", b"--null"]).unwrap();
    assert_eq!(a, b);
    assert_eq!(a, c);
}
