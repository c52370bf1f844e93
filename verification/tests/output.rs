use lup::output::write_hits;
use lup::{Hit, Query};

#[test]
fn default_mode_writes_newline_terminated_paths() {
    let hits = vec![Hit::Path(b"/a/b/.env".to_vec())];
    let q = Query::new(b".env");
    let mut buf = Vec::new();
    write_hits(&mut buf, &hits, &q, b"/a/b/c").unwrap();
    assert_eq!(buf, b"/a/b/.env\n");
}

#[test]
fn default_mode_multiple_hits() {
    let hits = vec![
        Hit::Path(b"/a/b/c/.env".to_vec()),
        Hit::Path(b"/a/.env".to_vec()),
    ];
    let q = Query::new(b".env");
    let mut buf = Vec::new();
    write_hits(&mut buf, &hits, &q, b"/a/b/c").unwrap();
    assert_eq!(buf, b"/a/b/c/.env\n/a/.env\n");
}

#[test]
fn null_terminate_replaces_newline() {
    let hits = vec![Hit::Path(b"/a/.env".to_vec()), Hit::Path(b"/.env".to_vec())];
    let mut q = Query::new(b".env");
    q.null_terminate = true;
    let mut buf = Vec::new();
    write_hits(&mut buf, &hits, &q, b"/a").unwrap();
    assert_eq!(buf, b"/a/.env\0/.env\0");
}

#[test]
fn relative_mode_for_path_in_pwd() {
    let hits = vec![Hit::Path(b"/a/b/c/.env".to_vec())];
    let mut q = Query::new(b".env");
    q.relative = true;
    let mut buf = Vec::new();
    write_hits(&mut buf, &hits, &q, b"/a/b/c").unwrap();
    assert_eq!(buf, b".env\n");
}

#[test]
fn relative_mode_for_ancestor() {
    let hits = vec![Hit::Path(b"/a/.env".to_vec())];
    let mut q = Query::new(b".env");
    q.relative = true;
    let mut buf = Vec::new();
    write_hits(&mut buf, &hits, &q, b"/a/b/c").unwrap();
    assert_eq!(buf, b"../../.env\n");
}

#[test]
fn relative_mode_for_two_levels_up() {
    let hits = vec![Hit::Path(b"/a/.env".to_vec())];
    let mut q = Query::new(b".env");
    q.relative = true;
    let mut buf = Vec::new();
    write_hits(&mut buf, &hits, &q, b"/a/b").unwrap();
    assert_eq!(buf, b"../.env\n");
}

#[test]
fn echo_writes_contents_verbatim() {
    let hits = vec![Hit::Contents(b"FOO=bar\n".to_vec())];
    let mut q = Query::new(b".env");
    q.echo = true;
    let mut buf = Vec::new();
    write_hits(&mut buf, &hits, &q, b"/").unwrap();
    assert_eq!(buf, b"FOO=bar\n");
}

#[test]
fn echo_with_all_concatenates_no_separator() {
    let hits = vec![
        Hit::Contents(b"INNER\n".to_vec()),
        Hit::Contents(b"OUTER\n".to_vec()),
    ];
    let mut q = Query::new(b".env");
    q.echo = true;
    q.all = true;
    let mut buf = Vec::new();
    write_hits(&mut buf, &hits, &q, b"/").unwrap();
    assert_eq!(buf, b"INNER\nOUTER\n");
}

#[test]
fn echo_with_all_and_null_term_separates_contents() {
    let hits = vec![
        Hit::Contents(b"INNER".to_vec()),
        Hit::Contents(b"OUTER".to_vec()),
    ];
    let mut q = Query::new(b".env");
    q.echo = true;
    q.all = true;
    q.null_terminate = true;
    let mut buf = Vec::new();
    write_hits(&mut buf, &hits, &q, b"/").unwrap();
    assert_eq!(buf, b"INNER\0OUTER\0");
}

#[test]
fn relative_mode_for_hit_in_sibling_directory() {
    let hits = vec![Hit::Path(b"/a/x/.env".to_vec())];
    let mut q = Query::new(b".env");
    q.relative = true;
    let mut buf = Vec::new();
    write_hits(&mut buf, &hits, &q, b"/a/b").unwrap();
    assert_eq!(buf, b"../x/.env\n");
}

#[test]
fn relative_mode_for_multi_component_query() {
    let hits = vec![Hit::Path(b"/a/.config/settings.json".to_vec())];
    let mut q = Query::new(b".config/settings.json");
    q.relative = true;
    let mut buf = Vec::new();
    write_hits(&mut buf, &hits, &q, b"/a/b").unwrap();
    assert_eq!(buf, b"../.config/settings.json\n");
}

#[test]
fn relative_mode_from_root() {
    let hits = vec![Hit::Path(b"/.env".to_vec())];
    let mut q = Query::new(b".env");
    q.relative = true;
    let mut buf = Vec::new();
    write_hits(&mut buf, &hits, &q, b"/").unwrap();
    assert_eq!(buf, b".env\n");
}

#[test]
fn relative_mode_with_null_terminator() {
    let hits = vec![Hit::Path(b"/a/.env".to_vec()), Hit::Path(b"/.env".to_vec())];
    let mut q = Query::new(b".env");
    q.relative = true;
    q.null_terminate = true;
    let mut buf = Vec::new();
    write_hits(&mut buf, &hits, &q, b"/a").unwrap();
    assert_eq!(buf, b".env\0../.env\0");
}

#[test]
fn no_hits_write_nothing() {
    let q = Query::new(b".env");
    let mut buf = b"kept".to_vec();
    write_hits(&mut buf, &[], &q, b"/").unwrap();
    assert_eq!(buf, b"kept");
}

#[test]
fn mixed_hits_in_one_call() {
    let hits = vec![Hit::Contents(b"A".to_vec()), Hit::Path(b"/p".to_vec())];
    let q = Query::new(b"p");
    let mut buf = Vec::new();
    write_hits(&mut buf, &hits, &q, b"/").unwrap();
    assert_eq!(buf, b"A/p\n");
}
