use lup::boundary::resolve_default;

#[test]
fn pwd_is_home_returns_home() {
    let b = resolve_default(b"/home/alice", b"/home/alice");
    assert_eq!(b, b"/home/alice");
}

#[test]
fn pwd_under_home_returns_home() {
    let b = resolve_default(b"/home/alice/projects/foo", b"/home/alice");
    assert_eq!(b, b"/home/alice");
}

#[test]
fn pwd_outside_home_returns_root() {
    let b = resolve_default(b"/etc", b"/home/alice");
    assert_eq!(b, b"/");
}

#[test]
fn pwd_with_home_as_prefix_but_not_under_returns_root() {
    let b = resolve_default(b"/home/alice2/x", b"/home/alice");
    assert_eq!(b, b"/");
}

#[test]
fn home_at_root_covers_every_path() {
    assert_eq!(resolve_default(b"/etc/x", b"/"), b"/");
    assert_eq!(resolve_default(b"/", b"/"), b"/");
}

#[test]
fn home_path_longer_than_pwd_returns_root() {
    assert_eq!(resolve_default(b"/home", b"/home/alice"), b"/");
}
