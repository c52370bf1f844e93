use lup::walk::{pop_component, probe_matches, push_component};
use lup::{Boundary, EntryKind, Hit, KindFilter, LupError, Query, WalkStep, Walker};

/// Runs a walk from `pwd`, answering each probe from `present` (directories
/// where the query exists, with its kind) and each read from `contents`.
fn simulate(
    query: &Query,
    boundary: Boundary,
    pwd: &[u8],
    home: Option<&[u8]>,
    git_root: Option<&[u8]>,
    present: &[(&[u8], EntryKind)],
) -> (Result<Vec<Hit>, LupError>, Vec<Vec<u8>>) {
    let mut probed: Vec<Vec<u8>> = Vec::new();
    let mut w = match Walker::start(query, boundary, pwd, home, git_root) {
        Ok(w) => w,
        Err(e) => return (Err(e), probed),
    };
    loop {
        match w.step() {
            WalkStep::Probe => {
                let here = w.current().to_vec();
                let found = present.iter().find(|(d, _)| *d == here.as_slice()).map(|(_, k)| *k);
                probed.push(here);
                w.probed(found);
            }
            WalkStep::ReadContents => {
                let mut c = b"contents of ".to_vec();
                c.extend_from_slice(w.current());
                w.contents_read(c);
            }
            WalkStep::Ascend => {
                w.ascended();
            }
            WalkStep::Finish => return (w.finish(), probed),
        }
    }
}

fn path_hit(p: &[u8]) -> Hit {
    Hit::Path(p.to_vec())
}

#[test]
fn walk_finds_query_at_pwd() {
    let q = Query::new(b".env");
    let (r, probed) = simulate(&q, Boundary::Root, b"/a/b", None, None, &[(b"/a/b", EntryKind::File)]);
    assert_eq!(r.unwrap(), vec![path_hit(b"/a/b/.env")]);
    assert_eq!(probed, vec![b"/a/b".to_vec()]);
}

#[test]
fn walk_finds_query_one_level_up() {
    let q = Query::new(b".env");
    let (r, probed) = simulate(&q, Boundary::Root, b"/a/b", None, None, &[(b"/a", EntryKind::File)]);
    assert_eq!(r.unwrap(), vec![path_hit(b"/a/.env")]);
    assert_eq!(probed, vec![b"/a/b".to_vec(), b"/a".to_vec()]);
}

#[test]
fn walk_reaches_root_inclusive() {
    let q = Query::new(b".env");
    let (r, probed) = simulate(&q, Boundary::Root, b"/a/b/c", None, None, &[(b"/", EntryKind::File)]);
    assert_eq!(r.unwrap(), vec![path_hit(b"/.env")]);
    assert_eq!(probed.len(), 4);
}

#[test]
fn walk_without_match_is_no_match() {
    let q = Query::new(b".env");
    let (r, probed) = simulate(&q, Boundary::Root, b"/a/b", None, None, &[]);
    assert!(matches!(r, Err(LupError::NoMatch)));
    assert_eq!(probed, vec![b"/a/b".to_vec(), b"/a".to_vec(), b"/".to_vec()]);
}

#[test]
fn walk_all_hits_closest_first() {
    let mut q = Query::new(b".env");
    q.all = true;
    let present: &[(&[u8], EntryKind)] = &[
        (b"/", EntryKind::File),
        (b"/t", EntryKind::File),
        (b"/t/a/b", EntryKind::File),
    ];
    let (r, _) = simulate(&q, Boundary::Root, b"/t/a/b", None, None, present);
    assert_eq!(
        r.unwrap(),
        vec![path_hit(b"/t/a/b/.env"), path_hit(b"/t/.env"), path_hit(b"/.env")]
    );
}

#[test]
fn walk_stops_at_home_boundary() {
    let q = Query::new(b".env");
    let present: &[(&[u8], EntryKind)] = &[(b"/home", EntryKind::File)];
    let (r, probed) =
        simulate(&q, Boundary::Home, b"/home/alice/x", Some(b"/home/alice"), None, present);
    assert!(matches!(r, Err(LupError::NoMatch)));
    assert_eq!(probed, vec![b"/home/alice/x".to_vec(), b"/home/alice".to_vec()]);
}

#[test]
fn walk_home_boundary_is_inclusive() {
    let q = Query::new(b".env");
    let present: &[(&[u8], EntryKind)] = &[(b"/home/alice", EntryKind::File)];
    let (r, _) = simulate(&q, Boundary::Home, b"/home/alice/x", Some(b"/home/alice"), None, present);
    assert_eq!(r.unwrap(), vec![path_hit(b"/home/alice/.env")]);
}

#[test]
fn walk_outside_home_goes_to_root() {
    let q = Query::new(b".env");
    let present: &[(&[u8], EntryKind)] = &[(b"/", EntryKind::File)];
    let (r, _) = simulate(&q, Boundary::Home, b"/etc/x", Some(b"/home/alice"), None, present);
    assert_eq!(r.unwrap(), vec![path_hit(b"/.env")]);
}

#[test]
fn walk_without_home_goes_to_root() {
    let q = Query::new(b".env");
    let (_, probed) = simulate(&q, Boundary::Home, b"/a", None, None, &[]);
    assert_eq!(probed, vec![b"/a".to_vec(), b"/".to_vec()]);
}

#[test]
fn walk_pwd_equal_to_boundary_probes_once() {
    let q = Query::new(b".env");
    let (r, probed) = simulate(&q, Boundary::Home, b"/home/alice", Some(b"/home/alice"), None, &[]);
    assert!(matches!(r, Err(LupError::NoMatch)));
    assert_eq!(probed.len(), 1);
}

#[test]
fn walk_git_boundary_stops_at_repository() {
    let q = Query::new(b".env");
    let present: &[(&[u8], EntryKind)] = &[(b"/", EntryKind::File)];
    let (r, probed) = simulate(&q, Boundary::Git, b"/r/src/x", None, Some(b"/r"), present);
    assert!(matches!(r, Err(LupError::NoMatch)));
    assert_eq!(probed.last().unwrap(), &b"/r".to_vec());
}

#[test]
fn walk_git_boundary_outside_repository_is_error() {
    let q = Query::new(b".env");
    let (r, probed) = simulate(&q, Boundary::Git, b"/r/src", None, None, &[]);
    assert!(matches!(r, Err(LupError::NotInGitRepo)));
    assert!(probed.is_empty());
}

#[test]
fn walk_query_with_nul_is_usage_error() {
    let q = Query::new(b"a\0b");
    let (r, _) = simulate(&q, Boundary::Root, b"/", None, None, &[]);
    match r {
        Err(LupError::UsageError(m)) => assert_eq!(m, "query contains NUL byte"),
        _ => panic!("expected a usage error"),
    }
}

#[test]
fn walk_git_error_comes_before_nul_error() {
    let q = Query::new(b"a\0b");
    let (r, _) = simulate(&q, Boundary::Git, b"/", None, None, &[]);
    assert!(matches!(r, Err(LupError::NotInGitRepo)));
}

#[test]
fn walk_kind_filter_skips_other_kinds() {
    let mut q = Query::new(b"x");
    q.kind_filter = Some(KindFilter::Files);
    let present: &[(&[u8], EntryKind)] = &[(b"/a/b", EntryKind::Dir), (b"/a", EntryKind::File)];
    let (r, _) = simulate(&q, Boundary::Root, b"/a/b", None, None, present);
    assert_eq!(r.unwrap(), vec![path_hit(b"/a/x")]);

    let mut d = Query::new(b"x");
    d.kind_filter = Some(KindFilter::Dirs);
    let (r, _) = simulate(&d, Boundary::Root, b"/a/b", None, None, present);
    assert_eq!(r.unwrap(), vec![path_hit(b"/a/b/x")]);
}

#[test]
fn walk_echo_reads_contents() {
    let mut q = Query::new(b".env");
    q.echo = true;
    q.all = true;
    let present: &[(&[u8], EntryKind)] = &[(b"/a", EntryKind::File), (b"/", EntryKind::File)];
    let (r, _) = simulate(&q, Boundary::Root, b"/a/b", None, None, present);
    assert_eq!(
        r.unwrap(),
        vec![
            Hit::Contents(b"contents of /a".to_vec()),
            Hit::Contents(b"contents of /".to_vec())
        ]
    );
}

#[test]
fn walk_echo_first_hit_only() {
    let mut q = Query::new(b".env");
    q.echo = true;
    let present: &[(&[u8], EntryKind)] = &[(b"/a", EntryKind::File), (b"/", EntryKind::File)];
    let (r, probed) = simulate(&q, Boundary::Root, b"/a/b", None, None, present);
    assert_eq!(r.unwrap(), vec![Hit::Contents(b"contents of /a".to_vec())]);
    assert_eq!(probed.len(), 2);
}

#[test]
fn walk_steps_are_announced() {
    let q = Query::new(b".env");
    let mut w = Walker::start(&q, Boundary::Root, b"/a", None, None).ok().unwrap();
    assert_eq!(w.step(), WalkStep::Probe);
    assert_eq!(w.probed(None), WalkStep::Ascend);
    assert_eq!(w.ascended(), WalkStep::Probe);
    assert_eq!(w.current(), b"/");
    assert_eq!(w.probed(None), WalkStep::Finish);
}

#[test]
fn walk_relative_start_stops_without_parent() {
    let q = Query::new(b".env");
    let (r, probed) = simulate(&q, Boundary::Root, b"a", None, None, &[]);
    assert!(matches!(r, Err(LupError::NoMatch)));
    assert_eq!(probed, vec![b"a".to_vec()]);
}

#[test]
fn push_component_joins_with_one_slash() {
    let mut p = b"/a".to_vec();
    push_component(&mut p, b".env");
    assert_eq!(p, b"/a/.env");
    let mut r = b"/".to_vec();
    push_component(&mut r, b".env");
    assert_eq!(r, b"/.env");
    let mut e = Vec::new();
    push_component(&mut e, b"x");
    assert_eq!(e, b"x");
}

#[test]
fn pop_component_goes_to_parent() {
    let mut p = b"/a/b".to_vec();
    assert!(pop_component(&mut p));
    assert_eq!(p, b"/a");
    assert!(pop_component(&mut p));
    assert_eq!(p, b"/");
    assert!(!pop_component(&mut p));
    assert_eq!(p, b"/");
    let mut e = Vec::new();
    assert!(!pop_component(&mut e));
    let mut rel = b"abc".to_vec();
    assert!(!pop_component(&mut rel));
    assert_eq!(rel, b"abc");
}

#[test]
fn pop_undoes_push() {
    let mut p = b"/x/y".to_vec();
    push_component(&mut p, b"z");
    assert!(pop_component(&mut p));
    assert_eq!(p, b"/x/y");
}

#[test]
fn probe_matches_follows_the_filter() {
    assert!(!probe_matches(None, None));
    assert!(probe_matches(None, Some(EntryKind::Other)));
    assert!(probe_matches(Some(KindFilter::Files), Some(EntryKind::File)));
    assert!(!probe_matches(Some(KindFilter::Files), Some(EntryKind::Dir)));
    assert!(probe_matches(Some(KindFilter::Dirs), Some(EntryKind::Dir)));
    assert!(!probe_matches(Some(KindFilter::Dirs), Some(EntryKind::Other)));
}

#[test]
fn exit_codes_follow_the_documented_table() {
    assert_eq!(LupError::NoMatch.exit_code(), 1);
    assert_eq!(LupError::UsageError("x".to_string()).exit_code(), 2);
    assert_eq!(LupError::NotInGitRepo.exit_code(), 3);
    let io: LupError = std::io::Error::new(std::io::ErrorKind::Other, "boom").into();
    assert!(matches!(io, LupError::Io(_)));
    assert_eq!(io.exit_code(), 4);
}

#[test]
fn query_new_has_documented_defaults() {
    let q = Query::new(b".env");
    assert_eq!(q.path, b".env");
    assert!(!q.all && !q.echo && q.kind_filter.is_none() && q.follow);
    assert!(!q.null_terminate && !q.relative);
}

#[test]
fn walk_hit_dir_is_where_the_first_hit_was_found() {
    let q = Query::new(b".git");
    let mut w = Walker::start(&q, Boundary::Root, b"/r/src/x", None, None).ok().unwrap();
    loop {
        match w.step() {
            WalkStep::Probe => {
                let found = if w.current() == b"/r" { Some(EntryKind::Dir) } else { None };
                w.probed(found);
            }
            WalkStep::Ascend => {
                w.ascended();
            }
            WalkStep::ReadContents => unreachable!(),
            WalkStep::Finish => break,
        }
    }
    assert_eq!(w.hit_dir(), Some(b"/r".as_ref()));
    assert_eq!(w.finish().unwrap(), vec![path_hit(b"/r/.git")]);
}

#[test]
fn walk_hit_dir_is_none_without_hit() {
    let q = Query::new(b".git");
    let mut w = Walker::start(&q, Boundary::Root, b"/a", None, None).ok().unwrap();
    while w.step() != WalkStep::Finish {
        match w.step() {
            WalkStep::Probe => {
                w.probed(None);
            }
            _ => {
                w.ascended();
            }
        }
    }
    assert_eq!(w.hit_dir(), None);
}

#[test]
fn probe_mode_follows_the_query() {
    let mut q = Query::new(b".env");
    assert_eq!(lup::probe_mode(&q), lup::ProbeMode { follow: true, existence_only: true });
    q.follow = false;
    assert_eq!(lup::probe_mode(&q), lup::ProbeMode { follow: false, existence_only: false });
    q.follow = true;
    q.kind_filter = Some(KindFilter::Dirs);
    assert_eq!(lup::probe_mode(&q), lup::ProbeMode { follow: true, existence_only: false });
}
