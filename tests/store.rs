use filesync::{acquire_target, Command, ManifestError, PathState, ProgramArgs};

#[test]
fn acquire_needs_a_directory() {
    for dir in [PathState::Missing, PathState::File, PathState::Other, PathState::Unreadable] {
        assert_eq!(acquire_target(dir, PathState::Missing), Err(ManifestError::NotADirectory));
    }
}

#[test]
fn acquire_opens_a_missing_or_regular_file() {
    assert_eq!(acquire_target(PathState::Directory, PathState::Missing), Ok(()));
    assert_eq!(acquire_target(PathState::Directory, PathState::File), Ok(()));
}

#[test]
fn acquire_refuses_other_file_types() {
    assert_eq!(
        acquire_target(PathState::Directory, PathState::Directory),
        Err(ManifestError::UnexpectedFileType)
    );
    assert_eq!(
        acquire_target(PathState::Directory, PathState::Other),
        Err(ManifestError::UnexpectedFileType)
    );
    assert_eq!(
        acquire_target(PathState::Directory, PathState::Unreadable),
        Err(ManifestError::MetadataUnavailable)
    );
}

fn args() -> ProgramArgs {
    ProgramArgs { track: None, diff: None, sync: None, prefix: None, dry_run: false }
}

#[test]
fn command_line_asks_for_one_operation() {
    let mut a = args();
    assert!(a.command().is_none());
    a.track = Some(b"/tmp/x".to_vec());
    match a.command() {
        Some(Command::Track(d)) => assert_eq!(d, b"/tmp/x".to_vec()),
        _ => panic!("expected track"),
    }
    a.diff = Some(vec![b"m".to_vec(), b"s".to_vec()]);
    assert!(a.command().is_none());
    let mut s = args();
    s.sync = Some(vec![b"m".to_vec(), b"s".to_vec()]);
    s.dry_run = true;
    match s.command() {
        Some(Command::Sync(m, sl)) => {
            assert_eq!(m, b"m".to_vec());
            assert_eq!(sl, b"s".to_vec());
        },
        _ => panic!("expected sync"),
    }
    let mut d = args();
    d.diff = Some(vec![b"m".to_vec()]);
    assert!(d.command().is_none());
    d.diff = Some(vec![b"m".to_vec(), b"s".to_vec()]);
    assert!(matches!(d.command(), Some(Command::Diff(_, _))));
    d.dry_run = true;
    assert!(d.command().is_none());
}

#[test]
fn prefixes_become_bytes() {
    let mut a = args();
    assert_eq!(a.prefix_bytes(), None);
    a.prefix = Some(vec!["sub/a".to_string(), "ハ".to_string()]);
    assert_eq!(a.prefix_bytes(), Some(vec![b"sub/a".to_vec(), "ハ".as_bytes().to_vec()]));
}
