use mdview::watch::{
    concerns_target, watch_step, watch_target, WatchAction, WatchEvent, WatchState,
};

#[test]
fn a_save_is_settled_read_and_published() {
    let (s, a) = watch_step(WatchState::Watching, WatchEvent::Changed(true));
    assert_eq!((s, a), (WatchState::Settling, WatchAction::Settle));
    let (s, a) = watch_step(s, WatchEvent::Settled);
    assert_eq!((s, a), (WatchState::Reading, WatchAction::Read));
    let (s, a) = watch_step(s, WatchEvent::ReadSucceeded);
    assert_eq!((s, a), (WatchState::Watching, WatchAction::Publish));
}

#[test]
fn an_atomic_save_survives_the_grace_period() {
    let (s, a) = watch_step(WatchState::Reading, WatchEvent::ReadFailed);
    assert_eq!((s, a), (WatchState::Rechecking, WatchAction::ReadAfterGrace));
    let (s, a) = watch_step(s, WatchEvent::ReadSucceeded);
    assert_eq!((s, a), (WatchState::Watching, WatchAction::Publish));
}

#[test]
fn a_deletion_is_reported_after_two_failures() {
    let (s, a) = watch_step(WatchState::Reading, WatchEvent::ReadFailed);
    assert_eq!(a, WatchAction::ReadAfterGrace);
    let (s, a) = watch_step(s, WatchEvent::ReadFailed);
    assert_eq!((s, a), (WatchState::Watching, WatchAction::ReportMissing));
}

#[test]
fn unrelated_changes_and_errors_are_ignored() {
    assert_eq!(
        watch_step(WatchState::Watching, WatchEvent::Changed(false)),
        (WatchState::Watching, WatchAction::Wait)
    );
    assert_eq!(
        watch_step(WatchState::Watching, WatchEvent::WatchFailed),
        (WatchState::Watching, WatchAction::Wait)
    );
    assert_eq!(
        watch_step(WatchState::Watching, WatchEvent::Disconnected),
        (WatchState::Stopped, WatchAction::Stop)
    );
    assert_eq!(
        watch_step(WatchState::Stopped, WatchEvent::Changed(true)),
        (WatchState::Stopped, WatchAction::Stop)
    );
}

#[test]
fn the_directory_is_watched_for_the_file_name() {
    let (dir, name) = watch_target(r"\\?\C:\work\docs\README.md").unwrap();
    assert_eq!(dir, r"\\?\C:\work\docs");
    assert_eq!(name, "README.md");
    let (dir, name) = watch_target("README.md").unwrap();
    assert_eq!(dir, ".");
    assert_eq!(name, "README.md");
    assert!(watch_target(r"C:\").is_none());
}

#[test]
fn changes_are_matched_by_file_name() {
    let paths = vec![String::from(r"C:\work\docs\other.md"), String::from(r"C:\work\docs\README.md")];
    assert!(concerns_target(&paths, "README.md"));
    assert!(!concerns_target(&paths, "readme.md"));
    assert!(!concerns_target(&Vec::new(), "README.md"));
}
