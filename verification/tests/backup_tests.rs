use chapter_editor::backup::{BackupError, BackupTracker};

#[test]
fn backup_happens_once_for_an_existing_file() {
    let mut tracker = BackupTracker::new();
    let path = "book/ch1.html".to_string();
    assert!(tracker.needs_copy(&path, true));
    assert_eq!(tracker.backup_if_needed(&path, true, true), Ok(true));
    assert!(!tracker.needs_copy(&path, true));
    assert_eq!(tracker.backup_if_needed(&path, true, true), Ok(false));
}

#[test]
fn a_file_that_never_existed_is_recorded_without_a_copy() {
    let mut tracker = BackupTracker::new();
    let path = "book/new.html".to_string();
    assert!(!tracker.needs_copy(&path, false));
    assert_eq!(tracker.backup_if_needed(&path, false, true), Ok(true));
    assert!(!tracker.needs_copy(&path, false));
    assert_eq!(tracker.backup_if_needed(&path, false, true), Ok(false));
}

#[test]
fn a_failed_copy_leaves_the_path_unrecorded() {
    let mut tracker = BackupTracker::new();
    let path = "book/ch2.html".to_string();
    assert_eq!(
        tracker.backup_if_needed(&path, true, false),
        Err(BackupError::CopyFailed)
    );
    // the failure did not record the path, so a later save retries
    assert!(tracker.needs_copy(&path, true));
    assert_eq!(tracker.backup_if_needed(&path, true, true), Ok(true));
}

#[test]
fn paths_are_recorded_independently() {
    let mut tracker = BackupTracker::new();
    let first = "a.html".to_string();
    let second = "b.html".to_string();
    assert_eq!(tracker.backup_if_needed(&first, true, true), Ok(true));
    assert!(tracker.needs_copy(&second, true));
    assert_eq!(tracker.backup_if_needed(&second, true, true), Ok(true));
    assert_eq!(tracker.backup_if_needed(&first, true, true), Ok(false));
    assert_eq!(tracker.backup_if_needed(&second, true, true), Ok(false));
}
