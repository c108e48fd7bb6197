use asset_creator::watch::FileWatcher;

fn scan(entries: &[(&str, Option<i128>)]) -> Vec<(String, Option<i128>)> {
    entries.iter().map(|(p, t)| (p.to_string(), *t)).collect()
}

#[test]
fn first_scan_reports_every_readable_file() {
    let mut watcher = FileWatcher::new("data".to_string());
    let (changed, deleted) = watcher.detect_changes(&scan(&[
        ("data/a.shape.ron", Some(10)),
        ("data/b.shape.ron", Some(20)),
        ("data/c.shape.ron", None),
    ]));
    assert_eq!(changed, vec!["data/a.shape.ron".to_string(), "data/b.shape.ron".to_string()]);
    assert!(deleted.is_empty());
}

#[test]
fn rescanning_unchanged_files_reports_nothing() {
    let mut watcher = FileWatcher::new("data".to_string());
    let files = scan(&[("data/a.shape.ron", Some(10)), ("data/b.shape.ron", Some(20))]);
    watcher.detect_changes(&files);
    let (changed, deleted) = watcher.detect_changes(&files);
    assert!(changed.is_empty());
    assert!(deleted.is_empty());
}

#[test]
fn later_time_is_reported_earlier_time_is_not() {
    let mut watcher = FileWatcher::new("data".to_string());
    watcher.detect_changes(&scan(&[("data/a.shape.ron", Some(10)), ("data/b.shape.ron", Some(20))]));
    let (changed, deleted) =
        watcher.detect_changes(&scan(&[("data/a.shape.ron", Some(11)), ("data/b.shape.ron", Some(5))]));
    assert_eq!(changed, vec!["data/a.shape.ron".to_string()]);
    assert!(deleted.is_empty());
    // The earlier time was remembered, so going back to 20 counts as new.
    let (changed, _) =
        watcher.detect_changes(&scan(&[("data/a.shape.ron", Some(11)), ("data/b.shape.ron", Some(20))]));
    assert_eq!(changed, vec!["data/b.shape.ron".to_string()]);
}

#[test]
fn missing_file_is_reported_deleted_once() {
    let mut watcher = FileWatcher::new("data".to_string());
    watcher.detect_changes(&scan(&[
        ("data/a.shape.ron", Some(10)),
        ("data/b.shape.ron", Some(20)),
        ("data/c.shape.ron", Some(30)),
    ]));
    let (changed, deleted) = watcher.detect_changes(&scan(&[("data/b.shape.ron", Some(20))]));
    assert!(changed.is_empty());
    assert_eq!(deleted, vec!["data/a.shape.ron".to_string(), "data/c.shape.ron".to_string()]);
    let (changed, deleted) = watcher.detect_changes(&scan(&[("data/b.shape.ron", Some(20))]));
    assert!(changed.is_empty());
    assert!(deleted.is_empty());
}

#[test]
fn unreadable_time_keeps_the_file_remembered() {
    let mut watcher = FileWatcher::new("data".to_string());
    watcher.detect_changes(&scan(&[("data/a.shape.ron", Some(10))]));
    let (changed, deleted) = watcher.detect_changes(&scan(&[("data/a.shape.ron", None)]));
    assert!(changed.is_empty());
    assert!(deleted.is_empty());
    let (changed, _) = watcher.detect_changes(&scan(&[("data/a.shape.ron", Some(10))]));
    assert!(changed.is_empty());
}

#[test]
fn deleted_then_recreated_file_is_reported_again() {
    let mut watcher = FileWatcher::new("data".to_string());
    watcher.detect_changes(&scan(&[("data/a.shape.ron", Some(10))]));
    let (_, deleted) = watcher.detect_changes(&scan(&[]));
    assert_eq!(deleted, vec!["data/a.shape.ron".to_string()]);
    let (changed, _) = watcher.detect_changes(&scan(&[("data/a.shape.ron", Some(10))]));
    assert_eq!(changed, vec!["data/a.shape.ron".to_string()]);
}

#[test]
fn watcher_keeps_its_directory() {
    let mut watcher = FileWatcher::new("data".to_string());
    watcher.detect_changes(&scan(&[("data/a.shape.ron", Some(1))]));
    assert_eq!(watcher.data_dir(), "data");
}
