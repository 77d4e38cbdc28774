use tag_crucible::path::PathKey;
use tag_crucible::platform::build_file_info;
use tag_crucible::scan::ScanError;
use tag_crucible::walk::{
    collect_entries, normalized_key, EntryCollector, FailureKind, QueuedFolder, ScanFrontier,
    WalkEvent, CURRENT_DIRECTORY_DEPTH,
};

fn entry(path: &str) -> WalkEvent {
    WalkEvent::Entry(build_file_info(PathKey::new(path), false, false, 1, None))
}

#[test]
fn permission_failures_are_passed_over() {
    let events = vec![
        entry("/r"),
        WalkEvent::Unreadable(FailureKind::PermissionDenied, "denied".to_string()),
        entry("/r/a"),
        WalkEvent::NoMetadata(FailureKind::PermissionDenied, "denied too".to_string()),
        WalkEvent::NoMetadata(FailureKind::NotIo, "odd".to_string()),
        entry("/r/b"),
    ];
    let kept = collect_entries(events).unwrap();
    let paths: Vec<&str> = kept.iter().map(|info| info.path.as_str()).collect();
    assert_eq!(paths, vec!["/r", "/r/a", "/r/b"]);
}

#[test]
fn other_failures_end_the_walk_with_the_first_message() {
    let events = vec![
        entry("/r"),
        WalkEvent::Unreadable(FailureKind::OtherIo, "disk gone".to_string()),
        entry("/r/a"),
        WalkEvent::NoMetadata(FailureKind::OtherIo, "later".to_string()),
    ];
    match collect_entries(events) {
        Err(ScanError::Io(message)) => assert_eq!(message, "disk gone"),
        other => panic!("unexpected outcome: {:?}", other),
    }

    let not_io = vec![WalkEvent::Unreadable(FailureKind::NotIo, "loop".to_string())];
    assert!(matches!(collect_entries(not_io), Err(ScanError::Io(m)) if m == "loop"));

    let metadata = vec![WalkEvent::NoMetadata(FailureKind::OtherIo, "bad".to_string())];
    assert!(matches!(collect_entries(metadata), Err(ScanError::Io(m)) if m == "bad"));
}

#[test]
fn an_empty_walk_yields_no_entries() {
    assert!(collect_entries(Vec::new()).unwrap().is_empty());
}

#[test]
fn collector_takes_events_one_by_one() {
    let mut collector = EntryCollector::new();
    assert!(collector.accept(entry("/r")).is_ok());
    assert!(collector
        .accept(WalkEvent::Unreadable(
            FailureKind::PermissionDenied,
            "no".to_string()
        ))
        .is_ok());
    assert!(matches!(
        collector.accept(WalkEvent::Unreadable(FailureKind::OtherIo, "broken".to_string())),
        Err(ScanError::Io(m)) if m == "broken"
    ));
    let kept = collector.finish();
    assert_eq!(kept.len(), 1);
    assert_eq!(kept[0].path.as_str(), "/r");
}

#[test]
fn frontier_walks_breadth_first_to_the_limit() {
    let mut frontier = ScanFrontier::new("root".to_string(), 2);

    let (first, can_descend) = frontier.pop().unwrap();
    assert_eq!(first, QueuedFolder { ticket: 0, depth: 0 });
    assert!(can_descend);

    assert!(frontier.offer(1, "a".to_string(), 0));
    assert!(frontier.offer(2, "b".to_string(), 0));
    assert!(!frontier.offer(3, "a".to_string(), 0));
    assert!(!frontier.offer(4, "root".to_string(), 0));

    let (second, can_descend) = frontier.pop().unwrap();
    assert_eq!(second, QueuedFolder { ticket: 1, depth: 1 });
    assert!(can_descend);
    assert!(frontier.offer(5, "a/x".to_string(), 1));

    let (third, _) = frontier.pop().unwrap();
    assert_eq!(third, QueuedFolder { ticket: 2, depth: 1 });

    let (fourth, can_descend) = frontier.pop().unwrap();
    assert_eq!(fourth, QueuedFolder { ticket: 5, depth: 2 });
    assert!(!can_descend);
    assert!(!frontier.offer(6, "a/x/deep".to_string(), 2));
    assert!(frontier.pop().is_none());
    assert!(frontier.offer(7, "late".to_string(), 1));
    assert_eq!(frontier.pop().unwrap().0, QueuedFolder { ticket: 7, depth: 2 });
}

#[test]
fn frontier_with_no_depth_lists_nothing() {
    let mut frontier = ScanFrontier::new("root".to_string(), 0);
    let (first, can_descend) = frontier.pop().unwrap();
    assert_eq!(first.depth, 0);
    assert!(!can_descend);
    assert!(!frontier.offer(1, "a".to_string(), 0));
    assert!(frontier.pop().is_none());
}

#[test]
fn folder_keys_are_in_small_letters() {
    assert_eq!(normalized_key(Some("C:\\Data\\ÄB"), "ignored"), "c:\\data\\äb");
    assert_eq!(normalized_key(None, "/Given/Path"), "/given/path");
}

#[test]
fn the_working_directory_is_scanned_two_levels_deep() {
    assert_eq!(CURRENT_DIRECTORY_DEPTH, 2);
    let mut frontier = ScanFrontier::new("cwd".to_string(), CURRENT_DIRECTORY_DEPTH);
    assert!(frontier.pop().unwrap().1);
    assert!(frontier.offer(1, "cwd/a".to_string(), 0));
    assert!(frontier.offer(2, "cwd/a/b".to_string(), 1));
    assert!(!frontier.offer(3, "cwd/a/b/c".to_string(), 2));
}
