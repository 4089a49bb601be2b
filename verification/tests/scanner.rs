use spacemind::model::{FileIdentity, ItemKind, ScanResult, ScannedItem};
use spacemind::path::FilePath;
use spacemind::policy::PathRule;
use spacemind::progress::{
    AnalysisPhase, CancellationToken, Listener, NeverStops, ProgressEvent, ProgressLog, StopSignal,
    TokenSignal,
};
use spacemind::scanner::{
    classify, scan, scan_polled, scan_with_progress, start_scan, EntryMetadata, Moment, ScanError, ScanOptions,
    ScanSession, Walk, WalkEvent, WalkRoot,
};

const ROOT: &str = "/scan";

fn metadata(kind: ItemKind, length: u64, blocks: u64, file_id: u64, links: u64) -> EntryMetadata {
    EntryMetadata {
        kind,
        length,
        blocks: Some(blocks),
        identity: Some(FileIdentity { volume_id: 1, file_id }),
        links: Some(links),
        created: None,
        modified: None,
        accessed: None,
    }
}

fn file(path: &str, length: u64) -> WalkEvent {
    let file_id = path.bytes().fold(7, |sum, byte| sum * 31 % 1_000_003 + u64::from(byte));
    WalkEvent::Entry {
        path: FilePath::new(path),
        metadata: metadata(ItemKind::File, length, 8, file_id, 1),
    }
}

fn directory(path: &str) -> WalkEvent {
    WalkEvent::Entry {
        path: FilePath::new(path),
        metadata: metadata(ItemKind::Directory, 4096, 8, 0, 2),
    }
}

fn walk(events: Vec<WalkEvent>) -> Walk {
    Walk {
        root: WalkRoot::Directory(FilePath::new(ROOT)),
        started_at_epoch_seconds: 10,
        completed_at_epoch_seconds: 20,
        events,
    }
}

fn options() -> ScanOptions {
    ScanOptions::new(FilePath::new(ROOT))
}

fn find<'a>(result: &'a ScanResult, path: &str) -> &'a ScannedItem {
    let path = FilePath::new(path);
    result.items.iter().find(|item| item.path == path).unwrap()
}

#[test]
fn aggregates_nested_directory_sizes() {
    let result = scan(
        &options(),
        walk(vec![
            directory("/scan/nested"),
            file("/scan/nested/two.bin", 5),
            file("/scan/one.bin", 3),
        ]),
    )
    .unwrap();

    assert_eq!(result.file_count, 2);
    assert_eq!(result.total_size_bytes, 8);
    assert_eq!(find(&result, "/scan/nested").size_bytes, 5);
}

#[test]
fn reports_progress_with_final_totals() {
    let mut log = ProgressLog::new();
    let result = scan_with_progress(
        &options(),
        walk(vec![file("/scan/one.bin", 3), file("/scan/two.bin", 5)]),
        &CancellationToken::new(),
        &mut log,
    )
    .unwrap();
    let events = log.events;

    assert!(events.len() >= 2);
    assert_eq!(events[0], ProgressEvent::starting(AnalysisPhase::Scanning));
    let final_event = events.last().unwrap();
    assert_eq!(final_event.total_items, Some(result.items.len() as u64));
    assert_eq!(final_event.total_bytes, Some(result.total_size_bytes));
}

#[test]
fn cancellation_stops_scan_cooperatively() {
    let cancellation = CancellationToken::new();
    let cancellation_from_callback = cancellation.clone();
    let mut sink = Listener::new(move |event: &ProgressEvent| {
        if event.items_processed >= 1 {
            cancellation_from_callback.cancel();
        }
    });

    let result = scan_with_progress(
        &options(),
        walk(vec![file("/scan/one.bin", 3)]),
        &cancellation,
        &mut sink,
    );

    assert!(matches!(result, Err(ScanError::Cancelled { .. })));
}

#[test]
fn disappearing_file_becomes_a_warning() {
    let disappearing = FilePath::new("/scan/disappearing.bin");
    let result = scan(
        &options(),
        walk(vec![WalkEvent::Lost {
            path: disappearing.clone(),
            message: "No such file or directory".to_owned(),
        }]),
    )
    .unwrap();

    assert_eq!(result.file_count, 0);
    assert!(result
        .warnings
        .iter()
        .any(|warning| warning.path.as_ref() == Some(&disappearing)));
}

#[test]
fn permission_denied_directory_becomes_a_warning() {
    let locked = FilePath::new("/scan/locked");
    let result = scan(
        &options(),
        walk(vec![
            directory("/scan/locked"),
            WalkEvent::Unreadable {
                place: Some(locked.clone()),
                message: "Permission denied".to_owned(),
            },
        ]),
    )
    .unwrap();

    assert!(result
        .warnings
        .iter()
        .any(|warning| warning.path.as_ref().is_some_and(|path| path.starts_with(&locked))));
}

#[test]
fn reports_empty_directories() {
    let result = scan(&options(), walk(vec![directory("/scan/empty")])).unwrap();
    let empty_item = find(&result, "/scan/empty");

    assert_eq!(empty_item.kind, ItemKind::Directory);
    assert_eq!(empty_item.size_bytes, 0);
}

#[test]
fn does_not_follow_symbolic_links() {
    let result = scan(
        &options(),
        walk(vec![WalkEvent::Entry {
            path: FilePath::new("/scan/outside-link"),
            metadata: metadata(ItemKind::Symlink, 12, 0, 5, 1),
        }]),
    )
    .unwrap();

    assert_eq!(result.file_count, 0);
    assert_eq!(result.total_size_bytes, 0);
    assert!(result
        .items
        .iter()
        .any(|item| item.kind == ItemKind::Symlink));
}

fn hard_linked(path: &str) -> WalkEvent {
    WalkEvent::Entry {
        path: FilePath::new(path),
        metadata: metadata(ItemKind::File, 4096, 8, 42, 2),
    }
}

#[test]
fn records_hard_links_without_double_counting_allocated_total() {
    let result = scan(
        &options(),
        walk(vec![hard_linked("/scan/original.bin"), hard_linked("/scan/alias.bin")]),
    )
    .unwrap();
    let original_item = find(&result, "/scan/original.bin");
    let alias_item = find(&result, "/scan/alias.bin");

    assert_eq!(result.total_size_bytes, 8192);
    assert_eq!(original_item.file_identity, alias_item.file_identity);
    assert_eq!(original_item.hard_link_count, Some(2));
    assert_eq!(
        result.total_allocated_size_bytes,
        original_item.allocated_size_bytes
    );
}

#[test]
fn distinguishes_logical_and_allocated_size() {
    let result = scan(
        &options(),
        walk(vec![WalkEvent::Entry {
            path: FilePath::new("/scan/sparse.bin"),
            metadata: metadata(ItemKind::File, 1024 * 1024, 0, 3, 1),
        }]),
    )
    .unwrap();
    let item = find(&result, "/scan/sparse.bin");

    assert_eq!(item.size_bytes, 1024 * 1024);
    assert!(item.allocated_size_bytes.is_some());
    assert!(item.allocated_size_bytes.unwrap() <= item.size_bytes);
}

#[test]
fn ignored_paths_leave_no_trace_but_their_name() {
    let mut asked = options();
    asked.ignored_rules.push(PathRule::Exact(FilePath::new("/scan/skip")));
    let result = scan(
        &asked,
        walk(vec![
            directory("/scan/skip"),
            file("/scan/skip/big.bin", 1000),
            file("/scan/kept.bin", 1),
        ]),
    )
    .unwrap();
    assert_eq!(result.total_size_bytes, 1);
    assert!(result.items.iter().all(|item| !item.path.starts_with(&FilePath::new("/scan/skip"))));
    assert!(result.ignored_paths.contains(&FilePath::new("/scan/skip")));
}

#[test]
fn a_root_that_cannot_be_scanned_is_an_error() {
    let lost = Walk {
        root: WalkRoot::Inaccessible {
            path: FilePath::new(ROOT),
            reason: "Permission denied".to_owned(),
        },
        started_at_epoch_seconds: 0,
        completed_at_epoch_seconds: 0,
        events: Vec::new(),
    };
    let error = scan(&options(), lost).unwrap_err();
    assert!(matches!(&error, ScanError::RootAccess { .. }));
    assert!(error.describe().contains("Permission denied"));

    let plain = Walk {
        root: WalkRoot::NotDirectory(FilePath::new(ROOT)),
        started_at_epoch_seconds: 0,
        completed_at_epoch_seconds: 0,
        events: Vec::new(),
    };
    let error = scan(&options(), plain).unwrap_err();
    assert!(matches!(&error, ScanError::RootNotDirectory(_)));
    assert!(error.describe().contains(ROOT));
}

#[test]
fn an_unusable_ignore_rule_is_an_error() {
    let mut asked = options();
    asked.ignored_rules.push(PathRule::Glob("/".to_owned()));
    let error = scan(&asked, walk(Vec::new())).unwrap_err();
    assert!(matches!(&error, ScanError::InvalidRule(_)));
    assert!(error.describe().contains("pattern must identify a path"));
}

#[test]
fn items_come_in_path_order_with_their_times_and_extensions() {
    let entry = EntryMetadata {
        modified: Some(Moment { seconds: 7, nanoseconds: 5 }),
        created: Some(Moment { seconds: 6, nanoseconds: 0 }),
        ..metadata(ItemKind::File, 2, 1, 9, 1)
    };
    let result = scan(
        &options(),
        walk(vec![
            WalkEvent::Entry { path: FilePath::new("/scan/z.TXT"), metadata: entry },
            file("/scan/a", 1),
        ]),
    )
    .unwrap();
    let z = find(&result, "/scan/z.TXT");
    assert_eq!(z.modified_at_epoch_seconds, Some(7));
    assert_eq!(z.modified_at_epoch_nanoseconds, Some(7_000_000_005));
    assert_eq!(z.created_at_epoch_seconds, Some(6));
    assert_eq!(z.accessed_at_epoch_seconds, None);
    assert_eq!(z.allocated_size_bytes, Some(512));
    assert_eq!(z.extension.as_deref(), Some("txt"));
    assert_eq!(find(&result, "/scan/a").extension, None);
    assert!(result.items[0].path.not_after(&result.items[1].path));
    assert_eq!(result.started_at_epoch_seconds, 10);
    assert_eq!(result.completed_at_epoch_seconds, 20);
}

#[test]
fn an_unknown_allocation_leaves_the_total_unknown() {
    let blind = EntryMetadata { blocks: None, ..metadata(ItemKind::File, 2, 0, 9, 1) };
    let result = scan(
        &options(),
        walk(vec![
            file("/scan/known.bin", 5),
            WalkEvent::Entry { path: FilePath::new("/scan/blind.bin"), metadata: blind },
        ]),
    )
    .unwrap();
    assert_eq!(result.total_size_bytes, 7);
    assert_eq!(result.total_allocated_size_bytes, None);
}

#[test]
fn a_session_steps_through_a_walk() {
    let mut log = ProgressLog::new();
    let rules = [PathRule::Glob("*.tmp".to_owned())];
    let mut session = ScanSession::begin(FilePath::new(ROOT), &rules, false, 1).unwrap();
    assert!(session.is_ignored(&FilePath::new("/scan/x.tmp")));
    assert!(!session.is_ignored(&FilePath::new("/scan/x.bin")));
    session.step(file("/scan/x.bin", 40), &mut log);
    session.step(file("/scan/x.tmp", 2), &mut log);
    session.pass_over(FilePath::new("/scan/y.tmp"));
    session.pass_over(FilePath::new("/scan/y.bin"));
    assert_eq!(session.processed(), (1, 40));
    let result = session.finish(2, &mut NeverStops::new(), &mut log).unwrap();
    assert_eq!(result.total_size_bytes, 40);
    assert_eq!(
        result.ignored_paths,
        vec![FilePath::new("/scan/x.tmp"), FilePath::new("/scan/y.tmp")]
    );
}

#[test]
fn entries_are_classified_by_what_they_are() {
    assert_eq!(classify(true, false, false), ItemKind::File);
    assert_eq!(classify(false, true, false), ItemKind::Directory);
    assert_eq!(classify(false, false, true), ItemKind::Symlink);
    assert_eq!(classify(false, false, false), ItemKind::Other);
}

#[test]
fn a_token_cancelled_before_the_scan_stops_it_at_once() {
    let token = CancellationToken::new();
    token.cancel();
    let mut log = ProgressLog::new();
    let missing = Walk {
        root: WalkRoot::Inaccessible {
            path: FilePath::new("/missing"),
            reason: "gone".to_owned(),
        },
        ..walk(Vec::new())
    };
    let error = scan_with_progress(&options(), missing, &token, &mut log).unwrap_err();
    assert!(matches!(error, ScanError::Cancelled { items_processed: 0, bytes_processed: 0 }));
    assert_eq!(log.events, vec![ProgressEvent::starting(AnalysisPhase::Scanning)]);
}

#[test]
fn a_signal_decides_between_the_steps_of_a_scan() {
    let token = CancellationToken::new();
    let mut signal = TokenSignal::new(&token);
    let mut log = ProgressLog::new();
    assert!(start_scan(&mut signal, &mut log).is_ok());
    let mut session = ScanSession::begin(FilePath::new(ROOT), &[], false, 1).unwrap();
    assert!(session.proceed(&mut signal).is_ok());
    session.step(file("/scan/x.bin", 40), &mut log);
    token.cancel();
    assert!(signal.poll());
    let counted = |error: ScanError| match error {
        ScanError::Cancelled { items_processed, bytes_processed } => {
            (items_processed, bytes_processed)
        }
        _ => panic!("not cancelled"),
    };
    assert_eq!(counted(session.proceed(&mut signal).unwrap_err()), (1, 40));
    assert_eq!(counted(session.finish(2, &mut signal, &mut log).unwrap_err()), (1, 40));
    assert_eq!(log.events.len(), 2);
}

#[test]
fn a_scan_that_is_never_stopped_comes_to_its_end() {
    let mut log = ProgressLog::new();
    let result = scan_polled(
        &options(),
        walk(vec![file("/scan/a", 1), file("/scan/b", 2)]),
        &mut NeverStops::new(),
        &mut log,
    )
    .unwrap();
    assert_eq!((result.file_count, result.total_size_bytes), (2, 3));
    assert_eq!(log.events.last().unwrap().total_items, Some(2));
}
