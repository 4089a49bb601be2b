use spacemind::duplicates::{
    detect_duplicates, plan_hashing, DuplicateOptions, HashOutcome, HashTally,
};
use spacemind::hashing::{
    failure, make_hashing_event, FileSnapshot, FileTime, HashSession, HashStage,
};
use spacemind::model::{
    DuplicateReport, DuplicateWarning, DuplicateWarningKind, FileIdentity, ItemKind, ScanResult,
    ScannedItem,
};
use spacemind::path::FilePath;
use spacemind::policy::PathRule;
use spacemind::progress::AnalysisPhase;

/// A file in memory: where it lies, what it holds and which file it is.
struct Stored {
    path: &'static str,
    contents: Vec<u8>,
    file_id: u64,
    links: u64,
}

fn stored(path: &'static str, contents: Vec<u8>, file_id: u64) -> Stored {
    Stored { path, contents, file_id, links: 1 }
}

fn scan_of(files: &[Stored]) -> ScanResult {
    let items: Vec<ScannedItem> = files
        .iter()
        .map(|file| ScannedItem {
            path: FilePath::new(file.path),
            kind: ItemKind::File,
            size_bytes: file.contents.len() as u64,
            allocated_size_bytes: Some((file.contents.len() as u64).div_ceil(4096) * 4096),
            file_identity: Some(FileIdentity { volume_id: 1, file_id: file.file_id }),
            hard_link_count: Some(file.links),
            created_at_epoch_seconds: None,
            modified_at_epoch_seconds: None,
            modified_at_epoch_nanoseconds: Some(3_000_000_004),
            accessed_at_epoch_seconds: None,
            extension: Some("bin".to_owned()),
        })
        .collect();
    ScanResult {
        root: FilePath::new("/data"),
        started_at_epoch_seconds: 0,
        completed_at_epoch_seconds: 0,
        total_size_bytes: items.iter().map(|item| item.size_bytes).sum(),
        total_allocated_size_bytes: None,
        file_count: items.len() as u64,
        directory_count: 0,
        items,
        ignored_paths: Vec::new(),
        warnings: Vec::new(),
    }
}

fn snapshot(file: &Stored) -> FileSnapshot {
    FileSnapshot {
        is_file: true,
        length: file.contents.len() as u64,
        modified: Some(FileTime { seconds: 3, nanoseconds: 4 }),
        identity: Some(FileIdentity { volume_id: 1, file_id: file.file_id }),
    }
}

fn hash(item: &ScannedItem, file: &Stored) -> Result<String, DuplicateWarning> {
    let seen = snapshot(file);
    let mut session = HashSession::begin(item, seen)?;
    session.check_opened(seen)?;
    for piece in file.contents.chunks(10) {
        session = session.feed(piece);
    }
    session.finish(seen, seen)
}

fn outcomes(scan: &ScanResult, files: &[Stored], options: &DuplicateOptions) -> Vec<HashOutcome> {
    plan_hashing(scan, options)
        .iter()
        .map(|candidate| {
            let item = candidate.representative();
            let file = files.iter().find(|file| FilePath::new(file.path) == item.path).unwrap();
            match hash(item, file) {
                Ok(hash) => HashOutcome::Hashed(hash),
                Err(warning) => HashOutcome::Failed(warning),
            }
        })
        .collect()
}

fn detect(files: &[Stored], options: &DuplicateOptions) -> DuplicateReport {
    let scan = scan_of(files);
    let outcomes = outcomes(&scan, files, options);
    detect_duplicates(&scan, options, outcomes).unwrap()
}

#[test]
fn finds_identical_files_and_reports_recovery() {
    let content = vec![3_u8; 8192];
    let report = detect(
        &[stored("/data/a.bin", content.clone(), 1), stored("/data/b.bin", content, 2)],
        &DuplicateOptions::default(),
    );

    assert_eq!(report.groups.len(), 1);
    assert_eq!(report.groups[0].entries.len(), 2);
    assert_eq!(report.groups[0].unique_file_count, 2);
    assert!(report.groups[0].potential_recovery_allocated_bytes.unwrap() > 0);
    assert_eq!(
        report.potential_recovery_allocated_bytes,
        report.groups[0].potential_recovery_allocated_bytes
    );
    assert_eq!(report.logical_duplicate_bytes, 8192);
    assert_eq!(report.bytes_hashed, 16384);
}

#[test]
fn rejects_same_sized_files_with_different_content() {
    let report = detect(
        &[
            stored("/data/a.bin", vec![1_u8; 64], 1),
            stored("/data/b.bin", vec![2_u8; 64], 2),
        ],
        &DuplicateOptions::default(),
    );

    assert!(report.groups.is_empty());
    assert_eq!(report.files_hashed, 2);
}

#[test]
fn skips_different_sizes_before_hashing() {
    let report = detect(
        &[
            stored("/data/a.bin", vec![1_u8; 63], 1),
            stored("/data/b.bin", vec![1_u8; 64], 2),
        ],
        &DuplicateOptions::default(),
    );

    assert!(report.groups.is_empty());
    assert_eq!(report.files_hashed, 0);
}

#[test]
fn calculates_recovery_for_three_copies() {
    let report = detect(
        &[
            stored("/data/a.bin", vec![9_u8; 4096], 1),
            stored("/data/b.bin", vec![9_u8; 4096], 2),
            stored("/data/c.bin", vec![9_u8; 4096], 3),
        ],
        &DuplicateOptions::default(),
    );
    let group = &report.groups[0];
    let one_allocation = group.entries[0]
        .allocated_size_bytes
        .unwrap_or(group.size_bytes_per_file);

    assert_eq!(group.unique_file_count, 3);
    assert_eq!(group.potential_recovery_allocated_bytes, Some(one_allocation * 2));
}

#[test]
fn ignores_empty_files() {
    let report = detect(
        &[stored("/data/a.bin", Vec::new(), 1), stored("/data/b.bin", Vec::new(), 2)],
        &DuplicateOptions::default(),
    );

    assert!(report.groups.is_empty());
    assert_eq!(report.files_hashed, 0);
}

#[test]
fn empty_files_are_ignored_without_a_minimum_too() {
    let report = detect(
        &[stored("/data/a.bin", Vec::new(), 1), stored("/data/b.bin", Vec::new(), 2)],
        &DuplicateOptions { minimum_size_bytes: 0, protected_rules: Vec::new(), ignore_case: false },
    );

    assert!(report.groups.is_empty());
    assert_eq!(report.files_hashed, 0);
}

fn alias_of(path: &'static str, contents: Vec<u8>, file_id: u64) -> Stored {
    Stored { path, contents, file_id, links: 2 }
}

#[test]
fn hard_links_alone_are_not_reported_as_recoverable_duplicates() {
    let report = detect(
        &[
            alias_of("/data/original.bin", vec![4_u8; 4096], 1),
            alias_of("/data/alias.bin", vec![4_u8; 4096], 1),
        ],
        &DuplicateOptions::default(),
    );

    assert!(report.groups.is_empty());
    assert_eq!(report.files_hashed, 0);
    assert_eq!(report.potential_recovery_allocated_bytes, Some(0));
}

#[test]
fn hard_link_aliases_do_not_inflate_recovery() {
    let report = detect(
        &[
            alias_of("/data/original.bin", vec![4_u8; 4096], 1),
            alias_of("/data/alias.bin", vec![4_u8; 4096], 1),
            stored("/data/copy.bin", vec![4_u8; 4096], 2),
        ],
        &DuplicateOptions::default(),
    );
    let group = &report.groups[0];
    let one_allocation = group.entries[0]
        .allocated_size_bytes
        .unwrap_or(group.size_bytes_per_file);

    assert_eq!(group.entries.len(), 3);
    assert_eq!(group.unique_file_count, 2);
    assert_eq!(group.potential_recovery_allocated_bytes, Some(one_allocation));
    assert_eq!(report.files_hashed, 2);
}

#[test]
fn warns_when_file_changes_after_scan() {
    let before = [stored("/data/a.bin", vec![1_u8; 64], 1), stored("/data/b.bin", vec![1_u8; 64], 2)];
    let scan = scan_of(&before);
    let after = [stored("/data/a.bin", vec![2_u8; 65], 1), stored("/data/b.bin", vec![1_u8; 64], 2)];
    let options = DuplicateOptions::default();
    let outcomes = outcomes(&scan, &after, &options);
    let report = detect_duplicates(&scan, &options, outcomes).unwrap();

    assert!(report.groups.is_empty());
    assert!(report
        .warnings
        .iter()
        .any(|warning| warning.kind == DuplicateWarningKind::ChangedDuringDetection));
}

#[test]
fn warns_when_candidate_is_unreadable() {
    let files = [stored("/data/a.bin", vec![1_u8; 64], 1), stored("/data/b.bin", vec![1_u8; 64], 2)];
    let scan = scan_of(&files);
    let outcomes = vec![
        HashOutcome::Failed(failure(
            &scan.items[0].path,
            HashStage::Opening,
            "Permission denied",
        )),
        HashOutcome::Hashed(hash(&scan.items[1], &files[1]).unwrap()),
    ];
    let report = detect_duplicates(&scan, &DuplicateOptions::default(), outcomes).unwrap();

    assert!(report
        .warnings
        .iter()
        .any(|warning| warning.kind == DuplicateWarningKind::Unreadable));
    assert_eq!(report.files_hashed, 1);
}

#[test]
fn hashes_are_blake3_digests() {
    let file = stored("/data/abc", b"abc".to_vec(), 1);
    let scan = scan_of(&[stored("/data/abc", b"abc".to_vec(), 1)]);
    assert_eq!(
        hash(&scan.items[0], &file).unwrap(),
        "6437b3ac38465133ffb63b75273a8db548c558465d79db03fd359c6cd5bd9d85"
    );
    let long = stored("/data/long", vec![5_u8; 100], 1);
    let scan = scan_of(&[stored("/data/long", vec![5_u8; 100], 1)]);
    assert_eq!(
        hash(&scan.items[0], &long).unwrap(),
        blake3::hash(&[5_u8; 100]).to_hex().to_string()
    );
}

#[test]
fn every_stage_of_hashing_has_its_warning() {
    let path = FilePath::new("/data/a");
    for (stage, kind, message) in [
        (
            HashStage::MetadataBefore,
            DuplicateWarningKind::MetadataUnavailable,
            "cannot read metadata before hashing: gone",
        ),
        (HashStage::Opening, DuplicateWarningKind::Unreadable, "cannot open file for hashing: gone"),
        (
            HashStage::OpenedMetadata,
            DuplicateWarningKind::MetadataUnavailable,
            "cannot read opened-file metadata: gone",
        ),
        (HashStage::Reading, DuplicateWarningKind::Unreadable, "failed while hashing file: gone"),
        (
            HashStage::OpenedMetadataAfter,
            DuplicateWarningKind::MetadataUnavailable,
            "cannot verify opened file after hashing: gone",
        ),
        (
            HashStage::PathAfter,
            DuplicateWarningKind::ChangedDuringDetection,
            "file path disappeared after hashing: gone",
        ),
    ] {
        let warning = failure(&path, stage, "gone");
        assert_eq!((warning.kind, warning.message.as_str()), (kind, message));
        assert_eq!(warning.path, path);
    }
}

#[test]
fn a_session_refuses_what_is_no_file_or_has_changed() {
    let file = stored("/data/a", vec![1; 4], 1);
    let scan = scan_of(&[stored("/data/a", vec![1; 4], 1)]);
    let item = &scan.items[0];
    let seen = snapshot(&file);

    let directory = FileSnapshot { is_file: false, ..seen };
    let refused = HashSession::begin(item, directory).err().unwrap();
    assert_eq!(refused.kind, DuplicateWarningKind::NotRegularFile);

    let touched = FileSnapshot { modified: Some(FileTime { seconds: 3, nanoseconds: 5 }), ..seen };
    let refused = HashSession::begin(item, touched).err().unwrap();
    assert_eq!(refused.kind, DuplicateWarningKind::ChangedDuringDetection);

    let other = FileSnapshot {
        identity: Some(FileIdentity { volume_id: 1, file_id: 9 }),
        ..seen
    };
    let session = HashSession::begin(item, seen).ok().unwrap();
    assert!(session.check_opened(other).is_err());
    assert!(session.check_opened(FileSnapshot { identity: None, ..seen }).is_ok());
    let session = session.feed(&[1, 1, 1]);
    let short = session.finish(seen, seen).unwrap_err();
    assert_eq!(short.message, "file changed while it was being hashed");
}

#[test]
fn one_unprotected_copy_is_kept_unless_protection_keeps_one() {
    let files = || {
        vec![
            stored("/data/Documents/kept.bin", vec![7_u8; 4096], 1),
            stored("/data/b.bin", vec![7_u8; 4096], 2),
            stored("/data/c.bin", vec![7_u8; 4096], 3),
        ]
    };
    let plain = detect(&files(), &DuplicateOptions::default());
    assert_eq!(plain.groups[0].protected_file_count, 0);
    assert_eq!(plain.potential_recovery_allocated_bytes, Some(8192));

    let options = DuplicateOptions {
        minimum_size_bytes: 1,
        protected_rules: vec![PathRule::Exact(FilePath::new("/data/Documents"))],
        ignore_case: false,
    };
    let report = detect(&files(), &options);
    assert_eq!(report.groups[0].protected_file_count, 1);
    assert_eq!(report.groups[0].potential_recovery_allocated_bytes, Some(8192));
    let kept: Vec<bool> = report.groups[0].entries.iter().map(|entry| entry.protected).collect();
    assert_eq!(kept.iter().filter(|protected| **protected).count(), 1);
}

#[test]
fn an_unusable_protection_stops_detection() {
    let options = DuplicateOptions {
        minimum_size_bytes: 1,
        protected_rules: vec![PathRule::Glob(String::new())],
        ignore_case: false,
    };
    assert!(detect_duplicates(&scan_of(&[]), &options, Vec::new()).is_err());
}

#[test]
fn only_rivals_of_one_size_are_planned_the_smallest_first() {
    let scan = scan_of(&[
        stored("/data/big1", vec![0; 30], 1),
        stored("/data/big2", vec![0; 30], 2),
        stored("/data/alone", vec![0; 20], 3),
        stored("/data/small1", vec![0; 10], 4),
        stored("/data/small2", vec![0; 10], 5),
    ]);
    let options = DuplicateOptions::default();
    let sizes: Vec<u64> = plan_hashing(&scan, &options).iter().map(|one| one.size_bytes).collect();
    assert_eq!(sizes, vec![10, 10, 30, 30]);
    let large = DuplicateOptions { minimum_size_bytes: 11, protected_rules: Vec::new(), ignore_case: false };
    assert_eq!(plan_hashing(&scan, &large).len(), 2);
}

#[test]
fn hashing_events_carry_their_totals() {
    let event = make_hashing_event(1, 20, 4, 80, Some(FilePath::new("/data/a")));
    assert_eq!(event.phase, AnalysisPhase::HashingDuplicates);
    assert_eq!((event.items_processed, event.bytes_processed), (1, 20));
    assert_eq!((event.total_items, event.total_bytes), (Some(4), Some(80)));
    assert_eq!(event.current_path, Some(FilePath::new("/data/a")));
}

#[test]
fn a_tally_ends_with_its_totals() {
    let scan = scan_of(&[
        stored("/data/one", vec![0; 30], 2),
        stored("/data/two", vec![0; 30], 3),
    ]);
    let plan = plan_hashing(&scan, &DuplicateOptions::default());
    let mut tally = HashTally::new(&plan);
    let start = tally.start();
    assert_eq!((start.items_processed, start.bytes_processed), (0, 0));
    assert_eq!((start.total_items, start.total_bytes), (Some(2), Some(60)));
    let first = tally.record(&plan[0]);
    assert_eq!((first.items_processed, first.bytes_processed), (1, 30));
    assert_eq!(first.current_path, Some(FilePath::new("/data/one")));
    tally.record(&plan[1]);
    assert_eq!((tally.files, tally.bytes), (tally.total_files, tally.total_bytes));
}
