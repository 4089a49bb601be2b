use spacemind::model::{
    FindingCategory, ItemKind, RiskLevel, ScanResult, ScannedItem, SuggestedAction,
};
use spacemind::path::FilePath;
use spacemind::policy::PathRule;
use spacemind::progress::{
    AnalysisPhase, CancellationToken, Listener, NeverStops, ProgressEvent, ProgressLog,
};
use spacemind::rules::{
    evaluate, evaluate_polled, evaluate_with_policy_progress, evaluate_with_progress, RuleError, RuleOptions,
    DAY_SECONDS,
};

fn scan_of(items: Vec<ScannedItem>) -> ScanResult {
    ScanResult {
        root: FilePath::new("/test"),
        started_at_epoch_seconds: 0,
        completed_at_epoch_seconds: 0,
        total_size_bytes: items.iter().map(|item| item.size_bytes).sum(),
        total_allocated_size_bytes: None,
        file_count: items.iter().filter(|item| item.kind == ItemKind::File).count() as u64,
        directory_count: items
            .iter()
            .filter(|item| item.kind == ItemKind::Directory)
            .count() as u64,
        items,
        ignored_paths: Vec::new(),
        warnings: Vec::new(),
    }
}

fn scan_with(item: ScannedItem) -> ScanResult {
    scan_of(vec![item])
}

fn sample(path: &str, kind: ItemKind, size: u64, modified: Option<u64>) -> ScannedItem {
    let path = FilePath::new(path);
    ScannedItem {
        kind,
        size_bytes: size,
        allocated_size_bytes: None,
        file_identity: None,
        hard_link_count: None,
        created_at_epoch_seconds: None,
        modified_at_epoch_seconds: modified,
        modified_at_epoch_nanoseconds: None,
        accessed_at_epoch_seconds: None,
        extension: if kind == ItemKind::File {
            path.extension().map(|bytes| String::from_utf8(bytes).unwrap())
        } else {
            None
        },
        path,
    }
}

#[test]
fn recognizes_an_old_installer() {
    let item = sample(
        "/test/android-studio.deb",
        ItemKind::File,
        500,
        Some(100 * DAY_SECONDS),
    );
    let options = RuleOptions {
        large_item_threshold_bytes: 1_000,
        old_item_threshold_days: 180,
        now_epoch_seconds: 300 * DAY_SECONDS,
        ..RuleOptions::default()
    };

    let findings = evaluate(&scan_with(item), &options);
    assert_eq!(findings.len(), 1);
    assert_eq!(findings[0].category, FindingCategory::OldInstaller);
}

#[test]
fn reports_recommendation_progress() {
    let scan = scan_with(sample("/test/archive.zip", ItemKind::File, 500, None));
    let cancellation = CancellationToken::new();
    let mut log = ProgressLog::new();

    evaluate_with_progress(&scan, &RuleOptions::default(), &cancellation, &mut log).unwrap();
    let events = log.events;

    assert_eq!(events.len(), 2);
    assert_eq!(events[0].items_processed, 0);
    assert_eq!(events[0].total_items, Some(1));
    assert_eq!(events[1].items_processed, 1);
    assert_eq!(events[1].phase, AnalysisPhase::BuildingRecommendations);
}

#[test]
fn protected_items_are_counted_but_never_recommended() {
    let scan = scan_with(sample(
        "/test/Documents/archive.zip",
        ItemKind::File,
        500,
        Some(100 * DAY_SECONDS),
    ));
    let options = RuleOptions {
        large_item_threshold_bytes: 100,
        old_item_threshold_days: 180,
        now_epoch_seconds: 300 * DAY_SECONDS,
        protected_rules: vec![PathRule::Exact(FilePath::new("/test/Documents"))],
        ignore_case: false,
    };
    let cancellation = CancellationToken::new();

    let evaluation =
        evaluate_with_policy_progress(&scan, &options, &cancellation, &mut ProgressLog::new())
            .unwrap();

    assert!(evaluation.findings.is_empty());
    assert_eq!(evaluation.protected_items, 1);
    assert_eq!(evaluation.suppressed_findings, 2);
}

#[test]
fn cancellation_stops_recommendation_building() {
    let scan = scan_with(sample("/test/archive.zip", ItemKind::File, 500, None));
    let cancellation = CancellationToken::new();
    cancellation.cancel();

    assert!(matches!(
        evaluate_with_progress(
            &scan,
            &RuleOptions::default(),
            &cancellation,
            &mut ProgressLog::new()
        ),
        Err(RuleError::Cancelled { items_processed: 0 })
    ));
}

#[test]
fn recognizes_generated_directories() {
    let item = sample("/test/node_modules", ItemKind::Directory, 500, None);
    let options = RuleOptions {
        large_item_threshold_bytes: 1_000,
        ..RuleOptions::default()
    };

    let findings = evaluate(&scan_with(item), &options);
    assert_eq!(findings.len(), 1);
    assert_eq!(findings[0].category, FindingCategory::GeneratedDirectory);
}

#[test]
fn names_the_specific_kind_of_directory() {
    let scan = scan_of(vec![
        sample("/test/app/node_modules", ItemKind::Directory, 9, None),
        sample("/test/app/node_modules/index.js", ItemKind::File, 9, None),
        sample("/test/app/target", ItemKind::Directory, 8, None),
        sample("/test/app/Cargo.toml", ItemKind::File, 1, None),
        sample("/test/dist", ItemKind::Directory, 7, None),
        sample("/test/.cache", ItemKind::Directory, 6, None),
        sample("/test/.gradle/caches", ItemKind::Directory, 5, None),
        sample("/test/pixel.avd", ItemKind::Directory, 4, None),
        sample("/test/box.vmwarevm", ItemKind::Directory, 3, None),
        sample("/test/Windows/Prefetch", ItemKind::Directory, 2, None),
    ]);
    let options = RuleOptions::at(300 * DAY_SECONDS);
    let found: Vec<(FindingCategory, RiskLevel)> = evaluate(&scan, &options)
        .iter()
        .map(|finding| (finding.category, finding.risk))
        .collect();
    assert_eq!(
        found,
        vec![
            (FindingCategory::NodeModules, RiskLevel::Medium),
            (FindingCategory::RustBuildArtifacts, RiskLevel::Medium),
            (FindingCategory::GeneratedDirectory, RiskLevel::Medium),
            (FindingCategory::CacheDirectory, RiskLevel::Low),
            (FindingCategory::GradleCache, RiskLevel::Low),
            (FindingCategory::AndroidEmulator, RiskLevel::High),
            (FindingCategory::VirtualMachine, RiskLevel::High),
            (FindingCategory::OperatingSystemCache, RiskLevel::Low),
        ]
    );
}

#[test]
fn young_files_are_not_old() {
    let now = 300 * DAY_SECONDS;
    for (modified, expected) in [
        (now - 180 * DAY_SECONDS, 1),
        (now - 180 * DAY_SECONDS + 1, 0),
        (now + DAY_SECONDS, 0),
    ] {
        let scan = scan_with(sample("/test/old.zip", ItemKind::File, 10, Some(modified)));
        let findings = evaluate(&scan, &RuleOptions::at(now));
        assert_eq!(findings.len(), expected, "{modified}");
    }
}

#[test]
fn large_items_are_reported_once_they_reach_the_threshold() {
    let options = RuleOptions {
        large_item_threshold_bytes: 100,
        ..RuleOptions::at(0)
    };
    let scan = scan_of(vec![
        sample("/test/b.bin", ItemKind::File, 100, None),
        sample("/test/a.bin", ItemKind::File, 100, None),
        sample("/test/small.bin", ItemKind::File, 99, None),
    ]);
    let findings = evaluate(&scan, &options);
    assert_eq!(findings.len(), 2);
    assert_eq!(findings[0].path, FilePath::new("/test/a.bin"));
    assert_eq!(findings[1].path, FilePath::new("/test/b.bin"));
    assert_eq!(findings[0].category, FindingCategory::LargeItem);
    assert_eq!(findings[0].potential_recovery_bytes, 100);
    assert_eq!(findings[0].confidence.bits, 1.0_f32.to_bits());
    assert_eq!(findings[0].suggested_action, SuggestedAction::ReviewForArchive);
}

#[test]
fn only_items_of_the_scan_are_recommended() {
    let options = RuleOptions {
        large_item_threshold_bytes: 1,
        ..RuleOptions::at(900 * DAY_SECONDS)
    };
    let scan = scan_of(vec![
        sample("/test/disk.iso", ItemKind::File, 50, Some(1)),
        sample("/test/link", ItemKind::Symlink, 50, Some(1)),
    ]);
    for finding in evaluate(&scan, &options) {
        assert!(scan.items.iter().any(|item| item.path == finding.path));
    }
}

#[test]
fn an_unusable_protection_is_an_error() {
    let options = RuleOptions {
        protected_rules: vec![PathRule::Glob(" ".to_owned())],
        ..RuleOptions::at(0)
    };
    let result = evaluate_with_policy_progress(
        &scan_of(Vec::new()),
        &options,
        &CancellationToken::new(),
        &mut ProgressLog::new(),
    );
    assert_eq!(
        result.unwrap_err().describe(),
        "invalid protected-path rule: invalid path pattern \"\": pattern cannot be empty"
    );
}

#[test]
fn a_cancelled_evaluation_tells_how_far_it_came() {
    assert_eq!(
        RuleError::Cancelled { items_processed: 7 }.describe(),
        "recommendation building cancelled after processing 7 items"
    );
}

#[test]
fn protection_withholds_what_it_counts() {
    let scan = scan_of(vec![
        sample("/test/keep/disk.iso", ItemKind::File, 500, Some(1)),
        sample("/test/keep/node_modules", ItemKind::Directory, 500, None),
        sample("/test/old.zip", ItemKind::File, 500, Some(1)),
    ]);
    let options = |rules: Vec<PathRule>| RuleOptions {
        large_item_threshold_bytes: 100,
        protected_rules: rules,
        ..RuleOptions::at(300 * DAY_SECONDS)
    };
    let token = CancellationToken::new();
    let open = evaluate_with_policy_progress(
        &scan,
        &options(Vec::new()),
        &token,
        &mut ProgressLog::new(),
    )
    .unwrap();
    let kept = evaluate_with_policy_progress(
        &scan,
        &options(vec![PathRule::Exact(FilePath::new("keep"))]),
        &token,
        &mut ProgressLog::new(),
    )
    .unwrap();
    assert_eq!(open.suppressed_findings, 0);
    assert!(kept.suppressed_findings > 0);
    assert_eq!(kept.protected_items, 2);
    assert_eq!(
        open.findings.len() as u64,
        kept.findings.len() as u64 + kept.suppressed_findings
    );
    assert!(kept.findings.iter().all(|finding| open.findings.contains(finding)));
}

#[test]
fn an_evaluation_that_is_never_stopped_counts_what_it_withholds() {
    let item = sample(
        "/test/Documents/archive.zip",
        ItemKind::File,
        500,
        Some(100 * DAY_SECONDS),
    );
    let options = RuleOptions {
        large_item_threshold_bytes: 100,
        old_item_threshold_days: 180,
        now_epoch_seconds: 300 * DAY_SECONDS,
        protected_rules: vec![PathRule::Exact(FilePath::new("/test/Documents"))],
        ignore_case: false,
    };
    let evaluation =
        evaluate_polled(&scan_with(item), &options, &mut NeverStops::new(), &mut ProgressLog::new())
            .unwrap();
    assert!(evaluation.findings.is_empty());
    assert_eq!((evaluation.protected_items, evaluation.suppressed_findings), (1, 2));
}

#[test]
fn a_stop_in_the_middle_leaves_the_items_before_it() {
    let items = (0..300)
        .map(|number| sample(&format!("/test/{number}"), ItemKind::File, 1, None))
        .collect();
    let token = CancellationToken::new();
    let stopper = token.clone();
    let mut sink = Listener::new(move |event: &ProgressEvent| {
        if event.items_processed > 0 {
            stopper.cancel();
        }
    });
    let result =
        evaluate_with_progress(&scan_of(items), &RuleOptions::default(), &token, &mut sink);
    assert!(matches!(result, Err(RuleError::Cancelled { items_processed: 128 })));
}
