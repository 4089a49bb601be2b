use spacemind::canvas::{TerminalLayout, Theme};
use spacemind::clock::reading_seconds;
use spacemind::duplicates::{detect_duplicates, plan_hashing, DuplicateOptions, HashOutcome};
use spacemind::history::visible_window_start;
use spacemind::hashing::{FileSnapshot, HashSession};
use spacemind::model::{
    AiReport, DuplicateReport, FileIdentity, ItemKind, RelationshipKind, ScanResult,
};
use spacemind::naming::Named;
use spacemind::path::FilePath;
use spacemind::policy::{PathRule, Platform};
use spacemind::progress::{AnalysisPhase, CancellationToken, ProgressLog};
use spacemind::report::{largest_items, print_human, print_scan_start, warning_display_counts};
use spacemind::review::shorten_hash;
use spacemind::rules::RuleOptions;
use spacemind::scanner::{
    scan, EntryMetadata, ScanOptions, Walk, WalkEvent, WalkRoot,
};
use spacemind::session::{
    absolute_path, assemble_ignored_rules, assemble_protected_rules, assess, completion_event,
    count_protected_copies, database_artifact_paths, default_protected_rules, failure_notice,
    home_directory, parse_path_rule, protected_variables, resolve_scan_path, starts_interactively, summarize_policy,
    AssessmentError, OutputFormat, ScanSettings, ScanTarget,
};
use spacemind::sheet::print_lines;

/// A small filesystem in memory: directories have no contents.
struct Disk {
    entries: Vec<(String, Option<Vec<u8>>)>,
}

impl Disk {
    fn new() -> Self {
        Disk { entries: Vec::new() }
    }

    fn directory(mut self, path: &str) -> Self {
        self.entries.push((path.to_owned(), None));
        self
    }

    fn file(mut self, path: &str, contents: &[u8]) -> Self {
        self.entries.push((path.to_owned(), Some(contents.to_vec())));
        self
    }

    fn walk(&self) -> Walk {
        let events = self
            .entries
            .iter()
            .enumerate()
            .map(|(index, (path, contents))| WalkEvent::Entry {
                path: FilePath::new(path),
                metadata: EntryMetadata {
                    kind: if contents.is_some() { ItemKind::File } else { ItemKind::Directory },
                    length: contents.as_ref().map_or(4096, |bytes| bytes.len() as u64),
                    blocks: Some(8),
                    identity: Some(FileIdentity { volume_id: 1, file_id: index as u64 }),
                    links: Some(1),
                    created: None,
                    modified: None,
                    accessed: None,
                },
            })
            .collect();
        Walk {
            root: WalkRoot::Directory(FilePath::new("/data")),
            started_at_epoch_seconds: 1,
            completed_at_epoch_seconds: 2,
            events,
        }
    }

    fn detect(&self, scan: &ScanResult, options: &DuplicateOptions) -> DuplicateReport {
        let outcomes = plan_hashing(scan, options)
            .iter()
            .map(|candidate| {
                let item = candidate.representative();
                let contents = self
                    .entries
                    .iter()
                    .find(|(path, _)| FilePath::new(path) == item.path)
                    .and_then(|(_, contents)| contents.clone())
                    .unwrap();
                let seen = FileSnapshot {
                    is_file: true,
                    length: contents.len() as u64,
                    modified: None,
                    identity: item.file_identity,
                };
                let session = HashSession::begin(item, seen).ok().unwrap().feed(&contents);
                HashOutcome::Hashed(session.finish(seen, seen).unwrap())
            })
            .collect();
        detect_duplicates(scan, options, outcomes).unwrap()
    }
}

fn options() -> ScanOptions {
    ScanOptions::new(FilePath::new("/data"))
}

#[test]
fn scans_a_directory_and_emits_duplicate_json() {
    let disk = Disk::new()
        .file("/data/example.bin", &[7_u8; 16])
        .file("/data/example-copy.bin", &[7_u8; 16]);
    let scan = scan(&options(), disk.walk()).unwrap();
    let duplicates = disk.detect(&scan, &DuplicateOptions::default());

    assert_eq!(scan.total_size_bytes, 32);
    assert_eq!(duplicates.groups.len(), 1);
    assert_eq!(duplicates.groups[0].unique_file_count, 2);
    assert!(duplicates.potential_recovery_allocated_bytes.unwrap() > 0);
}

#[test]
fn applies_ignore_and_protect_rules_end_to_end() {
    let protected = FilePath::new("/data/Documents");
    let disk = Disk::new()
        .directory("/data/ignored")
        .file("/data/ignored/not-scanned.bin", &[9_u8; 9])
        .directory("/data/Documents")
        .file("/data/Documents/kept.bin", &[7_u8; 16])
        .file("/data/copy.bin", &[7_u8; 16]);
    let ignore = [PathRule::Exact(FilePath::new("/data/ignored"))];
    let protect = [PathRule::Exact(protected.clone())];
    let (ignored_rules, automatic) = assemble_ignored_rules(&ignore, None);
    let mut asked = options();
    asked.ignored_rules = ignored_rules;
    // A walk does not go below what is ignored.
    let mut walk = disk.walk();
    walk.events.remove(1);
    let scan = scan(&asked, walk).unwrap();
    let duplicates = disk.detect(
        &scan,
        &DuplicateOptions {
            minimum_size_bytes: 1,
            protected_rules: assemble_protected_rules(true, Platform::Linux, &[], &protect),
            ignore_case: false,
        },
    );
    let rules = RuleOptions {
        large_item_threshold_bytes: 1,
        protected_rules: assemble_protected_rules(true, Platform::Linux, &[], &protect),
        ..RuleOptions::at(2)
    };
    let assessment = assess(
        &scan,
        &duplicates,
        &rules,
        &CancellationToken::new(),
        &mut ProgressLog::new(),
    )
    .unwrap();
    let copies = count_protected_copies(&duplicates.groups).unwrap();
    let policy = summarize_policy(&scan, &assessment, 1, automatic, 1, false, copies);

    assert_eq!(scan.total_size_bytes, 32);
    assert_eq!(scan.ignored_paths.len(), 1);
    assert_eq!(policy.protected_items, 2);
    assert!(policy.suppressed_recommendations >= 2);
    assert_eq!(policy.protected_duplicate_copies, 1);
    assert!(assessment.findings.iter().all(|finding| !finding.path.starts_with(&protected)));
    let group = &duplicates.groups[0];
    assert_eq!(group.protected_file_count, 1);
    assert_eq!(group.entries.iter().filter(|entry| entry.protected).count(), 1);
}

#[test]
fn emits_specific_deterministic_categories_in_json() {
    let disk = Disk::new()
        .directory("/data/project")
        .directory("/data/project/target")
        .directory("/data/project/node_modules")
        .file("/data/project/Cargo.toml", b"[package]\nname = \"example\"")
        .file("/data/project/target/artifact.bin", &[1_u8; 17])
        .file("/data/project/node_modules/package.js", &[2_u8; 19])
        .file("/data/machine.qcow2", &[3_u8; 23]);
    let scan = scan(&options(), disk.walk()).unwrap();
    let duplicates = disk.detect(&scan, &DuplicateOptions::default());
    let assessment = assess(
        &scan,
        &duplicates,
        &RuleOptions::at(2),
        &CancellationToken::new(),
        &mut ProgressLog::new(),
    )
    .unwrap();
    let categories: Vec<&str> =
        assessment.findings.iter().map(|finding| finding.category.name()).collect();

    assert!(categories.contains(&"rust_build_artifacts"));
    assert!(categories.contains(&"node_modules"));
    assert!(categories.contains(&"virtual_machine"));
    assert!(assessment
        .relationships
        .relationships
        .iter()
        .any(|relationship| relationship.kind == RelationshipKind::BuildDirectoryProject));
    let rust_finding = assessment
        .findings
        .iter()
        .find(|finding| finding.category.name() == "rust_build_artifacts")
        .unwrap();
    assert!(rust_finding
        .evidence
        .iter()
        .any(|evidence| evidence.starts_with("Source project:")));
}

#[test]
fn zero_argument_launch_scans_the_current_directory_without_a_terminal() {
    assert!(!starts_interactively(false, false, Theme::plain()));
    let settings = ScanSettings::default();
    let target =
        resolve_scan_path(settings.path.as_ref(), None, settings.format, false, false, Theme::plain());
    assert!(matches!(target, ScanTarget::Current));

    let disk = Disk::new().file("/data/example.bin", &[7_u8; 16]);
    let scan = scan(&options(), disk.walk()).unwrap();
    let duplicates = disk.detect(&scan, &DuplicateOptions::default());
    let assessment = assess(
        &scan,
        &duplicates,
        &RuleOptions::at(2),
        &CancellationToken::new(),
        &mut ProgressLog::new(),
    )
    .unwrap();
    let policy = summarize_policy(&scan, &assessment, 0, 0, 15, true, 0);
    let screen = print_human(
        &scan,
        &assessment.findings,
        &duplicates,
        &assessment.relationships,
        &AiReport::disabled(),
        &policy,
        settings.top,
        settings.min_size,
        None,
        Theme::plain(),
        76,
    );
    let report = screen.lines.join("\n");

    assert!(report.contains("SPACEMIND"), "{report}");
    assert!(report.contains("worth reviewing"), "{report}");
    assert!(report.contains("Nothing was deleted or modified"), "{report}");
}

#[test]
fn a_cancelled_assessment_names_its_phase() {
    let disk = Disk::new().file("/data/a", &[1]);
    let scan = scan(&options(), disk.walk()).unwrap();
    let duplicates = disk.detect(&scan, &DuplicateOptions::default());
    let token = CancellationToken::new();
    token.cancel();
    let result =
        assess(&scan, &duplicates, &RuleOptions::at(0), &token, &mut ProgressLog::new());
    assert!(matches!(result, Err(AssessmentError::Relationships(_))));
    let rules = RuleOptions {
        protected_rules: vec![PathRule::Glob(String::new())],
        ..RuleOptions::at(0)
    };
    let result = assess(
        &scan,
        &duplicates,
        &rules,
        &CancellationToken::new(),
        &mut ProgressLog::new(),
    );
    assert!(matches!(result, Err(AssessmentError::Rules(_))));
}

#[test]
fn rules_are_read_as_patterns_or_paths() {
    let home = FilePath::new("/home/me");
    assert_eq!(
        parse_path_rule(" *.iso ", Some(&home)).unwrap(),
        PathRule::Glob("*.iso".to_owned())
    );
    assert_eq!(
        parse_path_rule("~/Documents", Some(&home)).unwrap(),
        PathRule::Exact(FilePath::new("/home/me/Documents"))
    );
    assert_eq!(
        parse_path_rule("notes", None).unwrap(),
        PathRule::Exact(FilePath::new("notes"))
    );
    assert_eq!(parse_path_rule("  ", None).unwrap_err(), "path rule cannot be empty");
}

#[test]
fn asked_protection_holds_with_and_without_the_defaults() {
    let asked = [PathRule::Exact(FilePath::new("/srv"))];
    assert_eq!(assemble_protected_rules(true, Platform::Linux, &[], &asked).len(), 1);
    let all = assemble_protected_rules(false, Platform::Linux, &[], &asked);
    assert_eq!(all.len(), default_protected_rules(Platform::Linux, &[]).len() + 1);
    assert!(all.contains(&asked[0]));
    assert!(all.contains(&PathRule::Exact(FilePath::new("/etc"))));
}

#[test]
fn windows_protects_the_directories_that_its_environment_names() {
    let variables = protected_variables(Platform::Windows);
    assert_eq!(
        variables,
        ["SystemRoot", "WINDIR", "ProgramFiles", "ProgramFiles(x86)", "ProgramData"]
    );
    assert!(protected_variables(Platform::Linux).is_empty());
    assert!(protected_variables(Platform::Other).is_empty());
    let named = [
        FilePath::new("/C:/Windows"),
        FilePath::new("/C:/Windows/"),
        FilePath::new("/C:/Program Files"),
    ];
    assert_eq!(
        default_protected_rules(Platform::Windows, &named),
        [
            PathRule::Exact(FilePath::new("/C:/Program Files")),
            PathRule::Exact(FilePath::new("/C:/Windows")),
        ]
    );
    assert!(default_protected_rules(Platform::Other, &named).is_empty());
    assert!(!default_protected_rules(Platform::Linux, &named).contains(&PathRule::Exact(
        FilePath::new("/C:/Windows")
    )));
}

#[test]
fn the_database_and_its_companions_are_passed_over() {
    let database = FilePath::new("/home/me/space.db");
    let names: Vec<String> =
        database_artifact_paths(&database).iter().map(FilePath::display).collect();
    assert_eq!(
        names,
        vec![
            "/home/me/space.db",
            "/home/me/space.db-journal",
            "/home/me/space.db-wal",
            "/home/me/space.db-shm"
        ]
    );
    let (rules, automatic) = assemble_ignored_rules(&[], Some(&database));
    assert_eq!((rules.len(), automatic), (4, 4));
    assert!(rules.contains(&PathRule::Exact(database)));
}

#[test]
fn the_home_directory_and_relative_paths_are_resolved() {
    assert_eq!(
        home_directory(Some(b"/home/a"), Some(b"/b")),
        Some(FilePath::new("/home/a"))
    );
    assert_eq!(home_directory(None, Some(b"/b")), Some(FilePath::new("/b")));
    assert_eq!(home_directory(None, None), None);
    let current = FilePath::new("/work");
    assert_eq!(absolute_path(&FilePath::new("x"), &current), FilePath::new("/work/x"));
    assert_eq!(absolute_path(&FilePath::new("/x"), &current), FilePath::new("/x"));
    let named = FilePath::new("~/stuff");
    let home = FilePath::new("/home/a");
    let terminal = Theme { colors: false, terminal: true };
    match resolve_scan_path(Some(&named), Some(&home), OutputFormat::Human, true, true, terminal) {
        ScanTarget::Given(path) => assert_eq!(path, FilePath::new("/home/a/stuff")),
        other => panic!("{other:?}"),
    }
    assert!(matches!(
        resolve_scan_path(None, None, OutputFormat::Human, true, true, terminal),
        ScanTarget::Ask
    ));
    assert!(matches!(
        resolve_scan_path(None, None, OutputFormat::Json, true, true, terminal),
        ScanTarget::Current
    ));
}

#[test]
fn a_failed_run_ends_with_its_status() {
    assert_eq!(
        failure_notice("boom", false, false),
        ("SpaceMind could not complete the scan: boom".to_owned(), 1)
    );
    assert_eq!(failure_notice("boom", true, false).1, 130);
    assert_eq!(
        failure_notice("boom", false, true).0,
        "Scan cancelled safely. No files were changed."
    );
}

#[test]
fn completion_reports_the_totals() {
    let disk = Disk::new().file("/data/a", &[1, 2, 3]).directory("/data/d");
    let scan = scan(&options(), disk.walk()).unwrap();
    let event = completion_event(&scan);
    assert_eq!(event.phase, AnalysisPhase::Complete);
    assert_eq!(event.items_processed, scan.items.len() as u64);
    assert_eq!(event.total_bytes, Some(3));
}

#[test]
fn the_largest_items_come_first() {
    let disk = Disk::new()
        .file("/data/small", &[0; 1])
        .file("/data/large", &[0; 9])
        .file("/data/middle", &[0; 5]);
    let scan = scan(&options(), disk.walk()).unwrap();
    let sizes: Vec<u64> = largest_items(&scan, 2).iter().map(|item| item.size_bytes).collect();
    assert_eq!(sizes, vec![9, 5]);
}

#[test]
fn printed_lines_are_set_off_by_the_margin() {
    let screen = print_scan_start(&FilePath::new("/data"), Theme::plain(), 76);
    let layout = TerminalLayout::for_size(100, 40);
    let printed = print_lines(&screen, layout);
    assert_eq!(printed.lines.len(), screen.lines.len());
    let margin = layout.prefix();
    assert!(!margin.is_empty());
    for (line, plain) in printed.lines.iter().zip(&screen.lines) {
        assert!(line.is_empty() || *line == format!("{margin}{plain}"), "{line:?}");
    }
}

#[test]
fn a_clock_before_the_epoch_reads_as_the_epoch() {
    assert_eq!(reading_seconds(None), 0);
    assert_eq!(reading_seconds(Some(12)), 12);
    assert!(RuleOptions::default().now_epoch_seconds > 1_600_000_000);
}

#[test]
fn counts_of_hidden_warnings_stop_at_the_largest_number() {
    assert_eq!(warning_display_counts(usize::MAX, usize::MAX), (10, 10, usize::MAX));
    assert_eq!(warning_display_counts(usize::MAX, 10), (10, 10, usize::MAX - 10));
}

#[test]
fn a_list_that_fits_starts_at_its_first_row() {
    assert_eq!(visible_window_start(usize::MAX, 3, 5), 0);
    assert_eq!(visible_window_start(9, 10, 4), 6);
}

#[test]
fn a_hash_is_cut_after_twelve_bytes() {
    assert_eq!(shorten_hash("0123456789abcdef"), "0123456789ab");
    assert_eq!(shorten_hash("0123"), "0123");
    assert_eq!(shorten_hash("ééééééé"), "éééééé");
}

#[test]
fn paths_are_shown_as_they_were_given() {
    let given = FilePath::new("/data//photos/./");
    assert_eq!(given, FilePath::new("/data/photos"));
    assert_eq!(given.display(), "/data//photos/./");
    let screen = print_scan_start(&given, Theme::plain(), 76).lines.join("\n");
    assert!(screen.contains("  target  /data//photos/./"), "{screen}");

    let current = FilePath::new("/work");
    let relative = absolute_path(&FilePath::new("./x//y.db"), &current);
    assert_eq!(relative.display(), "/work/./x//y.db");
    assert_eq!(relative, FilePath::new("/work/x/y.db"));
    let home = FilePath::new("/home/a/");
    assert_eq!(home.child("Desktop").display(), "/home/a/Desktop");
    let expanded = FilePath::new("~/a//b/").expand_home(Some(&home));
    assert_eq!(expanded.display(), "/home/a/a/b");
    let bare = FilePath::new("~").expand_home(Some(&home));
    assert_eq!(bare.display(), "/home/a/");
    let system = std::path::Path::new("/work").join("./x//y.db");
    assert_eq!(relative.display(), system.display().to_string());
}
