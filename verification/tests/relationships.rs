use spacemind::model::{
    Confidence, DuplicateEntry, DuplicateGroup, DuplicateReport, FileIdentity, Finding,
    FindingCategory, ItemKind, Relationship, RelationshipKind, RelationshipReport, RiskLevel,
    ScanResult, ScannedItem, SuggestedAction,
};
use spacemind::path::FilePath;
use spacemind::progress::{AnalysisPhase, CancellationToken, NeverStops, ProgressLog};
use spacemind::relationships::{
    detect_relationships, detect_relationships_polled, detect_relationships_with_progress, enrich_findings_with_relationships,
    RelationshipError,
};

fn item(path: &str, kind: ItemKind) -> ScannedItem {
    let path = FilePath::new(path);
    ScannedItem {
        kind,
        size_bytes: 100,
        allocated_size_bytes: None,
        file_identity: None,
        hard_link_count: None,
        created_at_epoch_seconds: None,
        modified_at_epoch_seconds: None,
        modified_at_epoch_nanoseconds: None,
        accessed_at_epoch_seconds: None,
        extension: path.extension().map(|bytes| String::from_utf8(bytes).unwrap()),
        path,
    }
}

fn scan(items: Vec<ScannedItem>) -> ScanResult {
    ScanResult {
        root: FilePath::new("/test"),
        started_at_epoch_seconds: 0,
        completed_at_epoch_seconds: 0,
        total_size_bytes: items.iter().map(|item| item.size_bytes).sum(),
        total_allocated_size_bytes: None,
        file_count: items.iter().filter(|item| item.kind == ItemKind::File).count() as u64,
        directory_count: items
            .iter()
            .filter(|item| item.kind == ItemKind::Directory)
            .count() as u64,
        items,
        ignored_paths: Vec::new(),
        warnings: Vec::new(),
    }
}

fn no_duplicates() -> DuplicateReport {
    DuplicateReport {
        groups: Vec::new(),
        warnings: Vec::new(),
        files_hashed: 0,
        bytes_hashed: 0,
        logical_duplicate_bytes: 0,
        potential_recovery_allocated_bytes: Some(0),
    }
}

#[test]
fn links_archives_to_extracted_sibling_directories() {
    let scan = scan(vec![
        item("/test/project.tar.gz", ItemKind::File),
        item("/test/project", ItemKind::Directory),
    ]);

    let report = detect_relationships(&scan, &no_duplicates());

    assert_eq!(report.relationships.len(), 1);
    assert_eq!(
        report.relationships[0].kind,
        RelationshipKind::ArchiveExtractedDirectory
    );
}

#[test]
fn links_versioned_installers_to_matching_application_directories() {
    let scan = scan(vec![
        item("/test/android-studio-2025.1-linux.run", ItemKind::File),
        item("/test/android-studio", ItemKind::Directory),
    ]);

    let report = detect_relationships(&scan, &no_duplicates());

    assert_eq!(report.relationships.len(), 1);
    assert_eq!(
        report.relationships[0].kind,
        RelationshipKind::InstallerApplicationDirectory
    );
    assert!(report.relationships[0].confidence.bits < 0.80_f32.to_bits());
}

#[test]
fn links_build_directories_to_projects_with_manifests() {
    let scan = scan(vec![
        item("/test/project/Cargo.toml", ItemKind::File),
        item("/test/project/target", ItemKind::Directory),
    ]);

    let report = detect_relationships(&scan, &no_duplicates());

    assert_eq!(report.relationships.len(), 1);
    assert_eq!(
        report.relationships[0].kind,
        RelationshipKind::BuildDirectoryProject
    );
    assert_eq!(
        report.relationships[0].target_path,
        FilePath::new("/test/project")
    );
}

#[test]
fn links_virtual_disks_to_vm_configuration() {
    let scan = scan(vec![
        item("/test/Kali/Kali.vbox", ItemKind::File),
        item("/test/Kali/Kali.vdi", ItemKind::File),
    ]);

    let report = detect_relationships(&scan, &no_duplicates());

    assert_eq!(report.relationships.len(), 1);
    assert_eq!(
        report.relationships[0].kind,
        RelationshipKind::VirtualMachineComponent
    );
}

#[test]
fn links_downloaded_vm_packages_to_imported_vm_directories() {
    let scan = scan(vec![
        item("/test/Kali-2025.1.ova", ItemKind::File),
        item("/test/Kali", ItemKind::Directory),
        item("/test/Kali/Kali.vbox", ItemKind::File),
    ]);

    let report = detect_relationships(&scan, &no_duplicates());

    assert_eq!(report.relationships.len(), 1);
    assert_eq!(
        report.relationships[0].kind,
        RelationshipKind::VirtualMachineComponent
    );
    assert_eq!(
        report.relationships[0].target_path,
        FilePath::new("/test/Kali")
    );
}

#[test]
fn links_android_emulator_directory_to_ini_configuration() {
    let scan = scan(vec![
        item("/test/.android/avd/pixel.ini", ItemKind::File),
        item("/test/.android/avd/pixel.avd", ItemKind::Directory),
    ]);

    let report = detect_relationships(&scan, &no_duplicates());

    assert_eq!(report.relationships.len(), 1);
    assert_eq!(
        report.relationships[0].kind,
        RelationshipKind::AndroidEmulatorConfiguration
    );
}

fn entry(path: &str, file_id: u64, links: u64) -> DuplicateEntry {
    DuplicateEntry {
        path: FilePath::new(path),
        file_identity: Some(FileIdentity {
            volume_id: 1,
            file_id,
        }),
        allocated_size_bytes: Some(100),
        hard_link_count: Some(links),
        protected: false,
    }
}

fn duplicates_of(entries: Vec<DuplicateEntry>) -> DuplicateReport {
    DuplicateReport {
        groups: vec![DuplicateGroup {
            blake3_hash: "abc123".to_owned(),
            size_bytes_per_file: 100,
            entries,
            unique_file_count: 2,
            protected_file_count: 0,
            logical_duplicate_bytes: 100,
            potential_recovery_allocated_bytes: Some(100),
        }],
        warnings: Vec::new(),
        files_hashed: 2,
        bytes_hashed: 200,
        logical_duplicate_bytes: 100,
        potential_recovery_allocated_bytes: Some(100),
    }
}

#[test]
fn turns_duplicate_groups_into_evidence_relationships() {
    let duplicates = duplicates_of(vec![entry("/test/a.bin", 1, 1), entry("/test/b.bin", 2, 1)]);

    let report = detect_relationships(&scan(Vec::new()), &duplicates);

    assert_eq!(report.relationships.len(), 1);
    assert_eq!(
        report.relationships[0].kind,
        RelationshipKind::ExactDuplicate
    );
    assert_eq!(report.relationships[0].confidence, Confidence { bits: 1.0_f32.to_bits() });
}

#[test]
fn relationship_evidence_enriches_matching_findings() {
    let report = RelationshipReport {
        relationships: vec![Relationship {
            kind: RelationshipKind::ArchiveExtractedDirectory,
            source_path: FilePath::new("/test/project.zip"),
            target_path: FilePath::new("/test/project"),
            confidence: Confidence { bits: 0.96_f32.to_bits() },
            evidence: Vec::new(),
        }],
        items_analyzed: 2,
    };
    let mut findings = vec![Finding {
        category: FindingCategory::OldArchive,
        path: FilePath::new("/test/project.zip"),
        potential_recovery_bytes: 100,
        confidence: Confidence { bits: 0.82_f32.to_bits() },
        risk: RiskLevel::Medium,
        evidence: Vec::new(),
        suggested_action: SuggestedAction::ReviewForDeletion,
    }];

    enrich_findings_with_relationships(&mut findings, &report);

    assert_eq!(
        findings[0].evidence,
        vec!["Related extracted directory: /test/project"]
    );
    enrich_findings_with_relationships(&mut findings, &report);
    assert_eq!(findings[0].evidence.len(), 1);
}

#[test]
fn hard_link_aliases_do_not_create_duplicate_relationships() {
    let duplicates = duplicates_of(vec![
        entry("/test/a.bin", 1, 2),
        entry("/test/a-link.bin", 1, 2),
        entry("/test/copy.bin", 2, 1),
    ]);

    let report = detect_relationships(&scan(Vec::new()), &duplicates);

    assert_eq!(report.relationships.len(), 1);
}

#[test]
fn reports_relationship_progress_with_final_totals() {
    let scan = scan(vec![
        item("/test/project.zip", ItemKind::File),
        item("/test/project", ItemKind::Directory),
    ]);
    let cancellation = CancellationToken::new();
    let mut log = ProgressLog::new();

    let report =
        detect_relationships_with_progress(&scan, &no_duplicates(), &cancellation, &mut log)
            .unwrap();
    let events = log.events;

    assert_eq!(events.first().unwrap().phase, AnalysisPhase::DetectingRelationships);
    assert_eq!(events.first().unwrap().items_processed, 0);
    assert_eq!(events.last().unwrap().items_processed, report.items_analyzed);
    assert_eq!(events.last().unwrap().total_items, Some(report.items_analyzed));
}

#[test]
fn cancellation_stops_relationship_detection() {
    let cancellation = CancellationToken::new();
    cancellation.cancel();

    let result = detect_relationships_with_progress(
        &scan(vec![item("/test/archive.zip", ItemKind::File)]),
        &no_duplicates(),
        &cancellation,
        &mut ProgressLog::new(),
    );

    assert!(matches!(
        result,
        Err(RelationshipError::Cancelled { items_analyzed: 0 })
    ));
    assert!(result.unwrap_err().describe().contains("cancelled"));
}

#[test]
fn unrelated_neighbours_stay_unrelated() {
    let scan = scan(vec![
        item("/test/project.zip", ItemKind::File),
        item("/test/other", ItemKind::Directory),
        item("/elsewhere/project", ItemKind::Directory),
        item("/test/app/target", ItemKind::Directory),
    ]);
    let report = detect_relationships(&scan, &no_duplicates());
    assert!(report.relationships.is_empty());
    assert_eq!(report.items_analyzed, 4);
}

#[test]
fn connections_are_reported_once_and_in_path_order() {
    let scan = scan(vec![
        item("/test/zeta.zip", ItemKind::File),
        item("/test/zeta", ItemKind::Directory),
        item("/test/alpha.zip", ItemKind::File),
        item("/test/alpha", ItemKind::Directory),
        item("/test/alpha.zip", ItemKind::File),
    ]);
    let report = detect_relationships(&scan, &no_duplicates());
    assert_eq!(report.relationships.len(), 2);
    assert_eq!(report.relationships[0].source_path, FilePath::new("/test/alpha.zip"));
    assert_eq!(report.relationships[1].source_path, FilePath::new("/test/zeta.zip"));
}

#[test]
fn enriching_leaves_other_findings_alone() {
    let report = RelationshipReport {
        relationships: vec![Relationship {
            kind: RelationshipKind::ExactDuplicate,
            source_path: FilePath::new("/test/a"),
            target_path: FilePath::new("/test/b"),
            confidence: Confidence { bits: 1.0_f32.to_bits() },
            evidence: Vec::new(),
        }],
        items_analyzed: 2,
    };
    let mut findings = vec![Finding {
        category: FindingCategory::LargeItem,
        path: FilePath::new("/test/c"),
        potential_recovery_bytes: 7,
        confidence: Confidence { bits: 1.0_f32.to_bits() },
        risk: RiskLevel::High,
        evidence: vec!["Large".to_owned()],
        suggested_action: SuggestedAction::ReviewForArchive,
    }];
    enrich_findings_with_relationships(&mut findings, &report);
    assert_eq!(findings[0].evidence, vec!["Large"]);
    assert_eq!(findings[0].potential_recovery_bytes, 7);
}

#[test]
fn directory_names_are_quoted_as_paths_are() {
    let scan = scan(vec![
        item("/test/it's.zip", ItemKind::File),
        item("/test/it's", ItemKind::Directory),
    ]);
    let report = detect_relationships(&scan, &no_duplicates());
    assert_eq!(
        report.relationships[0].evidence,
        vec![format!(
            "Archive name matches sibling directory {:?}",
            std::path::Path::new("it's")
        )]
    );
}

#[test]
fn relationships_keep_the_spelling_of_their_paths() {
    let scan = scan(vec![
        item("/test//app/./target/", ItemKind::Directory),
        item("/test/app//Cargo.toml", ItemKind::File),
    ]);
    let report = detect_relationships(&scan, &no_duplicates());
    assert_eq!(report.relationships.len(), 1);
    let found = &report.relationships[0];
    assert_eq!(found.kind, RelationshipKind::BuildDirectoryProject);
    assert_eq!(found.source_path.display(), "/test//app/./target/");
    assert_eq!(found.target_path.display(), "/test//app");
    assert_eq!(
        found.evidence,
        ["Build directory is linked to project manifest /test/app//Cargo.toml"]
    );
}

#[test]
fn a_signal_that_never_stops_relates_everything() {
    let scan = scan(vec![item("/data/a", ItemKind::File)]);
    let mut log = ProgressLog::new();
    let report =
        detect_relationships_polled(&scan, &no_duplicates(), &mut NeverStops::new(), &mut log)
            .unwrap();
    assert_eq!(report, detect_relationships(&scan, &no_duplicates()));
    assert_eq!(log.events.len(), 2);
}

#[test]
fn bytes_that_are_no_text_are_quoted_by_their_numbers() {
    let named = |bytes: &[u8], kind: ItemKind| ScannedItem {
        path: FilePath::from_bytes(bytes),
        ..item("/test/x", kind)
    };
    let scan = scan(vec![
        named(b"/test/f\xFFo'\xC3\xA9\xF0\x90.zip", ItemKind::File),
        named(b"/test/f\xFFo'\xC3\xA9\xF0\x90", ItemKind::Directory),
    ]);
    let report = detect_relationships(&scan, &no_duplicates());
    let quoted = format!("{:?}", std::path::Path::new("o'é"));
    let inside = quoted.trim_matches('"');
    assert_eq!(
        report.relationships[0].evidence,
        vec![format!(
            "Archive name matches sibling directory \"f\\xFF{inside}\\xF0\\x90\""
        )]
    );
}
