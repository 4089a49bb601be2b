use spacemind::archive::{prepare_analysis, restore_analysis, restore_found, GroupRows, KeptRows};
use spacemind::model::{
    AiCategory, AiExplanation, AiReport, AiStatus, AiSuggestedAction, Confidence, DuplicateEntry,
    DuplicateGroup, DuplicateReport, DuplicateWarning, DuplicateWarningKind, FileIdentity,
    Finding, FindingCategory, ItemKind, Relationship, RelationshipKind, RelationshipReport,
    RiskLevel, ScanResult, ScanWarning, ScannedItem, SuggestedAction,
};
use spacemind::naming::Named;
use spacemind::path::FilePath;
use spacemind::policy::Platform;
use spacemind::progress::CancellationToken;
use spacemind::storage::{
    ai_status_parts, check_cancelled, default_database_path, history_limit, migration_steps,
    order_findings, proceed_unless, read_entry, read_explanation, read_finding, read_group,
    read_history_row, read_relationship, read_warning, signed_decimal_of, store_entry,
    store_explanation, store_finding, store_group, store_item, store_relationship, store_scan,
    store_warnings, validate_analysis_numbers, wide_path_bytes, wide_stored_path, Analysis,
    DatabaseError, FindingRow, HistoryRow, Migration, SCHEMA_VERSION,
};

fn sample_scan() -> ScanResult {
    ScanResult {
        root: FilePath::new("/home/example/Downloads"),
        started_at_epoch_seconds: 100,
        completed_at_epoch_seconds: 110,
        total_size_bytes: 24,
        total_allocated_size_bytes: Some(32),
        file_count: 2,
        directory_count: 1,
        items: vec![ScannedItem {
            path: FilePath::new("/home/example/Downloads/archive.zip"),
            kind: ItemKind::File,
            size_bytes: 12,
            allocated_size_bytes: Some(16),
            file_identity: Some(FileIdentity {
                volume_id: 1,
                file_id: 2,
            }),
            hard_link_count: Some(1),
            created_at_epoch_seconds: Some(50),
            modified_at_epoch_seconds: Some(60),
            modified_at_epoch_nanoseconds: Some(60_000_000_000),
            accessed_at_epoch_seconds: Some(70),
            extension: Some("zip".to_owned()),
        }],
        ignored_paths: vec![FilePath::new("/home/example/Downloads/node_modules")],
        warnings: vec![ScanWarning {
            path: Some(FilePath::new("/home/example/Downloads/unreadable")),
            message: "Permission denied".to_owned(),
        }],
    }
}

fn sample_finding() -> Finding {
    Finding {
        category: FindingCategory::OldArchive,
        path: FilePath::new("/home/example/Downloads/archive.zip"),
        potential_recovery_bytes: 12,
        confidence: Confidence { bits: 0.9_f32.to_bits() },
        risk: RiskLevel::Low,
        evidence: vec!["Old archive".to_owned()],
        suggested_action: SuggestedAction::ReviewForDeletion,
    }
}

fn sample_duplicates() -> DuplicateReport {
    DuplicateReport {
        groups: vec![DuplicateGroup {
            blake3_hash: "abc123".to_owned(),
            size_bytes_per_file: 12,
            entries: vec![DuplicateEntry {
                path: FilePath::new("/home/example/Downloads/archive.zip"),
                file_identity: None,
                allocated_size_bytes: Some(16),
                hard_link_count: Some(1),
                protected: false,
            }],
            unique_file_count: 2,
            protected_file_count: 0,
            logical_duplicate_bytes: 12,
            potential_recovery_allocated_bytes: Some(16),
        }],
        warnings: vec![DuplicateWarning {
            path: FilePath::new("/home/example/Downloads/changing.zip"),
            kind: DuplicateWarningKind::ChangedDuringDetection,
            message: "File changed while hashing".to_owned(),
        }],
        files_hashed: 2,
        bytes_hashed: 24,
        logical_duplicate_bytes: 12,
        potential_recovery_allocated_bytes: Some(16),
    }
}

fn sample_relationships() -> RelationshipReport {
    RelationshipReport {
        relationships: vec![Relationship {
            kind: RelationshipKind::ArchiveExtractedDirectory,
            source_path: FilePath::new("/home/example/Downloads/archive.zip"),
            target_path: FilePath::new("/home/example/Downloads/archive"),
            confidence: Confidence { bits: 0.95_f32.to_bits() },
            evidence: vec!["Matching name".to_owned()],
        }],
        items_analyzed: 1,
    }
}

fn sample_ai() -> AiReport {
    AiReport {
        status: AiStatus::Complete {
            model: "qwen3:4b".to_owned(),
        },
        candidates_considered: 1,
        explanations: vec![AiExplanation {
            path: FilePath::new("/home/example/Downloads/archive.zip"),
            category: AiCategory::ArchiveWithExtractedCopy,
            risk: RiskLevel::Low,
            confidence: Confidence { bits: 0.91_f32.to_bits() },
            reason: "An extracted sibling was found; inspect both before deciding.".to_owned(),
            suggested_action: AiSuggestedAction::ReviewForDeletion,
        }],
        warnings: Vec::new(),
    }
}

fn sample_history_row() -> HistoryRow {
    HistoryRow {
        id: 1,
        root_path: b"/home/example/Downloads".to_vec(),
        started_at: 100,
        completed_at: 110,
        total_size_bytes: 24,
        total_allocated_size_bytes: Some(32),
        file_count: 2,
        directory_count: 1,
        recommendation_count: 1,
        duplicate_group_count: 1,
        relationship_count: 1,
        warning_count: 2,
        duplicate_recovery_bytes: Some(16),
        recovered_space_bytes: 0,
        ai_status: "complete".to_owned(),
        ai_model: Some("qwen3:4b".to_owned()),
        ai_candidate_count: 1,
        ai_explanation_count: 1,
    }
}

#[test]
fn a_stored_analysis_reads_back_complete() {
    let scan = sample_scan();
    let findings = vec![sample_finding()];
    let duplicates = sample_duplicates();
    let relationships = sample_relationships();
    let ai = sample_ai();
    let analysis = Analysis {
        scan: &scan,
        findings: &findings,
        duplicates: &duplicates,
        relationships: &relationships,
        ai: &ai,
    };
    validate_analysis_numbers(analysis).unwrap();

    let row = store_scan(analysis).unwrap();
    assert_eq!(row.root_path, b"/home/example/Downloads".to_vec());
    assert_eq!((row.scan_warning_count, row.duplicate_warning_count), (1, 1));
    assert_eq!(row.duplicate_recovery_bytes, Some(16));
    assert_eq!(row.ai_status, "complete");
    assert_eq!(row.ai_model.as_deref(), Some("qwen3:4b"));
    assert_eq!(row.ai_candidate_count, 1);

    let item = store_item(&scan.items[0]).unwrap();
    assert_eq!(item.kind, "file");
    assert_eq!((item.volume_id, item.file_id), (Some(1), Some(2)));
    assert_eq!(item.modified_at_nanoseconds, Some(60_000_000_000));

    assert_eq!(read_finding(&store_finding(&findings[0]).unwrap()).unwrap(), findings[0]);
    let group = &duplicates.groups[0];
    let entry = read_entry(&store_entry(&group.entries[0]).unwrap()).unwrap();
    assert_eq!(entry, group.entries[0]);
    assert_eq!(&read_group(&store_group(group).unwrap(), vec![entry]).unwrap(), group);
    let relationship = &relationships.relationships[0];
    assert_eq!(&read_relationship(&store_relationship(relationship)).unwrap(), relationship);
    let explanation = &ai.explanations[0];
    assert_eq!(&read_explanation(&store_explanation(explanation)).unwrap(), explanation);

    let warnings: Vec<_> = store_warnings(analysis).iter().map(read_warning).collect();
    assert_eq!(warnings.len(), 2);
    assert_eq!(warnings[0].source, "scan");
    assert_eq!(warnings[0].path, scan.warnings[0].path);
    assert_eq!(warnings[1].kind.as_deref(), Some("changed_during_detection"));
    assert_eq!(warnings[1].message, "File changed while hashing");

    let history = read_history_row(&sample_history_row()).unwrap();
    assert_eq!(history.root, scan.root);
    assert_eq!(history.duplicate_recovery_bytes, Some(16));
    assert_eq!(history.ai_model.as_deref(), Some("qwen3:4b"));
    assert_eq!(history.ai_explanation_count, 1);
}

#[test]
fn detailed_review_orders_actionable_low_risk_findings_first() {
    let mut high_risk = sample_finding();
    high_risk.path = FilePath::new("/home/example/Downloads/huge-vm");
    high_risk.potential_recovery_bytes = 10_000;
    high_risk.risk = RiskLevel::High;
    high_risk.suggested_action = SuggestedAction::ReviewForArchive;
    let mut low_risk = sample_finding();
    low_risk.path = FilePath::new("/home/example/Downloads/cache");
    low_risk.potential_recovery_bytes = 100;
    low_risk.risk = RiskLevel::Low;
    low_risk.suggested_action = SuggestedAction::ReviewForDeletion;

    let ordered = order_findings(vec![high_risk, low_risk]);

    assert_eq!(ordered[0].path, FilePath::new("/home/example/Downloads/cache"));
}

#[test]
fn rejects_values_that_sqlite_cannot_represent_before_writing() {
    let mut scan = sample_scan();
    scan.total_size_bytes = u64::MAX;
    let duplicates = sample_duplicates();
    let relationships = sample_relationships();
    let ai = sample_ai();

    let error = validate_analysis_numbers(Analysis {
        scan: &scan,
        findings: &[],
        duplicates: &duplicates,
        relationships: &relationships,
        ai: &ai,
    })
    .unwrap_err();

    assert!(matches!(error, DatabaseError::IntegerOutOfRange { .. }));
    assert!(error.describe().ends_with("is too large to store in SQLite: 18446744073709551615"));
}

#[test]
fn cancellation_leaves_no_partial_scan() {
    let cancellation = CancellationToken::new();
    assert!(check_cancelled(&cancellation).is_ok());
    cancellation.cancel();

    let error = check_cancelled(&cancellation).unwrap_err();

    assert!(matches!(error, DatabaseError::Cancelled));
    assert_eq!(error.describe(), "database write cancelled; no scan history was saved");
    assert!(proceed_unless(false).is_ok());
}

#[test]
fn rejects_a_newer_or_unknown_schema() {
    let error = migration_steps(4).unwrap_err();

    assert!(matches!(
        error,
        DatabaseError::UnsupportedSchemaVersion {
            found: 4,
            supported: SCHEMA_VERSION
        }
    ));
    assert_eq!(
        migration_steps(-1).unwrap_err().describe(),
        "database schema version -1 is not supported; expected 3"
    );
}

#[test]
fn older_schemas_are_brought_up_step_by_step() {
    assert_eq!(
        migration_steps(0).unwrap(),
        vec![Migration::ToVersionOne, Migration::ToVersionTwo, Migration::ToVersionThree]
    );
    assert_eq!(
        migration_steps(1).unwrap(),
        vec![Migration::ToVersionTwo, Migration::ToVersionThree]
    );
    assert_eq!(migration_steps(2).unwrap(), vec![Migration::ToVersionThree]);
    assert!(migration_steps(SCHEMA_VERSION).unwrap().is_empty());
}

#[test]
fn preserves_distinct_non_utf8_paths() {
    let mut row = sample_history_row();
    row.root_path = b"/tmp/\x82".to_vec();
    let history = read_history_row(&row).unwrap();
    assert_eq!(history.root, FilePath::from_bytes(b"/tmp/\x82"));

    let mut scan = sample_scan();
    scan.items[0].path = FilePath::from_bytes(b"/tmp/\x80");
    let first = store_item(&scan.items[0]).unwrap();
    scan.items[0].path = FilePath::from_bytes(b"/tmp/\x81");
    let second = store_item(&scan.items[0]).unwrap();
    assert_ne!(first.path, second.path);
}

#[test]
fn stored_numbers_that_are_negative_are_refused() {
    let mut row = sample_history_row();
    row.file_count = -3;
    let error = read_history_row(&row).unwrap_err();
    assert!(matches!(error, DatabaseError::Conversion { value: -3, .. }));
    let cause = DatabaseError::InvalidStoredInteger { field: "file_count", value: -3 };
    assert_eq!(
        cause.describe(),
        "invalid negative value in database column file_count: -3"
    );
    let outside = rusqlite::Error::FromSqlConversionFailure(
        0,
        rusqlite::types::Type::Integer,
        Box::new(std::io::Error::new(std::io::ErrorKind::InvalidData, cause.describe())),
    );
    assert_eq!(error.describe(), outside.to_string());
}

#[test]
fn stored_names_and_evidence_must_be_readable() {
    let good = store_finding(&sample_finding()).unwrap();
    let broken = FindingRow { category: "elephant".to_owned(), ..good };
    let error = read_finding(&broken).unwrap_err();
    assert!(matches!(&error, DatabaseError::UnknownName { .. }));
    let names = [
        "large_item", "old_archive", "old_installer", "node_modules", "rust_build_artifacts",
        "gradle_cache", "android_emulator", "virtual_machine", "iso_image",
        "operating_system_cache", "generated_directory", "cache_directory",
    ];
    assert_eq!(
        error.describe(),
        format!("unknown variant `elephant`, expected one of `{}`", names.join("`, `"))
    );
    let good = store_finding(&sample_finding()).unwrap();
    let broken = FindingRow { suggested_action: "x at line 1 column 2".to_owned(), ..good };
    let outside: serde_json::Error = serde::de::Error::unknown_variant(
        "x at line 1 column 2",
        &["review_for_deletion", "review_for_archive"],
    );
    assert_eq!(read_finding(&broken).unwrap_err().describe(), outside.to_string());
    let good = store_finding(&sample_finding()).unwrap();
    let broken = FindingRow { risk: "none".to_owned(), ..good };
    let outside: serde_json::Error =
        serde::de::Error::unknown_variant("none", &["low", "medium", "high"]);
    assert_eq!(read_finding(&broken).unwrap_err().describe(), outside.to_string());
    let good = store_finding(&sample_finding()).unwrap();
    let broken = FindingRow { evidence_json: "[1]".to_owned(), ..good };
    let error = read_finding(&broken).unwrap_err();
    assert!(matches!(&error, DatabaseError::InvalidEvidence(_)));
    assert!(!error.describe().is_empty());
}

#[test]
fn paths_are_stored_and_read_back_as_they_are_spelled() {
    let mut finding = sample_finding();
    finding.path = FilePath::new("/tmp//a/./b/");
    let row = store_finding(&finding).unwrap();
    assert_eq!(row.path, b"/tmp//a/./b/".to_vec());
    let again = read_finding(&row).unwrap();
    assert_eq!(again.path, FilePath::new("/tmp/a/b"));
    assert_eq!(again.path.display(), "/tmp//a/./b/");
    let mut scan = sample_scan();
    scan.items[0].path = FilePath::new("a//b");
    assert_eq!(store_item(&scan.items[0]).unwrap().path, b"a//b".to_vec());
}

#[test]
fn findings_are_reviewed_by_the_numbers_of_their_confidence() {
    let with = |value: f32| {
        let mut finding = sample_finding();
        finding.confidence = Confidence { bits: value.to_bits() };
        finding
    };
    let ordered = order_findings(vec![with(-0.5), with(0.25), with(1.5), with(-2.0), with(0.0)]);
    let values: Vec<f32> =
        ordered.iter().map(|finding| f32::from_bits(finding.confidence.bits)).collect();
    assert_eq!(values, [1.5, 0.25, 0.0, -0.5, -2.0]);
}

#[test]
fn evidence_survives_quotes_and_control_characters() {
    let mut finding = sample_finding();
    finding.evidence = vec!["a \"b\" \\ c".to_owned(), String::new(), "\u{7}\n\u{1f512}".to_owned()];
    let row = store_finding(&finding).unwrap();
    assert!(row.evidence_json.starts_with('['));
    assert_eq!(read_finding(&row).unwrap().evidence, finding.evidence);
}

#[test]
fn on_windows_the_database_lies_among_the_local_data() {
    let windows = |database: Option<&[u8]>, local: Option<&[u8]>| {
        default_database_path(Platform::Windows, database, local, Some(b"/d"), Some(b"/h"))
    };
    assert_eq!(
        windows(None, Some(b"/C:/Local")).unwrap(),
        FilePath::new("/C:/Local/SpaceMind/spacemind.db")
    );
    assert_eq!(
        windows(Some(b"/x/my.db"), Some(b"/C:/Local")).unwrap(),
        FilePath::new("/x/my.db")
    );
    for local in [None, Some(&b""[..])] {
        let error = windows(None, local).unwrap_err();
        assert!(matches!(error, DatabaseError::DataDirectoryUnavailable));
    }
}

#[test]
fn paths_of_wide_units_read_back_what_was_stored() {
    let units = [0x0041_u16, 0xD83D, 0x00FF];
    let bytes = wide_path_bytes(&units);
    assert_eq!(bytes, [0x41, 0x00, 0x3D, 0xD8, 0xFF, 0x00]);
    assert_eq!(wide_stored_path(&bytes).unwrap(), units);
    assert!(wide_stored_path(&[]).unwrap().is_empty());
    assert_eq!(
        wide_stored_path(&bytes[..5]).unwrap_err(),
        "stored path contains an odd number of bytes: 5"
    );
}

#[test]
fn the_database_lies_where_the_environment_says() {
    let linux = |database: Option<&[u8]>, data: Option<&[u8]>, home: Option<&[u8]>| {
        default_database_path(Platform::Linux, database, Some(b"/local"), data, home)
    };
    let explicit = linux(Some(b"/x/my.db"), Some(b"/d"), Some(b"/h")).unwrap();
    assert_eq!(explicit, FilePath::new("/x/my.db"));
    let shared = linux(Some(b""), Some(b"/d"), Some(b"/h")).unwrap();
    assert_eq!(shared, FilePath::new("/d/spacemind/spacemind.db"));
    let own = linux(None, None, Some(b"/h")).unwrap();
    assert_eq!(own, FilePath::new("/h/.local/share/spacemind/spacemind.db"));
    let error = linux(None, None, None).unwrap_err();
    assert!(matches!(error, DatabaseError::DataDirectoryUnavailable));
    assert!(error.describe().contains("SPACEMIND_DATABASE"));
}

#[test]
fn the_status_of_a_model_is_stored_in_three_parts() {
    assert_eq!(ai_status_parts(&AiStatus::Disabled), ("disabled", None, None));
    assert_eq!(ai_status_parts(&AiStatus::NoCandidates), ("no_candidates", None, None));
    assert_eq!(
        ai_status_parts(&AiStatus::Unavailable { reason: "r".to_owned() }),
        ("unavailable", None, Some("r".to_owned()))
    );
    assert_eq!(
        ai_status_parts(&AiStatus::Partial { model: "m".to_owned() }),
        ("partial", Some("m".to_owned()), None)
    );
}

#[test]
fn history_is_asked_for_within_bounds() {
    assert_eq!(history_limit(0), None);
    assert_eq!(history_limit(1), Some(1));
    assert_eq!(history_limit(usize::MAX), Some(i64::MAX));
}

#[test]
fn every_name_reads_back() {
    for kind in [ItemKind::File, ItemKind::Directory, ItemKind::Symlink, ItemKind::Other] {
        assert_eq!(ItemKind::from_name(kind.name()), Some(kind));
    }
    for risk in [RiskLevel::Low, RiskLevel::Medium, RiskLevel::High] {
        assert_eq!(RiskLevel::from_name(risk.name()), Some(risk));
    }
    assert_eq!(FindingCategory::NodeModules.name(), "node_modules");
    assert_eq!(FindingCategory::from_name("iso_image"), Some(FindingCategory::IsoImage));
    assert_eq!(RelationshipKind::ExactDuplicate.name(), "exact_duplicate");
    assert_eq!(AiSuggestedAction::from_name("keep_or_review"), Some(AiSuggestedAction::KeepOrReview));
    assert_eq!(AiCategory::from_name("Unknown"), None);
}

#[test]
fn signed_numbers_are_written_out() {
    assert_eq!(signed_decimal_of(0), "0");
    assert_eq!(signed_decimal_of(-17), "-17");
    assert_eq!(signed_decimal_of(i64::MIN), "-9223372036854775808");
}

#[test]
fn migrates_an_empty_database_and_persists_a_complete_analysis() {
    let scan = sample_scan();
    let findings = vec![sample_finding()];
    let duplicates = sample_duplicates();
    let relationships = sample_relationships();
    let ai = sample_ai();
    assert_eq!(migration_steps(0).unwrap().len(), 3);

    let rows = prepare_analysis(Analysis {
        scan: &scan,
        findings: &findings,
        duplicates: &duplicates,
        relationships: &relationships,
        ai: &ai,
    })
    .unwrap();

    assert_eq!(rows.items.len(), 1);
    assert_eq!(rows.findings.len(), 1);
    assert_eq!(rows.groups.len(), 1);
    assert_eq!(rows.groups[0].entries.len(), 1);
    assert_eq!(rows.relationships.len(), 1);
    assert_eq!(rows.explanations.len(), 1);
    assert_eq!(rows.warnings.len(), 2);
    assert_eq!(rows.ignored_paths.len(), 1);

    let kept = KeptRows {
        history: sample_history_row(),
        findings: rows.findings,
        groups: rows.groups,
        relationships: rows.relationships,
        explanations: rows.explanations,
        warnings: rows.warnings,
    };
    let stored = restore_analysis(&kept).unwrap();
    assert_eq!(stored.summary, read_history_row(&kept.history).unwrap());
    assert_eq!(stored.summary.root, scan.root);
    assert_eq!(stored.findings, findings);
    assert_eq!(stored.duplicate_groups, duplicates.groups);
    assert_eq!(stored.relationships, relationships.relationships);
    assert_eq!(stored.ai_explanations, ai.explanations);
    assert_eq!(stored.warnings.len(), 2);
    assert_eq!(stored.warnings[0].source, "scan");
    assert_eq!(stored.warnings[1].kind.as_deref(), Some("changed_during_detection"));
}

#[test]
fn nothing_is_prepared_where_one_number_is_too_large() {
    let mut scan = sample_scan();
    scan.items[0].size_bytes = 1 << 63;
    let duplicates = sample_duplicates();
    let relationships = sample_relationships();
    let ai = sample_ai();
    let error = prepare_analysis(Analysis {
        scan: &scan,
        findings: &[],
        duplicates: &duplicates,
        relationships: &relationships,
        ai: &ai,
    })
    .unwrap_err();
    assert_eq!(
        error.describe(),
        "item.size_bytes is too large to store in SQLite: 9223372036854775808"
    );
}

#[test]
fn a_damaged_row_of_a_group_is_told() {
    let duplicates = sample_duplicates();
    let mut entry = store_entry(&duplicates.groups[0].entries[0]).unwrap();
    entry.hard_link_count = Some(-1);
    let kept = KeptRows {
        history: sample_history_row(),
        findings: Vec::new(),
        groups: vec![GroupRows {
            group: store_group(&duplicates.groups[0]).unwrap(),
            entries: vec![entry],
        }],
        relationships: Vec::new(),
        explanations: Vec::new(),
        warnings: Vec::new(),
    };
    assert_eq!(
        restore_analysis(&kept).unwrap_err().describe(),
        "Conversion error from type Integer at index: 0, \
         invalid negative value in database column duplicate.hard_link_count: -1"
    );
}

#[test]
fn rows_read_back_in_whatever_order_they_come() {
    let scan = sample_scan();
    let second = Finding {
        path: FilePath::new("/home/example/Downloads/other.zip"),
        potential_recovery_bytes: 40,
        ..sample_finding()
    };
    let findings = vec![sample_finding(), second];
    let mut duplicates = sample_duplicates();
    duplicates.groups[0].entries.push(DuplicateEntry {
        path: FilePath::new("/home/example/Downloads/copy.zip"),
        file_identity: None,
        allocated_size_bytes: Some(16),
        hard_link_count: Some(1),
        protected: true,
    });
    let relationships = sample_relationships();
    let ai = sample_ai();
    let mut rows = prepare_analysis(Analysis {
        scan: &scan,
        findings: &findings,
        duplicates: &duplicates,
        relationships: &relationships,
        ai: &ai,
    })
    .unwrap();
    rows.findings.reverse();
    rows.groups[0].entries.reverse();
    let kept = KeptRows {
        history: sample_history_row(),
        findings: rows.findings,
        groups: rows.groups,
        relationships: rows.relationships,
        explanations: rows.explanations,
        warnings: rows.warnings,
    };
    let stored = restore_found(Some(&kept)).unwrap().unwrap();
    assert_eq!(stored.findings[0], findings[1]);
    assert_eq!(stored.findings[1], findings[0]);
    assert_eq!(stored.duplicate_groups[0].entries[0], duplicates.groups[0].entries[1]);
    assert_eq!(stored.duplicate_groups[0].entries[1], duplicates.groups[0].entries[0]);
}

#[test]
fn what_was_never_kept_is_not_found() {
    assert!(restore_found(None).unwrap().is_none());
}
