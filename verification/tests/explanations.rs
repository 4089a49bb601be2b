use spacemind::ai::{
    begin_analysis, check_models, check_reply_size, conclude, describe_status, make_explaining_event, proceed_unless, prompt,
    shortlist_candidates, system_prompt, validate_output, AiError, AnalysisStart,
    GenerateResponse, ModelExplanation, ModelSummary, OllamaOptions, MAX_CANDIDATES_PER_REQUEST, MAX_HTTP_RESPONSE_BYTES,
    MAX_REASON_CHARACTERS,
};
use spacemind::endpoint::validate_local_endpoint;
use spacemind::model::{
    AiCategory, AiStatus, AiSuggestedAction, Confidence, DuplicateReport, Finding,
    FindingCategory, ItemKind, RelationshipReport, RiskLevel, ScanResult, ScannedItem,
    SuggestedAction,
};
use spacemind::path::FilePath;
use spacemind::progress::{AnalysisPhase, CancellationToken};
use spacemind::single::{less, ranks_behind};
use spacemind::request::{generate_request, output_schema, RequestField, RequestValue};

fn sample_analysis() -> (ScanResult, Vec<Finding>, DuplicateReport, RelationshipReport) {
    let path = FilePath::new("/tmp/large.bin");
    let scan = ScanResult {
        root: FilePath::new("/tmp"),
        started_at_epoch_seconds: 1,
        completed_at_epoch_seconds: 864_001,
        total_size_bytes: 20,
        total_allocated_size_bytes: Some(24),
        file_count: 1,
        directory_count: 1,
        items: vec![ScannedItem {
            path: path.clone(),
            kind: ItemKind::File,
            size_bytes: 20,
            allocated_size_bytes: Some(24),
            file_identity: None,
            hard_link_count: None,
            created_at_epoch_seconds: None,
            modified_at_epoch_seconds: Some(1),
            modified_at_epoch_nanoseconds: None,
            accessed_at_epoch_seconds: None,
            extension: Some("bin".to_owned()),
        }],
        ignored_paths: Vec::new(),
        warnings: Vec::new(),
    };
    let findings = vec![Finding {
        category: FindingCategory::LargeItem,
        path,
        potential_recovery_bytes: 20,
        confidence: Confidence { bits: 1.0_f32.to_bits() },
        risk: RiskLevel::High,
        evidence: vec!["Large file".to_owned()],
        suggested_action: SuggestedAction::ReviewForArchive,
    }];
    let duplicates = DuplicateReport {
        groups: Vec::new(),
        warnings: Vec::new(),
        files_hashed: 0,
        bytes_hashed: 0,
        logical_duplicate_bytes: 0,
        potential_recovery_allocated_bytes: Some(0),
    };
    let relationships = RelationshipReport {
        relationships: Vec::new(),
        items_analyzed: 1,
    };
    (scan, findings, duplicates, relationships)
}

fn answer(candidate_id: u64, reason: &str) -> ModelExplanation {
    ModelExplanation {
        candidate_id,
        category: AiCategory::Unknown,
        risk: RiskLevel::High,
        confidence: Confidence { bits: 0.5_f32.to_bits() },
        reason: reason.to_owned(),
        suggested_action: AiSuggestedAction::KeepOrReview,
    }
}

fn local_model() -> ModelSummary {
    ModelSummary {
        name: "qwen3:4b".to_owned(),
        model: "qwen3:4b".to_owned(),
        remote_model: None,
        remote_host: None,
    }
}

#[test]
fn shortlists_ambiguous_large_items_without_file_contents() {
    let (scan, findings, duplicates, relationships) = sample_analysis();
    let candidates = shortlist_candidates(&scan, &findings, &duplicates, &relationships, 8);

    assert_eq!(candidates.len(), 1);
    assert_eq!(candidates[0].candidate_id, 1);
    assert_eq!(candidates[0].modified_days_ago, Some(10));
    assert!(!format!("{candidates:?}").contains("contents"));
    assert!(!candidates[0].protected);
}

#[test]
fn rejects_remote_and_malformed_endpoints() {
    assert!(validate_local_endpoint("http://localhost:11434").is_ok());
    assert!(validate_local_endpoint("http://127.0.0.1").is_ok());
    assert!(validate_local_endpoint("http://[::1]:11434").is_ok());
    assert!(validate_local_endpoint("https://localhost:11434").is_err());
    assert!(validate_local_endpoint("http://example.com:11434").is_err());
    assert!(validate_local_endpoint("http://localhost:0").is_err());
}

#[test]
fn rejects_invalid_or_unmapped_model_output() {
    let (scan, findings, duplicates, relationships) = sample_analysis();
    let candidates = shortlist_candidates(&scan, &findings, &duplicates, &relationships, 8);
    let (explanations, warnings) =
        validate_output(true, Ok(vec![answer(99, "Unknown")]), &candidates);

    assert!(explanations.is_empty());
    assert_eq!(warnings.len(), 2);
}

#[test]
fn rejects_terminal_control_characters_in_model_reasons() {
    let (scan, findings, duplicates, relationships) = sample_analysis();
    let candidates = shortlist_candidates(&scan, &findings, &duplicates, &relationships, 8);

    let (explanations, warnings) =
        validate_output(true, Ok(vec![answer(1, "unsafe\u{001b}[2Jtext")]), &candidates);

    assert!(explanations.is_empty());
    assert_eq!(warnings.len(), 1);
}

#[test]
fn cancellation_stops_before_contacting_ollama() {
    let cancellation = CancellationToken::new();
    assert!(proceed_unless(cancellation.is_cancelled()).is_ok());
    cancellation.cancel();

    let error = proceed_unless(cancellation.is_cancelled()).unwrap_err();

    assert!(matches!(error, AiError::Cancelled));
    assert!(error.describe().contains("cancelled"));
}

fn field<'a>(request: &'a [RequestField], name: &str) -> Option<&'a RequestValue> {
    request.iter().find(|field| field.name == name).map(|field| &field.value)
}

#[test]
fn a_request_holds_the_question_the_schema_and_the_limits() {
    let request = generate_request("qwen3:4b", "[]");
    let names: Vec<&str> = request.iter().map(|field| field.name).collect();
    assert_eq!(
        names,
        ["model", "system", "prompt", "stream", "think", "format", "options", "keep_alive"]
    );
    assert_eq!(field(&request, "model"), Some(&RequestValue::Text("qwen3:4b".to_owned())));
    assert_eq!(
        field(&request, "system"),
        Some(&RequestValue::Text(system_prompt().to_owned()))
    );
    assert_eq!(
        field(&request, "prompt"),
        Some(&RequestValue::Text(prompt(output_schema(), "[]")))
    );
    assert_eq!(field(&request, "think"), Some(&RequestValue::Flag(false)));
    assert_eq!(
        field(&request, "options"),
        Some(&RequestValue::Limits { temperature: 0, num_predict: 1400 })
    );
    assert_eq!(field(&request, "keep_alive"), Some(&RequestValue::Text("5m".to_owned())));
    let schema: serde_json::Value = serde_json::from_str(output_schema()).unwrap();
    assert_eq!(schema.to_string(), output_schema());
    let item = &schema["properties"]["explanations"]["items"];
    assert_eq!(item["properties"]["reason"]["maxLength"], MAX_REASON_CHARACTERS);
    assert_eq!(item["required"].as_array().unwrap().len(), 6);
}

#[test]
fn calls_a_mocked_local_ollama_and_validates_structured_output() {
    let (scan, findings, duplicates, relationships) = sample_analysis();
    let options = OllamaOptions::default();
    let start = begin_analysis(&scan, &findings, &duplicates, &relationships, &options);
    let (endpoint, candidates) = match start {
        AnalysisStart::Ask { endpoint, candidates } => (endpoint, candidates),
        AnalysisStart::Settled(report) => panic!("{report:?}"),
    };
    assert!(check_models(Ok(vec![local_model()]), &endpoint, &options.model, 1).is_none());
    let request = generate_request(&options.model, &candidates[0].path.display());
    let reply = GenerateResponse {
        done: true,
        explanations: Ok(vec![answer(
            1,
            "This is large, but the supplied metadata does not show why it exists.",
        )]),
    };
    let report = conclude(&options.model, &candidates, Ok(reply));

    assert!(matches!(report.status, AiStatus::Complete { .. }));
    assert_eq!(report.explanations.len(), 1);
    assert_eq!(report.explanations[0].path, FilePath::new("/tmp/large.bin"));
    assert_eq!(field(&request, "stream"), Some(&RequestValue::Flag(false)));
    match field(&request, "format") {
        Some(RequestValue::Json(schema)) => {
            let schema: serde_json::Value = serde_json::from_str(schema).unwrap();
            assert!(schema.is_object());
        }
        other => panic!("{other:?}"),
    }
    match field(&request, "prompt") {
        Some(RequestValue::Text(prompt)) => assert!(prompt.contains("large.bin")),
        other => panic!("{other:?}"),
    }
    assert!(field(&request, "images").is_none());
}

#[test]
fn missing_local_model_becomes_a_non_fatal_fallback() {
    let report = check_models(
        Ok(vec![local_model()]),
        "http://127.0.0.1:11434",
        "missing:4b",
        1,
    )
    .unwrap();

    match &report.status {
        AiStatus::Unavailable { reason } => assert_eq!(
            reason,
            "model \"missing:4b\" is not installed; run `ollama pull missing:4b`"
        ),
        other => panic!("{other:?}"),
    }
    assert!(report.explanations.is_empty());
    assert_eq!(report.candidates_considered, 1);
}

#[test]
fn refuses_models_that_ollama_marks_as_remote() {
    let remote = ModelSummary {
        remote_model: Some("qwen3:4b".to_owned()),
        remote_host: Some("https://ollama.example.invalid".to_owned()),
        ..local_model()
    };
    let report =
        check_models(Ok(vec![remote]), "http://127.0.0.1:11434", "qwen3:4b", 1).unwrap();

    assert!(matches!(report.status, AiStatus::Unavailable { .. }));
    let unmarked = ModelSummary { remote_host: Some(String::new()), ..local_model() };
    assert!(check_models(Ok(vec![unmarked]), "e", "qwen3:4b", 1).is_none());
}

#[test]
fn accepted_endpoints_lose_their_trailing_slashes_and_name_this_machine() {
    assert_eq!(
        validate_local_endpoint("http://localhost:11434/").unwrap(),
        "http://localhost:11434"
    );
    assert_eq!(validate_local_endpoint("http://127.0.0.1").unwrap(), "http://127.0.0.1");
    for refused in [
        "http://localhost:99999",
        "http://localhost:11434/api",
        "http://user@localhost",
        "http://",
        "localhost",
        "http://[::2]:1",
        "http://localhost:12a",
    ] {
        assert!(validate_local_endpoint(refused).is_err(), "{refused}");
    }
}

#[test]
fn an_unreachable_service_is_reported_with_its_address() {
    let report =
        check_models(Err("connection refused".to_owned()), "http://localhost:1", "m", 3).unwrap();
    match report.status {
        AiStatus::Unavailable { reason } => {
            assert_eq!(
                reason,
                "Ollama is not available at http://localhost:1: connection refused"
            )
        }
        other => panic!("{other:?}"),
    }
    assert_eq!(report.candidates_considered, 3);
}

#[test]
fn nothing_ambiguous_asks_nothing() {
    let (scan, _, duplicates, relationships) = sample_analysis();
    let start =
        begin_analysis(&scan, &[], &duplicates, &relationships, &OllamaOptions::default());
    match start {
        AnalysisStart::Settled(report) => {
            assert!(matches!(report.status, AiStatus::NoCandidates));
            assert_eq!(report.candidates_considered, 0);
        }
        other => panic!("{other:?}"),
    }
}

#[test]
fn a_remote_endpoint_settles_the_analysis() {
    let (scan, findings, duplicates, relationships) = sample_analysis();
    let options = OllamaOptions {
        endpoint: "http://example.com:11434".to_owned(),
        ..OllamaOptions::default()
    };
    let start = begin_analysis(&scan, &findings, &duplicates, &relationships, &options);
    match start {
        AnalysisStart::Settled(report) => {
            assert!(matches!(report.status, AiStatus::Unavailable { .. }));
            assert_eq!(report.candidates_considered, 1);
        }
        other => panic!("{other:?}"),
    }
}

#[test]
fn answers_are_kept_or_refused_one_by_one() {
    let (scan, findings, duplicates, relationships) = sample_analysis();
    let candidates = shortlist_candidates(&scan, &findings, &duplicates, &relationships, 8);
    let twice = vec![answer(1, "  A plain reason. "), answer(1, "Again")];
    let (explanations, warnings) = validate_output(true, Ok(twice), &candidates);
    assert_eq!(explanations.len(), 1);
    assert_eq!(explanations[0].reason, "A plain reason.");
    assert_eq!(warnings.len(), 1);

    let blank = validate_output(true, Ok(vec![answer(1, "   ")]), &candidates);
    assert_eq!((blank.0.len(), blank.1.len()), (0, 1));
    let endless = "x".repeat(MAX_REASON_CHARACTERS + 1);
    let long = validate_output(true, Ok(vec![answer(1, &endless)]), &candidates);
    assert_eq!((long.0.len(), long.1.len()), (0, 1));
    for value in [1.5_f32, -0.1, f32::NAN, f32::INFINITY] {
        let confidence = Confidence { bits: value.to_bits() };
        let unsure = ModelExplanation { confidence, ..answer(1, "Reason") };
        let odd = validate_output(true, Ok(vec![unsure]), &candidates);
        assert_eq!((odd.0.len(), odd.1.len()), (0, 1), "{value}");
    }
    for value in [0.0_f32, -0.0, 1.0] {
        let confidence = Confidence { bits: value.to_bits() };
        let sure = ModelExplanation { confidence, ..answer(1, "Reason") };
        let plain = validate_output(true, Ok(vec![sure]), &candidates);
        assert_eq!((plain.0.len(), plain.1.len()), (1, 0), "{value}");
    }
    let unreadable = validate_output(true, Err("not JSON".to_owned()), &candidates);
    assert_eq!((unreadable.0.len(), unreadable.1.len()), (0, 1));
    let cut_off = validate_output(false, Ok(vec![answer(1, "Reason")]), &candidates);
    assert!(!cut_off.1.is_empty());
}

#[test]
fn a_failed_reply_leaves_no_explanations() {
    let (scan, findings, duplicates, relationships) = sample_analysis();
    let candidates = shortlist_candidates(&scan, &findings, &duplicates, &relationships, 8);
    let failed = conclude("m", &candidates, Err("timed out".to_owned()));
    match failed.status {
        AiStatus::Unavailable { reason } => {
            assert_eq!(reason, "Ollama could not explain the candidates: timed out")
        }
        other => panic!("{other:?}"),
    }
    let empty = GenerateResponse { done: true, explanations: Ok(Vec::new()) };
    let report = conclude("m", &candidates, Ok(empty));
    match report.status {
        AiStatus::Unavailable { reason } => {
            assert_eq!(reason, "the local model returned no valid explanations")
        }
        other => panic!("{other:?}"),
    }
    let mixed = GenerateResponse {
        done: true,
        explanations: Ok(vec![answer(1, "Fine"), answer(2, "Unknown")]),
    };
    let report = conclude("m", &candidates, Ok(mixed));
    assert!(matches!(report.status, AiStatus::Partial { .. }));
}

#[test]
fn a_shortlist_is_cut_and_numbered() {
    let (mut scan, _, duplicates, relationships) = sample_analysis();
    let mut findings = Vec::new();
    scan.items.clear();
    for index in 0..40_u64 {
        let path = FilePath::new(&format!("/tmp/{index:02}.bin"));
        scan.items.push(ScannedItem {
            path: path.clone(),
            kind: ItemKind::File,
            size_bytes: 100 + index,
            allocated_size_bytes: None,
            file_identity: None,
            hard_link_count: None,
            created_at_epoch_seconds: None,
            modified_at_epoch_seconds: None,
            modified_at_epoch_nanoseconds: None,
            accessed_at_epoch_seconds: None,
            extension: Some("bin".to_owned()),
        });
        findings.push(Finding {
            category: FindingCategory::LargeItem,
            path,
            potential_recovery_bytes: 100 + index,
            confidence: Confidence { bits: 1.0_f32.to_bits() },
            risk: RiskLevel::High,
            evidence: Vec::new(),
            suggested_action: SuggestedAction::ReviewForArchive,
        });
    }
    let five = shortlist_candidates(&scan, &findings, &duplicates, &relationships, 5);
    let ids: Vec<u64> = five.iter().map(|candidate| candidate.candidate_id).collect();
    assert_eq!(ids, vec![1, 2, 3, 4, 5]);
    assert_eq!(five[0].size_bytes, 139);
    assert!(shortlist_candidates(&scan, &findings, &duplicates, &relationships, 0).is_empty());
    let options = OllamaOptions { maximum_candidates: 1000, ..OllamaOptions::default() };
    match begin_analysis(&scan, &findings, &duplicates, &relationships, &options) {
        AnalysisStart::Ask { candidates, .. } => {
            assert_eq!(candidates.len(), MAX_CANDIDATES_PER_REQUEST)
        }
        other => panic!("{other:?}"),
    }
}

#[test]
fn the_model_is_told_never_to_authorize_deletion() {
    assert!(system_prompt().contains("Never claim a file is safe to delete"));
    assert!(prompt("", "").contains("Do not authorize deletion"));
    let event = make_explaining_event(2, 5);
    assert_eq!(event.phase, AnalysisPhase::ExplainingCandidates);
    assert_eq!((event.items_processed, event.total_items), (2, Some(5)));
}

#[test]
fn replies_are_bounded() {
    assert!(check_reply_size(MAX_HTTP_RESPONSE_BYTES).is_ok());
    assert_eq!(
        check_reply_size(MAX_HTTP_RESPONSE_BYTES + 1).unwrap_err(),
        "Ollama response exceeded the 1 MiB safety limit"
    );
    assert_eq!(describe_status(503), "HTTP status 503");
}

#[test]
fn confidence_keeps_its_last_digit() {
    let percent = |value: f32| Confidence { bits: value.to_bits() }.percent();
    assert_eq!(percent(0.125), "12");
    assert_eq!(percent(0.1250001), "13");
    assert_eq!(percent(0.375), "38");
    assert_eq!(percent(0.0), "0");
    assert_eq!(percent(1.0), "100");
    assert_eq!(percent(f32::MIN_POSITIVE), "0");
    assert_eq!(percent(1.5), "150");
    assert_eq!(percent(-0.25), "-25");
    assert_eq!(percent(f32::NAN), "NaN");
    assert_eq!(percent(f32::MAX), "inf");
    for step in 0..=1000_u32 {
        let value = step as f32 / 1000.0;
        let confidence = Confidence { bits: value.to_bits() };
        assert_eq!(confidence.percent(), format!("{:.0}", value * 100.0));
        assert_eq!(confidence.rounded_percent(), (value * 100.0).round() as u8);
    }
    for step in 0..=4096_u32 {
        let bits = step << 20;
        for bits in [bits, bits + 0x1_2345, bits + 0x7_FFFF] {
            let value = f32::from_bits(bits);
            let confidence = Confidence { bits };
            assert_eq!(confidence.percent(), format!("{:.0}", value * 100.0), "{bits:#x}");
            let share = (value.clamp(0.0, 1.0) * 100.0).round() as u8;
            assert_eq!(confidence.rounded_percent(), share, "{bits:#x}");
            let inside = value.is_finite() && (0.0..=1.0).contains(&value);
            assert_eq!(confidence.is_between_none_and_full(), inside, "{bits:#x}");
        }
    }
}

#[test]
fn bits_are_compared_as_their_numbers_are() {
    let values = [
        0.0_f32, -0.0, 0.5, -0.5, 1.0, 1.5, -1.5, f32::MIN_POSITIVE, f32::MAX, f32::MIN,
        f32::INFINITY, f32::NEG_INFINITY, f32::NAN, -f32::NAN,
    ];
    for left in values {
        for right in values {
            let (a, b) = (left.to_bits(), right.to_bits());
            assert_eq!(less(a, b), left < right, "{left} {right}");
            assert_eq!(ranks_behind(a, b), left.total_cmp(&right).is_gt(), "{left} {right}");
        }
    }
}

#[test]
fn a_confidence_that_is_no_number_does_not_count() {
    let (scan, mut findings, duplicates, relationships) = sample_analysis();
    findings[0].category = FindingCategory::OldArchive;
    findings[0].confidence = Confidence { bits: f32::NAN.to_bits() };
    assert!(shortlist_candidates(&scan, &findings, &duplicates, &relationships, 8).is_empty());
    findings[0].confidence = Confidence { bits: (-0.5_f32).to_bits() };
    let candidates = shortlist_candidates(&scan, &findings, &duplicates, &relationships, 8);
    assert_eq!(candidates[0].deterministic_confidence_percent, 0);
    findings[0].category = FindingCategory::LargeItem;
    findings[0].confidence = Confidence { bits: 1.5_f32.to_bits() };
    let candidates = shortlist_candidates(&scan, &findings, &duplicates, &relationships, 8);
    assert_eq!(candidates[0].deterministic_confidence_percent, 100);
}

#[test]
fn a_finding_just_below_the_threshold_is_shortlisted() {
    let (scan, mut findings, duplicates, relationships) = sample_analysis();
    findings[0].category = FindingCategory::OldArchive;
    findings[0].confidence = Confidence { bits: 0.95_f32.to_bits() };
    assert!(shortlist_candidates(&scan, &findings, &duplicates, &relationships, 8).is_empty());
    findings[0].confidence = Confidence { bits: 0.95_f32.to_bits() - 1 };
    assert_eq!(shortlist_candidates(&scan, &findings, &duplicates, &relationships, 8).len(), 1);
}
