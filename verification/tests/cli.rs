use spacemind::canvas::{TerminalLayout, Theme, MAX_CANVAS_WIDTH};
use spacemind::history::{browse_step, history_browser_lines, print_history, BrowseStep};
use spacemind::menu::{
    directory_choices, directory_selector_lines, main_menu_lines, menu_step, DirectoryChoice,
    InteractiveAction, Key, MenuStep, Selector, SelectorStep,
};
use spacemind::meter::{progress_bar, progress_message, ProgressLine};
use spacemind::model::{
    AiCategory, AiExplanation, AiSuggestedAction, Confidence, DuplicateEntry, DuplicateGroup,
    FileIdentity, Finding, FindingCategory, Relationship, RelationshipKind, RiskLevel,
    SuggestedAction,
};
use spacemind::path::FilePath;
use spacemind::progress::{AnalysisPhase, ProgressEvent};
use spacemind::report::warning_display_counts;
use spacemind::review::{all_sections, review_lines, ReviewCursor, ReviewSection, ReviewStep};
use spacemind::size::{format_age, format_bytes, format_count, humanize_evidence, parse_size};
use spacemind::storage::{ScanHistoryEntry, StoredAnalysis, StoredWarning};
use spacemind::width::{
    display_width, pad_right, split_by_display_width, truncate_end, truncate_start, wrap_text,
};

fn sample_stored_analysis() -> StoredAnalysis {
    let root = FilePath::new("/home/example/Downloads");
    let path = root.child("large-archive.zip");
    StoredAnalysis {
        summary: ScanHistoryEntry {
            id: 7,
            root,
            started_at_epoch_seconds: 100,
            completed_at_epoch_seconds: 200,
            total_size_bytes: 4 * 1024 * 1024 * 1024,
            total_allocated_size_bytes: Some(4 * 1024 * 1024 * 1024),
            file_count: 12,
            directory_count: 4,
            recommendation_count: 1,
            duplicate_group_count: 0,
            relationship_count: 0,
            warning_count: 0,
            duplicate_recovery_bytes: Some(0),
            recovered_space_bytes: 0,
            ai_status: "complete".to_owned(),
            ai_model: Some("qwen3:4b".to_owned()),
            ai_candidate_count: 1,
            ai_explanation_count: 1,
        },
        findings: vec![Finding {
            category: FindingCategory::OldArchive,
            path: path.clone(),
            potential_recovery_bytes: 2 * 1024 * 1024 * 1024,
            confidence: Confidence { bits: 0.92_f32.to_bits() },
            risk: RiskLevel::Low,
            evidence: vec!["Archive has not changed in 220 days".to_owned()],
            suggested_action: SuggestedAction::ReviewForDeletion,
        }],
        duplicate_groups: Vec::new(),
        relationships: Vec::new(),
        ai_explanations: vec![AiExplanation {
            path,
            category: AiCategory::ArchiveWithExtractedCopy,
            risk: RiskLevel::Low,
            confidence: Confidence { bits: 0.88_f32.to_bits() },
            reason: "This looks replaceable, but verify the extracted folder first.".to_owned(),
            suggested_action: AiSuggestedAction::ReviewForDeletion,
        }],
        warnings: Vec::new(),
    }
}

#[test]
fn parses_decimal_and_binary_sizes() {
    assert_eq!(parse_size("100MB").unwrap(), 100_000_000);
    assert_eq!(parse_size("2GiB").unwrap(), 2 * 1024 * 1024 * 1024);
    assert_eq!(parse_size("512").unwrap(), 512);
}

#[test]
fn rejects_unknown_size_suffixes() {
    assert!(parse_size("12 elephants").is_err());
}

#[test]
fn formats_progress_with_known_totals() {
    let event = ProgressEvent {
        phase: AnalysisPhase::HashingDuplicates,
        items_processed: 2,
        bytes_processed: 1024,
        total_items: Some(4),
        total_bytes: Some(4096),
        current_path: Some(FilePath::new("folder/example.bin")),
    };

    assert_eq!(
        progress_message(&event),
        "◐ Checking duplicates  [━━━━━━──────]  50%  2/4 • 1.0 KiB • folder/example.bin"
    );
}

#[test]
fn formats_counts_with_thousands_separators() {
    assert_eq!(format_count(12), "12");
    assert_eq!(format_count(1_234_567), "1,234,567");
}

#[test]
fn colors_are_optional_and_reset_after_styled_text() {
    assert_eq!(Theme::plain().accent("SpaceMind"), "SpaceMind");

    let colored = Theme {
        colors: true,
        terminal: true,
    }
    .brand("SpaceMind");
    assert!(colored.starts_with("\x1b["));
    assert!(colored.ends_with("\x1b[0m"));
}

#[test]
fn centers_the_canvas_in_wide_terminals() {
    let layout = TerminalLayout::for_size(120, 36);

    assert_eq!(layout.width, MAX_CANVAS_WIDTH);
    assert_eq!(layout.margin, 17);
    assert_eq!(layout.prefix(), " ".repeat(17));
}

#[test]
fn keeps_the_canvas_inside_narrow_terminals() {
    let layout = TerminalLayout::for_size(50, 24);

    assert_eq!(layout.width, 48);
    assert_eq!(layout.margin, 1);
}

#[test]
fn keeps_header_and_selector_lines_inside_a_small_canvas() {
    let layout = TerminalLayout::for_size(32, 24);
    let choices = vec![DirectoryChoice {
        label: "Current folder",
        path: FilePath::new("/a/very/long/path/to/a/folder"),
    }];
    let lines = directory_selector_lines(
        &choices,
        0,
        Some("/another/very/long/custom/path"),
        Some("That folder does not exist. Check the path and try again."),
        Theme::plain(),
        layout,
    )
    .lines;

    assert!(lines.iter().all(|line| display_width(line) <= layout.width));
    assert!(lines[1].contains("[scan]"));
}

#[test]
fn home_menu_is_navigable_without_colors_and_fits_a_small_canvas() {
    let layout = TerminalLayout::for_size(32, 24);
    let lines = main_menu_lines(1, Theme::plain(), layout).lines;

    assert!(lines.iter().all(|line| display_width(line) <= layout.width));
    assert!(lines.iter().any(|line| line.contains("›  02")));
    assert!(lines.iter().any(|line| line.contains("Scan history")));
}

#[test]
fn history_browser_makes_saved_scans_selectable() {
    let analysis = sample_stored_analysis();
    let layout = TerminalLayout::for_size(48, 24);
    let lines = history_browser_lines(
        &[analysis.summary],
        0,
        &FilePath::new("/tmp/spacemind.db"),
        500,
        Theme::plain(),
        layout,
    )
    .lines;

    assert!(lines.iter().all(|line| display_width(line) <= layout.width));
    assert!(lines.iter().any(|line| line.contains("enter open scan")));
    assert!(lines.iter().any(|line| line.contains("› #7")));
    assert!(lines.iter().any(|line| line.contains("completed 5 minutes ago")));
}

#[test]
fn review_screen_prioritizes_a_clear_recommendation_detail() {
    let analysis = sample_stored_analysis();
    let layout = TerminalLayout::for_size(86, 30);
    let lines = review_lines(
        &analysis,
        ReviewSection::Recommendations,
        0,
        Theme::plain(),
        layout,
    )
    .lines;
    let output = lines.join("\n");

    assert!(output.contains("WHY REVIEW THIS"));
    assert!(output.contains("potential space"));
    assert!(output.contains("LOCAL AI"));
    assert!(output.contains("never deletion permission"));
}

#[test]
fn every_review_section_fits_a_narrow_terminal() {
    let analysis = sample_stored_analysis();
    let layout = TerminalLayout::for_size(32, 24);

    for section in all_sections() {
        let lines = review_lines(&analysis, section, 0, Theme::plain(), layout).lines;
        assert!(
            lines.iter().all(|line| display_width(line) <= layout.width),
            "{section:?} contained an overflowing line: {lines:?}"
        );
    }
}

#[test]
fn selector_lists_the_current_directory_first() {
    let choices = directory_choices(FilePath::new("/tmp"), None, &[]);

    assert_eq!(choices.len(), 1);
    assert_eq!(choices[0].label, "Current folder");
    assert_eq!(choices[0].path, FilePath::new("/tmp"));
}

#[test]
fn selector_renders_navigation_help_and_custom_path() {
    let choices = vec![DirectoryChoice {
        label: "Current folder",
        path: FilePath::new("/example"),
    }];
    let layout = TerminalLayout::detect(Theme::plain(), None, None);

    let output = directory_selector_lines(&choices, 0, None, None, Theme::plain(), layout)
        .lines
        .join("\n");

    assert!(output.contains("Choose a folder to scan"));
    assert!(output.contains("Custom path"));
    assert!(output.contains("j/k"));
    assert!(output.contains("›  01"));
}

#[test]
fn truncates_paths_using_terminal_column_width() {
    assert_eq!(truncate_start("/one/two/three", 10), "…two/three");
    assert_eq!(truncate_start("short", 10), "short");
    assert_eq!(display_width("文件"), 4);
    assert_eq!(truncate_start("/文件", 4), "…件");
    assert_eq!(truncate_end("文件/report", 4), "文…");
}

#[test]
fn reports_every_hidden_warning() {
    assert_eq!(warning_display_counts(11, 0), (10, 0, 1));
    assert_eq!(warning_display_counts(15, 2), (10, 2, 5));
    assert_eq!(warning_display_counts(15, 12), (10, 10, 7));
}

#[test]
fn wraps_report_text_without_exceeding_the_field_width() {
    assert_eq!(
        wrap_text("This explanation is easy to scan", 12),
        vec!["This", "explanation", "is easy to", "scan"]
    );
    assert_eq!(
        wrap_text("downloads/very-long-folder-name", 10),
        vec!["downloads/", "very-long-", "folder-nam", "e"]
    );
}

#[test]
fn makes_rule_evidence_readable() {
    assert_eq!(
        humanize_evidence("Item is at least 1073741824 bytes, the configured large-item threshold"),
        "Larger than the configured 1.0 GiB threshold"
    );
    assert_eq!(
        humanize_evidence("Directory occupies 1822195905 bytes"),
        "Folder contains 1.7 GiB of data"
    );
}

#[test]
fn leaves_other_evidence_as_it_is() {
    assert_eq!(humanize_evidence("Recognized as an archive"), "Recognized as an archive");
    assert_eq!(
        humanize_evidence("Directory occupies many bytes"),
        "Directory occupies many bytes"
    );
    assert_eq!(
        humanize_evidence("Directory occupies 18446744073709551616 bytes"),
        "Directory occupies 18446744073709551616 bytes"
    );
    assert_eq!(humanize_evidence("Directory occupies  bytes"), "Directory occupies  bytes");
}

fn double_size(input: &str, unit: f64) -> u64 {
    (input.parse::<f64>().unwrap() * unit) as u64
}

#[test]
fn sizes_are_worked_out_in_doubles() {
    for number in ["1.001", "0.1", "2.675", "1.1", "4.35", "0.07", "123456.789", "9.999999999999999"] {
        for (suffix, unit) in [
            ("kb", 1e3),
            ("mb", 1e6),
            ("gb", 1e9),
            ("tb", 1e12),
            ("kib", 1024.0),
            ("mib", 1024.0 * 1024.0),
            ("gib", 1024.0 * 1024.0 * 1024.0),
            ("tib", 1024.0 * 1024.0 * 1024.0 * 1024.0),
            ("", 1.0),
            ("b", 1.0),
        ] {
            assert_eq!(
                parse_size(&format!("{number}{suffix}")).unwrap(),
                double_size(number, unit),
                "{number}{suffix}"
            );
        }
    }
}

#[test]
fn long_and_odd_numbers_are_read_as_doubles() {
    for number in [
        "9007199254740993",
        "9007199254740992.5",
        "18014398509481985",
        "0.30000000000000004",
        "123456789012345678901234567890e",
        "1844674407370955161",
        "5.",
        ".5",
        "0.0000000000000000000000000001",
        "000123.4500",
    ] {
        let digits = number.trim_end_matches('e');
        if number.ends_with('e') {
            assert_eq!(
                parse_size(digits).unwrap_err(),
                format!("size is too large: {digits}")
            );
        } else {
            assert_eq!(parse_size(digits).unwrap(), double_size(digits, 1.0), "{digits}");
        }
    }
    assert_eq!(parse_size("5.kb").unwrap(), 5000);
    assert_eq!(parse_size(".5kib").unwrap(), 512);
    assert_eq!(parse_size(" 1 GiB ").unwrap(), 1 << 30);
}

#[test]
fn sizes_that_are_no_sizes_are_refused() {
    assert_eq!(parse_size("").unwrap_err(), "invalid size: ");
    assert_eq!(parse_size("MB").unwrap_err(), "invalid size: MB");
    assert_eq!(parse_size(".").unwrap_err(), "invalid size: .");
    assert_eq!(parse_size("1.2.3MB").unwrap_err(), "invalid size: 1.2.3MB");
    assert_eq!(parse_size("-1").unwrap_err(), "invalid size: -1");
    assert_eq!(
        parse_size("12 elephants").unwrap_err(),
        "unknown size suffix in: 12 elephants"
    );
    assert_eq!(parse_size("99999999TiB").unwrap_err(), "size is too large: 99999999TiB");
    let endless = "9".repeat(400);
    assert_eq!(parse_size(&endless).unwrap_err(), format!("invalid size: {endless}"));
    assert_eq!(parse_size("18446744073709551616").unwrap(), u64::MAX);
    assert_eq!(parse_size("16777216TiB").unwrap(), u64::MAX);
}

#[test]
fn sizes_are_written_as_doubles_are() {
    fn written(bytes: u64) -> String {
        let units = ["B", "KiB", "MiB", "GiB", "TiB"];
        let mut value = bytes as f64;
        let mut unit = 0;
        while value >= 1024.0 && unit < units.len() - 1 {
            value /= 1024.0;
            unit += 1;
        }
        if unit == 0 {
            format!("{bytes} B")
        } else {
            format!("{value:.1} {}", units[unit])
        }
    }
    let mut sizes = vec![
        0,
        1,
        1023,
        1024,
        1075,
        1076,
        1126,
        1280,
        1331,
        1_048_575,
        1_048_576,
        1_073_741_823,
        u64::MAX,
        u64::MAX - 1024,
        (1 << 53) + 1,
        (1 << 53) + 3,
        1 << 40,
        (1 << 40) - 1,
    ];
    for shift in 0..64 {
        sizes.push(1u64 << shift);
        sizes.push((1u64 << shift) | (1u64 << shift) >> 2);
        sizes.push((1u64 << shift) | (1u64 << shift) >> 3);
    }
    for step in 0..2000u64 {
        sizes.push(step * 51 + 1000);
        sizes.push(step.wrapping_mul(0x9E37_79B9_7F4A_7C15));
    }
    for bytes in sizes {
        assert_eq!(format_bytes(bytes), written(bytes), "{bytes}");
    }
    assert_eq!(format_bytes(1_280), "1.2 KiB");
    assert_eq!(format_bytes(u64::MAX), "16777216.0 TiB");
}

#[test]
fn counts_keep_their_digits() {
    assert_eq!(format_count(0), "0");
    assert_eq!(format_count(999), "999");
    assert_eq!(format_count(1_000), "1,000");
    assert_eq!(format_count(1_000_007), "1,000,007");
    assert_eq!(format_count(u64::MAX), "18,446,744,073,709,551,615");
}

#[test]
fn ages_are_told_in_whole_units() {
    assert_eq!(format_age(100, 90), "just now");
    assert_eq!(format_age(100, 159), "just now");
    assert_eq!(format_age(100, 160), "1 minutes ago");
    assert_eq!(format_age(100, 3_699), "59 minutes ago");
    assert_eq!(format_age(100, 3_700), "1 hours ago");
    assert_eq!(format_age(0, 86_400), "1 days ago");
}

#[test]
fn wide_texts_are_cut_and_filled_by_columns() {
    assert_eq!(truncate_end("report", 6), "report");
    assert_eq!(truncate_end("report", 5), "repo…");
    assert_eq!(truncate_end("report", 1), "…");
    assert_eq!(truncate_end("report", 0), "");
    assert_eq!(truncate_start("report", 0), "");
    assert_eq!(truncate_start("report", 4), "…ort");
    assert_eq!(pad_right("ab", 4), "ab  ");
    assert_eq!(pad_right("文件夹", 4), "文… ");
    assert_eq!(split_by_display_width("文件", 1), vec!["文", "件"]);
    assert_eq!(wrap_text("", 5), vec![""]);
    assert_eq!(wrap_text("   ", 5), Vec::<String>::new());
    assert_eq!(wrap_text("a b", 0), vec!["a", "b"]);
    assert_eq!(wrap_text("one  two\nthree", 8), vec!["one two", "three"]);
}

#[test]
fn a_theme_follows_the_terminal() {
    let full = Theme::for_terminal(true, Some("xterm"), false);
    assert!(full.terminal && full.colors);
    let plain = Theme::for_terminal(true, None, true);
    assert!(plain.terminal && !plain.colors);
    let dumb = Theme::for_terminal(true, Some("dumb"), false);
    assert!(!dumb.terminal && !dumb.colors);
    assert!(!Theme::for_terminal(false, Some("xterm"), false).terminal);
    assert_eq!(full.muted("x"), "\x1b[38;2;132;137;145mx\x1b[0m");
}

#[test]
fn a_layout_is_detected_from_what_is_known() {
    let theme = Theme { colors: false, terminal: true };
    assert_eq!(
        TerminalLayout::detect(theme, Some((100, 40)), Some("50")),
        TerminalLayout::for_size(100, 40)
    );
    assert_eq!(
        TerminalLayout::detect(theme, None, Some("50")),
        TerminalLayout::for_size(50, 24)
    );
    assert_eq!(
        TerminalLayout::detect(theme, None, Some("wide")),
        TerminalLayout::for_size(76, 24)
    );
    assert_eq!(
        TerminalLayout::detect(Theme::plain(), Some((100, 40)), None),
        TerminalLayout::for_size(76, 24)
    );
    assert_eq!(TerminalLayout::for_size(0, 0).width, 1);
    assert_eq!(TerminalLayout::for_size(20, 10).width, 20);
    assert_eq!(TerminalLayout::for_size(80, 30).selector_top_padding(12), 6);
}

#[test]
fn the_home_menu_wraps_around() {
    assert_eq!(menu_step(0, Key::Up), MenuStep::Stay(2));
    assert_eq!(menu_step(2, Key::Down), MenuStep::Stay(0));
    assert_eq!(menu_step(1, Key::Character('k')), MenuStep::Stay(0));
    assert_eq!(menu_step(1, Key::Character('j')), MenuStep::Stay(2));
    assert_eq!(menu_step(1, Key::Enter), MenuStep::Choose(InteractiveAction::History));
    assert_eq!(menu_step(0, Key::Enter), MenuStep::Choose(InteractiveAction::Scan));
    assert_eq!(menu_step(2, Key::Enter), MenuStep::Choose(InteractiveAction::Quit));
    assert_eq!(menu_step(0, Key::Character('2')), MenuStep::Choose(InteractiveAction::History));
    assert_eq!(menu_step(0, Key::Escape), MenuStep::Choose(InteractiveAction::Quit));
    assert_eq!(menu_step(0, Key::ControlC), MenuStep::Close);
    assert_eq!(menu_step(1, Key::Tab), MenuStep::Stay(1));
}

#[test]
fn the_selector_takes_keys_and_paths() {
    let home = FilePath::new("/home/me");
    let choices = directory_choices(
        FilePath::new("/home/me"),
        Some(home.clone()),
        &[true, true, false, true],
    );
    let labels: Vec<&str> = choices.iter().map(|choice| choice.label).collect();
    assert_eq!(labels, vec!["Current folder", "Downloads", "Desktop"]);

    let mut selector = Selector::new();
    assert!(matches!(selector.step(&choices, Some(&home), Key::Up), SelectorStep::Stay));
    assert_eq!(selector.selected, 3);
    assert!(matches!(selector.step(&choices, Some(&home), Key::Down), SelectorStep::Stay));
    assert_eq!(selector.selected, 0);
    assert!(matches!(selector.step(&choices, Some(&home), Key::Character('2')), SelectorStep::Stay));
    assert_eq!(selector.selected, 1);
    assert!(matches!(selector.step(&choices, Some(&home), Key::Character('9')), SelectorStep::Stay));
    assert_eq!(selector.selected, 1);
    match selector.step(&choices, Some(&home), Key::Enter) {
        SelectorStep::Chosen(path) => assert_eq!(path, FilePath::new("/home/me/Downloads")),
        other => panic!("{other:?}"),
    }
    assert!(matches!(selector.step(&choices, Some(&home), Key::Character('c')), SelectorStep::Stay));
    for character in " ~/workx ".chars() {
        selector.step(&choices, Some(&home), Key::Character(character));
    }
    selector.step(&choices, Some(&home), Key::Backspace);
    selector.step(&choices, Some(&home), Key::Backspace);
    assert_eq!(selector.input.as_deref(), Some(" ~/work"));
    match selector.step(&choices, Some(&home), Key::Enter) {
        SelectorStep::Typed(path) => assert_eq!(path, FilePath::new("/home/me/work")),
        other => panic!("{other:?}"),
    }
    selector.refuse();
    assert_eq!(
        selector.message.as_deref(),
        Some("That folder does not exist. Check the path and try again.")
    );
    selector.step(&choices, Some(&home), Key::Escape);
    assert!(selector.input.is_none() && selector.message.is_none());
    assert!(matches!(
        selector.step(&choices, Some(&home), Key::Character('q')),
        SelectorStep::Cancelled
    ));
    assert!(matches!(
        selector.step(&choices, Some(&home), Key::ControlC),
        SelectorStep::Cancelled
    ));
}

#[test]
fn history_is_walked_through_by_keys() {
    let entries = [sample_stored_analysis().summary, sample_stored_analysis().summary];
    assert_eq!(browse_step(&entries, 0, Key::Up), BrowseStep::Stay(1));
    assert_eq!(browse_step(&entries, 1, Key::Down), BrowseStep::Stay(0));
    assert_eq!(browse_step(&entries, 0, Key::End), BrowseStep::Stay(1));
    assert_eq!(browse_step(&entries, 1, Key::Home), BrowseStep::Stay(0));
    assert_eq!(browse_step(&entries, 1, Key::Enter), BrowseStep::Open(7));
    assert_eq!(browse_step(&entries, 1, Key::Escape), BrowseStep::Back);
    assert_eq!(browse_step(&entries, 1, Key::ControlC), BrowseStep::Close);
    assert_eq!(browse_step(&[], 0, Key::Enter), BrowseStep::Stay(0));
    assert_eq!(browse_step(&[], 0, Key::Character('q')), BrowseStep::Back);
}

#[test]
fn history_is_printed_with_every_scan() {
    let output = print_history(
        &[sample_stored_analysis().summary],
        &FilePath::new("/tmp/spacemind.db"),
        200,
        Theme::plain(),
        76,
    )
    .lines
    .join("\n");
    assert!(output.contains("01  SCAN HISTORY"));
    assert!(output.contains("   #7      /home/example/Downloads"));
    assert!(output.contains("      local AI      qwen3:4b • 1 explanations"));
    assert!(output.contains("      completed     just now"));
    assert!(output.contains("      recoverable   0 B"));
    let empty = print_history(&[], &FilePath::new("/tmp/spacemind.db"), 0, Theme::plain(), 76)
        .lines
        .join("\n");
    assert!(empty.contains("No scan history yet. Run spacemind to create the first entry."));
}

fn rich_analysis() -> StoredAnalysis {
    let mut analysis = sample_stored_analysis();
    let root = FilePath::new("/home/example/Downloads");
    analysis.summary.warning_count = 2;
    analysis.duplicate_groups = vec![DuplicateGroup {
        blake3_hash: "0123456789abcdef".to_owned(),
        size_bytes_per_file: 2048,
        entries: vec![
            DuplicateEntry {
                path: root.child("a.bin"),
                file_identity: Some(FileIdentity { volume_id: 1, file_id: 2 }),
                allocated_size_bytes: Some(4096),
                hard_link_count: Some(1),
                protected: true,
            },
            DuplicateEntry {
                path: root.child("b.bin"),
                file_identity: None,
                allocated_size_bytes: None,
                hard_link_count: None,
                protected: false,
            },
        ],
        unique_file_count: 2,
        protected_file_count: 1,
        logical_duplicate_bytes: 2048,
        potential_recovery_allocated_bytes: None,
    }];
    analysis.relationships = vec![Relationship {
        kind: RelationshipKind::ExactDuplicate,
        source_path: root.child("a.bin"),
        target_path: root.child("b.bin"),
        confidence: Confidence { bits: 1.0_f32.to_bits() },
        evidence: vec!["Same BLAKE3 fingerprint".to_owned()],
    }];
    analysis.warnings = vec![
        StoredWarning {
            source: "scan".to_owned(),
            path: None,
            kind: None,
            message: "cannot be read".to_owned(),
        },
        StoredWarning {
            source: "duplicate".to_owned(),
            path: Some(root.child("c.bin")),
            kind: Some("changed_during_detection".to_owned()),
            message: "file changed".to_owned(),
        },
    ];
    analysis
}

#[test]
fn a_review_shows_every_kind_of_result() {
    let analysis = rich_analysis();
    let layout = TerminalLayout::for_size(86, 30);
    let shown = |section, selected| {
        review_lines(&analysis, section, selected, Theme::plain(), layout).lines.join("\n")
    };
    let duplicates = shown(ReviewSection::Duplicates, 0);
    assert!(duplicates.contains(" ›   unknown recoverable    2 copies  0123456789ab… "));
    assert!(duplicates.contains("    • a.bin [protected]"));
    let related = shown(ReviewSection::Relationships, 0);
    assert!(related.contains("Exact duplicate files"));
    assert!(related.contains("100%"));
    let warnings = shown(ReviewSection::Warnings, 1);
    assert!(warnings.contains("changed during detection"));
    assert!(warnings.contains(" › duplicate  c.bin "));
    assert!(shown(ReviewSection::Overview, 0).contains("12 files • 4 folders"));
}

#[test]
fn old_warnings_are_told_by_their_number() {
    let mut analysis = rich_analysis();
    analysis.warnings = Vec::new();
    let layout = TerminalLayout::for_size(86, 30);
    let output =
        review_lines(&analysis, ReviewSection::Warnings, 0, Theme::plain(), layout).lines.join("\n");
    assert!(output.contains("2 items were skipped or changed while scanning."));
    assert!(output.contains("Run the scan again to inspect current filesystem results."));
}

#[test]
fn a_review_is_walked_through_by_keys() {
    let analysis = rich_analysis();
    let cursor = ReviewCursor::new();
    let next = match cursor.step(&analysis, Key::Right) {
        ReviewStep::Stay(next) => next,
        other => panic!("{other:?}"),
    };
    assert_eq!(next.section, ReviewSection::Duplicates);
    let warned = match next.step(&analysis, Key::Character('5')) {
        ReviewStep::Stay(next) => next,
        other => panic!("{other:?}"),
    };
    assert_eq!(warned.section, ReviewSection::Warnings);
    let second = match warned.step(&analysis, Key::Up) {
        ReviewStep::Stay(next) => next,
        other => panic!("{other:?}"),
    };
    assert_eq!(second.selected(), 1);
    let around = match second.step(&analysis, Key::Tab) {
        ReviewStep::Stay(next) => next,
        other => panic!("{other:?}"),
    };
    assert_eq!(around.section, ReviewSection::Overview);
    assert_eq!(around.step(&analysis, Key::Down), ReviewStep::Stay(around));
    let back = match around.step(&analysis, Key::BackTab) {
        ReviewStep::Stay(next) => next,
        other => panic!("{other:?}"),
    };
    assert_eq!(back.selected(), 1);
    assert_eq!(back.step(&analysis, Key::Character('q')), ReviewStep::Back);
    assert_eq!(back.step(&analysis, Key::ControlC), ReviewStep::Close);
}

fn event(phase: AnalysisPhase, processed: u64, total: Option<u64>) -> ProgressEvent {
    ProgressEvent {
        phase,
        items_processed: processed,
        bytes_processed: 0,
        total_items: total,
        total_bytes: None,
        current_path: None,
    }
}

#[test]
fn progress_is_told_for_every_phase() {
    assert_eq!(
        progress_message(&event(AnalysisPhase::Scanning, 1_234, None)),
        "◐ Scanning files       1,234 items"
    );
    assert_eq!(
        progress_message(&event(AnalysisPhase::BuildingRecommendations, 0, Some(0))),
        "◐ Building advice      [────────────]   —  0/0"
    );
    let mut done = event(AnalysisPhase::Complete, 2_000, Some(2_000));
    done.bytes_processed = 3 << 20;
    assert_eq!(
        progress_message(&done),
        "✓ Analysis complete    3.0 MiB across 2,000 items"
    );
    let mut deep = event(AnalysisPhase::Scanning, 1, None);
    deep.current_path = Some(FilePath::new("/a/b/../c/d.txt"));
    assert_eq!(progress_message(&deep), "◐ Scanning files       1 items • c/d.txt");
    assert_eq!(progress_bar(9, 4, 4), "[━━━━]");
    assert_eq!(progress_bar(1, 0, 2), "[──]");
    assert_eq!(progress_bar(u64::MAX, u64::MAX, 3), "[━━━]");
}

#[test]
fn a_progress_line_is_not_shown_too_often() {
    let mut line = ProgressLine::new(true, Theme::plain());
    let first = event(AnalysisPhase::Scanning, 1, None);
    assert_eq!(
        line.report(&first, false).as_deref(),
        Some("◐ Scanning files       1 items")
    );
    assert_eq!(line.report(&event(AnalysisPhase::Scanning, 2, None), false), None);
    assert!(line.report(&event(AnalysisPhase::Scanning, 2, None), true).is_some());
    assert_eq!(line.report(&event(AnalysisPhase::Scanning, 2, None), true), None);
    assert!(line.report(&event(AnalysisPhase::Scanning, 3, Some(3)), false).is_some());
    assert!(line.report(&event(AnalysisPhase::Complete, 3, Some(3)), false).is_some());
    assert!(line.finish());
    assert!(!line.finish());
    let mut silent = ProgressLine::new(false, Theme::plain());
    assert_eq!(silent.report(&first, true), None);
    assert!(!silent.finish());
}

#[test]
fn warnings_are_not_listed_where_the_scan_counted_none() {
    let mut analysis = sample_stored_analysis();
    analysis.summary.warning_count = 0;
    let layout = TerminalLayout::for_size(80, 30);
    let screen =
        review_lines(&analysis, ReviewSection::Warnings, 99, Theme::plain(), layout).lines.join("\n");
    assert!(screen.contains("The scan completed without skipped or changing files."), "{screen}");
}
