//! The report of an analysis.

use crate::canvas;
use crate::canvas::{Screen, Theme};
use crate::history;
use crate::labels;
use crate::labels::RecordTone;
use crate::menu;
use crate::model::{
    AiReport, AiReportView, AiStatusView, AiStatus, DuplicateEntry, DuplicateGroup,
    DuplicateReport, DuplicateWarningView, DuplicatesView, EntryView, ExplanationView, Finding,
    FindingView, GroupView, ItemKind, ItemView, Relationship, RelationshipReport,
    RelationshipView, RelationshipsView, ScanResult, ScanView, ScanWarningView, ScannedItem,
};
use crate::order;
use crate::order::Ranking;
use crate::path;
use crate::path::{FilePath, GivenView, PartView};
use crate::review;
use crate::sheet;
use crate::size;
use crate::storage;
use crate::text;
use crate::width;
use vstd::prelude::*;

verus! {

/// What the rules of an analysis came to.
#[derive(Debug)]
pub struct PolicySummary {
    pub ignored_rule_count: usize,
    pub automatic_ignore_rule_count: usize,
    pub protected_rule_count: usize,
    pub default_protections_enabled: bool,
    pub ignored_paths: Vec<FilePath>,
    pub protected_items: u64,
    pub protected_duplicate_copies: u64,
    pub suppressed_recommendations: u64,
}

#[verifier::ext_equal]
pub struct PolicySummaryView {
    pub ignored_rule_count: usize,
    pub automatic_ignore_rule_count: usize,
    pub protected_rule_count: usize,
    pub default_protections_enabled: bool,
    pub ignored_paths: Seq<GivenView>,
    pub protected_items: u64,
    pub protected_duplicate_copies: u64,
    pub suppressed_recommendations: u64,
}

impl View for PolicySummary {
    type V = PolicySummaryView;

    open spec fn view(&self) -> PolicySummaryView {
        PolicySummaryView {
            ignored_rule_count: self.ignored_rule_count,
            automatic_ignore_rule_count: self.automatic_ignore_rule_count,
            protected_rule_count: self.protected_rule_count,
            default_protections_enabled: self.default_protections_enabled,
            ignored_paths: path::givens(self.ignored_paths@),
            protected_items: self.protected_items,
            protected_duplicate_copies: self.protected_duplicate_copies,
            suppressed_recommendations: self.suppressed_recommendations,
        }
    }
}

/// How many warnings of each kind are shown, and how many are not.
pub open spec fn warning_counts(scan_warnings: nat, duplicate_warnings: nat) -> (nat, nat, nat) {
    let shown_scan = if scan_warnings < 10 {
        scan_warnings
    } else {
        10
    };
    let shown_duplicates = if duplicate_warnings < 10 {
        duplicate_warnings
    } else {
        10
    };
    (
        shown_scan,
        shown_duplicates,
        (scan_warnings - shown_scan + duplicate_warnings - shown_duplicates) as nat,
    )
}

/// The counts of `warning_counts`, the last of them at most the largest `usize`.
pub fn warning_display_counts(scan_warnings: usize, duplicate_warnings: usize) -> (result: (
    usize,
    usize,
    usize,
))
    ensures
        ({
            let counts = warning_counts(scan_warnings as nat, duplicate_warnings as nat);
            &&& result.0 == counts.0
            &&& result.1 == counts.1
            &&& result.2 == if counts.2 <= usize::MAX {
                counts.2
            } else {
                usize::MAX as nat
            }
        }),
{
    let shown_scan: usize = if scan_warnings < 10 {
        scan_warnings
    } else {
        10
    };
    let shown_duplicates: usize = if duplicate_warnings < 10 {
        duplicate_warnings
    } else {
        10
    };
    (
        shown_scan,
        shown_duplicates,
        (scan_warnings - shown_scan).saturating_add(duplicate_warnings - shown_duplicates),
    )
}

/// Every warning is either shown or counted among those that are not.
pub proof fn law_every_warning_is_accounted_for(scan_warnings: nat, duplicate_warnings: nat)
    ensures
        ({
            let counts = warning_counts(scan_warnings, duplicate_warnings);
            &&& counts.0 + counts.1 + counts.2 == scan_warnings + duplicate_warnings
            &&& counts.0 <= 10
            &&& counts.1 <= 10
        }),
{
}

/// What a scan begins with: its target, and what to expect of it.
pub open spec fn scan_start(spelling: Seq<u8>, theme: Theme, canvas: nat) -> Seq<Seq<char>> {
    history::with_header(Seq::empty(), theme, "SCAN"@, canvas).push(""@).push(
        "  "@ + theme.as_accent("storage, understood."@) + "  "@ + theme.as_muted(
            "A private look at what is using your disk."@,
        ),
    ).push(""@).push(
        "  "@ + theme.as_muted("target"@) + "  "@ + theme.as_text(path::spelled(spelling)),
    ).push(
        "  "@ + theme.as_muted("safety"@) + "  "@ + theme.as_green(
            "local / read only / nothing is deleted"@,
        ),
    ).push("  "@ + theme.as_muted("cancel"@) + "  "@ + theme.as_text("ctrl+c at any time"@)).push(
        ""@,
    )
}

fn pair(first: &str, second: &str) -> (result: String)
    ensures
        result@ == "  "@ + first@ + "  "@ + second@,
{
    text::cat4("  ", first, "  ", second)
}

pub fn print_scan_start(path: &FilePath, theme: Theme, canvas: usize) -> (result: Screen)
    ensures
        result@ == scan_start(path.spelling(), theme, canvas as nat),
{
    let mut screen = Screen::new();
    history::print_brand_header(&mut screen, theme, "SCAN", canvas);
    screen.gap();
    screen.add(
        pair(
            theme.accent("storage, understood.").as_str(),
            theme.muted("A private look at what is using your disk.").as_str(),
        ),
    );
    screen.gap();
    screen.add(
        pair(
            theme.muted("target").as_str(),
            theme.text(path.display().as_str()).as_str(),
        ),
    );
    screen.add(
        pair(
            theme.muted("safety").as_str(),
            theme.green("local / read only / nothing is deleted").as_str(),
        ),
    );
    screen.add(
        pair(theme.muted("cancel").as_str(), theme.text("ctrl+c at any time").as_str()),
    );
    screen.gap();
    screen
}

/// The sections of the report in a row, or in two where the canvas is narrow.
pub open spec fn report_index(lines: Seq<Seq<char>>, theme: Theme, canvas: nat) -> Seq<Seq<char>> {
    let first = "  "@ + theme.as_accent("01 overview"@) + "  "@ + theme.as_muted("02 safety"@)
        + "  "@ + theme.as_muted("03 review"@);
    if canvas >= 74 {
        lines.push(""@).push(
            first + "  "@ + theme.as_muted("04 related"@) + "  "@ + theme.as_muted(
                "05 duplicates"@,
            ) + "  "@ + theme.as_muted("06 largest"@),
        )
    } else {
        lines.push(""@).push(first).push(
            "  "@ + theme.as_muted("04 related"@) + "  "@ + theme.as_muted("05 duplicates"@)
                + "  "@ + theme.as_muted("06 largest"@),
        )
    }
}

fn print_report_index(screen: &mut Screen, theme: Theme, canvas: usize)
    ensures
        final(screen)@ == report_index(old(screen)@, theme, canvas as nat),
{
    let first = text::cat6(
        "  ",
        theme.accent("01 overview").as_str(),
        "  ",
        theme.muted("02 safety").as_str(),
        "  ",
        theme.muted("03 review").as_str(),
    );
    screen.gap();
    if canvas >= 74 {
        screen.add(
            text::cat7(
                first.as_str(),
                "  ",
                theme.muted("04 related").as_str(),
                "  ",
                theme.muted("05 duplicates").as_str(),
                "  ",
                theme.muted("06 largest").as_str(),
            ),
        );
    } else {
        screen.add(first);
        screen.add(
            text::cat6(
                "  ",
                theme.muted("04 related").as_str(),
                "  ",
                theme.muted("05 duplicates").as_str(),
                "  ",
                theme.muted("06 largest").as_str(),
            ),
        );
    }
}

/// The counts of what was found.
pub open spec fn overview_counts(
    lines: Seq<Seq<char>>,
    recommendations: nat,
    duplicates: nat,
    relationships: nat,
    theme: Theme,
    canvas: nat,
) -> Seq<Seq<char>> {
    let first = "  "@ + theme.as_muted("review"@) + "  "@ + theme.as_accent(
        size::count_text(recommendations),
    ) + "    "@ + theme.as_muted("duplicates"@) + "  "@ + theme.as_accent(
        size::count_text(duplicates),
    );
    let connections = theme.as_accent(size::count_text(relationships));
    if canvas >= 62 {
        lines.push(first + "    "@ + theme.as_muted("connections"@) + "  "@ + connections)
    } else {
        lines.push(first).push("  "@ + theme.as_muted("connections"@) + "  "@ + connections)
    }
}

fn print_overview_counts(
    screen: &mut Screen,
    recommendations: usize,
    duplicates: usize,
    relationships: usize,
    theme: Theme,
    canvas: usize,
)
    ensures
        final(screen)@ == overview_counts(
            old(screen)@,
            recommendations as nat,
            duplicates as nat,
            relationships as nat,
            theme,
            canvas as nat,
        ),
{
    let first = text::cat8(
        "  ",
        theme.muted("review").as_str(),
        "  ",
        theme.accent(size::format_count(recommendations as u64).as_str()).as_str(),
        "    ",
        theme.muted("duplicates").as_str(),
        "  ",
        theme.accent(size::format_count(duplicates as u64).as_str()).as_str(),
    );
    let connections = theme.accent(size::format_count(relationships as u64).as_str());
    if canvas >= 62 {
        screen.add(
            text::cat5(
                first.as_str(),
                "    ",
                theme.muted("connections").as_str(),
                "  ",
                connections.as_str(),
            ),
        );
    } else {
        screen.add(first);
        screen.add(pair(theme.muted("connections").as_str(), connections.as_str()));
    }
}

/// What is told of the model, and in which tone.
pub open spec fn status_told(ai: AiReportView) -> (Seq<char>, RecordTone) {
    match ai.status {
        AiStatusView::Disabled => ("disabled by user"@, RecordTone::Text),
        AiStatusView::NoCandidates => (
            "not needed • no ambiguous candidates"@,
            RecordTone::Positive,
        ),
        AiStatusView::Unavailable { reason } => (
            "unavailable • "@ + reason,
            RecordTone::Warning,
        ),
        AiStatusView::Complete { model } => (
            model + " • "@ + text::decimal(ai.explanations.len()) + " local explanations"@,
            RecordTone::Positive,
        ),
        AiStatusView::Partial { model } => (
            model + " • "@ + text::decimal(ai.explanations.len())
                + " explanations • some output rejected"@,
            RecordTone::Warning,
        ),
    }
}

fn tell_status(ai: &AiReport) -> (result: (String, RecordTone))
    ensures
        result.0@ == status_told(ai@).0,
        result.1 == status_told(ai@).1,
{
    match &ai.status {
        AiStatus::Disabled => ("disabled by user".to_owned(), RecordTone::Text),
        AiStatus::NoCandidates => (
            "not needed • no ambiguous candidates".to_owned(),
            RecordTone::Positive,
        ),
        AiStatus::Unavailable { reason } => (
            text::cat2("unavailable • ", reason.as_str()),
            RecordTone::Warning,
        ),
        AiStatus::Complete { model } => (
            text::cat4(
                model.as_str(),
                " • ",
                text::decimal_of(ai.explanations.len() as u64).as_str(),
                " local explanations",
            ),
            RecordTone::Positive,
        ),
        AiStatus::Partial { model } => (
            text::cat4(
                model.as_str(),
                " • ",
                text::decimal_of(ai.explanations.len() as u64).as_str(),
                " explanations • some output rejected",
            ),
            RecordTone::Warning,
        ),
    }
}

/// Whether everything could be read.
pub open spec fn quality_metric(
    lines: Seq<Seq<char>>,
    warnings: nat,
    theme: Theme,
    canvas: nat,
) -> Seq<Seq<char>> {
    if warnings == 0 {
        sheet::metric(
            lines,
            "scan quality"@,
            "complete • no unreadable items"@,
            RecordTone::Positive,
            theme,
            canvas,
        )
    } else {
        sheet::metric(
            lines,
            "scan quality"@,
            text::decimal(warnings) + " items skipped or changed"@,
            RecordTone::Warning,
            theme,
            canvas,
        )
    }
}

/// Where the analysis was saved.
pub open spec fn history_metric(
    lines: Seq<Seq<char>>,
    id: Option<i64>,
    theme: Theme,
    canvas: nat,
) -> Seq<Seq<char>> {
    match id {
        Some(known) => sheet::metric(
            lines,
            "history"@,
            "saved locally as scan #"@ + storage::signed_decimal(known),
            RecordTone::Positive,
            theme,
            canvas,
        ),
        None => sheet::metric(
            lines,
            "history"@,
            "disabled for this scan"@,
            RecordTone::Text,
            theme,
            canvas,
        ),
    }
}

/// The figures of the overview.
pub open spec fn overview_metrics(
    lines: Seq<Seq<char>>,
    scan: ScanView,
    ai: AiReportView,
    warnings: nat,
    history: Option<i64>,
    theme: Theme,
    canvas: nat,
) -> Seq<Seq<char>> {
    let located = sheet::metric(
        lines,
        "location"@,
        path::spelled(scan.root_spelling),
        RecordTone::Text,
        theme,
        canvas,
    );
    let measured = sheet::metric(
        located,
        "space analyzed"@,
        size::bytes_text(scan.total_size_bytes as nat) + " logical"@,
        RecordTone::Text,
        theme,
        canvas,
    );
    let allocated = match scan.total_allocated_size_bytes {
        Some(bytes) => sheet::metric(
            measured,
            "space on disk"@,
            size::bytes_text(bytes as nat) + " allocated"@,
            RecordTone::Text,
            theme,
            canvas,
        ),
        None => measured,
    };
    let contents = sheet::metric(
        allocated,
        "contents"@,
        size::count_text(scan.file_count as nat) + " files • "@ + size::count_text(
            scan.directory_count as nat,
        ) + " folders"@,
        RecordTone::Text,
        theme,
        canvas,
    );
    sheet::metric(
        history_metric(quality_metric(contents, warnings, theme, canvas), history, theme, canvas),
        "local AI"@,
        status_told(ai).0,
        status_told(ai).1,
        theme,
        canvas,
    )
}

fn print_overview_metrics(
    screen: &mut Screen,
    scan: &ScanResult,
    ai: &AiReport,
    warnings: u64,
    history: Option<i64>,
    theme: Theme,
    canvas: usize,
)
    ensures
        final(screen)@ == overview_metrics(
            old(screen)@,
            scan@,
            ai@,
            warnings as nat,
            history,
            theme,
            canvas as nat,
        ),
{
    sheet::print_metric(
        screen,
        "location",
        scan.root.display().as_str(),
        RecordTone::Text,
        theme,
        canvas,
    );
    sheet::print_metric(
        screen,
        "space analyzed",
        text::cat2(size::format_bytes(scan.total_size_bytes).as_str(), " logical").as_str(),
        RecordTone::Text,
        theme,
        canvas,
    );
    if let Some(bytes) = scan.total_allocated_size_bytes {
        sheet::print_metric(
            screen,
            "space on disk",
            text::cat2(size::format_bytes(bytes).as_str(), " allocated").as_str(),
            RecordTone::Text,
            theme,
            canvas,
        );
    }
    let contents = text::cat4(
        size::format_count(scan.file_count).as_str(),
        " files • ",
        size::format_count(scan.directory_count).as_str(),
        " folders",
    );
    sheet::print_metric(screen, "contents", contents.as_str(), RecordTone::Text, theme, canvas);
    if warnings == 0 {
        sheet::print_metric(
            screen,
            "scan quality",
            "complete • no unreadable items",
            RecordTone::Positive,
            theme,
            canvas,
        );
    } else {
        let told = text::cat2(
            text::decimal_of(warnings).as_str(),
            " items skipped or changed",
        );
        sheet::print_metric(
            screen,
            "scan quality",
            told.as_str(),
            RecordTone::Warning,
            theme,
            canvas,
        );
    }
    match history {
        Some(known) => {
            let told = text::cat2(
                "saved locally as scan #",
                storage::signed_decimal_of(known).as_str(),
            );
            sheet::print_metric(
                screen,
                "history",
                told.as_str(),
                RecordTone::Positive,
                theme,
                canvas,
            );
        },
        None => {
            sheet::print_metric(
                screen,
                "history",
                "disabled for this scan",
                RecordTone::Text,
                theme,
                canvas,
            );
        },
    }
    let (label, tone) = tell_status(ai);
    sheet::print_metric(screen, "local AI", label.as_str(), tone, theme, canvas);
}

/// The first paths that were ignored.
pub open spec fn ignored_lines(
    lines: Seq<Seq<char>>,
    root: Seq<PartView>,
    paths: Seq<GivenView>,
    count: int,
    theme: Theme,
) -> Seq<Seq<char>>
    decreases count,
{
    if count <= 0 {
        lines
    } else {
        ignored_lines(lines, root, paths, count - 1, theme).push(
            "      "@ + theme.as_muted("ignored"@) + " "@ + theme.as_accent("•"@) + " "@
                + theme.as_muted(path::relative_shown(root, paths[count - 1].spelling)),
        )
    }
}

/// The figures on what is left out of the advice.
pub open spec fn safety_metrics(
    lines: Seq<Seq<char>>,
    policy: PolicySummaryView,
    theme: Theme,
    canvas: nat,
) -> Seq<Seq<char>> {
    let defaults = if policy.default_protections_enabled {
        sheet::metric(
            lines,
            "system defaults"@,
            "enabled"@,
            RecordTone::Positive,
            theme,
            canvas,
        )
    } else {
        sheet::metric(
            lines,
            "system defaults"@,
            "disabled by user"@,
            RecordTone::Warning,
            theme,
            canvas,
        )
    };
    let ignored = sheet::metric(
        defaults,
        "ignored"@,
        text::decimal(policy.ignored_paths.len()) + " matched paths • "@ + text::decimal(
            policy.ignored_rule_count as nat,
        ) + " user rules • "@ + text::decimal(policy.automatic_ignore_rule_count as nat)
            + " automatic rules • not scanned"@,
        RecordTone::Text,
        theme,
        canvas,
    );
    let protected = sheet::metric(
        ignored,
        "protected"@,
        size::count_text(policy.protected_items as nat) + " scanned items • "@ + text::decimal(
            policy.protected_rule_count as nat,
        ) + " active rules"@,
        RecordTone::Text,
        theme,
        canvas,
    );
    sheet::metric(
        protected,
        "advice withheld"@,
        size::count_text(policy.suppressed_recommendations as nat) + " recommendations • "@
            + size::count_text(policy.protected_duplicate_copies as nat) + " duplicate copies"@,
        RecordTone::Text,
        theme,
        canvas,
    )
}

/// The section on what is left out of the advice.
pub open spec fn safety_section(
    lines: Seq<Seq<char>>,
    root: Seq<PartView>,
    policy: PolicySummaryView,
    theme: Theme,
    canvas: nat,
) -> Seq<Seq<char>> {
    let head = sheet::section(
        lines,
        "02"@,
        "SAFETY"@,
        "Paths excluded from cleanup advice"@,
        theme,
        canvas,
    );
    let listed = ignored_lines(
        safety_metrics(head, policy, theme, canvas),
        root,
        policy.ignored_paths,
        if policy.ignored_paths.len() < 5 {
            policy.ignored_paths.len() as int
        } else {
            5
        },
        theme,
    );
    if policy.ignored_paths.len() > 5 {
        listed.push(
            "      "@ + theme.as_muted(
                "… "@ + text::decimal((policy.ignored_paths.len() - 5) as nat)
                    + " more ignored paths"@,
            ),
        )
    } else {
        listed
    }
}

fn print_safety_metrics(screen: &mut Screen, policy: &PolicySummary, theme: Theme, canvas: usize)
    ensures
        final(screen)@ == safety_metrics(old(screen)@, policy@, theme, canvas as nat),
{
    if policy.default_protections_enabled {
        sheet::print_metric(
            screen,
            "system defaults",
            "enabled",
            RecordTone::Positive,
            theme,
            canvas,
        );
    } else {
        sheet::print_metric(
            screen,
            "system defaults",
            "disabled by user",
            RecordTone::Warning,
            theme,
            canvas,
        );
    }
    let ignored = text::cat6(
        text::decimal_of(policy.ignored_paths.len() as u64).as_str(),
        " matched paths • ",
        text::decimal_of(policy.ignored_rule_count as u64).as_str(),
        " user rules • ",
        text::decimal_of(policy.automatic_ignore_rule_count as u64).as_str(),
        " automatic rules • not scanned",
    );
    sheet::print_metric(screen, "ignored", ignored.as_str(), RecordTone::Text, theme, canvas);
    let protected = text::cat4(
        size::format_count(policy.protected_items).as_str(),
        " scanned items • ",
        text::decimal_of(policy.protected_rule_count as u64).as_str(),
        " active rules",
    );
    sheet::print_metric(screen, "protected", protected.as_str(), RecordTone::Text, theme, canvas);
    let withheld = text::cat4(
        size::format_count(policy.suppressed_recommendations).as_str(),
        " recommendations • ",
        size::format_count(policy.protected_duplicate_copies).as_str(),
        " duplicate copies",
    );
    sheet::print_metric(
        screen,
        "advice withheld",
        withheld.as_str(),
        RecordTone::Text,
        theme,
        canvas,
    );
}

fn print_safety(
    screen: &mut Screen,
    root: &FilePath,
    policy: &PolicySummary,
    theme: Theme,
    canvas: usize,
)
    ensures
        final(screen)@ == safety_section(old(screen)@, root@, policy@, theme, canvas as nat),
{
    sheet::print_section(
        screen,
        "02",
        "SAFETY",
        "Paths excluded from cleanup advice",
        theme,
        canvas,
    );
    print_safety_metrics(screen, policy, theme, canvas);
    let shown: usize = if policy.ignored_paths.len() < 5 {
        policy.ignored_paths.len()
    } else {
        5
    };
    let ghost top = screen@;
    let ghost all = path::givens(policy.ignored_paths@);
    let mut at: usize = 0;
    while at < shown
        invariant
            at <= shown <= policy.ignored_paths@.len(),
            all == path::givens(policy.ignored_paths@),
            screen@ == ignored_lines(top, root@, all, at as int, theme),
        decreases shown - at,
    {
        assert(all[at as int] == policy.ignored_paths@[at as int].as_given());
        screen.add(
            text::cat6(
                "      ",
                theme.muted("ignored").as_str(),
                " ",
                theme.accent("•").as_str(),
                " ",
                theme.muted(policy.ignored_paths[at].display_relative(root).as_str()).as_str(),
            ),
        );
        at = at + 1;
    }
    if policy.ignored_paths.len() > 5 {
        let told = text::cat3(
            "… ",
            text::decimal_of((policy.ignored_paths.len() - 5) as u64).as_str(),
            " more ignored paths",
        );
        screen.add(text::cat2("      ", theme.muted(told.as_str()).as_str()));
    }
}

/// A line behind a tick in a report.
pub open spec fn ticked(text: Seq<char>, theme: Theme) -> Seq<char> {
    "  "@ + theme.as_green("✓"@) + " "@ + theme.as_text(text)
}

fn tick(value: &str, theme: Theme) -> (result: String)
    ensures
        result@ == ticked(value@, theme),
{
    text::cat4("  ", theme.green("✓").as_str(), " ", theme.text(value).as_str())
}

/// The head of a list: how many there are, and what they are not.
pub open spec fn list_head(count: Seq<char>, note: Seq<char>, theme: Theme) -> Seq<char> {
    "  "@ + theme.as_accent(count) + " "@ + theme.as_muted(note)
}

fn draw_list_head(count: &str, note: &str, theme: Theme) -> (result: String)
    ensures
        result@ == list_head(count@, note@, theme),
{
    text::cat4("  ", theme.accent(count).as_str(), " ", theme.muted(note).as_str())
}

/// The head of a record, behind a dotted line unless it is the first.
pub open spec fn record_head(
    lines: Seq<Seq<char>>,
    place: nat,
    title: Seq<char>,
    theme: Theme,
    canvas: nat,
) -> Seq<Seq<char>> {
    let parted = if place > 0 {
        lines.push(sheet::divider(theme, canvas))
    } else {
        lines
    };
    parted.push(
        "  "@ + theme.as_selected(" "@ + menu::numbered(place + 1) + " "@) + "  "@ + theme.as_text(
            title,
        ),
    )
}

fn print_record_head(screen: &mut Screen, place: usize, title: &str, theme: Theme, canvas: usize)
    requires
        place < usize::MAX,
    ensures
        final(screen)@ == record_head(old(screen)@, place as nat, title@, theme, canvas as nat),
{
    if place > 0 {
        sheet::print_record_divider(screen, theme, canvas);
    }
    let number = text::cat3(" ", menu::number(place as u64 + 1).as_str(), " ");
    screen.add(pair(theme.selected(number.as_str()).as_str(), theme.text(title).as_str()));
}

/// The evidence of a record, as it is or made readable.
pub open spec fn evidence_lines(
    lines: Seq<Seq<char>>,
    evidence: Seq<Seq<char>>,
    count: int,
    readable: bool,
    theme: Theme,
    canvas: nat,
) -> Seq<Seq<char>>
    decreases count,
{
    if count <= 0 {
        lines
    } else {
        sheet::wrapped_bullet(
            evidence_lines(lines, evidence, count - 1, readable, theme, canvas),
            if readable {
                size::humanized(evidence[count - 1])
            } else {
                evidence[count - 1]
            },
            theme,
            canvas,
        )
    }
}

/// The evidence of a record below its heading, where there is any.
pub open spec fn evidence_block(
    lines: Seq<Seq<char>>,
    evidence: Seq<Seq<char>>,
    readable: bool,
    theme: Theme,
    canvas: nat,
) -> Seq<Seq<char>> {
    if evidence.len() == 0 {
        lines
    } else {
        evidence_lines(
            lines.push("      "@ + theme.as_muted("evidence"@)),
            evidence,
            evidence.len() as int,
            readable,
            theme,
            canvas,
        )
    }
}

fn print_evidence(
    screen: &mut Screen,
    evidence: &Vec<String>,
    readable: bool,
    theme: Theme,
    canvas: usize,
)
    ensures
        final(screen)@ == evidence_block(
            old(screen)@,
            order::views(evidence@),
            readable,
            theme,
            canvas as nat,
        ),
{
    if evidence.len() == 0 {
        return;
    }
    screen.add(text::cat2("      ", theme.muted("evidence").as_str()));
    let ghost top = screen@;
    let ghost all = order::views(evidence@);
    let mut at: usize = 0;
    while at < evidence.len()
        invariant
            at <= evidence@.len(),
            all == order::views(evidence@),
            screen@ == evidence_lines(top, all, at as int, readable, theme, canvas as nat),
        decreases evidence@.len() - at,
    {
        assert(all[at as int] == evidence@[at as int]@);
        if readable {
            let told = size::humanize_evidence(evidence[at].as_str());
            sheet::print_wrapped_bullet(screen, told.as_str(), theme, canvas);
        } else {
            sheet::print_wrapped_bullet(screen, evidence[at].as_str(), theme, canvas);
        }
        at = at + 1;
    }
}

/// What a model makes of a finding.
pub open spec fn explanation_block(
    lines: Seq<Seq<char>>,
    explanation: ExplanationView,
    theme: Theme,
    canvas: nat,
) -> Seq<Seq<char>> {
    sheet::record_field(
        sheet::wrapped_bullet(
            lines.push("      "@ + theme.as_muted("local AI context • advisory only"@)),
            explanation.reason,
            theme,
            canvas,
        ),
        "AI assessment"@,
        labels::label_of_risk(explanation.risk) + " risk • "@ + explanation.confidence.spec_percent() + "% confidence • "@ + labels::label_of_ai_action(explanation.suggested_action),
        labels::tone_of_risk(explanation.risk),
        theme,
        canvas,
    )
}

/// Whether no finding before another is about the same path.
pub open spec fn is_first_of_path(findings: Seq<FindingView>, place: int) -> bool {
    forall|j: int| 0 <= j < place ==> (#[trigger] findings[j]).path != findings[place].path
}

fn first_of_path(findings: &[Finding], place: usize) -> (result: bool)
    requires
        place < findings@.len(),
    ensures
        result == is_first_of_path(order::views(findings@), place as int),
{
    let ghost all = order::views(findings@);
    let mut at: usize = 0;
    assert(all[place as int] == findings@[place as int]@);
    while at < place
        invariant
            at <= place < findings@.len(),
            all == order::views(findings@),
            all[place as int] == findings@[place as int]@,
            forall|j: int| 0 <= j < at ==> (#[trigger] all[j]).path != all[place as int].path,
        decreases place - at,
    {
        assert(all[at as int] == findings@[at as int]@);
        if findings[at].path.same(&findings[place].path) {
            return false;
        }
        at = at + 1;
    }
    true
}

/// A finding in the report.
pub open spec fn finding_record(
    lines: Seq<Seq<char>>,
    root: Seq<PartView>,
    findings: Seq<FindingView>,
    explanations: Seq<ExplanationView>,
    place: int,
    theme: Theme,
    canvas: nat,
) -> Seq<Seq<char>> {
    let finding = findings[place];
    let head = record_head(
        lines,
        place as nat,
        labels::label_of_category(finding.category),
        theme,
        canvas,
    );
    let item = sheet::record_field(
        head,
        "item"@,
        path::relative_shown(root, finding.spelling),
        RecordTone::Text,
        theme,
        canvas,
    );
    let recovery = sheet::record_field(
        item,
        "recovery"@,
        size::bytes_text(finding.potential_recovery_bytes as nat),
        RecordTone::Accent,
        theme,
        canvas,
    );
    let risk = sheet::record_field(
        recovery,
        "risk"@,
        labels::label_of_risk(finding.risk),
        labels::tone_of_risk(finding.risk),
        theme,
        canvas,
    );
    let confidence = sheet::record_field(
        risk,
        "confidence"@,
        finding.confidence.spec_percent() + "%"@,
        RecordTone::Text,
        theme,
        canvas,
    );
    let action = sheet::record_field(
        confidence,
        "action"@,
        labels::label_of_action(finding.suggested_action),
        RecordTone::Text,
        theme,
        canvas,
    );
    let evident = evidence_block(action, finding.evidence, true, theme, canvas);
    match review::explanation_of(explanations, finding.path, 0) {
        Some(explanation) => if is_first_of_path(findings, place) {
            explanation_block(evident, explanation, theme, canvas)
        } else {
            evident
        },
        None => evident,
    }
}

fn print_finding(
    screen: &mut Screen,
    root: &FilePath,
    findings: &[Finding],
    ai: &AiReport,
    place: usize,
    theme: Theme,
    canvas: usize,
)
    requires
        place < findings@.len(),
    ensures
        final(screen)@ == finding_record(
            old(screen)@,
            root@,
            order::views(findings@),
            ai@.explanations,
            place as int,
            theme,
            canvas as nat,
        ),
{
    let finding = &findings[place];
    assert(order::views(findings@)[place as int] == finding@);
    print_record_head(screen, place, labels::category_label(finding.category), theme, canvas);
    sheet::print_record_field(
        screen,
        "item",
        finding.path.display_relative(root).as_str(),
        RecordTone::Text,
        theme,
        canvas,
    );
    sheet::print_record_field(
        screen,
        "recovery",
        size::format_bytes(finding.potential_recovery_bytes).as_str(),
        RecordTone::Accent,
        theme,
        canvas,
    );
    sheet::print_record_field(
        screen,
        "risk",
        labels::risk_label(finding.risk),
        labels::risk_tone(finding.risk),
        theme,
        canvas,
    );
    sheet::print_record_field(
        screen,
        "confidence",
        text::cat2(finding.confidence.percent().as_str(), "%").as_str(),
        RecordTone::Text,
        theme,
        canvas,
    );
    sheet::print_record_field(
        screen,
        "action",
        labels::action_label(finding.suggested_action),
        RecordTone::Text,
        theme,
        canvas,
    );
    print_evidence(screen, &finding.evidence, true, theme, canvas);
    if first_of_path(findings, place) {
        if let Some(explanation) = review::find_explanation(&ai.explanations, &finding.path) {
            screen.add(
                text::cat2("      ", theme.muted("local AI context • advisory only").as_str()),
            );
            sheet::print_wrapped_bullet(screen, explanation.reason.as_str(), theme, canvas);
            let told = text::cat5(
                labels::risk_label(explanation.risk),
                " risk • ",
                explanation.confidence.percent().as_str(),
                "% confidence • ",
                labels::ai_action_label(explanation.suggested_action),
            );
            sheet::print_record_field(
                screen,
                "AI assessment",
                told.as_str(),
                labels::risk_tone(explanation.risk),
                theme,
                canvas,
            );
        }
    }
}

pub open spec fn finding_records(
    lines: Seq<Seq<char>>,
    root: Seq<PartView>,
    findings: Seq<FindingView>,
    explanations: Seq<ExplanationView>,
    count: int,
    theme: Theme,
    canvas: nat,
) -> Seq<Seq<char>>
    decreases count,
{
    if count <= 0 {
        lines
    } else {
        finding_record(
            finding_records(lines, root, findings, explanations, count - 1, theme, canvas),
            root,
            findings,
            explanations,
            count - 1,
            theme,
            canvas,
        )
    }
}

/// How many of some are shown.
pub open spec fn shown_of(total: nat, top: nat) -> nat {
    if total < top {
        total
    } else {
        top
    }
}

fn show_of(total: usize, top: usize) -> (result: usize)
    ensures
        result == shown_of(total as nat, top as nat),
{
    if total < top {
        total
    } else {
        top
    }
}

/// The end of a list: how many are not shown, behind a gap.
pub open spec fn list_end(
    lines: Seq<Seq<char>>,
    total: nat,
    top: nat,
    label: Seq<char>,
    theme: Theme,
) -> Seq<Seq<char>> {
    sheet::more(
        if total > top {
            lines.push(""@)
        } else {
            lines
        },
        total,
        top,
        label,
        theme,
    )
}

fn print_list_end(screen: &mut Screen, total: usize, top: usize, label: &str, theme: Theme)
    ensures
        final(screen)@ == list_end(old(screen)@, total as nat, top as nat, label@, theme),
{
    if total > top {
        screen.gap();
    }
    sheet::print_more(screen, total, top, label, theme);
}

/// The section on the findings.
pub open spec fn recommendations_section(
    lines: Seq<Seq<char>>,
    root: Seq<PartView>,
    findings: Seq<FindingView>,
    explanations: Seq<ExplanationView>,
    top: nat,
    theme: Theme,
    canvas: nat,
) -> Seq<Seq<char>> {
    let head = sheet::section(
        lines,
        "03"@,
        "RECOMMENDATIONS"@,
        "Items that may be worth reviewing"@,
        theme,
        canvas,
    );
    if findings.len() == 0 {
        head.push(ticked("No deterministic cleanup candidates were found."@, theme))
    } else {
        list_end(
            finding_records(
                head.push(
                    list_head(
                        text::decimal(findings.len()) + " candidates"@,
                        "• suggestions only, never automatic deletions"@,
                        theme,
                    ),
                ),
                root,
                findings,
                explanations,
                shown_of(findings.len(), top) as int,
                theme,
                canvas,
            ),
            findings.len(),
            top,
            "recommendations"@,
            theme,
        )
    }
}

fn print_recommendations(
    screen: &mut Screen,
    root: &FilePath,
    findings: &[Finding],
    ai: &AiReport,
    top: usize,
    theme: Theme,
    canvas: usize,
)
    ensures
        final(screen)@ == recommendations_section(
            old(screen)@,
            root@,
            order::views(findings@),
            ai@.explanations,
            top as nat,
            theme,
            canvas as nat,
        ),
{
    sheet::print_section(
        screen,
        "03",
        "RECOMMENDATIONS",
        "Items that may be worth reviewing",
        theme,
        canvas,
    );
    if findings.len() == 0 {
        screen.add(tick("No deterministic cleanup candidates were found.", theme));
        return;
    }
    let count = text::cat2(text::decimal_of(findings.len() as u64).as_str(), " candidates");
    screen.add(
        draw_list_head(count.as_str(), "• suggestions only, never automatic deletions", theme),
    );
    let shown: usize = show_of(findings.len(), top);
    let ghost head = screen@;
    let mut at: usize = 0;
    while at < shown
        invariant
            at <= shown <= findings@.len(),
            screen@ == finding_records(
                head,
                root@,
                order::views(findings@),
                ai@.explanations,
                at as int,
                theme,
                canvas as nat,
            ),
        decreases shown - at,
    {
        print_finding(screen, root, findings, ai, at, theme, canvas);
        at = at + 1;
    }
    print_list_end(screen, findings.len(), top, "recommendations", theme);
}

/// A relationship in the report.
pub open spec fn relationship_record(
    lines: Seq<Seq<char>>,
    root: Seq<PartView>,
    relationship: RelationshipView,
    place: nat,
    theme: Theme,
    canvas: nat,
) -> Seq<Seq<char>> {
    let head = record_head(lines, place, labels::kind_label(relationship.kind), theme, canvas);
    let source = sheet::record_field(
        head,
        "source"@,
        path::relative_shown(root, relationship.source_spelling),
        RecordTone::Text,
        theme,
        canvas,
    );
    let related = sheet::record_field(
        source,
        "related"@,
        path::relative_shown(root, relationship.target_spelling),
        RecordTone::Text,
        theme,
        canvas,
    );
    let confidence = sheet::record_field(
        related,
        "confidence"@,
        relationship.confidence.spec_percent() + "%"@,
        RecordTone::Text,
        theme,
        canvas,
    );
    evidence_block(confidence, relationship.evidence, false, theme, canvas)
}

fn print_relationship(
    screen: &mut Screen,
    root: &FilePath,
    relationship: &Relationship,
    place: usize,
    theme: Theme,
    canvas: usize,
)
    requires
        place < usize::MAX,
    ensures
        final(screen)@ == relationship_record(
            old(screen)@,
            root@,
            relationship@,
            place as nat,
            theme,
            canvas as nat,
        ),
{
    print_record_head(
        screen,
        place,
        labels::relationship_kind_label(relationship.kind),
        theme,
        canvas,
    );
    sheet::print_record_field(
        screen,
        "source",
        relationship.source_path.display_relative(root).as_str(),
        RecordTone::Text,
        theme,
        canvas,
    );
    sheet::print_record_field(
        screen,
        "related",
        relationship.target_path.display_relative(root).as_str(),
        RecordTone::Text,
        theme,
        canvas,
    );
    sheet::print_record_field(
        screen,
        "confidence",
        text::cat2(relationship.confidence.percent().as_str(), "%").as_str(),
        RecordTone::Text,
        theme,
        canvas,
    );
    print_evidence(screen, &relationship.evidence, false, theme, canvas);
}

pub open spec fn relationship_records(
    lines: Seq<Seq<char>>,
    root: Seq<PartView>,
    relationships: Seq<RelationshipView>,
    count: int,
    theme: Theme,
    canvas: nat,
) -> Seq<Seq<char>>
    decreases count,
{
    if count <= 0 {
        lines
    } else {
        relationship_record(
            relationship_records(lines, root, relationships, count - 1, theme, canvas),
            root,
            relationships[count - 1],
            (count - 1) as nat,
            theme,
            canvas,
        )
    }
}

/// The section on the relationships.
pub open spec fn relationships_section(
    lines: Seq<Seq<char>>,
    root: Seq<PartView>,
    relationships: Seq<RelationshipView>,
    top: nat,
    theme: Theme,
    canvas: nat,
) -> Seq<Seq<char>> {
    let head = sheet::section(
        lines,
        "04"@,
        "RELATIONSHIPS"@,
        "Filesystem context connecting related items"@,
        theme,
        canvas,
    );
    if relationships.len() == 0 {
        head.push(ticked("No deterministic item relationships were found."@, theme))
    } else {
        list_end(
            relationship_records(
                head.push(
                    list_head(
                        text::decimal(relationships.len()) + " connections"@,
                        "• evidence only, never deletion authorization"@,
                        theme,
                    ),
                ),
                root,
                relationships,
                shown_of(relationships.len(), top) as int,
                theme,
                canvas,
            ),
            relationships.len(),
            top,
            "relationships"@,
            theme,
        )
    }
}

fn print_relationships(
    screen: &mut Screen,
    root: &FilePath,
    relationships: &Vec<Relationship>,
    top: usize,
    theme: Theme,
    canvas: usize,
)
    ensures
        final(screen)@ == relationships_section(
            old(screen)@,
            root@,
            order::views(relationships@),
            top as nat,
            theme,
            canvas as nat,
        ),
{
    sheet::print_section(
        screen,
        "04",
        "RELATIONSHIPS",
        "Filesystem context connecting related items",
        theme,
        canvas,
    );
    if relationships.len() == 0 {
        screen.add(tick("No deterministic item relationships were found.", theme));
        return;
    }
    let count = text::cat2(text::decimal_of(relationships.len() as u64).as_str(), " connections");
    screen.add(
        draw_list_head(count.as_str(), "• evidence only, never deletion authorization", theme),
    );
    let shown: usize = show_of(relationships.len(), top);
    let ghost head = screen@;
    let ghost all = order::views(relationships@);
    let mut at: usize = 0;
    while at < shown
        invariant
            at <= shown <= relationships@.len(),
            all == order::views(relationships@),
            screen@ == relationship_records(
                head,
                root@,
                all,
                at as int,
                theme,
                canvas as nat,
            ),
        decreases shown - at,
    {
        assert(all[at as int] == relationships@[at as int]@);
        print_relationship(screen, root, &relationships[at], at, theme, canvas);
        at = at + 1;
    }
    print_list_end(screen, relationships.len(), top, "relationships", theme);
}

/// Whether an entry before another names the same physical file.
pub open spec fn is_alias(entries: Seq<EntryView>, place: int) -> bool {
    entries[place].file_identity is Some && exists|j: int|
        0 <= j < place && (#[trigger] entries[j]).file_identity == entries[place].file_identity
}

fn names_same_file(entries: &Vec<DuplicateEntry>, place: usize) -> (result: bool)
    requires
        place < entries@.len(),
    ensures
        result == is_alias(order::views(entries@), place as int),
{
    let ghost all = order::views(entries@);
    assert(all[place as int] == entries@[place as int]@);
    let identity = match entries[place].file_identity {
        Some(identity) => identity,
        None => {
            return false;
        },
    };
    let mut at: usize = 0;
    while at < place
        invariant
            at <= place < entries@.len(),
            all == order::views(entries@),
            all[place as int].file_identity == Some(identity),
            forall|j: int| 0 <= j < at ==> (#[trigger] all[j]).file_identity != Some(identity),
        decreases place - at,
    {
        assert(all[at as int] == entries@[at as int]@);
        if let Some(earlier) = entries[at].file_identity {
            if earlier == identity {
                return true;
            }
        }
        at = at + 1;
    }
    false
}

/// What is told behind a file of a group.
pub open spec fn entry_suffix(protected: bool, alias: bool) -> Seq<char> {
    if protected && alias {
        "  [protected • same physical file]"@
    } else if protected {
        "  [protected]"@
    } else if alias {
        "  [same physical file]"@
    } else {
        ""@
    }
}

fn suffix_of_entry(protected: bool, alias: bool) -> (result: &'static str)
    ensures
        result@ == entry_suffix(protected, alias),
{
    if protected && alias {
        "  [protected • same physical file]"
    } else if protected {
        "  [protected]"
    } else if alias {
        "  [same physical file]"
    } else {
        ""
    }
}

/// The first files of a group.
pub open spec fn entry_lines(
    lines: Seq<Seq<char>>,
    root: Seq<PartView>,
    entries: Seq<EntryView>,
    count: int,
    theme: Theme,
    canvas: nat,
) -> Seq<Seq<char>>
    decreases count,
{
    if count <= 0 {
        lines
    } else {
        sheet::wrapped_bullet(
            entry_lines(lines, root, entries, count - 1, theme, canvas),
            path::relative_shown(root, entries[count - 1].spelling) + entry_suffix(
                entries[count - 1].protected,
                is_alias(entries, count - 1),
            ),
            theme,
            canvas,
        )
    }
}

/// A group of duplicates in the report.
pub open spec fn group_record(
    lines: Seq<Seq<char>>,
    root: Seq<PartView>,
    group: GroupView,
    place: nat,
    theme: Theme,
    canvas: nat,
) -> Seq<Seq<char>> {
    let head = record_head(lines, place, "Exact duplicate group"@, theme, canvas);
    let each = sheet::record_field(
        head,
        "each file"@,
        size::bytes_text(group.size_bytes_per_file as nat),
        RecordTone::Text,
        theme,
        canvas,
    );
    let copies = sheet::record_field(
        each,
        "copies"@,
        text::decimal(group.unique_file_count as nat) + " physical files"@,
        RecordTone::Text,
        theme,
        canvas,
    );
    let recovery = sheet::record_field(
        copies,
        "recovery"@,
        review::recovery_told(group.potential_recovery_allocated_bytes),
        RecordTone::Positive,
        theme,
        canvas,
    );
    let fingerprint = sheet::record_field(
        recovery,
        "fingerprint"@,
        review::short_hash(group.blake3_hash) + "…"@,
        RecordTone::Text,
        theme,
        canvas,
    );
    entry_lines(
        fingerprint.push("      "@ + theme.as_muted("files"@)),
        root,
        group.entries,
        group.entries.len() as int,
        theme,
        canvas,
    )
}

fn print_group(
    screen: &mut Screen,
    root: &FilePath,
    group: &DuplicateGroup,
    place: usize,
    theme: Theme,
    canvas: usize,
)
    requires
        place < usize::MAX,
    ensures
        final(screen)@ == group_record(
            old(screen)@,
            root@,
            group@,
            place as nat,
            theme,
            canvas as nat,
        ),
{
    print_record_head(screen, place, "Exact duplicate group", theme, canvas);
    sheet::print_record_field(
        screen,
        "each file",
        size::format_bytes(group.size_bytes_per_file).as_str(),
        RecordTone::Text,
        theme,
        canvas,
    );
    let copies = text::cat2(
        text::decimal_of(group.unique_file_count).as_str(),
        " physical files",
    );
    sheet::print_record_field(screen, "copies", copies.as_str(), RecordTone::Text, theme, canvas);
    sheet::print_record_field(
        screen,
        "recovery",
        review::tell_recovery(group.potential_recovery_allocated_bytes).as_str(),
        RecordTone::Positive,
        theme,
        canvas,
    );
    let hash = text::cat2(review::shorten_hash(group.blake3_hash.as_str()).as_str(), "…");
    sheet::print_record_field(
        screen,
        "fingerprint",
        hash.as_str(),
        RecordTone::Text,
        theme,
        canvas,
    );
    screen.add(text::cat2("      ", theme.muted("files").as_str()));
    let ghost top = screen@;
    let ghost all = order::views(group.entries@);
    let mut at: usize = 0;
    while at < group.entries.len()
        invariant
            at <= group.entries@.len(),
            all == order::views(group.entries@),
            screen@ == entry_lines(top, root@, all, at as int, theme, canvas as nat),
        decreases group.entries@.len() - at,
    {
        assert(all[at as int] == group.entries@[at as int]@);
        let entry = &group.entries[at];
        let alias = names_same_file(&group.entries, at);
        let told = text::cat2(
            entry.path.display_relative(root).as_str(),
            suffix_of_entry(entry.protected, alias),
        );
        sheet::print_wrapped_bullet(screen, told.as_str(), theme, canvas);
        at = at + 1;
    }
}

pub open spec fn group_records(
    lines: Seq<Seq<char>>,
    root: Seq<PartView>,
    groups: Seq<GroupView>,
    count: int,
    theme: Theme,
    canvas: nat,
) -> Seq<Seq<char>>
    decreases count,
{
    if count <= 0 {
        lines
    } else {
        group_record(
            group_records(lines, root, groups, count - 1, theme, canvas),
            root,
            groups[count - 1],
            (count - 1) as nat,
            theme,
            canvas,
        )
    }
}

/// The section on the duplicates.
pub open spec fn duplicates_section(
    lines: Seq<Seq<char>>,
    root: Seq<PartView>,
    duplicates: DuplicatesView,
    top: nat,
    theme: Theme,
    canvas: nat,
) -> Seq<Seq<char>> {
    let head = sheet::section(
        lines,
        "05"@,
        "DUPLICATES"@,
        "Exact content matches verified with BLAKE3"@,
        theme,
        canvas,
    );
    let groups = duplicates.groups;
    if groups.len() == 0 {
        head.push(ticked("No exact duplicate groups found among the files checked."@, theme))
    } else {
        let counted = head.push(
            list_head(
                text::decimal(groups.len()) + " groups"@,
                "• "@ + size::count_text(duplicates.files_hashed as nat)
                    + " physical files hashed"@,
                theme,
            ),
        );
        let data = sheet::metric(
            counted,
            "duplicate data"@,
            size::bytes_text(duplicates.logical_duplicate_bytes as nat),
            RecordTone::Warning,
            theme,
            canvas,
        );
        let recovery = match duplicates.potential_recovery_allocated_bytes {
            Some(bytes) => sheet::metric(
                data,
                "safe recovery"@,
                size::bytes_text(bytes as nat),
                RecordTone::Positive,
                theme,
                canvas,
            ),
            None => sheet::metric(
                data,
                "safe recovery"@,
                "unavailable"@,
                RecordTone::Text,
                theme,
                canvas,
            ),
        };
        list_end(
            group_records(
                recovery,
                root,
                groups,
                shown_of(groups.len(), top) as int,
                theme,
                canvas,
            ),
            groups.len(),
            top,
            "duplicate groups"@,
            theme,
        )
    }
}

fn print_duplicates(
    screen: &mut Screen,
    root: &FilePath,
    duplicates: &DuplicateReport,
    top: usize,
    theme: Theme,
    canvas: usize,
)
    ensures
        final(screen)@ == duplicates_section(
            old(screen)@,
            root@,
            duplicates@,
            top as nat,
            theme,
            canvas as nat,
        ),
{
    sheet::print_section(
        screen,
        "05",
        "DUPLICATES",
        "Exact content matches verified with BLAKE3",
        theme,
        canvas,
    );
    let groups = &duplicates.groups;
    if groups.len() == 0 {
        screen.add(tick("No exact duplicate groups found among the files checked.", theme));
        return;
    }
    let count = text::cat2(text::decimal_of(groups.len() as u64).as_str(), " groups");
    let hashed = text::cat3(
        "• ",
        size::format_count(duplicates.files_hashed).as_str(),
        " physical files hashed",
    );
    screen.add(draw_list_head(count.as_str(), hashed.as_str(), theme));
    sheet::print_metric(
        screen,
        "duplicate data",
        size::format_bytes(duplicates.logical_duplicate_bytes).as_str(),
        RecordTone::Warning,
        theme,
        canvas,
    );
    match duplicates.potential_recovery_allocated_bytes {
        Some(bytes) => {
            sheet::print_metric(
                screen,
                "safe recovery",
                size::format_bytes(bytes).as_str(),
                RecordTone::Positive,
                theme,
                canvas,
            );
        },
        None => {
            sheet::print_metric(
                screen,
                "safe recovery",
                "unavailable",
                RecordTone::Text,
                theme,
                canvas,
            );
        },
    }
    let shown: usize = show_of(groups.len(), top);
    let ghost head = screen@;
    let ghost all = order::views(groups@);
    let mut at: usize = 0;
    while at < shown
        invariant
            at <= shown <= groups@.len(),
            all == order::views(groups@),
            screen@ == group_records(head, root@, all, at as int, theme, canvas as nat),
        decreases shown - at,
    {
        assert(all[at as int] == groups@[at as int]@);
        print_group(screen, root, &groups[at], at, theme, canvas);
        at = at + 1;
    }
    print_list_end(screen, groups.len(), top, "duplicate groups", theme);
}

/// Whether an item is listed among the largest: a file or folder below the
/// root of at least some size.
pub open spec fn is_listed(item: ItemView, root: Seq<PartView>, min_size: u64) -> bool {
    item.path != root && (item.kind is File || item.kind is Directory) && item.size_bytes
        >= min_size
}

/// The items that are listed, in the order of the scan.
pub open spec fn listed(items: Seq<ItemView>, root: Seq<PartView>, min_size: u64) -> Seq<ItemView>
    decreases items.len(),
{
    if items.len() == 0 {
        Seq::empty()
    } else {
        let earlier = listed(items.drop_last(), root, min_size);
        if is_listed(items.last(), root, min_size) {
            earlier.push(items.last())
        } else {
            earlier
        }
    }
}

/// Items by size, the largest first, then by path.
pub open spec fn larger_first(left: ItemView, right: ItemView) -> bool {
    if left.size_bytes != right.size_bytes {
        left.size_bytes > right.size_bytes
    } else {
        path::at_most(left.path, right.path)
    }
}

pub open spec fn size_order() -> spec_fn(ItemView, ItemView) -> bool {
    |left: ItemView, right: ItemView| larger_first(left, right)
}

pub proof fn lemma_size_order()
    ensures
        order::is_ranking(size_order()),
{
    let le = size_order();
    assert forall|a: ItemView, b: ItemView| #[trigger] le(a, b) || le(b, a) by {
        path::law_paths_are_totally_ordered(a.path, b.path);
    }
    assert forall|a: ItemView, b: ItemView, c: ItemView| #[trigger] le(a, b) && #[trigger] le(
        b,
        c,
    ) implies le(a, c) by {
        if path::at_most(a.path, b.path) && path::at_most(b.path, c.path) {
            path::lemma_at_most_transitive(a.path, b.path, c.path);
        }
    }
}

struct SizeOrder;

impl<'a> Ranking<&'a ScannedItem> for SizeOrder {
    closed spec fn at_most(&self, left: ItemView, right: ItemView) -> bool {
        larger_first(left, right)
    }

    proof fn ranks(&self) {
        lemma_size_order();
        assert(size_order() =~= |left: ItemView, right: ItemView| self.at_most(left, right));
    }

    fn not_after(&self, left: &&'a ScannedItem, right: &&'a ScannedItem) -> (result: bool) {
        if left.size_bytes != right.size_bytes {
            left.size_bytes > right.size_bytes
        } else {
            left.path.not_after(&right.path)
        }
    }
}

/// The largest items of a scan.
pub open spec fn largest(items: Seq<ItemView>, root: Seq<PartView>, min_size: u64) -> Seq<ItemView> {
    order::sorted(listed(items, root, min_size), size_order())
}

/// The largest items of a scan.
pub fn largest_items<'a>(scan: &'a ScanResult, min_size: u64) -> (result: Vec<&'a ScannedItem>)
    ensures
        order::views(result@) == largest(scan@.items, scan@.root, min_size),
{
    let ghost all = order::views(scan.items@);
    let mut kept: Vec<&'a ScannedItem> = Vec::new();
    let mut at: usize = 0;
    assert(all.take(0) =~= Seq::<ItemView>::empty());
    assert(order::views(kept@) =~= Seq::<ItemView>::empty());
    while at < scan.items.len()
        invariant
            at <= scan.items@.len(),
            all == order::views(scan.items@),
            order::views(kept@) == listed(all.take(at as int), scan@.root, min_size),
        decreases scan.items@.len() - at,
    {
        assert(all.take(at + 1).drop_last() =~= all.take(at as int));
        let item = &scan.items[at];
        assert(all[at as int] == item@);
        let sized = match item.kind {
            ItemKind::File => true,
            ItemKind::Directory => true,
            _ => false,
        };
        if !item.path.same(&scan.root) && sized && item.size_bytes >= min_size {
            proof {
                order::lemma_views_push(kept@, item);
            }
            kept.push(item);
        }
        at = at + 1;
    }
    assert(all.take(at as int) =~= all);
    assert(order::relation::<&'a ScannedItem, SizeOrder>(SizeOrder) =~= size_order());
    order::sort_by_ranking(kept, &SizeOrder)
}

pub open spec fn kind_name(kind: ItemKind) -> Seq<char> {
    match kind {
        ItemKind::Directory => "folder"@,
        ItemKind::File => "file"@,
        _ => "item"@,
    }
}

fn name_of_kind(kind: ItemKind) -> (result: &'static str)
    ensures
        result@ == kind_name(kind),
{
    match kind {
        ItemKind::Directory => "folder",
        ItemKind::File => "file",
        _ => "item",
    }
}

/// A row of the table of the largest items.
pub open spec fn item_row(
    root: Seq<PartView>,
    item: ItemView,
    place: nat,
    theme: Theme,
    canvas: nat,
) -> Seq<char> {
    "  "@ + theme.as_brand(text::padded_start(text::decimal(place + 1), 2)) + "  "@
        + theme.as_yellow(text::padded_start(size::bytes_text(item.size_bytes as nat), 10)) + "  "@
        + theme.as_muted(text::padded_end(kind_name(item.kind), 8)) + "  "@ + theme.as_text(
        width::truncated_start(
            path::relative_shown(root, item.spelling),
            width::less(canvas, 33),
        ),
    )
}

pub open spec fn item_rows(
    lines: Seq<Seq<char>>,
    root: Seq<PartView>,
    items: Seq<ItemView>,
    count: int,
    theme: Theme,
    canvas: nat,
) -> Seq<Seq<char>>
    decreases count,
{
    if count <= 0 {
        lines
    } else {
        item_rows(lines, root, items, count - 1, theme, canvas).push(
            item_row(root, items[count - 1], (count - 1) as nat, theme, canvas),
        )
    }
}

/// The section on the largest items.
pub open spec fn largest_section(
    lines: Seq<Seq<char>>,
    root: Seq<PartView>,
    items: Seq<ItemView>,
    top: nat,
    theme: Theme,
    canvas: nat,
) -> Seq<Seq<char>> {
    let head = sheet::section(
        lines,
        "06"@,
        "LARGEST ITEMS"@,
        "Files and folders ordered by logical size"@,
        theme,
        canvas,
    );
    if items.len() == 0 {
        head.push("  No items matched the configured minimum size."@)
    } else {
        sheet::more(
            item_rows(
                head.push(
                    "  "@ + theme.as_muted(text::padded_end("#"@, 4)) + "  "@ + theme.as_muted(
                        text::padded_start("SIZE"@, 10),
                    ) + "  "@ + theme.as_muted(text::padded_end("TYPE"@, 8)) + "  "@
                        + theme.as_muted("PATH"@),
                ).push("  "@ + canvas::rule(theme, canvas, 4)),
                root,
                items,
                shown_of(items.len(), top) as int,
                theme,
                canvas,
            ),
            items.len(),
            top,
            "items"@,
            theme,
        )
    }
}

fn print_largest(
    screen: &mut Screen,
    root: &FilePath,
    items: &Vec<&ScannedItem>,
    top: usize,
    theme: Theme,
    canvas: usize,
)
    ensures
        final(screen)@ == largest_section(
            old(screen)@,
            root@,
            order::views(items@),
            top as nat,
            theme,
            canvas as nat,
        ),
{
    sheet::print_section(
        screen,
        "06",
        "LARGEST ITEMS",
        "Files and folders ordered by logical size",
        theme,
        canvas,
    );
    if items.len() == 0 {
        screen.add("  No items matched the configured minimum size.".to_owned());
        return;
    }
    screen.add(
        text::cat8(
            "  ",
            theme.muted(text::pad_end("#", 4).as_str()).as_str(),
            "  ",
            theme.muted(text::pad_start("SIZE", 10).as_str()).as_str(),
            "  ",
            theme.muted(text::pad_end("TYPE", 8).as_str()).as_str(),
            "  ",
            theme.muted("PATH").as_str(),
        ),
    );
    screen.add(text::cat2("  ", canvas::draw_rule(theme, canvas, 4).as_str()));
    let shown: usize = show_of(items.len(), top);
    let ghost head = screen@;
    let ghost all = order::views(items@);
    let mut at: usize = 0;
    while at < shown
        invariant
            at <= shown <= items@.len(),
            all == order::views(items@),
            screen@ == item_rows(head, root@, all, at as int, theme, canvas as nat),
        decreases shown - at,
    {
        let item = items[at];
        assert(all[at as int] == item@);
        let bytes = text::pad_start(size::format_bytes(item.size_bytes).as_str(), 10);
        let place = width::truncate_start(
            item.path.display_relative(root).as_str(),
            canvas.saturating_sub(33),
        );
        screen.add(
            text::cat8(
                "  ",
                theme.brand(
                    text::pad_start(text::decimal_of(at as u64 + 1).as_str(), 2).as_str(),
                ).as_str(),
                "  ",
                theme.yellow(bytes.as_str()).as_str(),
                "  ",
                theme.muted(text::pad_end(name_of_kind(item.kind), 8).as_str()).as_str(),
                "  ",
                theme.text(place.as_str()).as_str(),
            ),
        );
        at = at + 1;
    }
    sheet::print_more(screen, items.len(), top, "items", theme);
}

/// A warning about a path.
pub open spec fn warning_at(
    root: Seq<PartView>,
    spelling: Seq<u8>,
    message: Seq<char>,
    theme: Theme,
) -> Seq<char> {
    "  "@ + theme.as_red("!"@) + " "@ + theme.as_text(path::relative_shown(root, spelling)) + " — "@
        + theme.as_muted(message)
}

fn draw_warning_at(root: &FilePath, path: &FilePath, message: &str, theme: Theme) -> (result:
    String)
    ensures
        result@ == warning_at(root@, path.spelling(), message@, theme),
{
    text::cat6(
        "  ",
        theme.red("!").as_str(),
        " ",
        theme.text(path.display_relative(root).as_str()).as_str(),
        " — ",
        theme.muted(message).as_str(),
    )
}

/// The first warnings of the scan.
pub open spec fn scan_warning_lines(
    lines: Seq<Seq<char>>,
    root: Seq<PartView>,
    warnings: Seq<ScanWarningView>,
    count: int,
    theme: Theme,
) -> Seq<Seq<char>>
    decreases count,
{
    if count <= 0 {
        lines
    } else {
        let warning = warnings[count - 1];
        scan_warning_lines(lines, root, warnings, count - 1, theme).push(
            match warning.path {
                Some(known) => warning_at(root, known.spelling, warning.message, theme),
                None => "  "@ + theme.as_red("!"@) + " "@ + theme.as_muted(warning.message),
            },
        )
    }
}

/// The first warnings of the search for duplicates.
pub open spec fn duplicate_warning_lines(
    lines: Seq<Seq<char>>,
    root: Seq<PartView>,
    warnings: Seq<DuplicateWarningView>,
    count: int,
    theme: Theme,
) -> Seq<Seq<char>>
    decreases count,
{
    if count <= 0 {
        lines
    } else {
        duplicate_warning_lines(lines, root, warnings, count - 1, theme).push(
            warning_at(root, warnings[count - 1].spelling, warnings[count - 1].message, theme),
        )
    }
}

/// The section on the warnings, where there are any.
pub open spec fn warnings_section(
    lines: Seq<Seq<char>>,
    root: Seq<PartView>,
    scan: Seq<ScanWarningView>,
    duplicates: Seq<DuplicateWarningView>,
    theme: Theme,
    canvas: nat,
) -> Seq<Seq<char>> {
    if scan.len() + duplicates.len() == 0 {
        lines
    } else {
        let counts = warning_counts(scan.len(), duplicates.len());
        let head = sheet::section(
            lines,
            "07"@,
            "WARNINGS"@,
            "Items skipped without stopping the scan"@,
            theme,
            canvas,
        ).push(
            "  "@ + theme.as_muted(
                "These items were skipped; the rest of the scan is still usable."@,
            ),
        ).push(""@);
        let told = duplicate_warning_lines(
            scan_warning_lines(head, root, scan, counts.0 as int, theme),
            root,
            duplicates,
            counts.1 as int,
            theme,
        );
        if counts.2 > 0 {
            told.push("  • … and "@ + text::decimal(counts.2) + " more warnings"@)
        } else {
            told
        }
    }
}

fn print_warnings(
    screen: &mut Screen,
    scan: &ScanResult,
    duplicates: &DuplicateReport,
    theme: Theme,
    canvas: usize,
)
    requires
        scan@.warnings.len() + duplicates@.warnings.len() <= usize::MAX,
    ensures
        final(screen)@ == warnings_section(
            old(screen)@,
            scan@.root,
            scan@.warnings,
            duplicates@.warnings,
            theme,
            canvas as nat,
        ),
{
    if scan.warnings.len() + duplicates.warnings.len() == 0 {
        return;
    }
    sheet::print_section(
        screen,
        "07",
        "WARNINGS",
        "Items skipped without stopping the scan",
        theme,
        canvas,
    );
    screen.add(
        text::cat2(
            "  ",
            theme.muted(
                "These items were skipped; the rest of the scan is still usable.",
            ).as_str(),
        ),
    );
    screen.gap();
    let (shown_scan, shown_duplicates, hidden) = warning_display_counts(
        scan.warnings.len(),
        duplicates.warnings.len(),
    );
    let ghost head = screen@;
    let ghost all = order::views(scan.warnings@);
    let mut at: usize = 0;
    while at < shown_scan
        invariant
            at <= shown_scan <= scan.warnings@.len(),
            all == order::views(scan.warnings@),
            screen@ == scan_warning_lines(head, scan@.root, all, at as int, theme),
        decreases shown_scan - at,
    {
        let warning = &scan.warnings[at];
        assert(all[at as int] == warning@);
        match &warning.path {
            Some(known) => {
                screen.add(draw_warning_at(&scan.root, known, warning.message.as_str(), theme));
            },
            None => {
                screen.add(
                    text::cat4(
                        "  ",
                        theme.red("!").as_str(),
                        " ",
                        theme.muted(warning.message.as_str()).as_str(),
                    ),
                );
            },
        }
        at = at + 1;
    }
    let ghost middle = screen@;
    let ghost others = order::views(duplicates.warnings@);
    let mut next: usize = 0;
    while next < shown_duplicates
        invariant
            next <= shown_duplicates <= duplicates.warnings@.len(),
            others == order::views(duplicates.warnings@),
            screen@ == duplicate_warning_lines(middle, scan@.root, others, next as int, theme),
        decreases shown_duplicates - next,
    {
        let warning = &duplicates.warnings[next];
        assert(others[next as int] == warning@);
        screen.add(
            draw_warning_at(&scan.root, &warning.path, warning.message.as_str(), theme),
        );
        next = next + 1;
    }
    if hidden > 0 {
        screen.add(
            text::cat3(
                "  • … and ",
                text::decimal_of(hidden as u64).as_str(),
                " more warnings",
            ),
        );
    }
}

/// What an analysis found, with what its report is told by.
pub struct ReportView {
    pub scan: ScanView,
    pub findings: Seq<FindingView>,
    pub duplicates: DuplicatesView,
    pub relationships: RelationshipsView,
    pub ai: AiReportView,
    pub policy: PolicySummaryView,
}

/// The report of an analysis.
pub open spec fn report(
    told: ReportView,
    top: nat,
    min_size: u64,
    history: Option<i64>,
    theme: Theme,
    canvas: nat,
) -> Seq<Seq<char>> {
    let scan = told.scan;
    let warnings = scan.warnings.len() + told.duplicates.warnings.len();
    let opening = sheet::section(
        report_index(
            history::with_header(Seq::<Seq<char>>::empty().push(""@), theme, "REPORT"@, canvas),
            theme,
            canvas,
        ),
        "01"@,
        "OVERVIEW"@,
        "What was scanned and what SpaceMind found"@,
        theme,
        canvas,
    );
    let counted = overview_counts(
        opening,
        told.findings.len(),
        told.duplicates.groups.len(),
        told.relationships.relationships.len(),
        theme,
        canvas,
    ).push(""@);
    let measured = overview_metrics(counted, scan, told.ai, warnings, history, theme, canvas);
    let safe = safety_section(measured, scan.root, told.policy, theme, canvas);
    let advised = recommendations_section(
        safe,
        scan.root,
        told.findings,
        told.ai.explanations,
        top,
        theme,
        canvas,
    );
    let related = relationships_section(
        advised,
        scan.root,
        told.relationships.relationships,
        top,
        theme,
        canvas,
    );
    let copied = duplicates_section(related, scan.root, told.duplicates, top, theme, canvas);
    let listed = largest_section(
        copied,
        scan.root,
        largest(scan.items, scan.root, min_size),
        top,
        theme,
        canvas,
    );
    warnings_section(
        listed,
        scan.root,
        scan.warnings,
        told.duplicates.warnings,
        theme,
        canvas,
    ).push(""@).push("  "@ + canvas::rule(theme, canvas, 4)).push(
        "  "@ + theme.as_green("✓"@) + " "@ + theme.as_green("Nothing was deleted or modified."@),
    ).push(""@)
}

/// The report of an analysis.
pub fn print_human(
    scan: &ScanResult,
    findings: &[Finding],
    duplicates: &DuplicateReport,
    relationships: &RelationshipReport,
    ai: &AiReport,
    policy: &PolicySummary,
    top: usize,
    min_size: u64,
    history: Option<i64>,
    theme: Theme,
    canvas: usize,
) -> (result: Screen)
    requires
        scan@.warnings.len() + duplicates@.warnings.len() <= usize::MAX,
    ensures
        result@ == report(
            (ReportView {
                scan: scan@,
                findings: order::views(findings@),
                duplicates: duplicates@,
                relationships: relationships@,
                ai: ai@,
                policy: policy@,
            }),
            top as nat,
            min_size,
            history,
            theme,
            canvas as nat,
        ),
{
    let mut screen = Screen::new();
    screen.gap();
    history::print_brand_header(&mut screen, theme, "REPORT", canvas);
    print_report_index(&mut screen, theme, canvas);
    sheet::print_section(
        &mut screen,
        "01",
        "OVERVIEW",
        "What was scanned and what SpaceMind found",
        theme,
        canvas,
    );
    print_overview_counts(
        &mut screen,
        findings.len(),
        duplicates.groups.len(),
        relationships.relationships.len(),
        theme,
        canvas,
    );
    screen.gap();
    let warnings: usize = scan.warnings.len() + duplicates.warnings.len();
    print_overview_metrics(&mut screen, scan, ai, warnings as u64, history, theme, canvas);
    print_safety(&mut screen, &scan.root, policy, theme, canvas);
    print_recommendations(&mut screen, &scan.root, findings, ai, top, theme, canvas);
    print_relationships(
        &mut screen,
        &scan.root,
        &relationships.relationships,
        top,
        theme,
        canvas,
    );
    print_duplicates(&mut screen, &scan.root, duplicates, top, theme, canvas);
    let items = largest_items(scan, min_size);
    print_largest(&mut screen, &scan.root, &items, top, theme, canvas);
    print_warnings(&mut screen, scan, duplicates, theme, canvas);
    screen.gap();
    screen.add(text::cat2("  ", canvas::draw_rule(theme, canvas, 4).as_str()));
    screen.add(
        text::cat4(
            "  ",
            theme.green("✓").as_str(),
            " ",
            theme.green("Nothing was deleted or modified.").as_str(),
        ),
    );
    screen.gap();
    screen
}

proof fn lemma_listed(items: Seq<ItemView>, root: Seq<PartView>, min_size: u64, item: ItemView)
    ensures
        listed(items, root, min_size).contains(item) <==> items.contains(item) && is_listed(
            item,
            root,
            min_size,
        ),
    decreases items.len(),
{
    if items.len() > 0 {
        let shorter = items.drop_last();
        let earlier = listed(shorter, root, min_size);
        let all = listed(items, root, min_size);
        lemma_listed(shorter, root, min_size, item);
        if all.contains(item) {
            let at = choose|at: int| 0 <= at < all.len() && all[at] == item;
            if at < earlier.len() {
                assert(earlier[at] == item);
                let k = choose|k: int| 0 <= k < shorter.len() && shorter[k] == item;
                assert(items[k] == item);
            } else {
                assert(items[items.len() - 1] == item);
            }
        }
        if items.contains(item) && is_listed(item, root, min_size) {
            let k = choose|k: int| 0 <= k < items.len() && items[k] == item;
            if k < shorter.len() {
                assert(shorter[k] == item);
                let at = choose|at: int| 0 <= at < earlier.len() && earlier[at] == item;
                assert(all[at] == item);
            } else {
                assert(all[all.len() - 1] == item);
            }
        }
    }
}

/// The largest items are all the files and folders below the root of at least
/// the size asked for, each before those that are smaller.
pub proof fn law_largest_items_come_first(
    items: Seq<ItemView>,
    root: Seq<PartView>,
    min_size: u64,
    item: ItemView,
)
    ensures
        largest(items, root, min_size).contains(item) <==> items.contains(item) && is_listed(
            item,
            root,
            min_size,
        ),
        forall|i: int, j: int|
            0 <= i < j < largest(items, root, min_size).len() ==> (#[trigger] largest(
                items,
                root,
                min_size,
            )[i]).size_bytes >= (#[trigger] largest(items, root, min_size)[j]).size_bytes,
{
    let kept = listed(items, root, min_size);
    lemma_size_order();
    order::law_sorted_is_an_ordered_permutation(kept, size_order());
    order::lemma_sorted_contains(kept, item, size_order());
    lemma_listed(items, root, min_size, item);
    let all = largest(items, root, min_size);
    let le = size_order();
    assert forall|i: int, j: int| 0 <= i < j < all.len() implies (#[trigger] all[i]).size_bytes >= (
    #[trigger] all[j]).size_bytes by {
        assert(le(all[i], all[j]));
    }
}

} // verus!
