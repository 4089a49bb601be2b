//! What the overview of a report and its section on safety tell.

use vstd::prelude::*;

use crate::canvas::Theme;
use crate::labels::RecordTone;
use crate::path;
use crate::path::{GivenView, PartView};
use crate::printouts;
use crate::printouts::{goes_on, lemma_goes_on, lemma_kept, lemma_parts};
use crate::report;
use crate::report::{PolicySummaryView, ReportView};
use crate::sheet;
use crate::size;
use crate::storage;
use crate::text;
use crate::width;

verus! {

/// Whether a figure stands in some lines, the first of its own lines behind a label
/// and the others below it.
pub open spec fn measures(
    lines: Seq<Seq<char>>,
    label: Seq<char>,
    value: Seq<char>,
    tone: RecordTone,
    theme: Theme,
    canvas: nat,
) -> bool {
    forall|k: int|
        0 <= k < width::wrapped(value, printouts::room(canvas, 25)).len() ==> lines.contains(
            "  "@ + theme.as_muted(
                text::padded_end(
                    if k == 0 {
                        label
                    } else {
                        ""@
                    },
                    17,
                ),
            ) + "  "@ + theme.as_tone(
                #[trigger] width::wrapped(value, printouts::room(canvas, 25))[k],
                tone,
            ),
        )
}

proof fn lemma_measure(
    lines: Seq<Seq<char>>,
    label: Seq<char>,
    value: Seq<char>,
    tone: RecordTone,
    theme: Theme,
    canvas: nat,
)
    ensures
        goes_on(lines, sheet::metric(lines, label, value, tone, theme, canvas)),
        measures(
            sheet::metric(lines, label, value, tone, theme, canvas),
            label,
            value,
            tone,
            theme,
            canvas,
        ),
{
    let parts = width::wrapped(value, printouts::room(canvas, 25));
    assert(sheet::value_room(canvas, 25) == printouts::room(canvas, 25));
    let shape = sheet::value_shape("  "@, label, 17, theme, tone);
    lemma_parts(lines, parts, parts.len() as int, shape);
    let after = sheet::metric(lines, label, value, tone, theme, canvas);
    assert forall|k: int| 0 <= k < parts.len() implies after.contains(
        "  "@ + theme.as_muted(
            text::padded_end(
                if k == 0 {
                    label
                } else {
                    ""@
                },
                17,
            ),
        ) + "  "@ + theme.as_tone(#[trigger] parts[k], tone),
    ) by {
        assert(after.contains(shape(k, parts[k])));
    }
}

proof fn lemma_measures_on(
    lines: Seq<Seq<char>>,
    more: Seq<Seq<char>>,
    label: Seq<char>,
    value: Seq<char>,
    tone: RecordTone,
    theme: Theme,
    canvas: nat,
)
    requires
        goes_on(lines, more),
        measures(lines, label, value, tone, theme, canvas),
    ensures
        measures(more, label, value, tone, theme, canvas),
{
    let parts = width::wrapped(value, printouts::room(canvas, 25));
    assert forall|k: int| 0 <= k < parts.len() implies more.contains(
        "  "@ + theme.as_muted(
            text::padded_end(
                if k == 0 {
                    label
                } else {
                    ""@
                },
                17,
            ),
        ) + "  "@ + theme.as_tone(#[trigger] parts[k], tone),
    ) by {
        let line = "  "@ + theme.as_muted(
            text::padded_end(
                if k == 0 {
                    label
                } else {
                    ""@
                },
                17,
            ),
        ) + "  "@ + theme.as_tone(parts[k], tone);
        assert(lines.contains(line));
        lemma_kept(lines, more, line);
    }
}

/// The line on a path that was ignored.
pub open spec fn told_ignored(root: Seq<PartView>, given: GivenView, theme: Theme) -> Seq<char> {
    "      "@ + theme.as_muted("ignored"@) + " "@ + theme.as_accent("•"@) + " "@ + theme.as_muted(
        path::relative_shown(root, given.spelling),
    )
}

proof fn lemma_ignored(
    lines: Seq<Seq<char>>,
    root: Seq<PartView>,
    paths: Seq<GivenView>,
    count: int,
    theme: Theme,
)
    requires
        0 <= count <= paths.len(),
    ensures
        goes_on(lines, report::ignored_lines(lines, root, paths, count, theme)),
        forall|i: int|
            0 <= i < count ==> report::ignored_lines(lines, root, paths, count, theme).contains(
                told_ignored(root, #[trigger] paths[i], theme),
            ),
    decreases count,
{
    if count > 0 {
        lemma_ignored(lines, root, paths, count - 1, theme);
        let before = report::ignored_lines(lines, root, paths, count - 1, theme);
        let after = report::ignored_lines(lines, root, paths, count, theme);
        lemma_goes_on(lines, before, after);
        assert forall|i: int| 0 <= i < count implies after.contains(
            told_ignored(root, #[trigger] paths[i], theme),
        ) by {
            if i < count - 1 {
                lemma_kept(before, after, told_ignored(root, paths[i], theme));
            } else {
                assert(after[after.len() - 1] == told_ignored(root, paths[i], theme));
            }
        }
    }
}

/// Whether some lines tell what was left out of the advice.
pub open spec fn tells_safety(
    lines: Seq<Seq<char>>,
    policy: PolicySummaryView,
    theme: Theme,
    canvas: nat,
) -> bool {
    &&& policy.default_protections_enabled ==> measures(
        lines,
        "system defaults"@,
        "enabled"@,
        RecordTone::Positive,
        theme,
        canvas,
    )
    &&& !policy.default_protections_enabled ==> measures(
        lines,
        "system defaults"@,
        "disabled by user"@,
        RecordTone::Warning,
        theme,
        canvas,
    )
    &&& measures(
        lines,
        "ignored"@,
        text::decimal(policy.ignored_paths.len()) + " matched paths • "@ + text::decimal(
            policy.ignored_rule_count as nat,
        ) + " user rules • "@ + text::decimal(policy.automatic_ignore_rule_count as nat)
            + " automatic rules • not scanned"@,
        RecordTone::Text,
        theme,
        canvas,
    )
    &&& measures(
        lines,
        "protected"@,
        size::count_text(policy.protected_items as nat) + " scanned items • "@ + text::decimal(
            policy.protected_rule_count as nat,
        ) + " active rules"@,
        RecordTone::Text,
        theme,
        canvas,
    )
    &&& measures(
        lines,
        "advice withheld"@,
        size::count_text(policy.suppressed_recommendations as nat) + " recommendations • "@
            + size::count_text(policy.protected_duplicate_copies as nat) + " duplicate copies"@,
        RecordTone::Text,
        theme,
        canvas,
    )
}

proof fn lemma_safety(
    lines: Seq<Seq<char>>,
    policy: PolicySummaryView,
    more: Seq<Seq<char>>,
    theme: Theme,
    canvas: nat,
)
    requires
        goes_on(report::safety_metrics(lines, policy, theme, canvas), more),
    ensures
        goes_on(lines, report::safety_metrics(lines, policy, theme, canvas)),
        tells_safety(more, policy, theme, canvas),
{
    let (defaults, tone) = if policy.default_protections_enabled {
        ("enabled"@, RecordTone::Positive)
    } else {
        ("disabled by user"@, RecordTone::Warning)
    };
    let ignored = text::decimal(policy.ignored_paths.len()) + " matched paths • "@ + text::decimal(
        policy.ignored_rule_count as nat,
    ) + " user rules • "@ + text::decimal(policy.automatic_ignore_rule_count as nat)
        + " automatic rules • not scanned"@;
    let protected = size::count_text(policy.protected_items as nat) + " scanned items • "@
        + text::decimal(policy.protected_rule_count as nat) + " active rules"@;
    let withheld = size::count_text(policy.suppressed_recommendations as nat)
        + " recommendations • "@ + size::count_text(policy.protected_duplicate_copies as nat)
        + " duplicate copies"@;
    let a = sheet::metric(lines, "system defaults"@, defaults, tone, theme, canvas);
    let b = sheet::metric(a, "ignored"@, ignored, RecordTone::Text, theme, canvas);
    let c = sheet::metric(b, "protected"@, protected, RecordTone::Text, theme, canvas);
    let d = sheet::metric(c, "advice withheld"@, withheld, RecordTone::Text, theme, canvas);
    assert(d == report::safety_metrics(lines, policy, theme, canvas));
    lemma_measure(lines, "system defaults"@, defaults, tone, theme, canvas);
    lemma_measure(a, "ignored"@, ignored, RecordTone::Text, theme, canvas);
    lemma_measure(b, "protected"@, protected, RecordTone::Text, theme, canvas);
    lemma_measure(c, "advice withheld"@, withheld, RecordTone::Text, theme, canvas);
    lemma_goes_on(lines, a, b);
    lemma_goes_on(lines, b, c);
    lemma_goes_on(lines, c, d);
    lemma_goes_on(c, d, more);
    lemma_goes_on(b, c, more);
    lemma_goes_on(a, b, more);
    lemma_measures_on(a, more, "system defaults"@, defaults, tone, theme, canvas);
    lemma_measures_on(b, more, "ignored"@, ignored, RecordTone::Text, theme, canvas);
    lemma_measures_on(c, more, "protected"@, protected, RecordTone::Text, theme, canvas);
    lemma_measures_on(d, more, "advice withheld"@, withheld, RecordTone::Text, theme, canvas);
}

/// A report tells whether the system is protected, how many paths were ignored, how
/// many items were protected and how much advice was withheld for that; and the first
/// five paths that were ignored.
pub proof fn law_reports_tell_what_is_protected(
    told: ReportView,
    top: nat,
    min_size: u64,
    history: Option<i64>,
    theme: Theme,
    canvas: nat,
    place: int,
)
    ensures
        ({
            let all = report::report(told, top, min_size, history, theme, canvas);
            let paths = told.policy.ignored_paths;
            &&& tells_safety(all, told.policy, theme, canvas)
            &&& 0 <= place < paths.len() && place < 5 ==> all.contains(
                told_ignored(told.scan.root, paths[place], theme),
            )
            &&& paths.len() > 5 ==> all.contains(
                "      "@ + theme.as_muted(
                    "… "@ + text::decimal((paths.len() - 5) as nat) + " more ignored paths"@,
                ),
            )
        }),
{
    let all = report::report(told, top, min_size, history, theme, canvas);
    let root = told.scan.root;
    let policy = told.policy;
    let (before, _, _, _, _, _) = printouts::lemma_report(
        told,
        top,
        min_size,
        history,
        theme,
        canvas,
    );
    let measured = report::overview_metrics(
        printouts::report_opening(told, theme, canvas).push(""@),
        told.scan,
        told.ai,
        told.scan.warnings.len() + told.duplicates.warnings.len(),
        history,
        theme,
        canvas,
    );
    let head = sheet::section(
        measured,
        "02"@,
        "SAFETY"@,
        "Paths excluded from cleanup advice"@,
        theme,
        canvas,
    );
    let count = if policy.ignored_paths.len() < 5 {
        policy.ignored_paths.len() as int
    } else {
        5
    };
    let figures = report::safety_metrics(head, policy, theme, canvas);
    let listed = report::ignored_lines(figures, root, policy.ignored_paths, count, theme);
    lemma_ignored(figures, root, policy.ignored_paths, count, theme);
    assert(goes_on(listed, before));
    lemma_goes_on(listed, before, all);
    lemma_goes_on(figures, listed, all);
    lemma_safety(head, policy, all, theme, canvas);
    if 0 <= place < policy.ignored_paths.len() && place < 5 {
        lemma_kept(listed, all, told_ignored(root, policy.ignored_paths[place], theme));
    }
    if policy.ignored_paths.len() > 5 {
        assert(before[before.len() - 1] == before.last());
        lemma_kept(before, all, before.last());
    }
}

/// A report tells in its overview where was scanned, how much there was, in how many
/// files and folders, whether all of it could be read, and where it was saved.
pub proof fn law_reports_tell_what_was_scanned(
    told: ReportView,
    top: nat,
    min_size: u64,
    history: Option<i64>,
    theme: Theme,
    canvas: nat,
)
    ensures
        ({
            let all = report::report(told, top, min_size, history, theme, canvas);
            let scan = told.scan;
            let warnings = scan.warnings.len() + told.duplicates.warnings.len();
            &&& measures(
                all,
                "location"@,
                path::spelled(scan.root_spelling),
                RecordTone::Text,
                theme,
                canvas,
            )
            &&& measures(
                all,
                "space analyzed"@,
                size::bytes_text(scan.total_size_bytes as nat) + " logical"@,
                RecordTone::Text,
                theme,
                canvas,
            )
            &&& scan.total_allocated_size_bytes is Some ==> measures(
                all,
                "space on disk"@,
                size::bytes_text(scan.total_allocated_size_bytes->Some_0 as nat)
                    + " allocated"@,
                RecordTone::Text,
                theme,
                canvas,
            )
            &&& measures(
                all,
                "contents"@,
                size::count_text(scan.file_count as nat) + " files • "@ + size::count_text(
                    scan.directory_count as nat,
                ) + " folders"@,
                RecordTone::Text,
                theme,
                canvas,
            )
            &&& warnings == 0 ==> measures(
                all,
                "scan quality"@,
                "complete • no unreadable items"@,
                RecordTone::Positive,
                theme,
                canvas,
            )
            &&& warnings > 0 ==> measures(
                all,
                "scan quality"@,
                text::decimal(warnings) + " items skipped or changed"@,
                RecordTone::Warning,
                theme,
                canvas,
            )
            &&& history is Some ==> measures(
                all,
                "history"@,
                "saved locally as scan #"@ + storage::signed_decimal(history->Some_0),
                RecordTone::Positive,
                theme,
                canvas,
            )
        }),
{
    let all = report::report(told, top, min_size, history, theme, canvas);
    let scan = told.scan;
    let warnings = scan.warnings.len() + told.duplicates.warnings.len();
    let (before, _, _, _, _, _) = printouts::lemma_report(
        told,
        top,
        min_size,
        history,
        theme,
        canvas,
    );
    let begun = printouts::report_opening(told, theme, canvas).push(""@);
    let place = path::spelled(scan.root_spelling);
    let much = size::bytes_text(scan.total_size_bytes as nat) + " logical"@;
    let many = size::count_text(scan.file_count as nat) + " files • "@ + size::count_text(
        scan.directory_count as nat,
    ) + " folders"@;
    let (quality, tone) = if warnings == 0 {
        ("complete • no unreadable items"@, RecordTone::Positive)
    } else {
        (text::decimal(warnings) + " items skipped or changed"@, RecordTone::Warning)
    };
    let (kept, mood) = match history {
        Some(id) => (
            "saved locally as scan #"@ + storage::signed_decimal(id),
            RecordTone::Positive,
        ),
        None => ("disabled for this scan"@, RecordTone::Text),
    };
    let disk = size::bytes_text(scan.total_allocated_size_bytes->Some_0 as nat) + " allocated"@;
    let a = sheet::metric(begun, "location"@, place, RecordTone::Text, theme, canvas);
    let b = sheet::metric(a, "space analyzed"@, much, RecordTone::Text, theme, canvas);
    let c = if scan.total_allocated_size_bytes is Some {
        sheet::metric(b, "space on disk"@, disk, RecordTone::Text, theme, canvas)
    } else {
        b
    };
    let d = sheet::metric(c, "contents"@, many, RecordTone::Text, theme, canvas);
    let e = sheet::metric(d, "scan quality"@, quality, tone, theme, canvas);
    let f = sheet::metric(e, "history"@, kept, mood, theme, canvas);
    let g = report::overview_metrics(begun, scan, told.ai, warnings, history, theme, canvas);
    let (model, mark) = report::status_told(told.ai);
    assert(g == sheet::metric(f, "local AI"@, model, mark, theme, canvas));
    lemma_measure(begun, "location"@, place, RecordTone::Text, theme, canvas);
    lemma_measure(a, "space analyzed"@, much, RecordTone::Text, theme, canvas);
    lemma_measure(b, "space on disk"@, disk, RecordTone::Text, theme, canvas);
    lemma_measure(c, "contents"@, many, RecordTone::Text, theme, canvas);
    lemma_measure(d, "scan quality"@, quality, tone, theme, canvas);
    lemma_measure(e, "history"@, kept, mood, theme, canvas);
    lemma_measure(f, "local AI"@, model, mark, theme, canvas);
    let head = sheet::section(
        g,
        "02"@,
        "SAFETY"@,
        "Paths excluded from cleanup advice"@,
        theme,
        canvas,
    );
    printouts::lemma_section(
        g,
        "02"@,
        "SAFETY"@,
        "Paths excluded from cleanup advice"@,
        theme,
        canvas,
    );
    let policy = told.policy;
    let figures = report::safety_metrics(head, policy, theme, canvas);
    lemma_safety(head, policy, figures, theme, canvas);
    let count = if policy.ignored_paths.len() < 5 {
        policy.ignored_paths.len() as int
    } else {
        5
    };
    let listed = report::ignored_lines(figures, scan.root, policy.ignored_paths, count, theme);
    lemma_ignored(figures, scan.root, policy.ignored_paths, count, theme);
    assert(goes_on(listed, before));
    lemma_goes_on(listed, before, all);
    lemma_goes_on(figures, listed, all);
    lemma_goes_on(head, figures, all);
    lemma_goes_on(g, head, all);
    lemma_goes_on(f, g, all);
    lemma_goes_on(e, f, all);
    lemma_goes_on(d, e, all);
    lemma_goes_on(c, d, all);
    lemma_goes_on(b, c, all);
    lemma_goes_on(a, b, all);
    lemma_measures_on(a, all, "location"@, place, RecordTone::Text, theme, canvas);
    lemma_measures_on(b, all, "space analyzed"@, much, RecordTone::Text, theme, canvas);
    if scan.total_allocated_size_bytes is Some {
        lemma_measures_on(c, all, "space on disk"@, disk, RecordTone::Text, theme, canvas);
    }
    lemma_measures_on(d, all, "contents"@, many, RecordTone::Text, theme, canvas);
    lemma_measures_on(e, all, "scan quality"@, quality, tone, theme, canvas);
    lemma_measures_on(f, all, "history"@, kept, mood, theme, canvas);
}

} // verus!
