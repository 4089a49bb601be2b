//! What the review of an analysis and the list of earlier scans show.

use vstd::prelude::*;

use crate::canvas;
use crate::canvas::{TerminalLayout, Theme};
use crate::history;
use crate::labels;
use crate::menu;
use crate::menu::DirectoryChoiceView;
use crate::model::{EntryView, ExplanationView, GroupView, RelationshipView};
use crate::path;
use crate::path::PartView;
use crate::printouts::{goes_on, lemma_goes_on, lemma_kept, lemma_parts};
use crate::review;
use crate::review::ReviewSection;
use crate::sheet;
use crate::size;
use crate::storage;
use crate::storage::{ScanHistoryEntryView, StoredAnalysisView, StoredWarningView};
use crate::text;
use crate::width;

verus! {

/// The line of a figure: its label, and as much of its value from the end as there is
/// room for.
pub open spec fn told_figure(
    label: Seq<char>,
    value: Seq<char>,
    theme: Theme,
    canvas: nat,
) -> Seq<char> {
    "  "@ + theme.as_muted(text::padded_end(label, 18)) + "  "@ + theme.as_text(
        width::truncated_start(
            value,
            if canvas > 22 {
                (canvas - 22) as nat
            } else {
                1
            },
        ),
    )
}

/// Whether a text stands in some lines as a point, over as many lines as it takes.
pub open spec fn notes(lines: Seq<Seq<char>>, value: Seq<char>, theme: Theme, canvas: nat) -> bool {
    forall|k: int|
        0 <= k < width::wrapped(value, room(canvas)).len() ==> lines.contains(
            "    "@ + theme.as_accent(
                if k == 0 {
                    "•"@
                } else {
                    " "@
                },
            ) + " "@ + theme.as_muted(#[trigger] width::wrapped(value, room(canvas))[k]),
        )
}

/// The columns for a point.
pub open spec fn room(canvas: nat) -> nat {
    if canvas > 8 {
        (canvas - 8) as nat
    } else {
        1
    }
}

proof fn lemma_notes_on(
    lines: Seq<Seq<char>>,
    more: Seq<Seq<char>>,
    value: Seq<char>,
    theme: Theme,
    canvas: nat,
)
    requires
        goes_on(lines, more),
        notes(lines, value, theme, canvas),
    ensures
        notes(more, value, theme, canvas),
{
    assert forall|k: int|
        0 <= k < width::wrapped(value, room(canvas)).len() implies more.contains(
        "    "@ + theme.as_accent(
            if k == 0 {
                "•"@
            } else {
                " "@
            },
        ) + " "@ + theme.as_muted(#[trigger] width::wrapped(value, room(canvas))[k]),
    ) by {
        let line = "    "@ + theme.as_accent(
            if k == 0 {
                "•"@
            } else {
                " "@
            },
        ) + " "@ + theme.as_muted(width::wrapped(value, room(canvas))[k]);
        assert(lines.contains(line));
        lemma_kept(lines, more, line);
    }
}

proof fn lemma_note(lines: Seq<Seq<char>>, value: Seq<char>, theme: Theme, canvas: nat)
    ensures
        goes_on(lines, review::review_bullet(lines, value, theme, canvas)),
        notes(review::review_bullet(lines, value, theme, canvas), value, theme, canvas),
{
    let parts = width::wrapped(value, room(canvas));
    let shape = sheet::bullet_shape("    "@, theme);
    lemma_parts(lines, parts, parts.len() as int, shape);
    let after = review::review_bullet(lines, value, theme, canvas);
    assert(after == sheet::with_parts(lines, parts, parts.len() as int, shape));
    assert forall|k: int| 0 <= k < parts.len() implies after.contains(
        "    "@ + theme.as_accent(
            if k == 0 {
                "•"@
            } else {
                " "@
            },
        ) + " "@ + theme.as_muted(#[trigger] parts[k]),
    ) by {
        assert(after.contains(shape(k, parts[k])));
    }
}

proof fn lemma_readable(
    lines: Seq<Seq<char>>,
    evidence: Seq<Seq<char>>,
    count: int,
    theme: Theme,
    canvas: nat,
)
    requires
        0 <= count <= evidence.len(),
    ensures
        goes_on(lines, review::readable_evidence(lines, evidence, count, theme, canvas)),
        forall|e: int|
            0 <= e < count ==> notes(
                review::readable_evidence(lines, evidence, count, theme, canvas),
                size::humanized(#[trigger] evidence[e]),
                theme,
                canvas,
            ),
    decreases count,
{
    if count > 0 {
        lemma_readable(lines, evidence, count - 1, theme, canvas);
        let before = review::readable_evidence(lines, evidence, count - 1, theme, canvas);
        let after = review::readable_evidence(lines, evidence, count, theme, canvas);
        lemma_note(before, size::humanized(evidence[count - 1]), theme, canvas);
        lemma_goes_on(lines, before, after);
        assert forall|e: int| 0 <= e < count implies notes(
            after,
            size::humanized(#[trigger] evidence[e]),
            theme,
            canvas,
        ) by {
            if e < count - 1 {
                lemma_notes_on(before, after, size::humanized(evidence[e]), theme, canvas);
            }
        }
    }
}

proof fn lemma_plain(
    lines: Seq<Seq<char>>,
    evidence: Seq<Seq<char>>,
    count: int,
    theme: Theme,
    canvas: nat,
)
    requires
        0 <= count <= evidence.len(),
    ensures
        goes_on(lines, review::plain_evidence(lines, evidence, count, theme, canvas)),
        forall|e: int|
            0 <= e < count ==> notes(
                review::plain_evidence(lines, evidence, count, theme, canvas),
                #[trigger] evidence[e],
                theme,
                canvas,
            ),
    decreases count,
{
    if count > 0 {
        lemma_plain(lines, evidence, count - 1, theme, canvas);
        let before = review::plain_evidence(lines, evidence, count - 1, theme, canvas);
        let after = review::plain_evidence(lines, evidence, count, theme, canvas);
        lemma_note(before, evidence[count - 1], theme, canvas);
        lemma_goes_on(lines, before, after);
        assert forall|e: int| 0 <= e < count implies notes(
            after,
            #[trigger] evidence[e],
            theme,
            canvas,
        ) by {
            if e < count - 1 {
                lemma_notes_on(before, after, evidence[e], theme, canvas);
            }
        }
    }
}

proof fn lemma_finding_rows(
    lines: Seq<Seq<char>>,
    analysis: StoredAnalysisView,
    start: int,
    end: int,
    selected: nat,
    theme: Theme,
    canvas: nat,
)
    ensures
        goes_on(lines, review::finding_rows(lines, analysis, start, end, selected, theme, canvas)),
        start <= selected < end ==> review::finding_rows(
            lines,
            analysis, start,
            end,
            selected,
            theme,
            canvas,
        ).contains("  "@ + theme.as_selected(review::finding_row(analysis.summary.root, analysis.findings[selected as int], true, canvas))),
    decreases end - start,
{
    if end > start {
        lemma_finding_rows(lines, analysis, start, end - 1, selected, theme, canvas);
        let before = review::finding_rows(lines, analysis, start, end - 1, selected, theme, canvas);
        let after = review::finding_rows(lines, analysis, start, end, selected, theme, canvas);
        lemma_goes_on(lines, before, after);
        if start <= selected < end - 1 {
            lemma_kept(before, after, "  "@ + theme.as_selected(review::finding_row(analysis.summary.root, analysis.findings[selected as int], true, canvas)));
        } else if selected == end - 1 {
            assert(after[after.len() - 1] == "  "@ + theme.as_selected(review::finding_row(analysis.summary.root, analysis.findings[selected as int], true, canvas)));
        }
    }
}

proof fn lemma_group_rows(
    lines: Seq<Seq<char>>,
    groups: Seq<GroupView>,
    start: int,
    end: int,
    selected: nat,
    theme: Theme,
    canvas: nat,
)
    ensures
        goes_on(lines, review::group_rows(lines, groups, start, end, selected, theme, canvas)),
        start <= selected < end ==> review::group_rows(
            lines,
            groups, start,
            end,
            selected,
            theme,
            canvas,
        ).contains("  "@ + theme.as_selected(review::group_row(groups[selected as int], true, canvas))),
    decreases end - start,
{
    if end > start {
        lemma_group_rows(lines, groups, start, end - 1, selected, theme, canvas);
        let before = review::group_rows(lines, groups, start, end - 1, selected, theme, canvas);
        let after = review::group_rows(lines, groups, start, end, selected, theme, canvas);
        lemma_goes_on(lines, before, after);
        if start <= selected < end - 1 {
            lemma_kept(before, after, "  "@ + theme.as_selected(review::group_row(groups[selected as int], true, canvas)));
        } else if selected == end - 1 {
            assert(after[after.len() - 1] == "  "@ + theme.as_selected(review::group_row(groups[selected as int], true, canvas)));
        }
    }
}

proof fn lemma_relationship_rows(
    lines: Seq<Seq<char>>,
    root: Seq<PartView>,
    list: Seq<RelationshipView>,
    start: int,
    end: int,
    selected: nat,
    theme: Theme,
    canvas: nat,
)
    ensures
        goes_on(lines, review::relationship_rows(lines, root, list, start, end, selected, theme, canvas)),
        start <= selected < end ==> review::relationship_rows(
            lines,
            root, list, start,
            end,
            selected,
            theme,
            canvas,
        ).contains("  "@ + theme.as_selected(review::relationship_row(root, list[selected as int], true, canvas))),
    decreases end - start,
{
    if end > start {
        lemma_relationship_rows(lines, root, list, start, end - 1, selected, theme, canvas);
        let before = review::relationship_rows(lines, root, list, start, end - 1, selected, theme, canvas);
        let after = review::relationship_rows(lines, root, list, start, end, selected, theme, canvas);
        lemma_goes_on(lines, before, after);
        if start <= selected < end - 1 {
            lemma_kept(before, after, "  "@ + theme.as_selected(review::relationship_row(root, list[selected as int], true, canvas)));
        } else if selected == end - 1 {
            assert(after[after.len() - 1] == "  "@ + theme.as_selected(review::relationship_row(root, list[selected as int], true, canvas)));
        }
    }
}

proof fn lemma_warning_rows(
    lines: Seq<Seq<char>>,
    root: Seq<PartView>,
    list: Seq<StoredWarningView>,
    start: int,
    end: int,
    selected: nat,
    theme: Theme,
    canvas: nat,
)
    ensures
        goes_on(lines, review::warning_rows(lines, root, list, start, end, selected, theme, canvas)),
        start <= selected < end ==> review::warning_rows(
            lines,
            root, list, start,
            end,
            selected,
            theme,
            canvas,
        ).contains("  "@ + theme.as_selected(review::warning_row(root, list[selected as int], true, canvas))),
    decreases end - start,
{
    if end > start {
        lemma_warning_rows(lines, root, list, start, end - 1, selected, theme, canvas);
        let before = review::warning_rows(lines, root, list, start, end - 1, selected, theme, canvas);
        let after = review::warning_rows(lines, root, list, start, end, selected, theme, canvas);
        lemma_goes_on(lines, before, after);
        if start <= selected < end - 1 {
            lemma_kept(before, after, "  "@ + theme.as_selected(review::warning_row(root, list[selected as int], true, canvas)));
        } else if selected == end - 1 {
            assert(after[after.len() - 1] == "  "@ + theme.as_selected(review::warning_row(root, list[selected as int], true, canvas)));
        }
    }
}

proof fn lemma_browser_rows(
    lines: Seq<Seq<char>>,
    list: Seq<ScanHistoryEntryView>,
    start: int,
    end: int,
    selected: nat,
    theme: Theme,
    canvas: nat,
)
    ensures
        goes_on(lines, history::browser_rows(lines, list, start, end, selected, theme, canvas)),
        start <= selected < end ==> history::browser_rows(
            lines,
            list, start,
            end,
            selected,
            theme,
            canvas,
        ).contains("  "@ + theme.as_selected(history::browser_row(list[selected as int], true, canvas))),
    decreases end - start,
{
    if end > start {
        lemma_browser_rows(lines, list, start, end - 1, selected, theme, canvas);
        let before = history::browser_rows(lines, list, start, end - 1, selected, theme, canvas);
        let after = history::browser_rows(lines, list, start, end, selected, theme, canvas);
        lemma_goes_on(lines, before, after);
        if start <= selected < end - 1 {
            lemma_kept(before, after, "  "@ + theme.as_selected(history::browser_row(list[selected as int], true, canvas)));
        } else if selected == end - 1 {
            assert(after[after.len() - 1] == "  "@ + theme.as_selected(history::browser_row(list[selected as int], true, canvas)));
        }
    }
}

/// The lines of a review above the part that is open, and those below it.
proof fn lemma_screen(
    analysis: StoredAnalysisView,
    section: ReviewSection,
    selected: nat,
    theme: Theme,
    layout: TerminalLayout,
) -> (stages: (Seq<Seq<char>>, Seq<Seq<char>>))
    ensures
        stages.1 == review::section_body(stages.0, analysis, section, selected, theme, layout),
        goes_on(stages.1, review::review_screen(analysis, section, selected, theme, layout)),
{
    let canvas = layout.width as nat;
    let summary = analysis.summary;
    let top = canvas::header(theme, "REVIEW"@, canvas).push(
        "  "@ + theme.as_accent("scan #"@ + storage::signed_decimal(summary.id)) + "  "@
            + theme.as_muted(
            width::truncated_start(path::spelled(summary.root_spelling), width::less(canvas, 16)),
        ),
    ).push(
        review::lead(
            size::bytes_text(summary.total_size_bytes as nat) + " analyzed • "@ + text::decimal(
                summary.recommendation_count as nat,
            ) + " recommendations • nothing changed"@,
            theme,
            canvas,
        ),
    ).push(""@).push(review::tabs(section, 5, theme, canvas)).push(
        "  "@ + canvas::rule(theme, canvas, 4),
    );
    let body = review::section_body(top, analysis, section, selected, theme, layout);
    (top, body)
}

proof fn lemma_found(explanations: Seq<ExplanationView>, given: Seq<PartView>, from: int)
    requires
        0 <= from <= explanations.len(),
    ensures
        review::explanation_of(explanations, given, from) is None ==> forall|i: int|
            from <= i < explanations.len() ==> (#[trigger] explanations[i]).path != given,
        review::explanation_of(explanations, given, from) is Some ==> exists|i: int|
            {
                &&& from <= i < explanations.len()
                &&& #[trigger] explanations[i] == review::explanation_of(
                    explanations,
                    given,
                    from,
                )->Some_0
                &&& explanations[i].path == given
                &&& forall|k: int| from <= k < i ==> (#[trigger] explanations[k]).path != given
            },
    decreases explanations.len() - from,
{
    if from < explanations.len() && explanations[from].path != given {
        lemma_found(explanations, given, from + 1);
        if review::explanation_of(explanations, given, from) is Some {
            let i = choose|i: int|
                {
                    &&& from + 1 <= i < explanations.len()
                    &&& #[trigger] explanations[i] == review::explanation_of(
                        explanations,
                        given,
                        from + 1,
                    )->Some_0
                    &&& explanations[i].path == given
                    &&& forall|k: int|
                        from + 1 <= k < i ==> (#[trigger] explanations[k]).path != given
                };
            assert(explanations[i] == review::explanation_of(explanations, given, from)->Some_0);
        }
    }
}

/// A path has the first explanation that was given of it, and none where none was.
pub proof fn law_explanations_are_found_by_their_path(
    explanations: Seq<ExplanationView>,
    given: Seq<PartView>,
)
    ensures
        review::explanation_of(explanations, given, 0) is None <==> forall|i: int|
            0 <= i < explanations.len() ==> (#[trigger] explanations[i]).path != given,
        forall|i: int|
            {
                &&& 0 <= i < explanations.len()
                &&& (#[trigger] explanations[i]).path == given
                &&& forall|k: int| 0 <= k < i ==> (#[trigger] explanations[k]).path != given
            } ==> review::explanation_of(explanations, given, 0) == Some(explanations[i]),
{
    lemma_found(explanations, given, 0);
}

/// The review shows the row of the selected recommendation set off, and below the list
/// what it is about, what may be won at what risk, what to do, and the whole evidence;
/// and what a model made of it.
pub proof fn law_the_selected_recommendation_is_shown(
    analysis: StoredAnalysisView,
    selected: nat,
    theme: Theme,
    layout: TerminalLayout,
)
    requires
        selected < analysis.findings.len(),
    ensures
        ({
            let lines = review::review_screen(
                analysis,
                ReviewSection::Recommendations,
                selected,
                theme,
                layout,
            );
            let canvas = layout.width as nat;
            let root = analysis.summary.root;
            let finding = analysis.findings[selected as int];
            &&& lines.contains(
                "  "@ + theme.as_selected(review::finding_row(root, finding, true, canvas)),
            )
            &&& lines.contains(
                told_figure("item"@, path::relative_shown(root, finding.spelling), theme, canvas),
            )
            &&& lines.contains(
                told_figure(
                    "potential space"@,
                    size::bytes_text(finding.potential_recovery_bytes as nat),
                    theme,
                    canvas,
                ),
            )
            &&& lines.contains(
                told_figure(
                    "risk / confidence"@,
                    labels::label_of_risk(finding.risk) + " / "@
                        + finding.confidence.spec_percent() + "%"@,
                    theme,
                    canvas,
                ),
            )
            &&& lines.contains(
                told_figure(
                    "next step"@,
                    labels::label_of_action(finding.suggested_action),
                    theme,
                    canvas,
                ),
            )
            &&& forall|e: int|
                0 <= e < finding.evidence.len() ==> notes(
                    lines,
                    size::humanized(#[trigger] finding.evidence[e]),
                    theme,
                    canvas,
                )
            &&& review::explanation_of(analysis.ai_explanations, finding.path, 0) is Some
                ==> notes(
                lines,
                review::explanation_of(analysis.ai_explanations, finding.path, 0)->Some_0.reason,
                theme,
                canvas,
            )
        }),
{
    let section = ReviewSection::Recommendations;
    let lines = review::review_screen(analysis, section, selected, theme, layout);
    let canvas = layout.width as nat;
    let root = analysis.summary.root;
    let finding = analysis.findings[selected as int];
    let (top, body) = lemma_screen(analysis, section, selected, theme, layout);
    let visible = review::list_height(layout.rows as nat);
    let total = analysis.findings.len();
    history::law_the_selected_row_is_visible(selected, total, visible);
    let begun = top.push(
        review::lead(
            "Safest and clearest candidates appear first — size is not the only factor"@,
            theme,
            canvas,
        ),
    );
    let start = history::window_start(selected, total, visible) as int;
    let end = history::window_end(selected, total, visible) as int;
    let rows = review::finding_rows(begun, analysis, start, end, selected, theme, canvas);
    lemma_finding_rows(begun, analysis, start, end, selected, theme, canvas);
    let head = rows.push(""@).push(
        if canvas >= 48 {
            "  "@ + theme.as_accent("WHY REVIEW THIS"@) + "  "@ + theme.as_muted(
                "deterministic evidence"@,
            )
        } else {
            "  "@ + theme.as_accent("WHY REVIEW THIS"@)
        },
    );
    let item = told_figure("item"@, path::relative_shown(root, finding.spelling), theme, canvas);
    let space = told_figure(
        "potential space"@,
        size::bytes_text(finding.potential_recovery_bytes as nat),
        theme,
        canvas,
    );
    let risk = told_figure(
        "risk / confidence"@,
        labels::label_of_risk(finding.risk) + " / "@ + finding.confidence.spec_percent() + "%"@,
        theme,
        canvas,
    );
    let step = told_figure(
        "next step"@,
        labels::label_of_action(finding.suggested_action),
        theme,
        canvas,
    );
    let figures = head.push(item).push(space).push(risk).push(step).push(
        told_figure(
            "guidance"@,
            labels::guidance(finding.risk, finding.suggested_action),
            theme,
            canvas,
        ),
    );
    let count = finding.evidence.len() as int;
    let evident = review::readable_evidence(figures, finding.evidence, count, theme, canvas);
    lemma_readable(figures, finding.evidence, count, theme, canvas);
    let explained = review::explanation_of(analysis.ai_explanations, finding.path, 0);
    if explained is Some {
        let titled = evident.push(
            if canvas >= 58 {
                "  "@ + theme.as_accent("LOCAL AI"@) + "  "@ + theme.as_muted(
                    "context only • never deletion permission"@,
                )
            } else {
                "  "@ + theme.as_accent("LOCAL AI • ADVISORY"@)
            },
        );
        lemma_note(titled, explained->Some_0.reason, theme, canvas);
        assert(body == review::review_bullet(titled, explained->Some_0.reason, theme, canvas));
        lemma_goes_on(evident, titled, body);
        lemma_notes_on(body, lines, explained->Some_0.reason, theme, canvas);
    } else {
        assert(body == evident);
    }
    assert(goes_on(rows, figures));
    lemma_goes_on(evident, body, lines);
    lemma_goes_on(figures, evident, lines);
    lemma_goes_on(rows, figures, lines);
    lemma_kept(
        rows,
        lines,
        "  "@ + theme.as_selected(review::finding_row(root, finding, true, canvas)),
    );
    let at = head.len() as int;
    assert(figures[at] == item && figures[at + 1] == space && figures[at + 2] == risk && figures[at
        + 3] == step);
    lemma_kept(figures, lines, item);
    lemma_kept(figures, lines, space);
    lemma_kept(figures, lines, risk);
    lemma_kept(figures, lines, step);
    assert forall|e: int| 0 <= e < finding.evidence.len() implies notes(
        lines,
        size::humanized(#[trigger] finding.evidence[e]),
        theme,
        canvas,
    ) by {
        lemma_notes_on(evident, lines, size::humanized(finding.evidence[e]), theme, canvas);
    }
}

/// How a copy is told: where it stands, and that it is protected.
pub open spec fn told_copy(root: Seq<PartView>, entry: EntryView) -> Seq<char> {
    path::relative_shown(root, entry.spelling) + (if entry.protected {
        "  [protected]"@
    } else {
        ""@
    })
}

proof fn lemma_files(
    lines: Seq<Seq<char>>,
    root: Seq<PartView>,
    entries: Seq<EntryView>,
    count: int,
    theme: Theme,
    canvas: nat,
)
    requires
        0 <= count <= entries.len(),
    ensures
        goes_on(lines, review::group_files(lines, root, entries, count, theme, canvas)),
        forall|e: int|
            0 <= e < count ==> notes(
                review::group_files(lines, root, entries, count, theme, canvas),
                told_copy(root, #[trigger] entries[e]),
                theme,
                canvas,
            ),
    decreases count,
{
    if count > 0 {
        lemma_files(lines, root, entries, count - 1, theme, canvas);
        let before = review::group_files(lines, root, entries, count - 1, theme, canvas);
        let after = review::group_files(lines, root, entries, count, theme, canvas);
        lemma_note(before, told_copy(root, entries[count - 1]), theme, canvas);
        lemma_goes_on(lines, before, after);
        assert forall|e: int| 0 <= e < count implies notes(
            after,
            told_copy(root, #[trigger] entries[e]),
            theme,
            canvas,
        ) by {
            if e < count - 1 {
                lemma_notes_on(before, after, told_copy(root, entries[e]), theme, canvas);
            }
        }
    }
}

/// The review shows the row of the selected group of duplicates set off, and below the
/// list its first six copies.
pub proof fn law_the_selected_group_is_shown(
    analysis: StoredAnalysisView,
    selected: nat,
    theme: Theme,
    layout: TerminalLayout,
)
    requires
        selected < analysis.duplicate_groups.len(),
    ensures
        ({
            let lines = review::review_screen(
                analysis,
                ReviewSection::Duplicates,
                selected,
                theme,
                layout,
            );
            let canvas = layout.width as nat;
            let group = analysis.duplicate_groups[selected as int];
            &&& lines.contains("  "@ + theme.as_selected(review::group_row(group, true, canvas)))
            &&& forall|e: int|
                0 <= e < group.entries.len() && e < 6 ==> notes(
                    lines,
                    told_copy(analysis.summary.root, #[trigger] group.entries[e]),
                    theme,
                    canvas,
                )
        }),
{
    let section = ReviewSection::Duplicates;
    let lines = review::review_screen(analysis, section, selected, theme, layout);
    let canvas = layout.width as nat;
    let root = analysis.summary.root;
    let groups = analysis.duplicate_groups;
    let group = groups[selected as int];
    let (top, body) = lemma_screen(analysis, section, selected, theme, layout);
    let visible = review::list_height(layout.rows as nat);
    history::law_the_selected_row_is_visible(selected, groups.len(), visible);
    let begun = top.push(
        review::lead(
            "Exact byte-for-byte matches; keep at least one physical copy"@,
            theme,
            canvas,
        ),
    );
    let start = history::window_start(selected, groups.len(), visible) as int;
    let end = history::window_end(selected, groups.len(), visible) as int;
    let rows = review::group_rows(begun, groups, start, end, selected, theme, canvas);
    lemma_group_rows(begun, groups, start, end, selected, theme, canvas);
    let titled = rows.push(""@).push("  "@ + theme.as_accent("FILES IN THIS GROUP"@));
    let count = if group.entries.len() < 6 {
        group.entries.len() as int
    } else {
        6
    };
    lemma_files(titled, root, group.entries, count, theme, canvas);
    assert(body == review::group_files(titled, root, group.entries, count, theme, canvas));
    assert(goes_on(rows, titled));
    lemma_goes_on(rows, titled, body);
    lemma_goes_on(rows, body, lines);
    lemma_kept(rows, lines, "  "@ + theme.as_selected(review::group_row(group, true, canvas)));
    assert forall|e: int| 0 <= e < group.entries.len() && e < 6 implies notes(
        lines,
        told_copy(root, #[trigger] group.entries[e]),
        theme,
        canvas,
    ) by {
        lemma_notes_on(body, lines, told_copy(root, group.entries[e]), theme, canvas);
    }
}

/// The review shows the row of the selected relationship set off, and below the list
/// which items it connects, how sure that is, and the whole evidence.
pub proof fn law_the_selected_relationship_is_shown(
    analysis: StoredAnalysisView,
    selected: nat,
    theme: Theme,
    layout: TerminalLayout,
)
    requires
        selected < analysis.relationships.len(),
    ensures
        ({
            let lines = review::review_screen(
                analysis,
                ReviewSection::Relationships,
                selected,
                theme,
                layout,
            );
            let canvas = layout.width as nat;
            let root = analysis.summary.root;
            let one = analysis.relationships[selected as int];
            &&& lines.contains(
                "  "@ + theme.as_selected(review::relationship_row(root, one, true, canvas)),
            )
            &&& lines.contains(
                told_figure(
                    "source"@,
                    path::relative_shown(root, one.source_spelling),
                    theme,
                    canvas,
                ),
            )
            &&& lines.contains(
                told_figure(
                    "related"@,
                    path::relative_shown(root, one.target_spelling),
                    theme,
                    canvas,
                ),
            )
            &&& lines.contains(
                told_figure(
                    "confidence"@,
                    one.confidence.spec_percent() + "%"@,
                    theme,
                    canvas,
                ),
            )
            &&& forall|e: int|
                0 <= e < one.evidence.len() ==> notes(
                    lines,
                    #[trigger] one.evidence[e],
                    theme,
                    canvas,
                )
        }),
{
    let section = ReviewSection::Relationships;
    let lines = review::review_screen(analysis, section, selected, theme, layout);
    let canvas = layout.width as nat;
    let root = analysis.summary.root;
    let list = analysis.relationships;
    let one = list[selected as int];
    let (top, body) = lemma_screen(analysis, section, selected, theme, layout);
    let visible = review::list_height(layout.rows as nat);
    history::law_the_selected_row_is_visible(selected, list.len(), visible);
    let begun = top.push(
        review::lead("Connections are evidence, never permission to delete"@, theme, canvas),
    );
    let start = history::window_start(selected, list.len(), visible) as int;
    let end = history::window_end(selected, list.len(), visible) as int;
    let rows = review::relationship_rows(begun, root, list, start, end, selected, theme, canvas);
    lemma_relationship_rows(begun, root, list, start, end, selected, theme, canvas);
    let source = told_figure(
        "source"@,
        path::relative_shown(root, one.source_spelling),
        theme,
        canvas,
    );
    let target = told_figure(
        "related"@,
        path::relative_shown(root, one.target_spelling),
        theme,
        canvas,
    );
    let sure = told_figure("confidence"@, one.confidence.spec_percent() + "%"@, theme, canvas);
    let titled = rows.push(""@).push("  "@ + theme.as_accent("CONNECTED ITEMS"@));
    let figures = titled.push(source).push(target).push(sure);
    let count = one.evidence.len() as int;
    lemma_plain(figures, one.evidence, count, theme, canvas);
    assert(body == review::plain_evidence(figures, one.evidence, count, theme, canvas));
    assert(goes_on(rows, figures));
    lemma_goes_on(figures, body, lines);
    lemma_goes_on(rows, figures, lines);
    lemma_kept(
        rows,
        lines,
        "  "@ + theme.as_selected(review::relationship_row(root, one, true, canvas)),
    );
    let at = titled.len() as int;
    assert(figures[at] == source && figures[at + 1] == target && figures[at + 2] == sure);
    lemma_kept(figures, lines, source);
    lemma_kept(figures, lines, target);
    lemma_kept(figures, lines, sure);
    assert forall|e: int| 0 <= e < one.evidence.len() implies notes(
        lines,
        #[trigger] one.evidence[e],
        theme,
        canvas,
    ) by {
        lemma_notes_on(body, lines, one.evidence[e], theme, canvas);
    }
}

/// The review shows the row of the selected warning set off, and below the list what
/// happened; and where nothing was warned of it says so.
pub proof fn law_the_selected_warning_is_shown(
    analysis: StoredAnalysisView,
    selected: nat,
    theme: Theme,
    layout: TerminalLayout,
)
    ensures
        ({
            let lines = review::review_screen(
                analysis,
                ReviewSection::Warnings,
                selected,
                theme,
                layout,
            );
            let canvas = layout.width as nat;
            let list = analysis.warnings;
            &&& analysis.summary.warning_count == 0 ==> lines.contains(
                "  "@ + theme.as_green("✓"@) + " "@ + theme.as_text(
                    width::truncated_end(
                        "The scan completed without skipped or changing files."@,
                        if canvas > 6 {
                            (canvas - 6) as nat
                        } else {
                            0
                        },
                    ),
                ),
            )
            &&& analysis.summary.warning_count > 0 && selected < list.len() ==> {
                &&& lines.contains(
                    "  "@ + theme.as_selected(
                        review::warning_row(
                            analysis.summary.root,
                            list[selected as int],
                            true,
                            canvas,
                        ),
                    ),
                )
                &&& notes(lines, list[selected as int].message, theme, canvas)
            }
        }),
{
    let section = ReviewSection::Warnings;
    let lines = review::review_screen(analysis, section, selected, theme, layout);
    let canvas = layout.width as nat;
    let root = analysis.summary.root;
    let list = analysis.warnings;
    let (top, body) = lemma_screen(analysis, section, selected, theme, layout);
    if analysis.summary.warning_count == 0 {
        assert(body[body.len() - 1] == body.last());
        lemma_kept(body, lines, body.last());
    } else if selected < list.len() {
        let one = list[selected as int];
        let visible = review::list_height(layout.rows as nat);
        history::law_the_selected_row_is_visible(selected, list.len(), visible);
        let begun = top.push(
            review::lead(
                "Skipped or changing items; the rest of the scan remains usable"@,
                theme,
                canvas,
            ),
        );
        let start = history::window_start(selected, list.len(), visible) as int;
        let end = history::window_end(selected, list.len(), visible) as int;
        let rows = review::warning_rows(begun, root, list, start, end, selected, theme, canvas);
        lemma_warning_rows(begun, root, list, start, end, selected, theme, canvas);
        let titled = rows.push(""@).push("  "@ + theme.as_accent("WHAT HAPPENED"@));
        let told = review::review_bullet(titled, one.message, theme, canvas);
        lemma_note(titled, one.message, theme, canvas);
        assert(goes_on(rows, titled));
        assert(goes_on(told, body));
        lemma_goes_on(told, body, lines);
        lemma_goes_on(titled, told, lines);
        lemma_goes_on(rows, titled, lines);
        lemma_notes_on(told, lines, one.message, theme, canvas);
        lemma_kept(
            rows,
            lines,
            "  "@ + theme.as_selected(review::warning_row(root, one, true, canvas)),
        );
    }
}

/// The list of earlier scans shows the row of the selected one set off, and below the
/// list how much it recommended and found, and how long ago it was completed.
pub proof fn law_the_selected_scan_is_shown(
    list: Seq<ScanHistoryEntryView>,
    selected: nat,
    database: Seq<u8>,
    now: nat,
    theme: Theme,
    layout: TerminalLayout,
)
    requires
        selected < list.len(),
    ensures
        ({
            let lines = history::browser_screen(list, selected, database, now, theme, layout);
            let canvas = layout.width as nat;
            let entry = list[selected as int];
            let parts = width::wrapped(
                text::decimal(entry.recommendation_count as nat) + " recommendations • "@
                    + text::decimal(entry.duplicate_group_count as nat)
                    + " duplicate groups • "@ + text::decimal(entry.relationship_count as nat)
                    + " relationships"@,
                width::less(canvas, 14),
            );
            &&& lines.contains(
                "  "@ + theme.as_selected(history::browser_row(entry, true, canvas)),
            )
            &&& forall|k: int|
                0 <= k < parts.len() ==> lines.contains(
                    "  "@ + theme.as_accent(
                        text::padded_end(
                            if k == 0 {
                                "selected"@
                            } else {
                                ""@
                            },
                            8,
                        ),
                    ) + "  "@ + theme.as_text(#[trigger] parts[k]),
                )
            &&& lines.contains(
                "  "@ + theme.as_muted(
                    "completed "@ + size::age_text(entry.completed_at_epoch_seconds as nat, now),
                ),
            )
        }),
{
    let lines = history::browser_screen(list, selected, database, now, theme, layout);
    let canvas = layout.width as nat;
    let entry = list[selected as int];
    let top = canvas::header(theme, "HISTORY"@, canvas).push(""@).push(
        "  "@ + theme.as_text(
            width::truncated_end(
                "Open a previous scan and continue reviewing its results"@,
                width::less(canvas, 2),
            ),
        ),
    ).push(
        "  "@ + theme.as_muted(
            width::truncated_start(path::spelled(database), width::less(canvas, 2)),
        ),
    ).push("  "@ + canvas::rule(theme, canvas, 4));
    let visible = history::browser_height(layout.rows as nat);
    history::law_the_selected_row_is_visible(selected, list.len(), visible);
    let start = history::window_start(selected, list.len(), visible) as int;
    let end = history::window_end(selected, list.len(), visible) as int;
    let rows = history::browser_rows(top, list, start, end, selected, theme, canvas);
    lemma_browser_rows(top, list, start, end, selected, theme, canvas);
    let parts = width::wrapped(history::results_summary(entry), width::less(canvas, 14));
    let shape = history::summary_shape(theme);
    let begun = rows.push(""@);
    let summed = sheet::with_parts(begun, parts, parts.len() as int, shape);
    lemma_parts(begun, parts, parts.len() as int, shape);
    let body = history::selected_summary(rows, entry, now, theme, canvas);
    assert(goes_on(summed, body));
    assert(goes_on(body, lines));
    lemma_goes_on(summed, body, lines);
    lemma_goes_on(begun, summed, lines);
    lemma_goes_on(rows, begun, lines);
    lemma_kept(
        rows,
        lines,
        "  "@ + theme.as_selected(history::browser_row(entry, true, canvas)),
    );
    assert forall|k: int| 0 <= k < parts.len() implies lines.contains(
        "  "@ + theme.as_accent(
            text::padded_end(
                if k == 0 {
                    "selected"@
                } else {
                    ""@
                },
                8,
            ),
        ) + "  "@ + theme.as_text(#[trigger] parts[k]),
    ) by {
        assert(summed.contains(shape(k, parts[k])));
        lemma_kept(summed, lines, shape(k, parts[k]));
    }
    assert(body[body.len() - 1] == body.last());
    lemma_kept(body, lines, body.last());
}

proof fn lemma_ascii(hash: Seq<char>, bytes: nat)
    requires
        forall|i: int| 0 <= i < hash.len() ==> (#[trigger] hash[i] as u32) < 0x80,
    ensures
        review::fitting(hash, bytes) == if hash.len() < bytes {
            hash.len()
        } else {
            bytes
        },
    decreases hash.len(),
{
    if hash.len() > 0 && bytes > 0 {
        let rest = hash.drop_first();
        assert forall|i: int| 0 <= i < rest.len() implies (#[trigger] rest[i] as u32) < 0x80 by {
            assert(rest[i] == hash[i + 1]);
        }
        assert((hash[0] as u32) < 0x80);
        lemma_ascii(rest, (bytes - 1) as nat);
    }
}

/// A hash is told by its first twelve characters.
pub proof fn law_hashes_are_told_by_their_beginning(hash: Seq<char>)
    requires
        forall|i: int| 0 <= i < hash.len() ==> (#[trigger] hash[i] as u32) < 0x80,
    ensures
        review::short_hash(hash) == hash.take(
            if hash.len() < 12 {
                hash.len() as int
            } else {
                12
            },
        ),
{
    lemma_ascii(hash, 12);
}

proof fn lemma_choices(
    lines: Seq<Seq<char>>,
    choices: Seq<DirectoryChoiceView>,
    count: int,
    selected: nat,
    theme: Theme,
    canvas: nat,
)
    requires
        0 <= count <= choices.len(),
    ensures
        goes_on(lines, menu::choice_lines(lines, choices, count, selected, theme, canvas)),
        forall|i: int|
            0 <= i < count ==> menu::choice_lines(
                lines,
                choices,
                count,
                selected,
                theme,
                canvas,
            ).contains(
                menu::choice_line(
                    theme,
                    (i + 1) as nat,
                    (#[trigger] choices[i]).label,
                    width::truncated_start(
                        path::spelled(choices[i].given.spelling),
                        menu::selector_path_width(canvas),
                    ),
                    menu::selector_label_width(canvas),
                    selected == i,
                ),
            ),
    decreases count,
{
    if count > 0 {
        lemma_choices(lines, choices, count - 1, selected, theme, canvas);
        let before = menu::choice_lines(lines, choices, count - 1, selected, theme, canvas);
        let after = menu::choice_lines(lines, choices, count, selected, theme, canvas);
        lemma_goes_on(lines, before, after);
        assert forall|i: int| 0 <= i < count implies after.contains(
            menu::choice_line(
                theme,
                (i + 1) as nat,
                (#[trigger] choices[i]).label,
                width::truncated_start(
                    path::spelled(choices[i].given.spelling),
                    menu::selector_path_width(canvas),
                ),
                menu::selector_label_width(canvas),
                selected == i,
            ),
        ) by {
            let line = menu::choice_line(
                theme,
                (i + 1) as nat,
                choices[i].label,
                width::truncated_start(
                    path::spelled(choices[i].given.spelling),
                    menu::selector_path_width(canvas),
                ),
                menu::selector_label_width(canvas),
                selected == i,
            );
            if i < count - 1 {
                lemma_kept(before, after, line);
            } else {
                assert(after[after.len() - 1] == line);
            }
        }
    }
}

/// While a folder is chosen, every folder that is offered is shown with its number and
/// its path, the selected one set off; and what went wrong stands in the last line.
pub proof fn law_offered_folders_are_shown(
    choices: Seq<DirectoryChoiceView>,
    selected: nat,
    input: Option<Seq<char>>,
    message: Option<Seq<char>>,
    theme: Theme,
    layout: TerminalLayout,
    place: int,
)
    ensures
        ({
            let lines = menu::selector_screen(choices, selected, input, message, theme, layout);
            let canvas = layout.width as nat;
            &&& 0 <= place < choices.len() ==> lines.contains(
                menu::choice_line(
                    theme,
                    (place + 1) as nat,
                    choices[place].label,
                    width::truncated_start(
                        path::spelled(choices[place].given.spelling),
                        menu::selector_path_width(canvas),
                    ),
                    menu::selector_label_width(canvas),
                    selected == place,
                ),
            )
            &&& message matches Some(told) ==> lines.len() > 0 && lines.last() == "  "@
                + theme.as_red("!"@) + " "@ + theme.as_muted(
                width::truncated_end(told, width::less(canvas, 4)),
            )
        }),
{
    let lines = menu::selector_screen(choices, selected, input, message, theme, layout);
    let canvas = layout.width as nat;
    let top = canvas::header(theme, "SCAN"@, canvas).push(""@).push(
        "  "@ + theme.as_accent(
            width::truncated_end(
                "storage, understood.  Private analysis on this computer."@,
                width::less(canvas, 2),
            ),
        ),
    ).push(""@).push(
        "  "@ + theme.as_text(
            width::truncated_end("Choose a folder to scan"@, width::less(canvas, 2)),
        ),
    ).push("  "@ + canvas::rule(theme, canvas, 4));
    let count = choices.len() as int;
    let offered = menu::choice_lines(top, choices, count, selected, theme, canvas);
    lemma_choices(top, choices, count, selected, theme, canvas);
    let listed = offered.push(
        menu::choice_line(
            theme,
            choices.len() + 1,
            "Custom path"@,
            width::truncated_end("enter any folder"@, menu::selector_path_width(canvas)),
            menu::selector_label_width(canvas),
            selected == choices.len(),
        ),
    ).push(""@).push("  "@ + canvas::rule(theme, canvas, 4));
    let prompted = menu::selector_prompt(listed, input, theme, canvas);
    assert(goes_on(offered, listed));
    assert(goes_on(listed, prompted));
    assert(goes_on(prompted, lines));
    lemma_goes_on(listed, prompted, lines);
    lemma_goes_on(offered, listed, lines);
    if 0 <= place < choices.len() {
        lemma_kept(
            offered,
            lines,
            menu::choice_line(
                theme,
                (place + 1) as nat,
                choices[place].label,
                width::truncated_start(
                    path::spelled(choices[place].given.spelling),
                    menu::selector_path_width(canvas),
                ),
                menu::selector_label_width(canvas),
                selected == place,
            ),
        );
    }
}

} // verus!
