//! What the report of an analysis tells.

use vstd::prelude::*;

use crate::canvas;
use crate::canvas::Theme;
use crate::history;
use crate::labels;
use crate::labels::RecordTone;
use crate::model::{
    DuplicateWarningView, DuplicatesView, EntryView, ExplanationView, FindingView, GroupView,
    ItemKind, ItemView, RelationshipView, ScanWarningView,
};
use crate::path;
use crate::path::PartView;
use crate::report;
use crate::report::ReportView;
use crate::review;
use crate::sheet;
use crate::size;
use crate::storage;
use crate::storage::ScanHistoryEntryView;
use crate::text;
use crate::width;

verus! {

/// Whether some lines begin with others.
pub open spec fn goes_on(lines: Seq<Seq<char>>, more: Seq<Seq<char>>) -> bool {
    lines.len() <= more.len() && forall|i: int|
        0 <= i < lines.len() ==> #[trigger] more[i] == lines[i]
}

/// Whether a value stands in some lines, the first of its own lines behind a label
/// and the others below it.
pub open spec fn tells(
    lines: Seq<Seq<char>>,
    label: Seq<char>,
    value: Seq<char>,
    tone: RecordTone,
    theme: Theme,
    canvas: nat,
) -> bool {
    forall|k: int|
        0 <= k < width::wrapped(value, room(canvas, 24)).len() ==> lines.contains(
            "      "@ + theme.as_muted(
                text::padded_end(
                    if k == 0 {
                        label
                    } else {
                        ""@
                    },
                    12,
                ),
            ) + "  "@ + theme.as_tone(
                #[trigger] width::wrapped(value, room(canvas, 24))[k],
                tone,
            ),
        )
}

/// Whether a text stands in some lines as a point of a list.
pub open spec fn points(lines: Seq<Seq<char>>, value: Seq<char>, theme: Theme, canvas: nat) -> bool {
    forall|k: int|
        0 <= k < width::wrapped(value, room(canvas, 14)).len() ==> lines.contains(
            "        "@ + theme.as_accent(
                if k == 0 {
                    "•"@
                } else {
                    " "@
                },
            ) + " "@ + theme.as_muted(#[trigger] width::wrapped(value, room(canvas, 14))[k]),
        )
}

/// The columns that are left beside some, and never fewer than twelve.
pub open spec fn room(canvas: nat, beside: nat) -> nat {
    if canvas >= beside + 12 {
        (canvas - beside) as nat
    } else {
        12
    }
}

/// Whether a record with a number and a title stands in some lines.
pub open spec fn heads(lines: Seq<Seq<char>>, number: nat, title: Seq<char>, theme: Theme) -> bool {
    lines.contains(
        "  "@ + theme.as_selected(
            " "@ + (if number < 10 {
                "0"@ + text::decimal(number)
            } else {
                text::decimal(number)
            }) + " "@,
        ) + "  "@ + theme.as_text(title),
    )
}

/// Whether a finding stands in some lines under a number.
pub open spec fn tells_finding(
    lines: Seq<Seq<char>>,
    root: Seq<PartView>,
    finding: FindingView,
    number: nat,
    theme: Theme,
    canvas: nat,
) -> bool {
    &&& heads(lines, number, labels::label_of_category(finding.category), theme)
    &&& tells(
        lines,
        "item"@,
        path::relative_shown(root, finding.spelling),
        RecordTone::Text,
        theme,
        canvas,
    )
    &&& tells(
        lines,
        "recovery"@,
        size::bytes_text(finding.potential_recovery_bytes as nat),
        RecordTone::Accent,
        theme,
        canvas,
    )
    &&& tells(
        lines,
        "risk"@,
        labels::label_of_risk(finding.risk),
        labels::tone_of_risk(finding.risk),
        theme,
        canvas,
    )
    &&& tells(
        lines,
        "confidence"@,
        finding.confidence.spec_percent() + "%"@,
        RecordTone::Text,
        theme,
        canvas,
    )
    &&& tells(
        lines,
        "action"@,
        labels::label_of_action(finding.suggested_action),
        RecordTone::Text,
        theme,
        canvas,
    )
    &&& forall|e: int|
        0 <= e < finding.evidence.len() ==> points(
            lines,
            size::humanized(#[trigger] finding.evidence[e]),
            theme,
            canvas,
        )
}

/// Whether a relationship stands in some lines under a number.
pub open spec fn tells_relationship(
    lines: Seq<Seq<char>>,
    root: Seq<PartView>,
    one: RelationshipView,
    number: nat,
    theme: Theme,
    canvas: nat,
) -> bool {
    &&& heads(lines, number, labels::kind_label(one.kind), theme)
    &&& tells(
        lines,
        "source"@,
        path::relative_shown(root, one.source_spelling),
        RecordTone::Text,
        theme,
        canvas,
    )
    &&& tells(
        lines,
        "related"@,
        path::relative_shown(root, one.target_spelling),
        RecordTone::Text,
        theme,
        canvas,
    )
    &&& tells(
        lines,
        "confidence"@,
        one.confidence.spec_percent() + "%"@,
        RecordTone::Text,
        theme,
        canvas,
    )
    &&& forall|e: int|
        0 <= e < one.evidence.len() ==> points(lines, #[trigger] one.evidence[e], theme, canvas)
}

/// What stands behind a copy: that it is protected, and that it is another name of a
/// file that was named before.
pub open spec fn told_behind(entries: Seq<EntryView>, place: int) -> Seq<char> {
    let again = entries[place].file_identity is Some && exists|j: int|
        0 <= j < place && (#[trigger] entries[j]).file_identity == entries[place].file_identity;
    if entries[place].protected && again {
        "  [protected • same physical file]"@
    } else if entries[place].protected {
        "  [protected]"@
    } else if again {
        "  [same physical file]"@
    } else {
        ""@
    }
}

/// Whether a group of duplicates stands in some lines under a number.
pub open spec fn tells_group(
    lines: Seq<Seq<char>>,
    root: Seq<PartView>,
    group: GroupView,
    number: nat,
    theme: Theme,
    canvas: nat,
) -> bool {
    &&& heads(lines, number, "Exact duplicate group"@, theme)
    &&& tells(
        lines,
        "each file"@,
        size::bytes_text(group.size_bytes_per_file as nat),
        RecordTone::Text,
        theme,
        canvas,
    )
    &&& tells(
        lines,
        "copies"@,
        text::decimal(group.unique_file_count as nat) + " physical files"@,
        RecordTone::Text,
        theme,
        canvas,
    )
    &&& tells(
        lines,
        "recovery"@,
        review::recovery_told(group.potential_recovery_allocated_bytes),
        RecordTone::Positive,
        theme,
        canvas,
    )
    &&& forall|e: int|
        0 <= e < group.entries.len() ==> points(
            lines,
            path::relative_shown(root, (#[trigger] group.entries[e]).spelling) + told_behind(
                group.entries,
                e,
            ),
            theme,
            canvas,
        )
}

pub proof fn lemma_goes_on(lines: Seq<Seq<char>>, more: Seq<Seq<char>>, most: Seq<Seq<char>>)
    requires
        goes_on(lines, more),
        goes_on(more, most),
    ensures
        goes_on(lines, most),
{
    assert forall|i: int| 0 <= i < lines.len() implies #[trigger] most[i] == lines[i] by {
        assert(more[i] == lines[i]);
    }
}

pub proof fn lemma_kept(lines: Seq<Seq<char>>, more: Seq<Seq<char>>, line: Seq<char>)
    requires
        goes_on(lines, more),
        lines.contains(line),
    ensures
        more.contains(line),
{
    let i = choose|i: int| 0 <= i < lines.len() && lines[i] == line;
    assert(more[i] == line);
}

pub proof fn lemma_tells_on(
    lines: Seq<Seq<char>>,
    more: Seq<Seq<char>>,
    label: Seq<char>,
    value: Seq<char>,
    tone: RecordTone,
    theme: Theme,
    canvas: nat,
)
    requires
        goes_on(lines, more),
        tells(lines, label, value, tone, theme, canvas),
    ensures
        tells(more, label, value, tone, theme, canvas),
{
    assert forall|k: int|
        0 <= k < width::wrapped(value, room(canvas, 24)).len() implies more.contains(
        "      "@ + theme.as_muted(
            text::padded_end(
                if k == 0 {
                    label
                } else {
                    ""@
                },
                12,
            ),
        ) + "  "@ + theme.as_tone(#[trigger] width::wrapped(value, room(canvas, 24))[k], tone),
    ) by {
        let line = "      "@ + theme.as_muted(
            text::padded_end(
                if k == 0 {
                    label
                } else {
                    ""@
                },
                12,
            ),
        ) + "  "@ + theme.as_tone(width::wrapped(value, room(canvas, 24))[k], tone);
        assert(lines.contains(line));
        lemma_kept(lines, more, line);
    }
}

proof fn lemma_points_on(
    lines: Seq<Seq<char>>,
    more: Seq<Seq<char>>,
    value: Seq<char>,
    theme: Theme,
    canvas: nat,
)
    requires
        goes_on(lines, more),
        points(lines, value, theme, canvas),
    ensures
        points(more, value, theme, canvas),
{
    assert forall|k: int|
        0 <= k < width::wrapped(value, room(canvas, 14)).len() implies more.contains(
        "        "@ + theme.as_accent(
            if k == 0 {
                "•"@
            } else {
                " "@
            },
        ) + " "@ + theme.as_muted(#[trigger] width::wrapped(value, room(canvas, 14))[k]),
    ) by {
        let line = "        "@ + theme.as_accent(
            if k == 0 {
                "•"@
            } else {
                " "@
            },
        ) + " "@ + theme.as_muted(width::wrapped(value, room(canvas, 14))[k]);
        assert(lines.contains(line));
        lemma_kept(lines, more, line);
    }
}

pub proof fn lemma_parts(
    lines: Seq<Seq<char>>,
    parts: Seq<Seq<char>>,
    count: int,
    shape: spec_fn(int, Seq<char>) -> Seq<char>,
)
    requires
        0 <= count <= parts.len(),
    ensures
        goes_on(lines, sheet::with_parts(lines, parts, count, shape)),
        sheet::with_parts(lines, parts, count, shape).len() == lines.len() + count,
        forall|k: int|
            0 <= k < count ==> sheet::with_parts(lines, parts, count, shape).contains(
                shape(k, #[trigger] parts[k]),
            ),
    decreases count,
{
    if count > 0 {
        lemma_parts(lines, parts, count - 1, shape);
        let before = sheet::with_parts(lines, parts, count - 1, shape);
        let after = sheet::with_parts(lines, parts, count, shape);
        assert(goes_on(before, after));
        assert forall|k: int| 0 <= k < count implies after.contains(
            shape(k, #[trigger] parts[k]),
        ) by {
            if k < count - 1 {
                lemma_kept(before, after, shape(k, parts[k]));
            } else {
                assert(after[after.len() - 1] == shape(k, parts[k]));
            }
        }
    }
}

pub proof fn lemma_field(
    lines: Seq<Seq<char>>,
    label: Seq<char>,
    value: Seq<char>,
    tone: RecordTone,
    theme: Theme,
    canvas: nat,
)
    ensures
        goes_on(lines, sheet::record_field(lines, label, value, tone, theme, canvas)),
        tells(
            sheet::record_field(lines, label, value, tone, theme, canvas),
            label,
            value,
            tone,
            theme,
            canvas,
        ),
{
    let parts = width::wrapped(value, room(canvas, 24));
    assert(sheet::value_room(canvas, 24) == room(canvas, 24));
    let shape = sheet::value_shape("      "@, label, 12, theme, tone);
    lemma_parts(lines, parts, parts.len() as int, shape);
    let after = sheet::record_field(lines, label, value, tone, theme, canvas);
    assert forall|k: int| 0 <= k < parts.len() implies after.contains(
        "      "@ + theme.as_muted(
            text::padded_end(
                if k == 0 {
                    label
                } else {
                    ""@
                },
                12,
            ),
        ) + "  "@ + theme.as_tone(#[trigger] parts[k], tone),
    ) by {
        assert(after.contains(shape(k, parts[k])));
    }
}

pub proof fn lemma_metric(
    lines: Seq<Seq<char>>,
    label: Seq<char>,
    value: Seq<char>,
    tone: RecordTone,
    theme: Theme,
    canvas: nat,
)
    ensures
        goes_on(lines, sheet::metric(lines, label, value, tone, theme, canvas)),
{
    let parts = width::wrapped(value, sheet::value_room(canvas, 25));
    lemma_parts(
        lines,
        parts,
        parts.len() as int,
        sheet::value_shape("  "@, label, 17, theme, tone),
    );
}

proof fn lemma_point(lines: Seq<Seq<char>>, value: Seq<char>, theme: Theme, canvas: nat)
    ensures
        goes_on(lines, sheet::wrapped_bullet(lines, value, theme, canvas)),
        points(sheet::wrapped_bullet(lines, value, theme, canvas), value, theme, canvas),
{
    let parts = width::wrapped(value, room(canvas, 14));
    assert(sheet::value_room(canvas, 14) == room(canvas, 14));
    let shape = sheet::bullet_shape("        "@, theme);
    lemma_parts(lines, parts, parts.len() as int, shape);
    let after = sheet::wrapped_bullet(lines, value, theme, canvas);
    assert forall|k: int| 0 <= k < parts.len() implies after.contains(
        "        "@ + theme.as_accent(
            if k == 0 {
                "•"@
            } else {
                " "@
            },
        ) + " "@ + theme.as_muted(#[trigger] parts[k]),
    ) by {
        assert(after.contains(shape(k, parts[k])));
    }
}

pub proof fn lemma_section(
    lines: Seq<Seq<char>>,
    number: Seq<char>,
    title: Seq<char>,
    description: Seq<char>,
    theme: Theme,
    canvas: nat,
)
    ensures
        goes_on(lines, sheet::section(lines, number, title, description, theme, canvas)),
{
    let parts = width::wrapped(description, width::less(canvas, 8));
    let heading = number + "  "@ + title;
    let begun = lines.push(""@).push(
        "  "@ + theme.as_accent(heading) + " "@ + theme.as_border(
            text::repeated('─', width::less(canvas, heading.len() + 5)),
        ),
    );
    lemma_parts(begun, parts, parts.len() as int, sheet::description_shape(theme));
    let told = sheet::with_parts(
        begun,
        parts,
        parts.len() as int,
        sheet::description_shape(theme),
    );
    lemma_goes_on(lines, begun, told);
    lemma_goes_on(lines, told, told.push(""@));
}

proof fn lemma_head(
    lines: Seq<Seq<char>>,
    place: nat,
    title: Seq<char>,
    theme: Theme,
    canvas: nat,
)
    ensures
        goes_on(lines, report::record_head(lines, place, title, theme, canvas)),
        heads(report::record_head(lines, place, title, theme, canvas), place + 1, title, theme),
{
    let after = report::record_head(lines, place, title, theme, canvas);
    assert(after[after.len() - 1] == after.last());
}

proof fn lemma_evidence(
    lines: Seq<Seq<char>>,
    evidence: Seq<Seq<char>>,
    count: int,
    readable: bool,
    theme: Theme,
    canvas: nat,
)
    requires
        0 <= count <= evidence.len(),
    ensures
        goes_on(lines, report::evidence_lines(lines, evidence, count, readable, theme, canvas)),
        forall|e: int|
            0 <= e < count ==> points(
                report::evidence_lines(lines, evidence, count, readable, theme, canvas),
                if readable {
                    size::humanized(#[trigger] evidence[e])
                } else {
                    evidence[e]
                },
                theme,
                canvas,
            ),
    decreases count,
{
    if count > 0 {
        lemma_evidence(lines, evidence, count - 1, readable, theme, canvas);
        let before = report::evidence_lines(lines, evidence, count - 1, readable, theme, canvas);
        let after = report::evidence_lines(lines, evidence, count, readable, theme, canvas);
        let last = if readable {
            size::humanized(evidence[count - 1])
        } else {
            evidence[count - 1]
        };
        lemma_point(before, last, theme, canvas);
        lemma_goes_on(lines, before, after);
        assert forall|e: int| 0 <= e < count implies points(
            after,
            if readable {
                size::humanized(#[trigger] evidence[e])
            } else {
                evidence[e]
            },
            theme,
            canvas,
        ) by {
            if e < count - 1 {
                lemma_points_on(
                    before,
                    after,
                    if readable {
                        size::humanized(evidence[e])
                    } else {
                        evidence[e]
                    },
                    theme,
                    canvas,
                );
            }
        }
    }
}

proof fn lemma_evidence_block(
    lines: Seq<Seq<char>>,
    evidence: Seq<Seq<char>>,
    readable: bool,
    theme: Theme,
    canvas: nat,
)
    ensures
        goes_on(lines, report::evidence_block(lines, evidence, readable, theme, canvas)),
        forall|e: int|
            0 <= e < evidence.len() ==> points(
                report::evidence_block(lines, evidence, readable, theme, canvas),
                if readable {
                    size::humanized(#[trigger] evidence[e])
                } else {
                    evidence[e]
                },
                theme,
                canvas,
            ),
{
    if evidence.len() > 0 {
        let begun = lines.push("      "@ + theme.as_muted("evidence"@));
        lemma_evidence(begun, evidence, evidence.len() as int, readable, theme, canvas);
        lemma_goes_on(
            lines,
            begun,
            report::evidence_block(lines, evidence, readable, theme, canvas),
        );
    }
}

proof fn lemma_finding_on(
    lines: Seq<Seq<char>>,
    more: Seq<Seq<char>>,
    root: Seq<PartView>,
    finding: FindingView,
    number: nat,
    theme: Theme,
    canvas: nat,
)
    requires
        goes_on(lines, more),
        tells_finding(lines, root, finding, number, theme, canvas),
    ensures
        tells_finding(more, root, finding, number, theme, canvas),
{
    lemma_heads_on(lines, more, number, labels::label_of_category(finding.category), theme);
    lemma_tells_on(
        lines,
        more,
        "item"@,
        path::relative_shown(root, finding.spelling),
        RecordTone::Text,
        theme,
        canvas,
    );
    lemma_tells_on(
        lines,
        more,
        "recovery"@,
        size::bytes_text(finding.potential_recovery_bytes as nat),
        RecordTone::Accent,
        theme,
        canvas,
    );
    lemma_tells_on(
        lines,
        more,
        "risk"@,
        labels::label_of_risk(finding.risk),
        labels::tone_of_risk(finding.risk),
        theme,
        canvas,
    );
    lemma_tells_on(
        lines,
        more,
        "confidence"@,
        finding.confidence.spec_percent() + "%"@,
        RecordTone::Text,
        theme,
        canvas,
    );
    lemma_tells_on(
        lines,
        more,
        "action"@,
        labels::label_of_action(finding.suggested_action),
        RecordTone::Text,
        theme,
        canvas,
    );
    assert forall|e: int| 0 <= e < finding.evidence.len() implies points(
        more,
        size::humanized(#[trigger] finding.evidence[e]),
        theme,
        canvas,
    ) by {
        lemma_points_on(lines, more, size::humanized(finding.evidence[e]), theme, canvas);
    }
}

proof fn lemma_heads_on(
    lines: Seq<Seq<char>>,
    more: Seq<Seq<char>>,
    number: nat,
    title: Seq<char>,
    theme: Theme,
)
    requires
        goes_on(lines, more),
        heads(lines, number, title, theme),
    ensures
        heads(more, number, title, theme),
{
    lemma_kept(
        lines,
        more,
        "  "@ + theme.as_selected(
            " "@ + (if number < 10 {
                "0"@ + text::decimal(number)
            } else {
                text::decimal(number)
            }) + " "@,
        ) + "  "@ + theme.as_text(title),
    );
}

proof fn lemma_explanation(
    lines: Seq<Seq<char>>,
    explanation: ExplanationView,
    theme: Theme,
    canvas: nat,
)
    ensures
        goes_on(lines, report::explanation_block(lines, explanation, theme, canvas)),
{
    let begun = lines.push("      "@ + theme.as_muted("local AI context • advisory only"@));
    lemma_point(begun, explanation.reason, theme, canvas);
    let told = sheet::wrapped_bullet(begun, explanation.reason, theme, canvas);
    lemma_goes_on(lines, begun, told);
    lemma_field(
        told,
        "AI assessment"@,
        labels::label_of_risk(explanation.risk) + " risk • "@
            + explanation.confidence.spec_percent() + "% confidence • "@
            + labels::label_of_ai_action(explanation.suggested_action),
        labels::tone_of_risk(explanation.risk),
        theme,
        canvas,
    );
    lemma_goes_on(lines, told, report::explanation_block(lines, explanation, theme, canvas));
}

proof fn lemma_finding(
    lines: Seq<Seq<char>>,
    root: Seq<PartView>,
    findings: Seq<FindingView>,
    explanations: Seq<ExplanationView>,
    place: int,
    theme: Theme,
    canvas: nat,
)
    requires
        0 <= place < findings.len(),
    ensures
        goes_on(
            lines,
            report::finding_record(lines, root, findings, explanations, place, theme, canvas),
        ),
        tells_finding(
            report::finding_record(lines, root, findings, explanations, place, theme, canvas),
            root,
            findings[place],
            (place + 1) as nat,
            theme,
            canvas,
        ),
{
    let finding = findings[place];
    let title = labels::label_of_category(finding.category);
    let item = path::relative_shown(root, finding.spelling);
    let recovery = size::bytes_text(finding.potential_recovery_bytes as nat);
    let risk = labels::label_of_risk(finding.risk);
    let tone = labels::tone_of_risk(finding.risk);
    let sure = finding.confidence.spec_percent() + "%"@;
    let action = labels::label_of_action(finding.suggested_action);
    let a = report::record_head(lines, place as nat, title, theme, canvas);
    let b = sheet::record_field(a, "item"@, item, RecordTone::Text, theme, canvas);
    let c = sheet::record_field(b, "recovery"@, recovery, RecordTone::Accent, theme, canvas);
    let d = sheet::record_field(c, "risk"@, risk, tone, theme, canvas);
    let e = sheet::record_field(d, "confidence"@, sure, RecordTone::Text, theme, canvas);
    let f = sheet::record_field(e, "action"@, action, RecordTone::Text, theme, canvas);
    let g = report::evidence_block(f, finding.evidence, true, theme, canvas);
    lemma_head(lines, place as nat, title, theme, canvas);
    lemma_field(a, "item"@, item, RecordTone::Text, theme, canvas);
    lemma_field(b, "recovery"@, recovery, RecordTone::Accent, theme, canvas);
    lemma_field(c, "risk"@, risk, tone, theme, canvas);
    lemma_field(d, "confidence"@, sure, RecordTone::Text, theme, canvas);
    lemma_field(e, "action"@, action, RecordTone::Text, theme, canvas);
    lemma_evidence_block(f, finding.evidence, true, theme, canvas);
    lemma_goes_on(e, f, g);
    lemma_goes_on(d, e, g);
    lemma_goes_on(c, d, g);
    lemma_goes_on(b, c, g);
    lemma_goes_on(a, b, g);
    lemma_goes_on(lines, a, g);
    lemma_heads_on(a, g, (place + 1) as nat, title, theme);
    lemma_tells_on(b, g, "item"@, item, RecordTone::Text, theme, canvas);
    lemma_tells_on(c, g, "recovery"@, recovery, RecordTone::Accent, theme, canvas);
    lemma_tells_on(d, g, "risk"@, risk, tone, theme, canvas);
    lemma_tells_on(e, g, "confidence"@, sure, RecordTone::Text, theme, canvas);
    lemma_tells_on(f, g, "action"@, action, RecordTone::Text, theme, canvas);
    assert(tells_finding(g, root, finding, (place + 1) as nat, theme, canvas));
    let last = report::finding_record(lines, root, findings, explanations, place, theme, canvas);
    if let Some(explanation) = review::explanation_of(explanations, finding.path, 0) {
        lemma_explanation(g, explanation, theme, canvas);
    }
    assert(goes_on(g, last));
    lemma_goes_on(lines, g, last);
    lemma_finding_on(g, last, root, finding, (place + 1) as nat, theme, canvas);
}

proof fn lemma_findings(
    lines: Seq<Seq<char>>,
    root: Seq<PartView>,
    findings: Seq<FindingView>,
    explanations: Seq<ExplanationView>,
    count: int,
    theme: Theme,
    canvas: nat,
)
    requires
        0 <= count <= findings.len(),
    ensures
        goes_on(
            lines,
            report::finding_records(lines, root, findings, explanations, count, theme, canvas),
        ),
        forall|i: int|
            0 <= i < count ==> tells_finding(
                report::finding_records(lines, root, findings, explanations, count, theme, canvas),
                root,
                #[trigger] findings[i],
                (i + 1) as nat,
                theme,
                canvas,
            ),
    decreases count,
{
    if count > 0 {
        lemma_findings(lines, root, findings, explanations, count - 1, theme, canvas);
        let before = report::finding_records(
            lines,
            root,
            findings,
            explanations,
            count - 1,
            theme,
            canvas,
        );
        let after = report::finding_records(
            lines,
            root,
            findings,
            explanations,
            count,
            theme,
            canvas,
        );
        lemma_finding(before, root, findings, explanations, count - 1, theme, canvas);
        lemma_goes_on(lines, before, after);
        assert forall|i: int| 0 <= i < count implies tells_finding(
            after,
            root,
            #[trigger] findings[i],
            (i + 1) as nat,
            theme,
            canvas,
        ) by {
            if i < count - 1 {
                lemma_finding_on(before, after, root, findings[i], (i + 1) as nat, theme, canvas);
            }
        }
    }
}

proof fn lemma_relationship_on(
    lines: Seq<Seq<char>>,
    more: Seq<Seq<char>>,
    root: Seq<PartView>,
    one: RelationshipView,
    number: nat,
    theme: Theme,
    canvas: nat,
)
    requires
        goes_on(lines, more),
        tells_relationship(lines, root, one, number, theme, canvas),
    ensures
        tells_relationship(more, root, one, number, theme, canvas),
{
    lemma_heads_on(lines, more, number, labels::kind_label(one.kind), theme);
    lemma_tells_on(
        lines,
        more,
        "source"@,
        path::relative_shown(root, one.source_spelling),
        RecordTone::Text,
        theme,
        canvas,
    );
    lemma_tells_on(
        lines,
        more,
        "related"@,
        path::relative_shown(root, one.target_spelling),
        RecordTone::Text,
        theme,
        canvas,
    );
    lemma_tells_on(
        lines,
        more,
        "confidence"@,
        one.confidence.spec_percent() + "%"@,
        RecordTone::Text,
        theme,
        canvas,
    );
    assert forall|e: int| 0 <= e < one.evidence.len() implies points(
        more,
        #[trigger] one.evidence[e],
        theme,
        canvas,
    ) by {
        lemma_points_on(lines, more, one.evidence[e], theme, canvas);
    }
}

proof fn lemma_relationship(
    lines: Seq<Seq<char>>,
    root: Seq<PartView>,
    one: RelationshipView,
    place: nat,
    theme: Theme,
    canvas: nat,
)
    ensures
        goes_on(lines, report::relationship_record(lines, root, one, place, theme, canvas)),
        tells_relationship(
            report::relationship_record(lines, root, one, place, theme, canvas),
            root,
            one,
            place + 1,
            theme,
            canvas,
        ),
{
    let title = labels::kind_label(one.kind);
    let source = path::relative_shown(root, one.source_spelling);
    let target = path::relative_shown(root, one.target_spelling);
    let sure = one.confidence.spec_percent() + "%"@;
    let a = report::record_head(lines, place, title, theme, canvas);
    let b = sheet::record_field(a, "source"@, source, RecordTone::Text, theme, canvas);
    let c = sheet::record_field(b, "related"@, target, RecordTone::Text, theme, canvas);
    let d = sheet::record_field(c, "confidence"@, sure, RecordTone::Text, theme, canvas);
    let g = report::evidence_block(d, one.evidence, false, theme, canvas);
    lemma_head(lines, place, title, theme, canvas);
    lemma_field(a, "source"@, source, RecordTone::Text, theme, canvas);
    lemma_field(b, "related"@, target, RecordTone::Text, theme, canvas);
    lemma_field(c, "confidence"@, sure, RecordTone::Text, theme, canvas);
    lemma_evidence_block(d, one.evidence, false, theme, canvas);
    lemma_goes_on(c, d, g);
    lemma_goes_on(b, c, g);
    lemma_goes_on(a, b, g);
    lemma_goes_on(lines, a, g);
    lemma_heads_on(a, g, place + 1, title, theme);
    lemma_tells_on(b, g, "source"@, source, RecordTone::Text, theme, canvas);
    lemma_tells_on(c, g, "related"@, target, RecordTone::Text, theme, canvas);
    lemma_tells_on(d, g, "confidence"@, sure, RecordTone::Text, theme, canvas);
}

proof fn lemma_relationships(
    lines: Seq<Seq<char>>,
    root: Seq<PartView>,
    list: Seq<RelationshipView>,
    count: int,
    theme: Theme,
    canvas: nat,
)
    requires
        0 <= count <= list.len(),
    ensures
        goes_on(lines, report::relationship_records(lines, root, list, count, theme, canvas)),
        forall|i: int|
            0 <= i < count ==> tells_relationship(
                report::relationship_records(lines, root, list, count, theme, canvas),
                root,
                #[trigger] list[i],
                (i + 1) as nat,
                theme,
                canvas,
            ),
    decreases count,
{
    if count > 0 {
        lemma_relationships(lines, root, list, count - 1, theme, canvas);
        let before = report::relationship_records(lines, root, list, count - 1, theme, canvas);
        let after = report::relationship_records(lines, root, list, count, theme, canvas);
        lemma_relationship(before, root, list[count - 1], (count - 1) as nat, theme, canvas);
        lemma_goes_on(lines, before, after);
        assert forall|i: int| 0 <= i < count implies tells_relationship(
            after,
            root,
            #[trigger] list[i],
            (i + 1) as nat,
            theme,
            canvas,
        ) by {
            if i < count - 1 {
                lemma_relationship_on(before, after, root, list[i], (i + 1) as nat, theme, canvas);
            }
        }
    }
}

proof fn lemma_group_on(
    lines: Seq<Seq<char>>,
    more: Seq<Seq<char>>,
    root: Seq<PartView>,
    group: GroupView,
    number: nat,
    theme: Theme,
    canvas: nat,
)
    requires
        goes_on(lines, more),
        tells_group(lines, root, group, number, theme, canvas),
    ensures
        tells_group(more, root, group, number, theme, canvas),
{
    lemma_heads_on(lines, more, number, "Exact duplicate group"@, theme);
    lemma_tells_on(
        lines,
        more,
        "each file"@,
        size::bytes_text(group.size_bytes_per_file as nat),
        RecordTone::Text,
        theme,
        canvas,
    );
    lemma_tells_on(
        lines,
        more,
        "copies"@,
        text::decimal(group.unique_file_count as nat) + " physical files"@,
        RecordTone::Text,
        theme,
        canvas,
    );
    lemma_tells_on(
        lines,
        more,
        "recovery"@,
        review::recovery_told(group.potential_recovery_allocated_bytes),
        RecordTone::Positive,
        theme,
        canvas,
    );
    assert forall|e: int| 0 <= e < group.entries.len() implies points(
        more,
        path::relative_shown(root, (#[trigger] group.entries[e]).spelling) + told_behind(
            group.entries,
            e,
        ),
        theme,
        canvas,
    ) by {
        lemma_points_on(
            lines,
            more,
            path::relative_shown(root, group.entries[e].spelling) + told_behind(group.entries, e),
            theme,
            canvas,
        );
    }
}

proof fn lemma_entries(
    lines: Seq<Seq<char>>,
    root: Seq<PartView>,
    entries: Seq<EntryView>,
    count: int,
    theme: Theme,
    canvas: nat,
)
    requires
        0 <= count <= entries.len(),
    ensures
        goes_on(lines, report::entry_lines(lines, root, entries, count, theme, canvas)),
        forall|e: int|
            0 <= e < count ==> points(
                report::entry_lines(lines, root, entries, count, theme, canvas),
                path::relative_shown(root, (#[trigger] entries[e]).spelling) + told_behind(
                    entries,
                    e,
                ),
                theme,
                canvas,
            ),
    decreases count,
{
    if count > 0 {
        lemma_entries(lines, root, entries, count - 1, theme, canvas);
        let before = report::entry_lines(lines, root, entries, count - 1, theme, canvas);
        let after = report::entry_lines(lines, root, entries, count, theme, canvas);
        let last = path::relative_shown(root, entries[count - 1].spelling) + told_behind(
            entries,
            count - 1,
        );
        assert(report::is_alias(entries, count - 1) == (entries[count - 1].file_identity is Some
            && exists|j: int|
            0 <= j < count - 1 && (#[trigger] entries[j]).file_identity == entries[count
                - 1].file_identity));
        lemma_point(before, last, theme, canvas);
        assert(after == sheet::wrapped_bullet(before, last, theme, canvas));
        lemma_goes_on(lines, before, after);
        assert forall|e: int| 0 <= e < count implies points(
            after,
            path::relative_shown(root, (#[trigger] entries[e]).spelling) + told_behind(entries, e),
            theme,
            canvas,
        ) by {
            if e < count - 1 {
                lemma_points_on(
                    before,
                    after,
                    path::relative_shown(root, entries[e].spelling) + told_behind(entries, e),
                    theme,
                    canvas,
                );
            }
        }
    }
}

proof fn lemma_group(
    lines: Seq<Seq<char>>,
    root: Seq<PartView>,
    group: GroupView,
    place: nat,
    theme: Theme,
    canvas: nat,
)
    ensures
        goes_on(lines, report::group_record(lines, root, group, place, theme, canvas)),
        tells_group(
            report::group_record(lines, root, group, place, theme, canvas),
            root,
            group,
            place + 1,
            theme,
            canvas,
        ),
{
    let title = "Exact duplicate group"@;
    let each = size::bytes_text(group.size_bytes_per_file as nat);
    let copies = text::decimal(group.unique_file_count as nat) + " physical files"@;
    let recovery = review::recovery_told(group.potential_recovery_allocated_bytes);
    let print = review::short_hash(group.blake3_hash) + "…"@;
    let a = report::record_head(lines, place, title, theme, canvas);
    let b = sheet::record_field(a, "each file"@, each, RecordTone::Text, theme, canvas);
    let c = sheet::record_field(b, "copies"@, copies, RecordTone::Text, theme, canvas);
    let d = sheet::record_field(c, "recovery"@, recovery, RecordTone::Positive, theme, canvas);
    let e = sheet::record_field(d, "fingerprint"@, print, RecordTone::Text, theme, canvas);
    let f = e.push("      "@ + theme.as_muted("files"@));
    let g = report::group_record(lines, root, group, place, theme, canvas);
    lemma_head(lines, place, title, theme, canvas);
    lemma_field(a, "each file"@, each, RecordTone::Text, theme, canvas);
    lemma_field(b, "copies"@, copies, RecordTone::Text, theme, canvas);
    lemma_field(c, "recovery"@, recovery, RecordTone::Positive, theme, canvas);
    lemma_field(d, "fingerprint"@, print, RecordTone::Text, theme, canvas);
    lemma_entries(f, root, group.entries, group.entries.len() as int, theme, canvas);
    lemma_goes_on(e, f, g);
    lemma_goes_on(d, e, g);
    lemma_goes_on(c, d, g);
    lemma_goes_on(b, c, g);
    lemma_goes_on(a, b, g);
    lemma_goes_on(lines, a, g);
    lemma_heads_on(a, g, place + 1, title, theme);
    lemma_tells_on(b, g, "each file"@, each, RecordTone::Text, theme, canvas);
    lemma_tells_on(c, g, "copies"@, copies, RecordTone::Text, theme, canvas);
    lemma_tells_on(d, g, "recovery"@, recovery, RecordTone::Positive, theme, canvas);
}

proof fn lemma_groups(
    lines: Seq<Seq<char>>,
    root: Seq<PartView>,
    groups: Seq<GroupView>,
    count: int,
    theme: Theme,
    canvas: nat,
)
    requires
        0 <= count <= groups.len(),
    ensures
        goes_on(lines, report::group_records(lines, root, groups, count, theme, canvas)),
        forall|i: int|
            0 <= i < count ==> tells_group(
                report::group_records(lines, root, groups, count, theme, canvas),
                root,
                #[trigger] groups[i],
                (i + 1) as nat,
                theme,
                canvas,
            ),
    decreases count,
{
    if count > 0 {
        lemma_groups(lines, root, groups, count - 1, theme, canvas);
        let before = report::group_records(lines, root, groups, count - 1, theme, canvas);
        let after = report::group_records(lines, root, groups, count, theme, canvas);
        lemma_group(before, root, groups[count - 1], (count - 1) as nat, theme, canvas);
        lemma_goes_on(lines, before, after);
        assert forall|i: int| 0 <= i < count implies tells_group(
            after,
            root,
            #[trigger] groups[i],
            (i + 1) as nat,
            theme,
            canvas,
        ) by {
            if i < count - 1 {
                lemma_group_on(before, after, root, groups[i], (i + 1) as nat, theme, canvas);
            }
        }
    }
}

/// Whether some lines tell how many there are of something beside those shown.
pub open spec fn tells_more(
    lines: Seq<Seq<char>>,
    hidden: nat,
    label: Seq<char>,
    theme: Theme,
) -> bool {
    lines.contains(
        "  "@ + theme.as_muted(
            "… "@ + text::decimal(hidden) + " more "@ + label + " hidden by --top"@,
        ),
    )
}

proof fn lemma_more(
    lines: Seq<Seq<char>>,
    total: nat,
    top: nat,
    label: Seq<char>,
    theme: Theme,
)
    ensures
        goes_on(lines, sheet::more(lines, total, top, label, theme)),
        goes_on(lines, report::list_end(lines, total, top, label, theme)),
        total > top ==> tells_more(
            sheet::more(lines, total, top, label, theme),
            (total - top) as nat,
            label,
            theme,
        ),
        total > top ==> tells_more(
            report::list_end(lines, total, top, label, theme),
            (total - top) as nat,
            label,
            theme,
        ),
{
    let one = sheet::more(lines, total, top, label, theme);
    let other = report::list_end(lines, total, top, label, theme);
    if total > top {
        assert(one[one.len() - 1] == one.last());
        assert(other[other.len() - 1] == other.last());
    }
}

proof fn lemma_more_on(
    lines: Seq<Seq<char>>,
    more: Seq<Seq<char>>,
    hidden: nat,
    label: Seq<char>,
    theme: Theme,
)
    requires
        goes_on(lines, more),
        tells_more(lines, hidden, label, theme),
    ensures
        tells_more(more, hidden, label, theme),
{
    lemma_kept(
        lines,
        more,
        "  "@ + theme.as_muted(
            "… "@ + text::decimal(hidden) + " more "@ + label + " hidden by --top"@,
        ),
    );
}

proof fn lemma_recommendations(
    lines: Seq<Seq<char>>,
    root: Seq<PartView>,
    findings: Seq<FindingView>,
    explanations: Seq<ExplanationView>,
    top: nat,
    theme: Theme,
    canvas: nat,
)
    ensures
        ({
            let after = report::recommendations_section(
                lines,
                root,
                findings,
                explanations,
                top,
                theme,
                canvas,
            );
            &&& goes_on(lines, after)
            &&& forall|i: int|
                0 <= i < findings.len() && i < top ==> tells_finding(
                    after,
                    root,
                    #[trigger] findings[i],
                    (i + 1) as nat,
                    theme,
                    canvas,
                )
            &&& findings.len() > top ==> tells_more(
                after,
                (findings.len() - top) as nat,
                "recommendations"@,
                theme,
            )
        }),
{
    let after = report::recommendations_section(
        lines,
        root,
        findings,
        explanations,
        top,
        theme,
        canvas,
    );
    let head = sheet::section(
        lines,
        "03"@,
        "RECOMMENDATIONS"@,
        "Items that may be worth reviewing"@,
        theme,
        canvas,
    );
    lemma_section(
        lines,
        "03"@,
        "RECOMMENDATIONS"@,
        "Items that may be worth reviewing"@,
        theme,
        canvas,
    );
    if findings.len() == 0 {
        lemma_goes_on(lines, head, after);
    } else {
        let begun = head.push(
            report::list_head(
                text::decimal(findings.len()) + " candidates"@,
                "• suggestions only, never automatic deletions"@,
                theme,
            ),
        );
        let count = report::shown_of(findings.len(), top) as int;
        let told = report::finding_records(
            begun,
            root,
            findings,
            explanations,
            count,
            theme,
            canvas,
        );
        lemma_findings(begun, root, findings, explanations, count, theme, canvas);
        lemma_more(told, findings.len(), top, "recommendations"@, theme);
        lemma_goes_on(lines, head, begun);
        lemma_goes_on(lines, begun, told);
        lemma_goes_on(lines, told, after);
        assert forall|i: int| 0 <= i < findings.len() && i < top implies tells_finding(
            after,
            root,
            #[trigger] findings[i],
            (i + 1) as nat,
            theme,
            canvas,
        ) by {
            lemma_finding_on(told, after, root, findings[i], (i + 1) as nat, theme, canvas);
        }
    }
}

proof fn lemma_connected(
    lines: Seq<Seq<char>>,
    root: Seq<PartView>,
    list: Seq<RelationshipView>,
    top: nat,
    theme: Theme,
    canvas: nat,
)
    ensures
        ({
            let after = report::relationships_section(lines, root, list, top, theme, canvas);
            &&& goes_on(lines, after)
            &&& forall|i: int|
                0 <= i < list.len() && i < top ==> tells_relationship(
                    after,
                    root,
                    #[trigger] list[i],
                    (i + 1) as nat,
                    theme,
                    canvas,
                )
            &&& list.len() > top ==> tells_more(
                after,
                (list.len() - top) as nat,
                "relationships"@,
                theme,
            )
        }),
{
    let after = report::relationships_section(lines, root, list, top, theme, canvas);
    let about = "Filesystem context connecting related items"@;
    let head = sheet::section(lines, "04"@, "RELATIONSHIPS"@, about, theme, canvas);
    lemma_section(lines, "04"@, "RELATIONSHIPS"@, about, theme, canvas);
    if list.len() == 0 {
        lemma_goes_on(lines, head, after);
    } else {
        let begun = head.push(
            report::list_head(
                text::decimal(list.len()) + " connections"@,
                "• evidence only, never deletion authorization"@,
                theme,
            ),
        );
        let count = report::shown_of(list.len(), top) as int;
        let told = report::relationship_records(begun, root, list, count, theme, canvas);
        lemma_relationships(begun, root, list, count, theme, canvas);
        lemma_more(told, list.len(), top, "relationships"@, theme);
        lemma_goes_on(lines, head, begun);
        lemma_goes_on(lines, begun, told);
        lemma_goes_on(lines, told, after);
        assert forall|i: int| 0 <= i < list.len() && i < top implies tells_relationship(
            after,
            root,
            #[trigger] list[i],
            (i + 1) as nat,
            theme,
            canvas,
        ) by {
            lemma_relationship_on(told, after, root, list[i], (i + 1) as nat, theme, canvas);
        }
    }
}

proof fn lemma_copied(
    lines: Seq<Seq<char>>,
    root: Seq<PartView>,
    found: DuplicatesView,
    top: nat,
    theme: Theme,
    canvas: nat,
)
    ensures
        ({
            let after = report::duplicates_section(lines, root, found, top, theme, canvas);
            &&& goes_on(lines, after)
            &&& forall|i: int|
                0 <= i < found.groups.len() && i < top ==> tells_group(
                    after,
                    root,
                    #[trigger] found.groups[i],
                    (i + 1) as nat,
                    theme,
                    canvas,
                )
            &&& found.groups.len() > top ==> tells_more(
                after,
                (found.groups.len() - top) as nat,
                "duplicate groups"@,
                theme,
            )
        }),
{
    let after = report::duplicates_section(lines, root, found, top, theme, canvas);
    let about = "Exact content matches verified with BLAKE3"@;
    let head = sheet::section(lines, "05"@, "DUPLICATES"@, about, theme, canvas);
    let groups = found.groups;
    lemma_section(lines, "05"@, "DUPLICATES"@, about, theme, canvas);
    if groups.len() == 0 {
        lemma_goes_on(lines, head, after);
    } else {
        let counted = head.push(
            report::list_head(
                text::decimal(groups.len()) + " groups"@,
                "• "@ + size::count_text(found.files_hashed as nat) + " physical files hashed"@,
                theme,
            ),
        );
        let bytes = size::bytes_text(found.logical_duplicate_bytes as nat);
        let data = sheet::metric(
            counted,
            "duplicate data"@,
            bytes,
            RecordTone::Warning,
            theme,
            canvas,
        );
        lemma_metric(counted, "duplicate data"@, bytes, RecordTone::Warning, theme, canvas);
        let begun = match found.potential_recovery_allocated_bytes {
            Some(recovered) => sheet::metric(
                data,
                "safe recovery"@,
                size::bytes_text(recovered as nat),
                RecordTone::Positive,
                theme,
                canvas,
            ),
            None => sheet::metric(
                data,
                "safe recovery"@,
                "unavailable"@,
                RecordTone::Text,
                theme,
                canvas,
            ),
        };
        match found.potential_recovery_allocated_bytes {
            Some(recovered) => {
                lemma_metric(
                    data,
                    "safe recovery"@,
                    size::bytes_text(recovered as nat),
                    RecordTone::Positive,
                    theme,
                    canvas,
                );
            },
            None => {
                lemma_metric(
                    data,
                    "safe recovery"@,
                    "unavailable"@,
                    RecordTone::Text,
                    theme,
                    canvas,
                );
            },
        }
        let count = report::shown_of(groups.len(), top) as int;
        let told = report::group_records(begun, root, groups, count, theme, canvas);
        lemma_groups(begun, root, groups, count, theme, canvas);
        lemma_more(told, groups.len(), top, "duplicate groups"@, theme);
        lemma_goes_on(lines, head, counted);
        lemma_goes_on(lines, counted, data);
        lemma_goes_on(lines, data, begun);
        lemma_goes_on(lines, begun, told);
        lemma_goes_on(lines, told, after);
        assert forall|i: int| 0 <= i < groups.len() && i < top implies tells_group(
            after,
            root,
            #[trigger] groups[i],
            (i + 1) as nat,
            theme,
            canvas,
        ) by {
            lemma_group_on(told, after, root, groups[i], (i + 1) as nat, theme, canvas);
        }
    }
}

/// The line on one of the largest items: its place, its size, what it is, and as much
/// of its path from the end as there is room for.
pub open spec fn told_item(
    root: Seq<PartView>,
    item: ItemView,
    number: nat,
    theme: Theme,
    canvas: nat,
) -> Seq<char> {
    "  "@ + theme.as_brand(text::padded_start(text::decimal(number), 2)) + "  "@ + theme.as_yellow(
        text::padded_start(size::bytes_text(item.size_bytes as nat), 10),
    ) + "  "@ + theme.as_muted(
        text::padded_end(
            if item.kind == ItemKind::Directory {
                "folder"@
            } else if item.kind == ItemKind::File {
                "file"@
            } else {
                "item"@
            },
            8,
        ),
    ) + "  "@ + theme.as_text(
        width::truncated_start(
            path::relative_shown(root, item.spelling),
            if canvas > 33 {
                (canvas - 33) as nat
            } else {
                0
            },
        ),
    )
}

proof fn lemma_rows(
    lines: Seq<Seq<char>>,
    root: Seq<PartView>,
    items: Seq<ItemView>,
    count: int,
    theme: Theme,
    canvas: nat,
)
    requires
        0 <= count <= items.len(),
    ensures
        goes_on(lines, report::item_rows(lines, root, items, count, theme, canvas)),
        forall|i: int|
            0 <= i < count ==> report::item_rows(
                lines,
                root,
                items,
                count,
                theme,
                canvas,
            ).contains(told_item(root, #[trigger] items[i], (i + 1) as nat, theme, canvas)),
    decreases count,
{
    if count > 0 {
        lemma_rows(lines, root, items, count - 1, theme, canvas);
        let before = report::item_rows(lines, root, items, count - 1, theme, canvas);
        let after = report::item_rows(lines, root, items, count, theme, canvas);
        lemma_goes_on(lines, before, after);
        assert forall|i: int| 0 <= i < count implies after.contains(
            told_item(root, #[trigger] items[i], (i + 1) as nat, theme, canvas),
        ) by {
            if i < count - 1 {
                lemma_kept(
                    before,
                    after,
                    told_item(root, items[i], (i + 1) as nat, theme, canvas),
                );
            } else {
                assert(after[after.len() - 1] == told_item(
                    root,
                    items[i],
                    (i + 1) as nat,
                    theme,
                    canvas,
                ));
            }
        }
    }
}

proof fn lemma_largest(
    lines: Seq<Seq<char>>,
    root: Seq<PartView>,
    items: Seq<ItemView>,
    top: nat,
    theme: Theme,
    canvas: nat,
)
    ensures
        ({
            let after = report::largest_section(lines, root, items, top, theme, canvas);
            &&& goes_on(lines, after)
            &&& forall|i: int|
                0 <= i < items.len() && i < top ==> after.contains(
                    told_item(root, #[trigger] items[i], (i + 1) as nat, theme, canvas),
                )
            &&& items.len() > top ==> tells_more(
                after,
                (items.len() - top) as nat,
                "items"@,
                theme,
            )
        }),
{
    let after = report::largest_section(lines, root, items, top, theme, canvas);
    let about = "Files and folders ordered by logical size"@;
    let head = sheet::section(lines, "06"@, "LARGEST ITEMS"@, about, theme, canvas);
    lemma_section(lines, "06"@, "LARGEST ITEMS"@, about, theme, canvas);
    if items.len() == 0 {
        lemma_goes_on(lines, head, after);
    } else {
        let titled = head.push(
            "  "@ + theme.as_muted(text::padded_end("#"@, 4)) + "  "@ + theme.as_muted(
                text::padded_start("SIZE"@, 10),
            ) + "  "@ + theme.as_muted(text::padded_end("TYPE"@, 8)) + "  "@ + theme.as_muted(
                "PATH"@,
            ),
        );
        let begun = titled.push("  "@ + canvas::rule(theme, canvas, 4));
        let count = report::shown_of(items.len(), top) as int;
        let told = report::item_rows(begun, root, items, count, theme, canvas);
        lemma_rows(begun, root, items, count, theme, canvas);
        lemma_more(told, items.len(), top, "items"@, theme);
        lemma_goes_on(lines, head, titled);
        lemma_goes_on(lines, titled, begun);
        lemma_goes_on(lines, begun, told);
        lemma_goes_on(lines, told, after);
        assert forall|i: int| 0 <= i < items.len() && i < top implies after.contains(
            told_item(root, #[trigger] items[i], (i + 1) as nat, theme, canvas),
        ) by {
            lemma_kept(told, after, told_item(root, items[i], (i + 1) as nat, theme, canvas));
        }
    }
}

/// The line of a warning, with the path that it is about where it has one.
pub open spec fn told_warning(
    root: Seq<PartView>,
    spelling: Option<Seq<u8>>,
    message: Seq<char>,
    theme: Theme,
) -> Seq<char> {
    match spelling {
        Some(known) => "  "@ + theme.as_red("!"@) + " "@ + theme.as_text(
            path::relative_shown(root, known),
        ) + " — "@ + theme.as_muted(message),
        None => "  "@ + theme.as_red("!"@) + " "@ + theme.as_muted(message),
    }
}

/// The spelling of the path that a warning is about.
pub open spec fn warned_path(warning: ScanWarningView) -> Option<Seq<u8>> {
    match warning.path {
        Some(known) => Some(known.spelling),
        None => None,
    }
}

proof fn lemma_scan_warnings(
    lines: Seq<Seq<char>>,
    root: Seq<PartView>,
    warnings: Seq<ScanWarningView>,
    count: int,
    theme: Theme,
)
    requires
        0 <= count <= warnings.len(),
    ensures
        goes_on(lines, report::scan_warning_lines(lines, root, warnings, count, theme)),
        forall|i: int|
            0 <= i < count ==> report::scan_warning_lines(
                lines,
                root,
                warnings,
                count,
                theme,
            ).contains(
                told_warning(
                    root,
                    warned_path(#[trigger] warnings[i]),
                    warnings[i].message,
                    theme,
                ),
            ),
    decreases count,
{
    if count > 0 {
        lemma_scan_warnings(lines, root, warnings, count - 1, theme);
        let before = report::scan_warning_lines(lines, root, warnings, count - 1, theme);
        let after = report::scan_warning_lines(lines, root, warnings, count, theme);
        lemma_goes_on(lines, before, after);
        assert forall|i: int| 0 <= i < count implies after.contains(
            told_warning(root, warned_path(#[trigger] warnings[i]), warnings[i].message, theme),
        ) by {
            let line = told_warning(root, warned_path(warnings[i]), warnings[i].message, theme);
            if i < count - 1 {
                lemma_kept(before, after, line);
            } else {
                assert(after[after.len() - 1] == line);
            }
        }
    }
}

proof fn lemma_copy_warnings(
    lines: Seq<Seq<char>>,
    root: Seq<PartView>,
    warnings: Seq<DuplicateWarningView>,
    count: int,
    theme: Theme,
)
    requires
        0 <= count <= warnings.len(),
    ensures
        goes_on(lines, report::duplicate_warning_lines(lines, root, warnings, count, theme)),
        forall|i: int|
            0 <= i < count ==> report::duplicate_warning_lines(
                lines,
                root,
                warnings,
                count,
                theme,
            ).contains(
                told_warning(
                    root,
                    Some((#[trigger] warnings[i]).spelling),
                    warnings[i].message,
                    theme,
                ),
            ),
    decreases count,
{
    if count > 0 {
        lemma_copy_warnings(lines, root, warnings, count - 1, theme);
        let before = report::duplicate_warning_lines(lines, root, warnings, count - 1, theme);
        let after = report::duplicate_warning_lines(lines, root, warnings, count, theme);
        lemma_goes_on(lines, before, after);
        assert forall|i: int| 0 <= i < count implies after.contains(
            told_warning(root, Some((#[trigger] warnings[i]).spelling), warnings[i].message, theme),
        ) by {
            let line = told_warning(root, Some(warnings[i].spelling), warnings[i].message, theme);
            if i < count - 1 {
                lemma_kept(before, after, line);
            } else {
                assert(after[after.len() - 1] == line);
            }
        }
    }
}

/// How many warnings are not told where ten of a kind are.
pub open spec fn untold(count: nat) -> nat {
    if count > 10 {
        (count - 10) as nat
    } else {
        0
    }
}

proof fn lemma_warned(
    lines: Seq<Seq<char>>,
    root: Seq<PartView>,
    scan: Seq<ScanWarningView>,
    copies: Seq<DuplicateWarningView>,
    theme: Theme,
    canvas: nat,
)
    ensures
        ({
            let after = report::warnings_section(lines, root, scan, copies, theme, canvas);
            &&& goes_on(lines, after)
            &&& forall|i: int|
                0 <= i < scan.len() && i < 10 ==> after.contains(
                    told_warning(root, warned_path(#[trigger] scan[i]), scan[i].message, theme),
                )
            &&& forall|i: int|
                0 <= i < copies.len() && i < 10 ==> after.contains(
                    told_warning(
                        root,
                        Some((#[trigger] copies[i]).spelling),
                        copies[i].message,
                        theme,
                    ),
                )
            &&& untold(scan.len()) + untold(copies.len()) > 0 ==> after.contains(
                "  • … and "@ + text::decimal(untold(scan.len()) + untold(copies.len()))
                    + " more warnings"@,
            )
            &&& scan.len() + copies.len() == 0 ==> after == lines
        }),
{
    let after = report::warnings_section(lines, root, scan, copies, theme, canvas);
    if scan.len() + copies.len() > 0 {
        let about = "Items skipped without stopping the scan"@;
        let head = sheet::section(lines, "07"@, "WARNINGS"@, about, theme, canvas);
        lemma_section(lines, "07"@, "WARNINGS"@, about, theme, canvas);
        let noted = head.push(
            "  "@ + theme.as_muted(
                "These items were skipped; the rest of the scan is still usable."@,
            ),
        );
        let begun = noted.push(""@);
        let counts = report::warning_counts(scan.len(), copies.len());
        assert(counts.2 == untold(scan.len()) + untold(copies.len()));
        let first = report::scan_warning_lines(begun, root, scan, counts.0 as int, theme);
        let second = report::duplicate_warning_lines(first, root, copies, counts.1 as int, theme);
        lemma_scan_warnings(begun, root, scan, counts.0 as int, theme);
        lemma_copy_warnings(first, root, copies, counts.1 as int, theme);
        lemma_goes_on(lines, head, noted);
        lemma_goes_on(lines, noted, begun);
        lemma_goes_on(lines, begun, first);
        lemma_goes_on(lines, first, second);
        assert(goes_on(second, after));
        lemma_goes_on(lines, second, after);
        lemma_goes_on(first, second, after);
        assert forall|i: int| 0 <= i < scan.len() && i < 10 implies after.contains(
            told_warning(root, warned_path(#[trigger] scan[i]), scan[i].message, theme),
        ) by {
            lemma_kept(
                first,
                after,
                told_warning(root, warned_path(scan[i]), scan[i].message, theme),
            );
        }
        assert forall|i: int| 0 <= i < copies.len() && i < 10 implies after.contains(
            told_warning(root, Some((#[trigger] copies[i]).spelling), copies[i].message, theme),
        ) by {
            lemma_kept(
                second,
                after,
                told_warning(root, Some(copies[i].spelling), copies[i].message, theme),
            );
        }
        if counts.2 > 0 {
            assert(after[after.len() - 1] == after.last());
        }
    }
}

/// What stands in a report before the figures of its overview.
pub open spec fn report_opening(told: ReportView, theme: Theme, canvas: nat) -> Seq<Seq<char>> {
    report::overview_counts(
        sheet::section(
            report::report_index(
                history::with_header(
                    Seq::<Seq<char>>::empty().push(""@),
                    theme,
                    "REPORT"@,
                    canvas,
                ),
                theme,
                canvas,
            ),
            "01"@,
            "OVERVIEW"@,
            "What was scanned and what SpaceMind found"@,
            theme,
            canvas,
        ),
        told.findings.len(),
        told.duplicates.groups.len(),
        told.relationships.relationships.len(),
        theme,
        canvas,
    )
}

/// The report as it grows: what stands before its recommendations, and the lines up
/// to the end of each section from these on.
pub proof fn lemma_report(
    told: ReportView,
    top: nat,
    min_size: u64,
    history: Option<i64>,
    theme: Theme,
    canvas: nat,
) -> (stages: (
    Seq<Seq<char>>,
    Seq<Seq<char>>,
    Seq<Seq<char>>,
    Seq<Seq<char>>,
    Seq<Seq<char>>,
    Seq<Seq<char>>,
))
    ensures
        ({
            let root = told.scan.root;
            let all = report::report(told, top, min_size, history, theme, canvas);
            let (before, advised, related, copied, listed, warned) = stages;
            &&& before == report::safety_section(
                report::overview_metrics(
                    report_opening(told, theme, canvas).push(""@),
                    told.scan,
                    told.ai,
                    told.scan.warnings.len() + told.duplicates.warnings.len(),
                    history,
                    theme,
                    canvas,
                ),
                root,
                told.policy,
                theme,
                canvas,
            )
            &&& goes_on(before, all)
            &&& advised == report::recommendations_section(
                before,
                root,
                told.findings,
                told.ai.explanations,
                top,
                theme,
                canvas,
            )
            &&& related == report::relationships_section(
                advised,
                root,
                told.relationships.relationships,
                top,
                theme,
                canvas,
            )
            &&& copied == report::duplicates_section(
                related,
                root,
                told.duplicates,
                top,
                theme,
                canvas,
            )
            &&& listed == report::largest_section(
                copied,
                root,
                report::largest(told.scan.items, root, min_size),
                top,
                theme,
                canvas,
            )
            &&& warned == report::warnings_section(
                listed,
                root,
                told.scan.warnings,
                told.duplicates.warnings,
                theme,
                canvas,
            )
            &&& goes_on(advised, all)
            &&& goes_on(related, all)
            &&& goes_on(copied, all)
            &&& goes_on(listed, all)
            &&& goes_on(warned, all)
            &&& all.len() == warned.len() + 4
            &&& all[all.len() - 2] == "  "@ + theme.as_green("✓"@) + " "@ + theme.as_green(
                "Nothing was deleted or modified."@,
            )
        }),
{
    let scan = told.scan;
    let root = scan.root;
    let all = report::report(told, top, min_size, history, theme, canvas);
    let opening = sheet::section(
        report::report_index(
            history::with_header(Seq::<Seq<char>>::empty().push(""@), theme, "REPORT"@, canvas),
            theme,
            canvas,
        ),
        "01"@,
        "OVERVIEW"@,
        "What was scanned and what SpaceMind found"@,
        theme,
        canvas,
    );
    let counted = report::overview_counts(
        opening,
        told.findings.len(),
        told.duplicates.groups.len(),
        told.relationships.relationships.len(),
        theme,
        canvas,
    ).push(""@);
    let measured = report::overview_metrics(
        counted,
        scan,
        told.ai,
        scan.warnings.len() + told.duplicates.warnings.len(),
        history,
        theme,
        canvas,
    );
    let before = report::safety_section(measured, root, told.policy, theme, canvas);
    let advised = report::recommendations_section(
        before,
        root,
        told.findings,
        told.ai.explanations,
        top,
        theme,
        canvas,
    );
    let related = report::relationships_section(
        advised,
        root,
        told.relationships.relationships,
        top,
        theme,
        canvas,
    );
    let copied = report::duplicates_section(related, root, told.duplicates, top, theme, canvas);
    let largest = report::largest(scan.items, root, min_size);
    let listed = report::largest_section(copied, root, largest, top, theme, canvas);
    let warned = report::warnings_section(
        listed,
        root,
        scan.warnings,
        told.duplicates.warnings,
        theme,
        canvas,
    );
    lemma_recommendations(
        before,
        root,
        told.findings,
        told.ai.explanations,
        top,
        theme,
        canvas,
    );
    lemma_connected(advised, root, told.relationships.relationships, top, theme, canvas);
    lemma_copied(related, root, told.duplicates, top, theme, canvas);
    lemma_largest(copied, root, largest, top, theme, canvas);
    lemma_warned(listed, root, scan.warnings, told.duplicates.warnings, theme, canvas);
    assert(goes_on(warned, all));
    lemma_goes_on(listed, warned, all);
    lemma_goes_on(copied, listed, all);
    lemma_goes_on(related, copied, all);
    lemma_goes_on(advised, related, all);
    lemma_goes_on(before, advised, all);
    (before, advised, related, copied, listed, warned)
}

/// A report tells of each of the first recommendations what the item is, where it
/// stands, what it may recover, at what risk, how sure that is, what to do and the
/// whole evidence; and how many more there are.
pub proof fn law_reports_tell_each_recommendation(
    told: ReportView,
    top: nat,
    min_size: u64,
    history: Option<i64>,
    theme: Theme,
    canvas: nat,
    place: int,
)
    requires
        0 <= place < told.findings.len(),
    ensures
        place < top ==> tells_finding(
            report::report(told, top, min_size, history, theme, canvas),
            told.scan.root,
            told.findings[place],
            (place + 1) as nat,
            theme,
            canvas,
        ),
        top < told.findings.len() ==> tells_more(
            report::report(told, top, min_size, history, theme, canvas),
            (told.findings.len() - top) as nat,
            "recommendations"@,
            theme,
        ),
{
    let all = report::report(told, top, min_size, history, theme, canvas);
    let root = told.scan.root;
    let (before, advised, _, _, _, _) = lemma_report(told, top, min_size, history, theme, canvas);
    lemma_recommendations(
        before,
        root,
        told.findings,
        told.ai.explanations,
        top,
        theme,
        canvas,
    );
    if place < top {
        lemma_finding_on(
            advised,
            all,
            root,
            told.findings[place],
            (place + 1) as nat,
            theme,
            canvas,
        );
    }
    if top < told.findings.len() {
        lemma_more_on(
            advised,
            all,
            (told.findings.len() - top) as nat,
            "recommendations"@,
            theme,
        );
    }
}

/// A report tells of each of the first relationships what connects which items, how
/// sure that is and the evidence; and how many more there are.
pub proof fn law_reports_tell_each_relationship(
    told: ReportView,
    top: nat,
    min_size: u64,
    history: Option<i64>,
    theme: Theme,
    canvas: nat,
    place: int,
)
    requires
        0 <= place < told.relationships.relationships.len(),
    ensures
        place < top ==> tells_relationship(
            report::report(told, top, min_size, history, theme, canvas),
            told.scan.root,
            told.relationships.relationships[place],
            (place + 1) as nat,
            theme,
            canvas,
        ),
        top < told.relationships.relationships.len() ==> tells_more(
            report::report(told, top, min_size, history, theme, canvas),
            (told.relationships.relationships.len() - top) as nat,
            "relationships"@,
            theme,
        ),
{
    let all = report::report(told, top, min_size, history, theme, canvas);
    let root = told.scan.root;
    let list = told.relationships.relationships;
    let (_, advised, related, _, _, _) = lemma_report(told, top, min_size, history, theme, canvas);
    lemma_connected(advised, root, list, top, theme, canvas);
    if place < top {
        lemma_relationship_on(related, all, root, list[place], (place + 1) as nat, theme, canvas);
    }
    if top < list.len() {
        lemma_more_on(related, all, (list.len() - top) as nat, "relationships"@, theme);
    }
}

/// A report tells of each of the first groups of duplicates how large a copy is, how
/// many there are, what may be recovered, and where each copy stands; and how many
/// more groups there are.
pub proof fn law_reports_tell_each_group_of_duplicates(
    told: ReportView,
    top: nat,
    min_size: u64,
    history: Option<i64>,
    theme: Theme,
    canvas: nat,
    place: int,
)
    requires
        0 <= place < told.duplicates.groups.len(),
    ensures
        place < top ==> tells_group(
            report::report(told, top, min_size, history, theme, canvas),
            told.scan.root,
            told.duplicates.groups[place],
            (place + 1) as nat,
            theme,
            canvas,
        ),
        top < told.duplicates.groups.len() ==> tells_more(
            report::report(told, top, min_size, history, theme, canvas),
            (told.duplicates.groups.len() - top) as nat,
            "duplicate groups"@,
            theme,
        ),
{
    let all = report::report(told, top, min_size, history, theme, canvas);
    let root = told.scan.root;
    let groups = told.duplicates.groups;
    let (_, _, related, copied, _, _) = lemma_report(told, top, min_size, history, theme, canvas);
    lemma_copied(related, root, told.duplicates, top, theme, canvas);
    if place < top {
        lemma_group_on(copied, all, root, groups[place], (place + 1) as nat, theme, canvas);
    }
    if top < groups.len() {
        lemma_more_on(copied, all, (groups.len() - top) as nat, "duplicate groups"@, theme);
    }
}

/// A report lists the first of the largest items by their places, with size and path;
/// and how many more there are.
pub proof fn law_reports_list_the_largest_items(
    told: ReportView,
    top: nat,
    min_size: u64,
    history: Option<i64>,
    theme: Theme,
    canvas: nat,
    place: int,
)
    requires
        0 <= place < report::largest(told.scan.items, told.scan.root, min_size).len(),
    ensures
        ({
            let all = report::report(told, top, min_size, history, theme, canvas);
            let items = report::largest(told.scan.items, told.scan.root, min_size);
            &&& place < top ==> all.contains(
                told_item(told.scan.root, items[place], (place + 1) as nat, theme, canvas),
            )
            &&& top < items.len() ==> tells_more(
                all,
                (items.len() - top) as nat,
                "items"@,
                theme,
            )
        }),
{
    let all = report::report(told, top, min_size, history, theme, canvas);
    let root = told.scan.root;
    let items = report::largest(told.scan.items, root, min_size);
    let (_, _, _, copied, listed, _) = lemma_report(told, top, min_size, history, theme, canvas);
    lemma_largest(copied, root, items, top, theme, canvas);
    if place < top {
        lemma_kept(
            listed,
            all,
            told_item(root, items[place], (place + 1) as nat, theme, canvas),
        );
    }
    if top < items.len() {
        lemma_more_on(listed, all, (items.len() - top) as nat, "items"@, theme);
    }
}

/// A report tells the first ten warnings of the scan and the first ten of the search
/// for duplicates, and how many more there are; and it ends by saying that nothing
/// was deleted or modified.
pub proof fn law_reports_tell_their_warnings(
    told: ReportView,
    top: nat,
    min_size: u64,
    history: Option<i64>,
    theme: Theme,
    canvas: nat,
    place: int,
)
    ensures
        ({
            let all = report::report(told, top, min_size, history, theme, canvas);
            let scan = told.scan.warnings;
            let copies = told.duplicates.warnings;
            let more = untold(scan.len()) + untold(copies.len());
            &&& 0 <= place < scan.len() && place < 10 ==> all.contains(
                told_warning(
                    told.scan.root,
                    warned_path(scan[place]),
                    scan[place].message,
                    theme,
                ),
            )
            &&& 0 <= place < copies.len() && place < 10 ==> all.contains(
                told_warning(
                    told.scan.root,
                    Some(copies[place].spelling),
                    copies[place].message,
                    theme,
                ),
            )
            &&& more > 0 ==> all.contains(
                "  • … and "@ + text::decimal(more) + " more warnings"@,
            )
            &&& all.len() >= 2
            &&& all[all.len() - 2] == "  "@ + theme.as_green("✓"@) + " "@ + theme.as_green(
                "Nothing was deleted or modified."@,
            )
        }),
{
    let all = report::report(told, top, min_size, history, theme, canvas);
    let root = told.scan.root;
    let scan = told.scan.warnings;
    let copies = told.duplicates.warnings;
    let more = untold(scan.len()) + untold(copies.len());
    let (_, _, _, _, listed, warned) = lemma_report(told, top, min_size, history, theme, canvas);
    lemma_warned(listed, root, scan, copies, theme, canvas);
    if 0 <= place < scan.len() && place < 10 {
        lemma_kept(
            warned,
            all,
            told_warning(root, warned_path(scan[place]), scan[place].message, theme),
        );
    }
    if 0 <= place < copies.len() && place < 10 {
        lemma_kept(
            warned,
            all,
            told_warning(root, Some(copies[place].spelling), copies[place].message, theme),
        );
    }
    if more > 0 {
        lemma_kept(warned, all, "  • … and "@ + text::decimal(more) + " more warnings"@);
    }
}

/// Whether an earlier scan stands in some lines: under its number with what it was a
/// scan of, how much there was, what was found, and how long ago it was completed.
pub open spec fn tells_scan(
    lines: Seq<Seq<char>>,
    entry: ScanHistoryEntryView,
    now: nat,
    theme: Theme,
    canvas: nat,
) -> bool {
    &&& lines.contains(
        "  "@ + theme.as_selected(
            " #"@ + text::padded_end(storage::signed_decimal(entry.id), 4) + " "@,
        ) + "  "@ + theme.as_text(path::spelled(entry.root_spelling)),
    )
    &&& tells(
        lines,
        "analyzed"@,
        size::bytes_text(entry.total_size_bytes as nat),
        RecordTone::Text,
        theme,
        canvas,
    )
    &&& tells(
        lines,
        "contents"@,
        size::count_text(entry.file_count as nat) + " files • "@ + size::count_text(
            entry.directory_count as nat,
        ) + " folders"@,
        RecordTone::Text,
        theme,
        canvas,
    )
    &&& tells(
        lines,
        "results"@,
        size::count_text(entry.recommendation_count as nat) + " recommendations • "@
            + size::count_text(entry.duplicate_group_count as nat) + " duplicate groups • "@
            + size::count_text(entry.relationship_count as nat) + " relationships"@,
        RecordTone::Accent,
        theme,
        canvas,
    )
    &&& entry.duplicate_recovery_bytes is Some ==> tells(
        lines,
        "recoverable"@,
        size::bytes_text(entry.duplicate_recovery_bytes->Some_0 as nat),
        RecordTone::Positive,
        theme,
        canvas,
    )
    &&& tells(
        lines,
        "completed"@,
        size::age_text(entry.completed_at_epoch_seconds as nat, now),
        RecordTone::Text,
        theme,
        canvas,
    )
}

proof fn lemma_scan_on(
    lines: Seq<Seq<char>>,
    more: Seq<Seq<char>>,
    entry: ScanHistoryEntryView,
    now: nat,
    theme: Theme,
    canvas: nat,
)
    requires
        goes_on(lines, more),
        tells_scan(lines, entry, now, theme, canvas),
    ensures
        tells_scan(more, entry, now, theme, canvas),
{
    lemma_kept(
        lines,
        more,
        "  "@ + theme.as_selected(
            " #"@ + text::padded_end(storage::signed_decimal(entry.id), 4) + " "@,
        ) + "  "@ + theme.as_text(path::spelled(entry.root_spelling)),
    );
    lemma_tells_on(
        lines,
        more,
        "analyzed"@,
        size::bytes_text(entry.total_size_bytes as nat),
        RecordTone::Text,
        theme,
        canvas,
    );
    lemma_tells_on(
        lines,
        more,
        "contents"@,
        size::count_text(entry.file_count as nat) + " files • "@ + size::count_text(
            entry.directory_count as nat,
        ) + " folders"@,
        RecordTone::Text,
        theme,
        canvas,
    );
    lemma_tells_on(
        lines,
        more,
        "results"@,
        size::count_text(entry.recommendation_count as nat) + " recommendations • "@
            + size::count_text(entry.duplicate_group_count as nat) + " duplicate groups • "@
            + size::count_text(entry.relationship_count as nat) + " relationships"@,
        RecordTone::Accent,
        theme,
        canvas,
    );
    if entry.duplicate_recovery_bytes is Some {
        lemma_tells_on(
            lines,
            more,
            "recoverable"@,
            size::bytes_text(entry.duplicate_recovery_bytes->Some_0 as nat),
            RecordTone::Positive,
            theme,
            canvas,
        );
    }
    lemma_tells_on(
        lines,
        more,
        "completed"@,
        size::age_text(entry.completed_at_epoch_seconds as nat, now),
        RecordTone::Text,
        theme,
        canvas,
    );
}

proof fn lemma_scan(
    lines: Seq<Seq<char>>,
    entry: ScanHistoryEntryView,
    now: nat,
    theme: Theme,
    canvas: nat,
)
    ensures
        goes_on(lines, history::history_record(lines, entry, now, theme, canvas)),
        tells_scan(
            history::history_record(lines, entry, now, theme, canvas),
            entry,
            now,
            theme,
            canvas,
        ),
{
    let title = "  "@ + theme.as_selected(
        " #"@ + text::padded_end(storage::signed_decimal(entry.id), 4) + " "@,
    ) + "  "@ + theme.as_text(path::spelled(entry.root_spelling));
    let much = size::bytes_text(entry.total_size_bytes as nat);
    let many = size::count_text(entry.file_count as nat) + " files • "@ + size::count_text(
        entry.directory_count as nat,
    ) + " folders"@;
    let results = size::count_text(entry.recommendation_count as nat) + " recommendations • "@
        + size::count_text(entry.duplicate_group_count as nat) + " duplicate groups • "@
        + size::count_text(entry.relationship_count as nat) + " relationships"@;
    let model = history::model_told(entry);
    let age = size::age_text(entry.completed_at_epoch_seconds as nat, now);
    let a = lines.push(sheet::divider(theme, canvas)).push(title);
    let b = sheet::record_field(a, "analyzed"@, much, RecordTone::Text, theme, canvas);
    let c = sheet::record_field(b, "contents"@, many, RecordTone::Text, theme, canvas);
    let d = sheet::record_field(c, "results"@, results, RecordTone::Accent, theme, canvas);
    let e = sheet::record_field(d, "local AI"@, model, RecordTone::Text, theme, canvas);
    let f = match entry.duplicate_recovery_bytes {
        Some(bytes) => sheet::record_field(
            e,
            "recoverable"@,
            size::bytes_text(bytes as nat),
            RecordTone::Positive,
            theme,
            canvas,
        ),
        None => e,
    };
    let g = sheet::record_field(f, "completed"@, age, RecordTone::Text, theme, canvas);
    assert(g == history::history_record(lines, entry, now, theme, canvas));
    lemma_field(a, "analyzed"@, much, RecordTone::Text, theme, canvas);
    lemma_field(b, "contents"@, many, RecordTone::Text, theme, canvas);
    lemma_field(c, "results"@, results, RecordTone::Accent, theme, canvas);
    lemma_field(d, "local AI"@, model, RecordTone::Text, theme, canvas);
    if entry.duplicate_recovery_bytes is Some {
        lemma_field(
            e,
            "recoverable"@,
            size::bytes_text(entry.duplicate_recovery_bytes->Some_0 as nat),
            RecordTone::Positive,
            theme,
            canvas,
        );
    }
    lemma_field(f, "completed"@, age, RecordTone::Text, theme, canvas);
    lemma_goes_on(e, f, g);
    lemma_goes_on(d, e, g);
    lemma_goes_on(c, d, g);
    lemma_goes_on(b, c, g);
    lemma_goes_on(a, b, g);
    assert(goes_on(lines, a));
    lemma_goes_on(lines, a, g);
    assert(a[a.len() - 1] == title);
    lemma_kept(a, g, title);
    lemma_tells_on(b, g, "analyzed"@, much, RecordTone::Text, theme, canvas);
    lemma_tells_on(c, g, "contents"@, many, RecordTone::Text, theme, canvas);
    lemma_tells_on(d, g, "results"@, results, RecordTone::Accent, theme, canvas);
    if entry.duplicate_recovery_bytes is Some {
        lemma_tells_on(
            f,
            g,
            "recoverable"@,
            size::bytes_text(entry.duplicate_recovery_bytes->Some_0 as nat),
            RecordTone::Positive,
            theme,
            canvas,
        );
    }
}

proof fn lemma_scans(
    lines: Seq<Seq<char>>,
    entries: Seq<ScanHistoryEntryView>,
    count: int,
    now: nat,
    theme: Theme,
    canvas: nat,
)
    requires
        0 <= count <= entries.len(),
    ensures
        goes_on(lines, history::history_records(lines, entries, count, now, theme, canvas)),
        forall|i: int|
            0 <= i < count ==> tells_scan(
                history::history_records(lines, entries, count, now, theme, canvas),
                #[trigger] entries[i],
                now,
                theme,
                canvas,
            ),
    decreases count,
{
    if count > 0 {
        lemma_scans(lines, entries, count - 1, now, theme, canvas);
        let before = history::history_records(lines, entries, count - 1, now, theme, canvas);
        let after = history::history_records(lines, entries, count, now, theme, canvas);
        lemma_scan(before, entries[count - 1], now, theme, canvas);
        lemma_goes_on(lines, before, after);
        assert forall|i: int| 0 <= i < count implies tells_scan(
            after,
            #[trigger] entries[i],
            now,
            theme,
            canvas,
        ) by {
            if i < count - 1 {
                lemma_scan_on(before, after, entries[i], now, theme, canvas);
            }
        }
    }
}

/// The printed history tells of every scan that it was given.
pub proof fn law_history_tells_each_scan(
    entries: Seq<ScanHistoryEntryView>,
    database: Seq<u8>,
    now: nat,
    theme: Theme,
    canvas: nat,
    place: int,
)
    requires
        0 <= place < entries.len(),
    ensures
        tells_scan(
            history::history_report(entries, database, now, theme, canvas),
            entries[place],
            now,
            theme,
            canvas,
        ),
{
    let head = sheet::section(
        history::with_header(Seq::<Seq<char>>::empty().push(""@), theme, "REPORT"@, canvas),
        "01"@,
        "SCAN HISTORY"@,
        "Previous analyses stored only on this computer"@,
        theme,
        canvas,
    );
    let figures = sheet::metric(
        sheet::metric(head, "database"@, path::spelled(database), RecordTone::Text, theme, canvas),
        "scans shown"@,
        size::count_text(entries.len()),
        RecordTone::Accent,
        theme,
        canvas,
    );
    let count = entries.len() as int;
    let body = history::history_records(figures, entries, count, now, theme, canvas);
    let all = history::history_report(entries, database, now, theme, canvas);
    lemma_scans(figures, entries, count, now, theme, canvas);
    assert(goes_on(body, all));
    lemma_scan_on(body, all, entries[place], now, theme, canvas);
}

} // verus!
