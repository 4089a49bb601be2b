//! The screens on which a stored analysis is reviewed.

use crate::canvas;
use crate::canvas::{Screen, TerminalLayout, Theme};
use crate::history;
use crate::labels;
use crate::menu;
use crate::menu::Key;
use crate::model::{
    AiExplanation, DuplicateGroup, EntryView, ExplanationView, Finding, FindingView, GroupView,
    Relationship, RelationshipView,
};
use crate::order;
use crate::path;
use crate::path::{FilePath, PartView};
use crate::sheet;
use crate::size;
use crate::storage;
use crate::storage::{StoredAnalysis, StoredAnalysisView, StoredWarning, StoredWarningView};
use crate::text;
use crate::width;
use vstd::prelude::*;

verus! {

/// A part of the review.
#[derive(Debug, Clone, Copy, PartialEq, Eq, Structural)]
pub enum ReviewSection {
    Overview,
    Recommendations,
    Duplicates,
    Relationships,
    Warnings,
}

impl ReviewSection {
    pub open spec fn spec_label(self) -> Seq<char> {
        match self {
            ReviewSection::Overview => "overview"@,
            ReviewSection::Recommendations => "review"@,
            ReviewSection::Duplicates => "duplicates"@,
            ReviewSection::Relationships => "related"@,
            ReviewSection::Warnings => "warnings"@,
        }
    }

    pub fn label(self) -> (result: &'static str)
        ensures
            result@ == self.spec_label(),
    {
        match self {
            ReviewSection::Overview => "overview",
            ReviewSection::Recommendations => "review",
            ReviewSection::Duplicates => "duplicates",
            ReviewSection::Relationships => "related",
            ReviewSection::Warnings => "warnings",
        }
    }
}

/// The parts of the review in their order.
pub open spec fn sections() -> Seq<ReviewSection> {
    seq![
        ReviewSection::Overview,
        ReviewSection::Recommendations,
        ReviewSection::Duplicates,
        ReviewSection::Relationships,
        ReviewSection::Warnings,
    ]
}

pub fn all_sections() -> (result: Vec<ReviewSection>)
    ensures
        result@ == sections(),
{
    let result = vec![
        ReviewSection::Overview,
        ReviewSection::Recommendations,
        ReviewSection::Duplicates,
        ReviewSection::Relationships,
        ReviewSection::Warnings,
    ];
    assert(result@ =~= sections());
    result
}

/// Where a part stands among all.
pub open spec fn place_of(section: ReviewSection) -> nat {
    match section {
        ReviewSection::Overview => 0,
        ReviewSection::Recommendations => 1,
        ReviewSection::Duplicates => 2,
        ReviewSection::Relationships => 3,
        ReviewSection::Warnings => 4,
    }
}

pub fn section_index(section: ReviewSection) -> (result: usize)
    ensures
        result == place_of(section),
        result < 5,
        sections()[result as int] == section,
{
    match section {
        ReviewSection::Overview => 0,
        ReviewSection::Recommendations => 1,
        ReviewSection::Duplicates => 2,
        ReviewSection::Relationships => 3,
        ReviewSection::Warnings => 4,
    }
}

fn section_at(place: usize) -> (result: ReviewSection)
    requires
        place < 5,
    ensures
        result == sections()[place as int],
{
    if place == 0 {
        ReviewSection::Overview
    } else if place == 1 {
        ReviewSection::Recommendations
    } else if place == 2 {
        ReviewSection::Duplicates
    } else if place == 3 {
        ReviewSection::Relationships
    } else {
        ReviewSection::Warnings
    }
}

/// How many items a part lists.
pub open spec fn item_count(analysis: StoredAnalysisView, section: ReviewSection) -> nat {
    match section {
        ReviewSection::Overview => 0,
        ReviewSection::Recommendations => analysis.findings.len(),
        ReviewSection::Duplicates => analysis.duplicate_groups.len(),
        ReviewSection::Relationships => analysis.relationships.len(),
        ReviewSection::Warnings => analysis.warnings.len(),
    }
}

/// How many items of a section are listed: warnings only where the scan counted
/// some.
pub open spec fn shown_count(analysis: StoredAnalysisView, section: ReviewSection) -> nat {
    if section == ReviewSection::Warnings && analysis.summary.warning_count == 0 {
        0
    } else {
        item_count(analysis, section)
    }
}

pub fn review_item_count(analysis: &StoredAnalysis, section: ReviewSection) -> (result: usize)
    ensures
        result == item_count(analysis@, section),
{
    match section {
        ReviewSection::Overview => 0,
        ReviewSection::Recommendations => analysis.findings.len(),
        ReviewSection::Duplicates => analysis.duplicate_groups.len(),
        ReviewSection::Relationships => analysis.relationships.len(),
        ReviewSection::Warnings => analysis.warnings.len(),
    }
}

/// Where a review has come to: the part that is open, and the item that is
/// selected in each.
#[derive(Debug, Clone, Copy, PartialEq, Eq, Structural)]
pub struct ReviewCursor {
    pub section: ReviewSection,
    pub overview: usize,
    pub recommendations: usize,
    pub duplicates: usize,
    pub relationships: usize,
    pub warnings: usize,
}

impl ReviewCursor {
    /// The item that is selected in a part.
    pub open spec fn selected_in(self, section: ReviewSection) -> usize {
        match section {
            ReviewSection::Overview => self.overview,
            ReviewSection::Recommendations => self.recommendations,
            ReviewSection::Duplicates => self.duplicates,
            ReviewSection::Relationships => self.relationships,
            ReviewSection::Warnings => self.warnings,
        }
    }

    /// The same with another item selected in the part that is open.
    pub open spec fn with_selected(self, place: usize) -> ReviewCursor {
        match self.section {
            ReviewSection::Overview => ReviewCursor { overview: place, ..self },
            ReviewSection::Recommendations => ReviewCursor { recommendations: place, ..self },
            ReviewSection::Duplicates => ReviewCursor { duplicates: place, ..self },
            ReviewSection::Relationships => ReviewCursor { relationships: place, ..self },
            ReviewSection::Warnings => ReviewCursor { warnings: place, ..self },
        }
    }

    /// Whether every selected item is one of the analysis, where it has any.
    pub open spec fn fits(self, analysis: StoredAnalysisView) -> bool {
        forall|section: ReviewSection|
            (#[trigger] item_count(analysis, section)) > 0 ==> self.selected_in(section)
                < item_count(analysis, section)
    }

    /// A review begins with the first recommendation.
    pub fn new() -> (result: Self)
        ensures
            result == (ReviewCursor {
                section: ReviewSection::Recommendations,
                overview: 0,
                recommendations: 0,
                duplicates: 0,
                relationships: 0,
                warnings: 0,
            }),
            forall|analysis: StoredAnalysisView| #[trigger] result.fits(analysis),
    {
        ReviewCursor {
            section: ReviewSection::Recommendations,
            overview: 0,
            recommendations: 0,
            duplicates: 0,
            relationships: 0,
            warnings: 0,
        }
    }

    /// The item that is selected in the part that is open.
    pub fn selected(self) -> (result: usize)
        ensures
            result == self.selected_in(self.section),
    {
        match self.section {
            ReviewSection::Overview => self.overview,
            ReviewSection::Recommendations => self.recommendations,
            ReviewSection::Duplicates => self.duplicates,
            ReviewSection::Relationships => self.relationships,
            ReviewSection::Warnings => self.warnings,
        }
    }

    fn select(self, place: usize) -> (result: Self)
        ensures
            result == self.with_selected(place),
    {
        match self.section {
            ReviewSection::Overview => ReviewCursor { overview: place, ..self },
            ReviewSection::Recommendations => ReviewCursor { recommendations: place, ..self },
            ReviewSection::Duplicates => ReviewCursor { duplicates: place, ..self },
            ReviewSection::Relationships => ReviewCursor { relationships: place, ..self },
            ReviewSection::Warnings => ReviewCursor { warnings: place, ..self },
        }
    }

    /// What a key does in the review.
    pub fn step(self, analysis: &StoredAnalysis, key: Key) -> (result: ReviewStep)
        requires
            self.fits(analysis@),
        ensures
            result == review_next(self, analysis@, key),
            match result {
                ReviewStep::Stay(cursor) => cursor.fits(analysis@),
                _ => true,
            },
    {
        let count: usize = review_item_count(analysis, self.section);
        let place: usize = section_index(self.section);
        assert(item_count(analysis@, self.section) == count);
        match key {
            Key::ControlC => ReviewStep::Close,
            Key::Escape | Key::Character('q') => ReviewStep::Back,
            Key::Left | Key::Character('h') | Key::BackTab => {
                let section = section_at(menu::move_up(place, 5));
                ReviewStep::Stay(ReviewCursor { section, ..self })
            },
            Key::Right | Key::Character('l') | Key::Tab => {
                let section = section_at(menu::move_down(place, 5));
                ReviewStep::Stay(ReviewCursor { section, ..self })
            },
            Key::Character(character) if '1' <= character && character <= '5' => {
                let section = section_at((character as u32 - '1' as u32) as usize);
                ReviewStep::Stay(ReviewCursor { section, ..self })
            },
            _ => {
                if count == 0 {
                    return ReviewStep::Stay(self);
                }
                match key {
                    Key::Up | Key::Character('k') => ReviewStep::Stay(
                        self.select(menu::move_up(self.selected(), count)),
                    ),
                    Key::Down | Key::Character('j') => ReviewStep::Stay(
                        self.select(menu::move_down(self.selected(), count)),
                    ),
                    Key::Home => ReviewStep::Stay(self.select(0)),
                    Key::End => ReviewStep::Stay(self.select(count - 1)),
                    _ => ReviewStep::Stay(self),
                }
            },
        }
    }
}

/// What a key leads to in the review.
#[derive(Debug, Clone, Copy, PartialEq, Eq, Structural)]
pub enum ReviewStep {
    Stay(ReviewCursor),
    Back,
    Close,
}

pub open spec fn review_next(cursor: ReviewCursor, analysis: StoredAnalysisView, key: Key) -> ReviewStep {
    let count = item_count(analysis, cursor.section);
    let selected = cursor.selected_in(cursor.section) as nat;
    match key {
        Key::ControlC => ReviewStep::Close,
        Key::Escape | Key::Character('q') => ReviewStep::Back,
        Key::Left | Key::Character('h') | Key::BackTab => ReviewStep::Stay(
            ReviewCursor {
                section: sections()[menu::before(place_of(cursor.section), 5) as int],
                ..cursor
            },
        ),
        Key::Right | Key::Character('l') | Key::Tab => ReviewStep::Stay(
            ReviewCursor {
                section: sections()[menu::after(place_of(cursor.section), 5) as int],
                ..cursor
            },
        ),
        Key::Character(character) if '1' <= character && character <= '5' => ReviewStep::Stay(
            ReviewCursor { section: sections()[character as int - '1' as int], ..cursor },
        ),
        _ => if count == 0 {
            ReviewStep::Stay(cursor)
        } else {
            match key {
                Key::Up | Key::Character('k') => ReviewStep::Stay(
                    cursor.with_selected(menu::before(selected, count) as usize),
                ),
                Key::Down | Key::Character('j') => ReviewStep::Stay(
                    cursor.with_selected(menu::after(selected, count) as usize),
                ),
                Key::Home => ReviewStep::Stay(cursor.with_selected(0)),
                Key::End => ReviewStep::Stay(cursor.with_selected((count - 1) as usize)),
                _ => ReviewStep::Stay(cursor),
            }
        },
    }
}

pub open spec fn minimal_label(section: ReviewSection) -> Seq<char> {
    match section {
        ReviewSection::Overview => "i"@,
        ReviewSection::Recommendations => "r"@,
        ReviewSection::Duplicates => "d"@,
        ReviewSection::Relationships => "l"@,
        ReviewSection::Warnings => "w"@,
    }
}

fn review_minimal_label(section: ReviewSection) -> (result: &'static str)
    ensures
        result@ == minimal_label(section),
{
    match section {
        ReviewSection::Overview => "i",
        ReviewSection::Recommendations => "r",
        ReviewSection::Duplicates => "d",
        ReviewSection::Relationships => "l",
        ReviewSection::Warnings => "w",
    }
}

pub open spec fn compact_label(section: ReviewSection) -> Seq<char> {
    match section {
        ReviewSection::Overview => "info"@,
        ReviewSection::Recommendations => "review"@,
        ReviewSection::Duplicates => "dupes"@,
        ReviewSection::Relationships => "links"@,
        ReviewSection::Warnings => "warn"@,
    }
}

fn review_compact_label(section: ReviewSection) -> (result: &'static str)
    ensures
        result@ == compact_label(section),
{
    match section {
        ReviewSection::Overview => "info",
        ReviewSection::Recommendations => "review",
        ReviewSection::Duplicates => "dupes",
        ReviewSection::Relationships => "links",
        ReviewSection::Warnings => "warn",
    }
}

/// The tab of a part, shorter where the canvas is narrow.
pub open spec fn tab_label(section: ReviewSection, canvas: nat) -> Seq<char> {
    let number = text::decimal(place_of(section) + 1);
    if canvas < 50 {
        " "@ + number + minimal_label(section) + " "@
    } else if canvas < 66 {
        " "@ + number + " "@ + compact_label(section) + " "@
    } else {
        " "@ + number + " "@ + section.spec_label() + " "@
    }
}

/// The first tabs in a row.
pub open spec fn tabs(section: ReviewSection, count: int, theme: Theme, canvas: nat) -> Seq<char>
    decreases count,
{
    if count <= 0 {
        "  "@
    } else {
        let candidate = sections()[count - 1];
        tabs(section, count - 1, theme, canvas) + canvas::mark_shown(
            theme,
            tab_label(candidate, canvas),
            candidate == section,
        ) + " "@
    }
}

fn review_tab_line(section: ReviewSection, theme: Theme, canvas: usize) -> (result: String)
    ensures
        result@ == tabs(section, 5, theme, canvas as nat),
{
    let candidates = all_sections();
    let mut line = "  ".to_owned();
    let mut at: usize = 0;
    while at < candidates.len()
        invariant
            at <= 5,
            candidates@ == sections(),
            candidates@.len() == 5,
            line@ == tabs(section, at as int, theme, canvas as nat),
        decreases 5 - at,
    {
        let candidate = candidates[at];
        let number = text::decimal_of(at as u64 + 1);
        assert(place_of(candidate) == at);
        let label = if canvas < 50 {
            text::cat4(" ", number.as_str(), review_minimal_label(candidate), " ")
        } else if canvas < 66 {
            text::cat5(" ", number.as_str(), " ", review_compact_label(candidate), " ")
        } else {
            text::cat5(" ", number.as_str(), " ", candidate.label(), " ")
        };
        line = text::cat3(
            line.as_str(),
            canvas::show_mark(theme, label.as_str(), candidate == section).as_str(),
            " ",
        );
        at = at + 1;
    }
    line
}

/// A figure of the review.
pub open spec fn figure(label: Seq<char>, value: Seq<char>, theme: Theme, canvas: nat) -> Seq<char> {
    let room = if width::less(canvas, 22) < 1 {
        1
    } else {
        width::less(canvas, 22)
    };
    "  "@ + theme.as_muted(text::padded_end(label, 18)) + "  "@ + theme.as_text(
        width::truncated_start(value, room),
    )
}

fn review_metric(label: &str, value: &str, theme: Theme, canvas: usize) -> (result: String)
    ensures
        result@ == figure(label@, value@, theme, canvas as nat),
{
    let free: usize = canvas.saturating_sub(22);
    let room: usize = if free < 1 {
        1
    } else {
        free
    };
    text::cat4(
        "  ",
        theme.muted(text::pad_end(label, 18).as_str()).as_str(),
        "  ",
        theme.text(width::truncate_start(value, room).as_str()).as_str(),
    )
}

/// A point of a list in the review.
pub open spec fn review_bullet(
    lines: Seq<Seq<char>>,
    value: Seq<char>,
    theme: Theme,
    canvas: nat,
) -> Seq<Seq<char>> {
    let room = if width::less(canvas, 8) < 1 {
        1
    } else {
        width::less(canvas, 8)
    };
    sheet::bullet(lines, "    "@, value, room, theme)
}

fn push_review_bullet(screen: &mut Screen, value: &str, theme: Theme, canvas: usize)
    ensures
        final(screen)@ == review_bullet(old(screen)@, value@, theme, canvas as nat),
{
    let free: usize = canvas.saturating_sub(8);
    let room: usize = if free < 1 {
        1
    } else {
        free
    };
    sheet::print_bullet(screen, "    ", value, room, theme);
}

/// A line behind a tick.
pub open spec fn ticked(text: Seq<char>, room: nat, theme: Theme) -> Seq<char> {
    "  "@ + theme.as_green("✓"@) + " "@ + theme.as_text(width::truncated_end(text, room))
}

fn tick(value: &str, room: usize, theme: Theme) -> (result: String)
    ensures
        result@ == ticked(value@, room as nat, theme),
{
    text::cat4(
        "  ",
        theme.green("✓").as_str(),
        " ",
        theme.text(width::truncate_end(value, room).as_str()).as_str(),
    )
}

/// The line above a list.
pub open spec fn lead(text: Seq<char>, theme: Theme, canvas: nat) -> Seq<char> {
    "  "@ + theme.as_text(width::truncated_end(text, width::less(canvas, 2)))
}

fn draw_lead(value: &str, theme: Theme, canvas: usize) -> (result: String)
    ensures
        result@ == lead(value@, theme, canvas as nat),
{
    text::cat2(
        "  ",
        theme.text(width::truncate_end(value, canvas.saturating_sub(2)).as_str()).as_str(),
    )
}

/// What the scan found, at a glance.
pub open spec fn overview(
    lines: Seq<Seq<char>>,
    analysis: StoredAnalysisView,
    theme: Theme,
    canvas: nat,
) -> Seq<Seq<char>> {
    let summary = analysis.summary;
    lines.push("  "@ + theme.as_text("What this scan found"@)).push(""@).push(
        figure(
            "space analyzed"@,
            size::bytes_text(summary.total_size_bytes as nat),
            theme,
            canvas,
        ),
    ).push(
        figure(
            "contents"@,
            text::decimal(summary.file_count as nat) + " files • "@ + text::decimal(
                summary.directory_count as nat,
            ) + " folders"@,
            theme,
            canvas,
        ),
    ).push(
        figure(
            "review queue"@,
            text::decimal(analysis.findings.len()) + " recommendations"@,
            theme,
            canvas,
        ),
    ).push(
        figure(
            "duplicates"@,
            text::decimal(analysis.duplicate_groups.len()) + " exact groups"@,
            theme,
            canvas,
        ),
    ).push(
        figure(
            "relationships"@,
            text::decimal(analysis.relationships.len()) + " connections"@,
            theme,
            canvas,
        ),
    ).push(
        figure(
            "local AI"@,
            text::decimal(analysis.ai_explanations.len()) + " saved explanations"@,
            theme,
            canvas,
        ),
    ).push(""@).push(
        ticked(
            "This scan only observed metadata. It did not change any files."@,
            width::less(canvas, 4),
            theme,
        ),
    )
}

fn push_review_overview(
    screen: &mut Screen,
    analysis: &StoredAnalysis,
    theme: Theme,
    canvas: usize,
)
    ensures
        final(screen)@ == overview(old(screen)@, analysis@, theme, canvas as nat),
{
    let summary = &analysis.summary;
    screen.add(text::cat2("  ", theme.text("What this scan found").as_str()));
    screen.gap();
    screen.add(
        review_metric(
            "space analyzed",
            size::format_bytes(summary.total_size_bytes).as_str(),
            theme,
            canvas,
        ),
    );
    let contents = text::cat4(
        text::decimal_of(summary.file_count).as_str(),
        " files • ",
        text::decimal_of(summary.directory_count).as_str(),
        " folders",
    );
    screen.add(review_metric("contents", contents.as_str(), theme, canvas));
    let queue = text::cat2(
        text::decimal_of(analysis.findings.len() as u64).as_str(),
        " recommendations",
    );
    screen.add(review_metric("review queue", queue.as_str(), theme, canvas));
    let duplicates = text::cat2(
        text::decimal_of(analysis.duplicate_groups.len() as u64).as_str(),
        " exact groups",
    );
    screen.add(review_metric("duplicates", duplicates.as_str(), theme, canvas));
    let related = text::cat2(
        text::decimal_of(analysis.relationships.len() as u64).as_str(),
        " connections",
    );
    screen.add(review_metric("relationships", related.as_str(), theme, canvas));
    let explained = text::cat2(
        text::decimal_of(analysis.ai_explanations.len() as u64).as_str(),
        " saved explanations",
    );
    screen.add(review_metric("local AI", explained.as_str(), theme, canvas));
    screen.gap();
    screen.add(
        tick(
            "This scan only observed metadata. It did not change any files.",
            canvas.saturating_sub(4),
            theme,
        ),
    );
}

/// How many rows of a list are seen.
pub open spec fn list_height(rows: nat) -> nat {
    width::bounded(width::less(rows, 24), 1, 7)
}

pub fn review_list_height(layout: TerminalLayout) -> (result: usize)
    ensures
        result == list_height(layout.rows as nat),
        0 < result,
{
    width::bound(layout.rows.saturating_sub(24), 1, 7)
}

/// A row of the list of findings.
pub open spec fn finding_row(
    root: Seq<PartView>,
    finding: FindingView,
    selected: bool,
    canvas: nat,
) -> Seq<char> {
    let bytes = text::padded_start(size::bytes_text(finding.potential_recovery_bytes as nat), 9);
    let risk = text::padded_end(labels::label_of_risk(finding.risk), 6);
    let place = path::relative_shown(root, finding.spelling);
    if canvas >= 60 {
        " "@ + menu::marker(selected) + " "@ + bytes + "  "@ + risk + " "@ + text::padded_end(
            width::truncated_end(labels::label_of_category(finding.category), 19),
            19,
        ) + " "@ + width::truncated_start(place, width::less(canvas, 48)) + " "@
    } else {
        " "@ + menu::marker(selected) + " "@ + bytes + " "@ + risk + " "@ + width::truncated_start(
            place,
            width::less(canvas, 24),
        ) + " "@
    }
}

fn draw_finding_row(root: &FilePath, finding: &Finding, selected: bool, canvas: usize) -> (result:
    String)
    ensures
        result@ == finding_row(root@, finding@, selected, canvas as nat),
{
    let bytes = text::pad_start(size::format_bytes(finding.potential_recovery_bytes).as_str(), 9);
    let risk = text::pad_end(labels::risk_label(finding.risk), 6);
    let place = finding.path.display_relative(root);
    if canvas >= 60 {
        let front = text::cat7(
            " ",
            menu::mark(selected),
            " ",
            bytes.as_str(),
            "  ",
            risk.as_str(),
            " ",
        );
        let category = width::truncate_end(labels::category_label(finding.category), 19);
        text::cat5(
            front.as_str(),
            text::pad_end(category.as_str(), 19).as_str(),
            " ",
            width::truncate_start(place.as_str(), canvas.saturating_sub(48)).as_str(),
            " ",
        )
    } else {
        let front = text::cat7(
            " ",
            menu::mark(selected),
            " ",
            bytes.as_str(),
            " ",
            risk.as_str(),
            " ",
        );
        text::cat3(
            front.as_str(),
            width::truncate_start(place.as_str(), canvas.saturating_sub(24)).as_str(),
            " ",
        )
    }
}

pub open spec fn finding_rows(
    lines: Seq<Seq<char>>,
    analysis: StoredAnalysisView,
    start: int,
    end: int,
    selected: nat,
    theme: Theme,
    canvas: nat,
) -> Seq<Seq<char>>
    decreases end - start,
{
    if end <= start {
        lines
    } else {
        finding_rows(lines, analysis, start, end - 1, selected, theme, canvas).push(
            "  "@ + menu::row_shown(
                theme,
                finding_row(
                    analysis.summary.root,
                    analysis.findings[end - 1],
                    end - 1 == selected,
                    canvas,
                ),
                end - 1 == selected,
            ),
        )
    }
}

/// The first explanation of a path.
pub open spec fn explanation_of(
    explanations: Seq<ExplanationView>,
    path: Seq<PartView>,
    from: int,
) -> Option<ExplanationView>
    decreases explanations.len() - from,
{
    if from < 0 || from >= explanations.len() {
        None
    } else if explanations[from].path == path {
        Some(explanations[from])
    } else {
        explanation_of(explanations, path, from + 1)
    }
}

pub fn find_explanation<'a>(explanations: &'a Vec<AiExplanation>, path: &FilePath) -> (result: Option<
    &'a AiExplanation,
>)
    ensures
        match result {
            Some(found) => explanation_of(order::views(explanations@), path@, 0) == Some(found@),
            None => explanation_of(order::views(explanations@), path@, 0) is None,
        },
{
    let ghost all = order::views(explanations@);
    let mut at: usize = 0;
    while at < explanations.len()
        invariant
            at <= explanations@.len(),
            all == order::views(explanations@),
            explanation_of(all, path@, 0) == explanation_of(all, path@, at as int),
        decreases explanations@.len() - at,
    {
        assert(all[at as int] == explanations@[at as int]@);
        if explanations[at].path.same(path) {
            return Some(&explanations[at]);
        }
        at = at + 1;
    }
    None
}

/// The evidence of a finding, made readable.
pub open spec fn readable_evidence(
    lines: Seq<Seq<char>>,
    evidence: Seq<Seq<char>>,
    count: int,
    theme: Theme,
    canvas: nat,
) -> Seq<Seq<char>>
    decreases count,
{
    if count <= 0 {
        lines
    } else {
        review_bullet(
            readable_evidence(lines, evidence, count - 1, theme, canvas),
            size::humanized(evidence[count - 1]),
            theme,
            canvas,
        )
    }
}

/// What speaks for a finding.
pub open spec fn finding_detail(
    lines: Seq<Seq<char>>,
    analysis: StoredAnalysisView,
    finding: FindingView,
    theme: Theme,
    canvas: nat,
) -> Seq<Seq<char>> {
    let head = lines.push(""@).push(
        if canvas >= 48 {
            "  "@ + theme.as_accent("WHY REVIEW THIS"@) + "  "@ + theme.as_muted(
                "deterministic evidence"@,
            )
        } else {
            "  "@ + theme.as_accent("WHY REVIEW THIS"@)
        },
    );
    let figures = head.push(
        figure(
            "item"@,
            path::relative_shown(analysis.summary.root, finding.spelling),
            theme,
            canvas,
        ),
    ).push(
        figure(
            "potential space"@,
            size::bytes_text(finding.potential_recovery_bytes as nat),
            theme,
            canvas,
        ),
    ).push(
        figure(
            "risk / confidence"@,
            labels::label_of_risk(finding.risk) + " / "@ + finding.confidence.spec_percent() + "%"@,
            theme,
            canvas,
        ),
    ).push(
        figure("next step"@, labels::label_of_action(finding.suggested_action), theme, canvas),
    ).push(
        figure(
            "guidance"@,
            labels::guidance(finding.risk, finding.suggested_action),
            theme,
            canvas,
        ),
    );
    let evident = readable_evidence(
        figures,
        finding.evidence,
        finding.evidence.len() as int,
        theme,
        canvas,
    );
    match explanation_of(analysis.ai_explanations, finding.path, 0) {
        Some(explanation) => review_bullet(
            evident.push(
                if canvas >= 58 {
                    "  "@ + theme.as_accent("LOCAL AI"@) + "  "@ + theme.as_muted(
                        "context only • never deletion permission"@,
                    )
                } else {
                    "  "@ + theme.as_accent("LOCAL AI • ADVISORY"@)
                },
            ),
            explanation.reason,
            theme,
            canvas,
        ),
        None => evident,
    }
}

fn push_recommendation_detail(
    screen: &mut Screen,
    analysis: &StoredAnalysis,
    finding: &Finding,
    theme: Theme,
    canvas: usize,
)
    ensures
        final(screen)@ == finding_detail(
            old(screen)@,
            analysis@,
            finding@,
            theme,
            canvas as nat,
        ),
{
    screen.gap();
    if canvas >= 48 {
        screen.add(
            text::cat4(
                "  ",
                theme.accent("WHY REVIEW THIS").as_str(),
                "  ",
                theme.muted("deterministic evidence").as_str(),
            ),
        );
    } else {
        screen.add(text::cat2("  ", theme.accent("WHY REVIEW THIS").as_str()));
    }
    screen.add(
        review_metric(
            "item",
            finding.path.display_relative(&analysis.summary.root).as_str(),
            theme,
            canvas,
        ),
    );
    screen.add(
        review_metric(
            "potential space",
            size::format_bytes(finding.potential_recovery_bytes).as_str(),
            theme,
            canvas,
        ),
    );
    let risk = text::cat4(
        labels::risk_label(finding.risk),
        " / ",
        finding.confidence.percent().as_str(),
        "%",
    );
    screen.add(review_metric("risk / confidence", risk.as_str(), theme, canvas));
    screen.add(
        review_metric("next step", labels::action_label(finding.suggested_action), theme, canvas),
    );
    screen.add(
        review_metric(
            "guidance",
            labels::recommendation_guidance(finding.risk, finding.suggested_action),
            theme,
            canvas,
        ),
    );
    let ghost top = screen@;
    let ghost all = order::views(finding.evidence@);
    let mut at: usize = 0;
    while at < finding.evidence.len()
        invariant
            at <= finding.evidence@.len(),
            all == order::views(finding.evidence@),
            screen@ == readable_evidence(top, all, at as int, theme, canvas as nat),
        decreases finding.evidence@.len() - at,
    {
        assert(all[at as int] == finding.evidence@[at as int]@);
        let readable = size::humanize_evidence(finding.evidence[at].as_str());
        push_review_bullet(screen, readable.as_str(), theme, canvas);
        at = at + 1;
    }
    if let Some(explanation) = find_explanation(&analysis.ai_explanations, &finding.path) {
        if canvas >= 58 {
            screen.add(
                text::cat4(
                    "  ",
                    theme.accent("LOCAL AI").as_str(),
                    "  ",
                    theme.muted("context only • never deletion permission").as_str(),
                ),
            );
        } else {
            screen.add(text::cat2("  ", theme.accent("LOCAL AI • ADVISORY").as_str()));
        }
        push_review_bullet(screen, explanation.reason.as_str(), theme, canvas);
    }
}

/// The list of findings, and what speaks for the selected one.
pub open spec fn recommendations(
    lines: Seq<Seq<char>>,
    analysis: StoredAnalysisView,
    selected: nat,
    theme: Theme,
    layout: TerminalLayout,
) -> Seq<Seq<char>> {
    let canvas = layout.width as nat;
    if analysis.findings.len() == 0 {
        lines.push(ticked("No cleanup candidates were found."@, width::less(canvas, 6), theme))
    } else {
        let visible = list_height(layout.rows as nat);
        finding_detail(
            finding_rows(
                lines.push(
                    lead(
                        "Safest and clearest candidates appear first — size is not the only factor"@,
                        theme,
                        canvas,
                    ),
                ),
                analysis,
                history::window_start(selected, analysis.findings.len(), visible) as int,
                history::window_end(selected, analysis.findings.len(), visible) as int,
                selected,
                theme,
                canvas,
            ),
            analysis,
            analysis.findings[selected as int],
            theme,
            canvas,
        )
    }
}

fn push_review_recommendations(
    screen: &mut Screen,
    analysis: &StoredAnalysis,
    selected: usize,
    theme: Theme,
    layout: TerminalLayout,
)
    requires
        analysis@.findings.len() > 0 ==> selected < analysis@.findings.len(),
    ensures
        final(screen)@ == recommendations(
            old(screen)@,
            analysis@,
            selected as nat,
            theme,
            layout,
        ),
{
    let canvas: usize = layout.width;
    if analysis.findings.len() == 0 {
        screen.add(tick("No cleanup candidates were found.", canvas.saturating_sub(6), theme));
        return;
    }
    screen.add(
        draw_lead(
            "Safest and clearest candidates appear first — size is not the only factor",
            theme,
            canvas,
        ),
    );
    let visible: usize = review_list_height(layout);
    let (start, end) = history::visible_window(selected, analysis.findings.len(), visible);
    let ghost top = screen@;
    let mut at: usize = start;
    while at < end
        invariant
            start <= at <= end <= analysis.findings@.len(),
            screen@ == finding_rows(
                top,
                analysis@,
                start as int,
                at as int,
                selected as nat,
                theme,
                canvas as nat,
            ),
        decreases end - at,
    {
        assert(analysis@.findings[at as int] == analysis.findings@[at as int]@);
        let row = draw_finding_row(
            &analysis.summary.root,
            &analysis.findings[at],
            at == selected,
            canvas,
        );
        screen.add(text::cat2("  ", menu::show_row(theme, row.as_str(), at == selected).as_str()));
        at = at + 1;
    }
    assert(analysis@.findings[selected as int] == analysis.findings@[selected as int]@);
    push_recommendation_detail(screen, analysis, &analysis.findings[selected], theme, canvas);
}

/// What a group may recover, as far as it is known.
pub open spec fn recovery_told(bytes: Option<u64>) -> Seq<char> {
    match bytes {
        Some(known) => size::bytes_text(known as nat),
        None => "unknown"@,
    }
}

pub fn tell_recovery(bytes: Option<u64>) -> (result: String)
    ensures
        result@ == recovery_told(bytes),
{
    match bytes {
        Some(known) => size::format_bytes(known),
        None => "unknown".to_owned(),
    }
}

/// How many bytes a character takes in UTF-8.
pub open spec fn byte_length(character: char) -> nat {
    if (character as u32) < 0x80 {
        1
    } else if (character as u32) < 0x800 {
        2
    } else if (character as u32) < 0x1_0000 {
        3
    } else {
        4
    }
}

/// How many of the first characters fit into some bytes.
pub open spec fn fitting(characters: Seq<char>, bytes: nat) -> nat
    decreases characters.len(),
{
    if characters.len() == 0 || byte_length(characters[0]) > bytes {
        0
    } else {
        1 + fitting(characters.drop_first(), (bytes - byte_length(characters[0])) as nat)
    }
}

/// The beginning of a hash: the characters of its first twelve bytes.
pub open spec fn short_hash(hash: Seq<char>) -> Seq<char> {
    hash.take(fitting(hash, 12) as int)
}

fn bytes_of(character: char) -> (result: u32)
    ensures
        result == byte_length(character),
        1 <= result,
{
    let code: u32 = character as u32;
    if code < 0x80 {
        1
    } else if code < 0x800 {
        2
    } else if code < 0x1_0000 {
        3
    } else {
        4
    }
}

pub fn shorten_hash(hash: &str) -> (result: String)
    ensures
        result@ == short_hash(hash@),
{
    let characters = text::chars_of(hash);
    let mut length: usize = 0;
    let mut room: u32 = 12;
    assert(hash@.skip(0) =~= hash@);
    while length < characters.len() && bytes_of(characters[length]) <= room
        invariant
            characters@ == hash@,
            length <= characters@.len(),
            fitting(hash@, 12) == length + fitting(hash@.skip(length as int), room as nat),
        decreases characters@.len() - length,
    {
        assert(hash@.skip(length as int).drop_first() =~= hash@.skip(length + 1));
        room = room - bytes_of(characters[length]);
        length = length + 1;
    }
    let result = text::string_between(characters.as_slice(), 0, length);
    assert(result@ =~= short_hash(hash@));
    result
}

/// A row of the list of groups.
pub open spec fn group_row(group: GroupView, selected: bool, canvas: nat) -> Seq<char> {
    let recovery = text::padded_start(recovery_told(group.potential_recovery_allocated_bytes), 9);
    let copies = text::padded_start(text::decimal(group.unique_file_count as nat), 3);
    if canvas >= 56 {
        " "@ + menu::marker(selected) + " "@ + recovery + " recoverable  "@ + copies
            + " copies  "@ + short_hash(group.blake3_hash) + "… "@
    } else {
        " "@ + menu::marker(selected) + " "@ + recovery + "  "@ + copies + " copies "@
    }
}

fn draw_group_row(group: &DuplicateGroup, selected: bool, canvas: usize) -> (result: String)
    ensures
        result@ == group_row(group@, selected, canvas as nat),
{
    let recovery = text::pad_start(
        tell_recovery(group.potential_recovery_allocated_bytes).as_str(),
        9,
    );
    let copies = text::pad_start(text::decimal_of(group.unique_file_count).as_str(), 3);
    if canvas >= 56 {
        let front = text::cat7(
            " ",
            menu::mark(selected),
            " ",
            recovery.as_str(),
            " recoverable  ",
            copies.as_str(),
            " copies  ",
        );
        text::cat3(front.as_str(), shorten_hash(group.blake3_hash.as_str()).as_str(), "… ")
    } else {
        text::cat7(
            " ",
            menu::mark(selected),
            " ",
            recovery.as_str(),
            "  ",
            copies.as_str(),
            " copies ",
        )
    }
}

pub open spec fn group_rows(
    lines: Seq<Seq<char>>,
    groups: Seq<GroupView>,
    start: int,
    end: int,
    selected: nat,
    theme: Theme,
    canvas: nat,
) -> Seq<Seq<char>>
    decreases end - start,
{
    if end <= start {
        lines
    } else {
        group_rows(lines, groups, start, end - 1, selected, theme, canvas).push(
            "  "@ + menu::row_shown(
                theme,
                group_row(groups[end - 1], end - 1 == selected, canvas),
                end - 1 == selected,
            ),
        )
    }
}

/// The first files of a group.
pub open spec fn group_files(
    lines: Seq<Seq<char>>,
    root: Seq<PartView>,
    entries: Seq<EntryView>,
    count: int,
    theme: Theme,
    canvas: nat,
) -> Seq<Seq<char>>
    decreases count,
{
    if count <= 0 {
        lines
    } else {
        review_bullet(
            group_files(lines, root, entries, count - 1, theme, canvas),
            path::relative_shown(root, entries[count - 1].spelling) + (
            if entries[count - 1].protected {
                "  [protected]"@
            } else {
                ""@
            }),
            theme,
            canvas,
        )
    }
}

/// The list of groups, and the files of the selected one.
pub open spec fn duplicates(
    lines: Seq<Seq<char>>,
    analysis: StoredAnalysisView,
    selected: nat,
    theme: Theme,
    layout: TerminalLayout,
) -> Seq<Seq<char>> {
    let canvas = layout.width as nat;
    let groups = analysis.duplicate_groups;
    if groups.len() == 0 {
        lines.push(ticked("No exact duplicate groups were found."@, width::less(canvas, 6), theme))
    } else {
        let visible = list_height(layout.rows as nat);
        let entries = groups[selected as int].entries;
        group_files(
            group_rows(
                lines.push(
                    lead(
                        "Exact byte-for-byte matches; keep at least one physical copy"@,
                        theme,
                        canvas,
                    ),
                ),
                groups,
                history::window_start(selected, groups.len(), visible) as int,
                history::window_end(selected, groups.len(), visible) as int,
                selected,
                theme,
                canvas,
            ).push(""@).push("  "@ + theme.as_accent("FILES IN THIS GROUP"@)),
            analysis.summary.root,
            entries,
            if entries.len() < 6 {
                entries.len() as int
            } else {
                6
            },
            theme,
            canvas,
        )
    }
}

fn push_review_duplicates(
    screen: &mut Screen,
    analysis: &StoredAnalysis,
    selected: usize,
    theme: Theme,
    layout: TerminalLayout,
)
    requires
        analysis@.duplicate_groups.len() > 0 ==> selected < analysis@.duplicate_groups.len(),
    ensures
        final(screen)@ == duplicates(old(screen)@, analysis@, selected as nat, theme, layout),
{
    let canvas: usize = layout.width;
    let groups = &analysis.duplicate_groups;
    let ghost all = order::views(groups@);
    if groups.len() == 0 {
        screen.add(tick("No exact duplicate groups were found.", canvas.saturating_sub(6), theme));
        return;
    }
    screen.add(
        draw_lead(
            "Exact byte-for-byte matches; keep at least one physical copy",
            theme,
            canvas,
        ),
    );
    let visible: usize = review_list_height(layout);
    let (start, end) = history::visible_window(selected, groups.len(), visible);
    let ghost top = screen@;
    let mut at: usize = start;
    while at < end
        invariant
            start <= at <= end <= groups@.len(),
            all == order::views(groups@),
            screen@ == group_rows(
                top,
                all,
                start as int,
                at as int,
                selected as nat,
                theme,
                canvas as nat,
            ),
        decreases end - at,
    {
        assert(all[at as int] == groups@[at as int]@);
        let row = draw_group_row(&groups[at], at == selected, canvas);
        screen.add(text::cat2("  ", menu::show_row(theme, row.as_str(), at == selected).as_str()));
        at = at + 1;
    }
    assert(all[selected as int] == groups@[selected as int]@);
    screen.gap();
    screen.add(text::cat2("  ", theme.accent("FILES IN THIS GROUP").as_str()));
    let entries = &groups[selected].entries;
    let shown: usize = if entries.len() < 6 {
        entries.len()
    } else {
        6
    };
    let ghost files = order::views(entries@);
    let ghost below = screen@;
    let mut next: usize = 0;
    while next < shown
        invariant
            next <= shown <= entries@.len(),
            files == order::views(entries@),
            screen@ == group_files(
                below,
                analysis@.summary.root,
                files,
                next as int,
                theme,
                canvas as nat,
            ),
        decreases shown - next,
    {
        assert(files[next as int] == entries@[next as int]@);
        let suffix = if entries[next].protected {
            "  [protected]"
        } else {
            ""
        };
        let place = text::cat2(
            entries[next].path.display_relative(&analysis.summary.root).as_str(),
            suffix,
        );
        push_review_bullet(screen, place.as_str(), theme, canvas);
        next = next + 1;
    }
}

pub open spec fn kind_width(canvas: nat) -> nat {
    if canvas >= 60 {
        24
    } else {
        12
    }
}

/// A row of the list of relationships.
pub open spec fn relationship_row(
    root: Seq<PartView>,
    relationship: RelationshipView,
    selected: bool,
    canvas: nat,
) -> Seq<char> {
    let room = kind_width(canvas);
    " "@ + menu::marker(selected) + " "@ + text::padded_end(
        width::truncated_end(labels::kind_label(relationship.kind), room),
        room,
    ) + " "@ + width::truncated_start(
        path::relative_shown(root, relationship.source_spelling),
        width::less(canvas, room + 8),
    ) + " "@
}

fn draw_relationship_row(
    root: &FilePath,
    relationship: &Relationship,
    selected: bool,
    canvas: usize,
) -> (result: String)
    ensures
        result@ == relationship_row(root@, relationship@, selected, canvas as nat),
{
    let room: usize = if canvas >= 60 {
        24
    } else {
        12
    };
    let kind = width::truncate_end(labels::relationship_kind_label(relationship.kind), room);
    text::cat7(
        " ",
        menu::mark(selected),
        " ",
        text::pad_end(kind.as_str(), room).as_str(),
        " ",
        width::truncate_start(
            relationship.source_path.display_relative(root).as_str(),
            canvas.saturating_sub(room + 8),
        ).as_str(),
        " ",
    )
}

pub open spec fn relationship_rows(
    lines: Seq<Seq<char>>,
    root: Seq<PartView>,
    relationships: Seq<RelationshipView>,
    start: int,
    end: int,
    selected: nat,
    theme: Theme,
    canvas: nat,
) -> Seq<Seq<char>>
    decreases end - start,
{
    if end <= start {
        lines
    } else {
        relationship_rows(lines, root, relationships, start, end - 1, selected, theme, canvas).push(
            "  "@ + menu::row_shown(
                theme,
                relationship_row(root, relationships[end - 1], end - 1 == selected, canvas),
                end - 1 == selected,
            ),
        )
    }
}

/// Evidence as it is.
pub open spec fn plain_evidence(
    lines: Seq<Seq<char>>,
    evidence: Seq<Seq<char>>,
    count: int,
    theme: Theme,
    canvas: nat,
) -> Seq<Seq<char>>
    decreases count,
{
    if count <= 0 {
        lines
    } else {
        review_bullet(
            plain_evidence(lines, evidence, count - 1, theme, canvas),
            evidence[count - 1],
            theme,
            canvas,
        )
    }
}

/// What connects two items.
pub open spec fn relationship_detail(
    lines: Seq<Seq<char>>,
    root: Seq<PartView>,
    relationship: RelationshipView,
    theme: Theme,
    canvas: nat,
) -> Seq<Seq<char>> {
    plain_evidence(
        lines.push(""@).push("  "@ + theme.as_accent("CONNECTED ITEMS"@)).push(
            figure(
                "source"@,
                path::relative_shown(root, relationship.source_spelling),
                theme,
                canvas,
            ),
        ).push(
            figure(
                "related"@,
                path::relative_shown(root, relationship.target_spelling),
                theme,
                canvas,
            ),
        ).push(
            figure(
                "confidence"@,
                relationship.confidence.spec_percent() + "%"@,
                theme,
                canvas,
            ),
        ),
        relationship.evidence,
        relationship.evidence.len() as int,
        theme,
        canvas,
    )
}

fn push_relationship_detail(
    screen: &mut Screen,
    root: &FilePath,
    relationship: &Relationship,
    theme: Theme,
    canvas: usize,
)
    ensures
        final(screen)@ == relationship_detail(
            old(screen)@,
            root@,
            relationship@,
            theme,
            canvas as nat,
        ),
{
    screen.gap();
    screen.add(text::cat2("  ", theme.accent("CONNECTED ITEMS").as_str()));
    screen.add(
        review_metric(
            "source",
            relationship.source_path.display_relative(root).as_str(),
            theme,
            canvas,
        ),
    );
    screen.add(
        review_metric(
            "related",
            relationship.target_path.display_relative(root).as_str(),
            theme,
            canvas,
        ),
    );
    let confidence = text::cat2(relationship.confidence.percent().as_str(), "%");
    screen.add(review_metric("confidence", confidence.as_str(), theme, canvas));
    let ghost top = screen@;
    let ghost all = order::views(relationship.evidence@);
    let mut at: usize = 0;
    while at < relationship.evidence.len()
        invariant
            at <= relationship.evidence@.len(),
            all == order::views(relationship.evidence@),
            screen@ == plain_evidence(top, all, at as int, theme, canvas as nat),
        decreases relationship.evidence@.len() - at,
    {
        assert(all[at as int] == relationship.evidence@[at as int]@);
        push_review_bullet(screen, relationship.evidence[at].as_str(), theme, canvas);
        at = at + 1;
    }
}

/// The list of relationships, and what connects the items of the selected one.
pub open spec fn relationships(
    lines: Seq<Seq<char>>,
    analysis: StoredAnalysisView,
    selected: nat,
    theme: Theme,
    layout: TerminalLayout,
) -> Seq<Seq<char>> {
    let canvas = layout.width as nat;
    let listed = analysis.relationships;
    if listed.len() == 0 {
        lines.push(ticked("No related items were detected."@, width::less(canvas, 6), theme))
    } else {
        let visible = list_height(layout.rows as nat);
        relationship_detail(
            relationship_rows(
                lines.push(
                    lead("Connections are evidence, never permission to delete"@, theme, canvas),
                ),
                analysis.summary.root,
                listed,
                history::window_start(selected, listed.len(), visible) as int,
                history::window_end(selected, listed.len(), visible) as int,
                selected,
                theme,
                canvas,
            ),
            analysis.summary.root,
            listed[selected as int],
            theme,
            canvas,
        )
    }
}

fn push_review_relationships(
    screen: &mut Screen,
    analysis: &StoredAnalysis,
    selected: usize,
    theme: Theme,
    layout: TerminalLayout,
)
    requires
        analysis@.relationships.len() > 0 ==> selected < analysis@.relationships.len(),
    ensures
        final(screen)@ == relationships(old(screen)@, analysis@, selected as nat, theme, layout),
{
    let canvas: usize = layout.width;
    let listed = &analysis.relationships;
    let ghost all = order::views(listed@);
    if listed.len() == 0 {
        screen.add(tick("No related items were detected.", canvas.saturating_sub(6), theme));
        return;
    }
    screen.add(draw_lead("Connections are evidence, never permission to delete", theme, canvas));
    let visible: usize = review_list_height(layout);
    let (start, end) = history::visible_window(selected, listed.len(), visible);
    let ghost top = screen@;
    let mut at: usize = start;
    while at < end
        invariant
            start <= at <= end <= listed@.len(),
            all == order::views(listed@),
            screen@ == relationship_rows(
                top,
                analysis@.summary.root,
                all,
                start as int,
                at as int,
                selected as nat,
                theme,
                canvas as nat,
            ),
        decreases end - at,
    {
        assert(all[at as int] == listed@[at as int]@);
        let row = draw_relationship_row(
            &analysis.summary.root,
            &listed[at],
            at == selected,
            canvas,
        );
        screen.add(text::cat2("  ", menu::show_row(theme, row.as_str(), at == selected).as_str()));
        at = at + 1;
    }
    assert(all[selected as int] == listed@[selected as int]@);
    push_relationship_detail(screen, &analysis.summary.root, &listed[selected], theme, canvas);
}

/// A row of the list of warnings.
pub open spec fn warning_row(
    root: Seq<PartView>,
    warning: StoredWarningView,
    selected: bool,
    canvas: nat,
) -> Seq<char> {
    let place = match warning.path {
        Some(known) => path::relative_shown(root, known.spelling),
        None => "scan"@,
    };
    " "@ + menu::marker(selected) + " "@ + text::padded_end(
        width::truncated_end(warning.source, 10),
        10,
    ) + " "@ + width::truncated_start(place, width::less(canvas, 18)) + " "@
}

fn draw_warning_row(root: &FilePath, warning: &StoredWarning, selected: bool, canvas: usize) -> (result:
    String)
    ensures
        result@ == warning_row(root@, warning@, selected, canvas as nat),
{
    let place = match &warning.path {
        Some(known) => known.display_relative(root),
        None => "scan".to_owned(),
    };
    text::cat7(
        " ",
        menu::mark(selected),
        " ",
        text::pad_end(width::truncate_end(warning.source.as_str(), 10).as_str(), 10).as_str(),
        " ",
        width::truncate_start(place.as_str(), canvas.saturating_sub(18)).as_str(),
        " ",
    )
}

pub open spec fn warning_rows(
    lines: Seq<Seq<char>>,
    root: Seq<PartView>,
    warnings: Seq<StoredWarningView>,
    start: int,
    end: int,
    selected: nat,
    theme: Theme,
    canvas: nat,
) -> Seq<Seq<char>>
    decreases end - start,
{
    if end <= start {
        lines
    } else {
        warning_rows(lines, root, warnings, start, end - 1, selected, theme, canvas).push(
            "  "@ + menu::row_shown(
                theme,
                warning_row(root, warnings[end - 1], end - 1 == selected, canvas),
                end - 1 == selected,
            ),
        )
    }
}

/// What happened at a warning.
pub open spec fn warning_detail(
    lines: Seq<Seq<char>>,
    warning: StoredWarningView,
    theme: Theme,
    canvas: nat,
) -> Seq<Seq<char>> {
    let told = review_bullet(
        lines.push(""@).push("  "@ + theme.as_accent("WHAT HAPPENED"@)),
        warning.message,
        theme,
        canvas,
    );
    match warning.kind {
        Some(kind) => told.push(figure("warning type"@, sheet::spaced(kind), theme, canvas)),
        None => told,
    }
}

/// The list of warnings and what happened at the selected one, or that there
/// is none, or how many there were.
pub open spec fn warnings(
    lines: Seq<Seq<char>>,
    analysis: StoredAnalysisView,
    selected: nat,
    theme: Theme,
    layout: TerminalLayout,
) -> Seq<Seq<char>> {
    let canvas = layout.width as nat;
    let count = analysis.summary.warning_count as nat;
    let listed = analysis.warnings;
    if count == 0 {
        lines.push(
            ticked(
                "The scan completed without skipped or changing files."@,
                width::less(canvas, 6),
                theme,
            ),
        )
    } else if listed.len() > 0 {
        let visible = list_height(layout.rows as nat);
        warning_detail(
            warning_rows(
                lines.push(
                    lead(
                        "Skipped or changing items; the rest of the scan remains usable"@,
                        theme,
                        canvas,
                    ),
                ),
                analysis.summary.root,
                listed,
                history::window_start(selected, listed.len(), visible) as int,
                history::window_end(selected, listed.len(), visible) as int,
                selected,
                theme,
                canvas,
            ),
            listed[selected as int],
            theme,
            canvas,
        )
    } else {
        review_bullet(
            review_bullet(
                review_bullet(
                    lines,
                    text::decimal(count) + " items were skipped or changed while scanning."@,
                    theme,
                    canvas,
                ).push(""@),
                "History stores the warning count, not each warning message."@,
                theme,
                canvas,
            ),
            "Run the scan again to inspect current filesystem results."@,
            theme,
            canvas,
        )
    }
}

fn push_warning_list(
    screen: &mut Screen,
    analysis: &StoredAnalysis,
    selected: usize,
    theme: Theme,
    layout: TerminalLayout,
)
    requires
        selected < analysis@.warnings.len(),
        analysis@.summary.warning_count > 0,
    ensures
        final(screen)@ == warnings(old(screen)@, analysis@, selected as nat, theme, layout),
{
    let canvas: usize = layout.width;
    let listed = &analysis.warnings;
    let ghost all = order::views(listed@);
    screen.add(
        draw_lead(
            "Skipped or changing items; the rest of the scan remains usable",
            theme,
            canvas,
        ),
    );
    let visible: usize = review_list_height(layout);
    let (start, end) = history::visible_window(selected, listed.len(), visible);
    let ghost top = screen@;
    let mut at: usize = start;
    while at < end
        invariant
            start <= at <= end <= listed@.len(),
            all == order::views(listed@),
            screen@ == warning_rows(
                top,
                analysis@.summary.root,
                all,
                start as int,
                at as int,
                selected as nat,
                theme,
                canvas as nat,
            ),
        decreases end - at,
    {
        assert(all[at as int] == listed@[at as int]@);
        let row = draw_warning_row(&analysis.summary.root, &listed[at], at == selected, canvas);
        screen.add(text::cat2("  ", menu::show_row(theme, row.as_str(), at == selected).as_str()));
        at = at + 1;
    }
    assert(all[selected as int] == listed@[selected as int]@);
    let warning = &listed[selected];
    screen.gap();
    screen.add(text::cat2("  ", theme.accent("WHAT HAPPENED").as_str()));
    push_review_bullet(screen, warning.message.as_str(), theme, canvas);
    if let Some(kind) = &warning.kind {
        screen.add(
            review_metric("warning type", sheet::space(kind.as_str()).as_str(), theme, canvas),
        );
    }
}

fn push_review_warnings(
    screen: &mut Screen,
    analysis: &StoredAnalysis,
    selected: usize,
    theme: Theme,
    layout: TerminalLayout,
)
    requires
        shown_count(analysis@, ReviewSection::Warnings) > 0 ==> selected < shown_count(
            analysis@,
            ReviewSection::Warnings,
        ),
    ensures
        final(screen)@ == warnings(old(screen)@, analysis@, selected as nat, theme, layout),
{
    let canvas: usize = layout.width;
    let count: u64 = analysis.summary.warning_count;
    if count == 0 {
        screen.add(
            tick(
                "The scan completed without skipped or changing files.",
                canvas.saturating_sub(6),
                theme,
            ),
        );
    } else if analysis.warnings.len() > 0 {
        push_warning_list(screen, analysis, selected, theme, layout);
    } else {
        let told = text::cat2(
            text::decimal_of(count).as_str(),
            " items were skipped or changed while scanning.",
        );
        push_review_bullet(screen, told.as_str(), theme, canvas);
        screen.gap();
        push_review_bullet(
            screen,
            "History stores the warning count, not each warning message.",
            theme,
            canvas,
        );
        push_review_bullet(
            screen,
            "Run the scan again to inspect current filesystem results.",
            theme,
            canvas,
        );
    }
}

/// The part of the review that is open.
pub open spec fn section_body(
    lines: Seq<Seq<char>>,
    analysis: StoredAnalysisView,
    section: ReviewSection,
    selected: nat,
    theme: Theme,
    layout: TerminalLayout,
) -> Seq<Seq<char>> {
    match section {
        ReviewSection::Overview => overview(lines, analysis, theme, layout.width as nat),
        ReviewSection::Recommendations => recommendations(
            lines,
            analysis,
            selected,
            theme,
            layout,
        ),
        ReviewSection::Duplicates => duplicates(lines, analysis, selected, theme, layout),
        ReviewSection::Relationships => relationships(lines, analysis, selected, theme, layout),
        ReviewSection::Warnings => warnings(lines, analysis, selected, theme, layout),
    }
}

/// The review of an analysis.
pub open spec fn review_screen(
    analysis: StoredAnalysisView,
    section: ReviewSection,
    selected: nat,
    theme: Theme,
    layout: TerminalLayout,
) -> Seq<Seq<char>> {
    let canvas = layout.width as nat;
    let summary = analysis.summary;
    let top = canvas::header(theme, "REVIEW"@, canvas).push(
        "  "@ + theme.as_accent("scan #"@ + storage::signed_decimal(summary.id)) + "  "@
            + theme.as_muted(
            width::truncated_start(path::spelled(summary.root_spelling), width::less(canvas, 16)),
        ),
    ).push(
        lead(
            size::bytes_text(summary.total_size_bytes as nat) + " analyzed • "@ + text::decimal(
                summary.recommendation_count as nat,
            ) + " recommendations • nothing changed"@,
            theme,
            canvas,
        ),
    ).push(""@).push(tabs(section, 5, theme, canvas)).push(
        "  "@ + canvas::rule(theme, canvas, 4),
    );
    section_body(top, analysis, section, selected, theme, layout).push(""@).push(
        "  "@ + canvas::rule(theme, canvas, 4),
    ).push(
        "  "@ + theme.as_muted(
            width::truncated_end(
                "←/→  h/l section    ↑/↓  j/k item    1–5 jump    q back"@,
                width::less(canvas, 2),
            ),
        ),
    )
}

/// The review of an analysis.
pub fn review_lines(
    analysis: &StoredAnalysis,
    section: ReviewSection,
    selected: usize,
    theme: Theme,
    layout: TerminalLayout,
) -> (result: Screen)
    requires
        shown_count(analysis@, section) > 0 ==> selected < shown_count(analysis@, section),
    ensures
        result@ == review_screen(analysis@, section, selected as nat, theme, layout),
{
    let canvas: usize = layout.width;
    let summary = &analysis.summary;
    let mut screen = canvas::brand_header_lines_for_width(theme, "REVIEW", canvas);
    let id = text::cat2("scan #", storage::signed_decimal_of(summary.id).as_str());
    let place = width::truncate_start(
        summary.root.display().as_str(),
        canvas.saturating_sub(16),
    );
    screen.add(
        text::cat4(
            "  ",
            theme.accent(id.as_str()).as_str(),
            "  ",
            theme.muted(place.as_str()).as_str(),
        ),
    );
    let told = text::cat4(
        size::format_bytes(summary.total_size_bytes).as_str(),
        " analyzed • ",
        text::decimal_of(summary.recommendation_count).as_str(),
        " recommendations • nothing changed",
    );
    screen.add(draw_lead(told.as_str(), theme, canvas));
    screen.gap();
    screen.add(review_tab_line(section, theme, canvas));
    screen.add(text::cat2("  ", canvas::draw_rule(theme, canvas, 4).as_str()));
    match section {
        ReviewSection::Overview => push_review_overview(&mut screen, analysis, theme, canvas),
        ReviewSection::Recommendations => push_review_recommendations(
            &mut screen,
            analysis,
            selected,
            theme,
            layout,
        ),
        ReviewSection::Duplicates => push_review_duplicates(
            &mut screen,
            analysis,
            selected,
            theme,
            layout,
        ),
        ReviewSection::Relationships => push_review_relationships(
            &mut screen,
            analysis,
            selected,
            theme,
            layout,
        ),
        ReviewSection::Warnings => push_review_warnings(
            &mut screen,
            analysis,
            selected,
            theme,
            layout,
        ),
    }
    screen.gap();
    screen.add(text::cat2("  ", canvas::draw_rule(theme, canvas, 4).as_str()));
    let help = width::truncate_end(
        "←/→  h/l section    ↑/↓  j/k item    1–5 jump    q back",
        canvas.saturating_sub(2),
    );
    screen.add(text::cat2("  ", theme.muted(help.as_str()).as_str()));
    screen
}

} // verus!
