//! History: the list of earlier scans, and how it is walked through.

use crate::canvas;
use crate::canvas::{Screen, TerminalLayout, Theme};
use crate::labels::RecordTone;
use crate::menu;
use crate::menu::Key;
use crate::order;
use crate::path;
use crate::path::FilePath;
use crate::sheet;
use crate::size;
use crate::storage;
use crate::storage::{ScanHistoryEntry, ScanHistoryEntryView};
use crate::text;
use crate::width;
use vstd::prelude::*;

verus! {

/// Where the visible part of a list begins: so that the selected row is seen.
pub open spec fn window_start(selected: nat, total: nat, visible: nat) -> nat {
    if total <= visible || selected < visible {
        0
    } else if selected + 1 - visible < total - visible {
        (selected + 1 - visible) as nat
    } else {
        (total - visible) as nat
    }
}

pub fn visible_window_start(selected: usize, total: usize, visible: usize) -> (result: usize)
    requires
        selected < usize::MAX || total <= visible,
    ensures
        result == window_start(selected as nat, total as nat, visible as nat),
{
    if total <= visible || selected < visible {
        0
    } else {
        let wanted: usize = selected + 1 - visible;
        let last: usize = total - visible;
        if wanted < last {
            wanted
        } else {
            last
        }
    }
}

/// The selected row is always among those that are seen.
pub proof fn law_the_selected_row_is_visible(selected: nat, total: nat, visible: nat)
    requires
        selected < total,
        0 < visible,
    ensures
        window_start(selected, total, visible) <= selected < window_start(selected, total, visible)
            + visible,
        window_start(selected, total, visible) + visible <= total || window_start(
            selected,
            total,
            visible,
        ) == 0,
{
}

/// The end of the visible part of a list.
pub open spec fn window_end(selected: nat, total: nat, visible: nat) -> nat {
    let start = window_start(selected, total, visible);
    if start + visible < total {
        start + visible
    } else {
        total
    }
}

/// Where the visible part of a list begins and ends.
pub fn visible_window(selected: usize, total: usize, visible: usize) -> (result: (usize, usize))
    requires
        selected < usize::MAX || total <= visible,
    ensures
        result.0 == window_start(selected as nat, total as nat, visible as nat),
        result.1 == window_end(selected as nat, total as nat, visible as nat),
{
    let start: usize = visible_window_start(selected, total, visible);
    let end: usize = if total - start > visible {
        start + visible
    } else {
        total
    };
    (start, end)
}

/// A row of the list.
pub open spec fn browser_row(entry: ScanHistoryEntryView, selected: bool, canvas: nat) -> Seq<
    char,
> {
    let id = storage::signed_decimal(entry.id);
    let bytes = text::padded_start(size::bytes_text(entry.total_size_bytes as nat), 9);
    if canvas >= 58 {
        " "@ + menu::marker(selected) + " #"@ + text::padded_end(id, 4) + " "@ + bytes + "  "@
            + text::padded_start(text::decimal(entry.recommendation_count as nat), 3)
            + " items  "@ + width::truncated_start(
            path::spelled(entry.root_spelling),
            width::less(canvas, 36),
        ) + " "@
    } else {
        " "@ + menu::marker(selected) + " #"@ + text::padded_end(id, 3) + " "@ + bytes + "  "@
            + width::truncated_start(path::spelled(entry.root_spelling), width::less(canvas, 20)) + " "@
    }
}

fn draw_browser_row(entry: &ScanHistoryEntry, selected: bool, canvas: usize) -> (result: String)
    ensures
        result@ == browser_row(entry@, selected, canvas as nat),
{
    let id = storage::signed_decimal_of(entry.id);
    let bytes = text::pad_start(size::format_bytes(entry.total_size_bytes).as_str(), 9);
    let place = entry.root.display();
    if canvas >= 58 {
        let front = text::cat7(
            " ",
            menu::mark(selected),
            " #",
            text::pad_end(id.as_str(), 4).as_str(),
            " ",
            bytes.as_str(),
            "  ",
        );
        text::cat5(
            front.as_str(),
            text::pad_start(text::decimal_of(entry.recommendation_count).as_str(), 3).as_str(),
            " items  ",
            width::truncate_start(place.as_str(), canvas.saturating_sub(36)).as_str(),
            " ",
        )
    } else {
        let front = text::cat7(
            " ",
            menu::mark(selected),
            " #",
            text::pad_end(id.as_str(), 3).as_str(),
            " ",
            bytes.as_str(),
            "  ",
        );
        text::cat3(
            front.as_str(),
            width::truncate_start(place.as_str(), canvas.saturating_sub(20)).as_str(),
            " ",
        )
    }
}

/// The rows from one place of the list on to another.
pub open spec fn browser_rows(
    lines: Seq<Seq<char>>,
    history: Seq<ScanHistoryEntryView>,
    start: int,
    end: int,
    selected: nat,
    theme: Theme,
    canvas: nat,
) -> Seq<Seq<char>>
    decreases end - start,
{
    if end <= start {
        lines
    } else {
        browser_rows(lines, history, start, end - 1, selected, theme, canvas).push(
            "  "@ + menu::row_shown(
                theme,
                browser_row(history[end - 1], end - 1 == selected, canvas),
                end - 1 == selected,
            ),
        )
    }
}

/// What is told of the results of a scan in one line.
pub open spec fn results_summary(entry: ScanHistoryEntryView) -> Seq<char> {
    text::decimal(entry.recommendation_count as nat) + " recommendations • "@ + text::decimal(
        entry.duplicate_group_count as nat,
    ) + " duplicate groups • "@ + text::decimal(entry.relationship_count as nat)
        + " relationships"@
}

/// A part of the summary, the first behind its label.
pub open spec fn summary_shape(theme: Theme) -> spec_fn(int, Seq<char>) -> Seq<char> {
    |at: int, part: Seq<char>|
        "  "@ + theme.as_accent(
            text::padded_end(
                if at == 0 {
                    "selected"@
                } else {
                    ""@
                },
                8,
            ),
        ) + "  "@ + theme.as_text(part)
}

/// What is told of the selected scan below the list.
pub open spec fn selected_summary(
    lines: Seq<Seq<char>>,
    entry: ScanHistoryEntryView,
    now: nat,
    theme: Theme,
    canvas: nat,
) -> Seq<Seq<char>> {
    let parts = width::wrapped(results_summary(entry), width::less(canvas, 14));
    sheet::with_parts(lines.push(""@), parts, parts.len() as int, summary_shape(theme)).push(
        "  "@ + theme.as_muted(
            "completed "@ + size::age_text(entry.completed_at_epoch_seconds as nat, now),
        ),
    )
}

fn draw_selected_summary(
    screen: &mut Screen,
    entry: &ScanHistoryEntry,
    now: u64,
    theme: Theme,
    canvas: usize,
)
    ensures
        final(screen)@ == selected_summary(
            old(screen)@,
            entry@,
            now as nat,
            theme,
            canvas as nat,
        ),
{
    screen.gap();
    let summary = text::cat6(
        text::decimal_of(entry.recommendation_count).as_str(),
        " recommendations • ",
        text::decimal_of(entry.duplicate_group_count).as_str(),
        " duplicate groups • ",
        text::decimal_of(entry.relationship_count).as_str(),
        " relationships",
    );
    let parts = width::wrap_text(summary.as_str(), canvas.saturating_sub(14));
    let ghost all = order::views(parts@);
    let ghost top = screen@;
    let mut at: usize = 0;
    while at < parts.len()
        invariant
            at <= parts@.len(),
            all == order::views(parts@),
            screen@ == sheet::with_parts(top, all, at as int, summary_shape(theme)),
        decreases parts@.len() - at,
    {
        assert(all[at as int] == parts@[at as int]@);
        let front = if at == 0 {
            "selected"
        } else {
            ""
        };
        screen.add(
            text::cat4(
                "  ",
                theme.accent(text::pad_end(front, 8).as_str()).as_str(),
                "  ",
                theme.text(parts[at].as_str()).as_str(),
            ),
        );
        at = at + 1;
    }
    let age = text::cat2(
        "completed ",
        size::format_age(entry.completed_at_epoch_seconds, now).as_str(),
    );
    screen.add(text::cat2("  ", theme.muted(age.as_str()).as_str()));
}

/// How many rows of the list are seen.
pub open spec fn browser_height(rows: nat) -> nat {
    width::bounded(width::less(rows, 13), 3, 12)
}

/// The list of earlier scans.
pub open spec fn browser_screen(
    history: Seq<ScanHistoryEntryView>,
    selected: nat,
    database: Seq<u8>,
    now: nat,
    theme: Theme,
    layout: TerminalLayout,
) -> Seq<Seq<char>> {
    let canvas = layout.width as nat;
    let top = canvas::header(theme, "HISTORY"@, canvas).push(""@).push(
        "  "@ + theme.as_text(
            width::truncated_end(
                "Open a previous scan and continue reviewing its results"@,
                width::less(canvas, 2),
            ),
        ),
    ).push(
        "  "@ + theme.as_muted(
            width::truncated_start(path::spelled(database), width::less(canvas, 2)),
        ),
    ).push("  "@ + canvas::rule(theme, canvas, 4));
    let body = if history.len() == 0 {
        top.push(""@).push("  "@ + theme.as_text("No scans have been saved yet."@)).push(
            "  "@ + theme.as_muted("Return home and run a storage scan first."@),
        )
    } else {
        let visible = browser_height(layout.rows as nat);
        selected_summary(
            browser_rows(
                top,
                history,
                window_start(selected, history.len(), visible) as int,
                window_end(selected, history.len(), visible) as int,
                selected,
                theme,
                canvas,
            ),
            history[selected as int],
            now,
            theme,
            canvas,
        )
    };
    body.push(""@).push("  "@ + canvas::rule(theme, canvas, 4)).push(
        "  "@ + theme.as_muted(
            width::truncated_end(
                "↑/↓  j/k move    enter open scan    q back"@,
                width::less(canvas, 2),
            ),
        ),
    )
}

/// The list of earlier scans.
pub fn history_browser_lines(
    history: &[ScanHistoryEntry],
    selected: usize,
    database: &FilePath,
    now: u64,
    theme: Theme,
    layout: TerminalLayout,
) -> (result: Screen)
    requires
        history@.len() > 0 ==> selected < history@.len(),
    ensures
        result@ == browser_screen(
            order::views(history@),
            selected as nat,
            database.spelling(),
            now as nat,
            theme,
            layout,
        ),
{
    let canvas: usize = layout.width;
    let mut screen = canvas::brand_header_lines_for_width(theme, "HISTORY", canvas);
    screen.gap();
    let title = width::truncate_end(
        "Open a previous scan and continue reviewing its results",
        canvas.saturating_sub(2),
    );
    screen.add(text::cat2("  ", theme.text(title.as_str()).as_str()));
    let place = width::truncate_start(database.display().as_str(), canvas.saturating_sub(2));
    screen.add(text::cat2("  ", theme.muted(place.as_str()).as_str()));
    screen.add(text::cat2("  ", canvas::draw_rule(theme, canvas, 4).as_str()));
    if history.len() == 0 {
        screen.gap();
        screen.add(text::cat2("  ", theme.text("No scans have been saved yet.").as_str()));
        screen.add(
            text::cat2("  ", theme.muted("Return home and run a storage scan first.").as_str()),
        );
    } else {
        let visible: usize = width::bound(layout.rows.saturating_sub(13), 3, 12);
        let (start, end) = visible_window(selected, history.len(), visible);
        let ghost top = screen@;
        let ghost all = order::views(history@);
        let mut at: usize = start;
        while at < end
            invariant
                start <= at <= end <= history@.len(),
                all == order::views(history@),
                screen@ == browser_rows(
                    top,
                    all,
                    start as int,
                    at as int,
                    selected as nat,
                    theme,
                    canvas as nat,
                ),
            decreases end - at,
        {
            assert(all[at as int] == history@[at as int]@);
            let row = draw_browser_row(&history[at], at == selected, canvas);
            screen.add(
                text::cat2("  ", menu::show_row(theme, row.as_str(), at == selected).as_str()),
            );
            at = at + 1;
        }
        assert(all[selected as int] == history@[selected as int]@);
        draw_selected_summary(&mut screen, &history[selected], now, theme, canvas);
    }
    screen.gap();
    screen.add(text::cat2("  ", canvas::draw_rule(theme, canvas, 4).as_str()));
    let help = width::truncate_end(
        "↑/↓  j/k move    enter open scan    q back",
        canvas.saturating_sub(2),
    );
    screen.add(text::cat2("  ", theme.muted(help.as_str()).as_str()));
    screen
}

/// What a key does in the list of earlier scans.
#[derive(Debug, Clone, Copy, PartialEq, Eq, Structural)]
pub enum BrowseStep {
    Stay(usize),
    Open(i64),
    Back,
    Close,
}

pub open spec fn browse_next(
    history: Seq<ScanHistoryEntryView>,
    selected: usize,
    key: Key,
) -> BrowseStep {
    let count = history.len();
    match key {
        Key::ControlC => BrowseStep::Close,
        Key::Escape | Key::Character('q') => BrowseStep::Back,
        _ => if count == 0 {
            BrowseStep::Stay(selected)
        } else {
            match key {
                Key::Up | Key::Character('k') => BrowseStep::Stay(
                    menu::before(selected as nat, count) as usize,
                ),
                Key::Down | Key::Character('j') => BrowseStep::Stay(
                    menu::after(selected as nat, count) as usize,
                ),
                Key::Home => BrowseStep::Stay(0),
                Key::End => BrowseStep::Stay((count - 1) as usize),
                Key::Enter => BrowseStep::Open(history[selected as int].id),
                _ => BrowseStep::Stay(selected),
            }
        },
    }
}

/// What a key does in the list of earlier scans.
pub fn browse_step(history: &[ScanHistoryEntry], selected: usize, key: Key) -> (result: BrowseStep)
    requires
        history@.len() > 0 ==> selected < history@.len(),
    ensures
        result == browse_next(order::views(history@), selected, key),
        match result {
            BrowseStep::Stay(place) => history@.len() > 0 ==> place < history@.len(),
            _ => true,
        },
{
    match key {
        Key::ControlC => {
            return BrowseStep::Close;
        },
        Key::Escape | Key::Character('q') => {
            return BrowseStep::Back;
        },
        _ => {},
    }
    if history.len() == 0 {
        return BrowseStep::Stay(selected);
    }
    match key {
        Key::Up | Key::Character('k') => BrowseStep::Stay(menu::move_up(selected, history.len())),
        Key::Down | Key::Character('j') => BrowseStep::Stay(
            menu::move_down(selected, history.len()),
        ),
        Key::Home => BrowseStep::Stay(0),
        Key::End => BrowseStep::Stay(history.len() - 1),
        Key::Enter => {
            assert(order::views(history@)[selected as int] == history@[selected as int]@);
            BrowseStep::Open(history[selected].id)
        },
        _ => BrowseStep::Stay(selected),
    }
}

/// What is told of the model behind a scan's explanations.
pub open spec fn model_told(entry: ScanHistoryEntryView) -> Seq<char> {
    match entry.ai_model {
        Some(name) => name + " • "@ + size::count_text(entry.ai_explanation_count as nat)
            + " explanations"@,
        None => sheet::spaced(entry.ai_status),
    }
}

/// A scan in the printed history.
pub open spec fn history_record(
    lines: Seq<Seq<char>>,
    entry: ScanHistoryEntryView,
    now: nat,
    theme: Theme,
    canvas: nat,
) -> Seq<Seq<char>> {
    let head = lines.push(sheet::divider(theme, canvas)).push(
        "  "@ + theme.as_selected(
            " #"@ + text::padded_end(storage::signed_decimal(entry.id), 4) + " "@,
        ) + "  "@ + theme.as_text(path::spelled(entry.root_spelling)),
    );
    let analyzed = sheet::record_field(
        head,
        "analyzed"@,
        size::bytes_text(entry.total_size_bytes as nat),
        RecordTone::Text,
        theme,
        canvas,
    );
    let contents = sheet::record_field(
        analyzed,
        "contents"@,
        size::count_text(entry.file_count as nat) + " files • "@ + size::count_text(
            entry.directory_count as nat,
        ) + " folders"@,
        RecordTone::Text,
        theme,
        canvas,
    );
    let results = sheet::record_field(
        contents,
        "results"@,
        size::count_text(entry.recommendation_count as nat) + " recommendations • "@
            + size::count_text(entry.duplicate_group_count as nat) + " duplicate groups • "@
            + size::count_text(entry.relationship_count as nat) + " relationships"@,
        RecordTone::Accent,
        theme,
        canvas,
    );
    let explained = sheet::record_field(
        results,
        "local AI"@,
        model_told(entry),
        RecordTone::Text,
        theme,
        canvas,
    );
    let recoverable = match entry.duplicate_recovery_bytes {
        Some(bytes) => sheet::record_field(
            explained,
            "recoverable"@,
            size::bytes_text(bytes as nat),
            RecordTone::Positive,
            theme,
            canvas,
        ),
        None => explained,
    };
    sheet::record_field(
        recoverable,
        "completed"@,
        size::age_text(entry.completed_at_epoch_seconds as nat, now),
        RecordTone::Text,
        theme,
        canvas,
    )
}

fn print_history_record(
    screen: &mut Screen,
    entry: &ScanHistoryEntry,
    now: u64,
    theme: Theme,
    canvas: usize,
)
    ensures
        final(screen)@ == history_record(old(screen)@, entry@, now as nat, theme, canvas as nat),
{
    sheet::print_record_divider(screen, theme, canvas);
    let id = text::cat3(
        " #",
        text::pad_end(storage::signed_decimal_of(entry.id).as_str(), 4).as_str(),
        " ",
    );
    screen.add(
        text::cat4(
            "  ",
            theme.selected(id.as_str()).as_str(),
            "  ",
            theme.text(entry.root.display().as_str()).as_str(),
        ),
    );
    sheet::print_record_field(
        screen,
        "analyzed",
        size::format_bytes(entry.total_size_bytes).as_str(),
        RecordTone::Text,
        theme,
        canvas,
    );
    let contents = text::cat4(
        size::format_count(entry.file_count).as_str(),
        " files • ",
        size::format_count(entry.directory_count).as_str(),
        " folders",
    );
    sheet::print_record_field(
        screen,
        "contents",
        contents.as_str(),
        RecordTone::Text,
        theme,
        canvas,
    );
    let results = text::cat6(
        size::format_count(entry.recommendation_count).as_str(),
        " recommendations • ",
        size::format_count(entry.duplicate_group_count).as_str(),
        " duplicate groups • ",
        size::format_count(entry.relationship_count).as_str(),
        " relationships",
    );
    sheet::print_record_field(
        screen,
        "results",
        results.as_str(),
        RecordTone::Accent,
        theme,
        canvas,
    );
    let explained = match &entry.ai_model {
        Some(name) => text::cat4(
            name.as_str(),
            " • ",
            size::format_count(entry.ai_explanation_count).as_str(),
            " explanations",
        ),
        None => sheet::space(entry.ai_status.as_str()),
    };
    sheet::print_record_field(
        screen,
        "local AI",
        explained.as_str(),
        RecordTone::Text,
        theme,
        canvas,
    );
    if let Some(bytes) = entry.duplicate_recovery_bytes {
        sheet::print_record_field(
            screen,
            "recoverable",
            size::format_bytes(bytes).as_str(),
            RecordTone::Positive,
            theme,
            canvas,
        );
    }
    sheet::print_record_field(
        screen,
        "completed",
        size::format_age(entry.completed_at_epoch_seconds, now).as_str(),
        RecordTone::Text,
        theme,
        canvas,
    );
}

/// The first scans in the printed history.
pub open spec fn history_records(
    lines: Seq<Seq<char>>,
    entries: Seq<ScanHistoryEntryView>,
    count: int,
    now: nat,
    theme: Theme,
    canvas: nat,
) -> Seq<Seq<char>>
    decreases count,
{
    if count <= 0 {
        lines
    } else {
        history_record(
            history_records(lines, entries, count - 1, now, theme, canvas),
            entries[count - 1],
            now,
            theme,
            canvas,
        )
    }
}

/// The lines with those of the header behind them.
pub open spec fn with_header(lines: Seq<Seq<char>>, theme: Theme, active: Seq<char>, canvas: nat) -> Seq<
    Seq<char>,
> {
    let head = canvas::header(theme, active, canvas);
    lines.push(head[0]).push(head[1]).push(head[2])
}

pub fn print_brand_header(screen: &mut Screen, theme: Theme, active: &str, canvas: usize)
    ensures
        final(screen)@ == with_header(old(screen)@, theme, active@, canvas as nat),
{
    let head = canvas::brand_header_lines_for_width(theme, active, canvas);
    assert(head@.len() == 3 && head@.len() == head.lines@.len());
    assert(head@[0] == head.lines@[0]@ && head@[1] == head.lines@[1]@ && head@[2]
        == head.lines@[2]@);
    screen.add(head.lines[0].clone());
    screen.add(head.lines[1].clone());
    screen.add(head.lines[2].clone());
}

/// History as it is printed.
pub open spec fn history_report(
    entries: Seq<ScanHistoryEntryView>,
    database: Seq<u8>,
    now: nat,
    theme: Theme,
    canvas: nat,
) -> Seq<Seq<char>> {
    let head = sheet::section(
        with_header(Seq::<Seq<char>>::empty().push(""@), theme, "REPORT"@, canvas),
        "01"@,
        "SCAN HISTORY"@,
        "Previous analyses stored only on this computer"@,
        theme,
        canvas,
    );
    let figures = sheet::metric(
        sheet::metric(head, "database"@, path::spelled(database), RecordTone::Text, theme, canvas),
        "scans shown"@,
        size::count_text(entries.len()),
        RecordTone::Accent,
        theme,
        canvas,
    );
    let body = if entries.len() == 0 {
        figures.push(""@).push(
            "  "@ + theme.as_muted("—"@) + " "@ + theme.as_text(
                "No scan history yet. Run spacemind to create the first entry."@,
            ),
        )
    } else {
        history_records(figures, entries, entries.len() as int, now, theme, canvas)
    };
    body.push(""@).push("  "@ + canvas::rule(theme, canvas, 4)).push(
        "  "@ + theme.as_green("✓"@) + " "@ + theme.as_green(
            "History contains metadata only, never file contents."@,
        ),
    ).push(""@)
}

/// History as it is printed.
pub fn print_history(
    entries: &[ScanHistoryEntry],
    database: &FilePath,
    now: u64,
    theme: Theme,
    canvas: usize,
) -> (result: Screen)
    ensures
        result@ == history_report(
            order::views(entries@),
            database.spelling(),
            now as nat,
            theme,
            canvas as nat,
        ),
{
    let mut screen = Screen::new();
    screen.gap();
    print_brand_header(&mut screen, theme, "REPORT", canvas);
    sheet::print_section(
        &mut screen,
        "01",
        "SCAN HISTORY",
        "Previous analyses stored only on this computer",
        theme,
        canvas,
    );
    sheet::print_metric(
        &mut screen,
        "database",
        database.display().as_str(),
        RecordTone::Text,
        theme,
        canvas,
    );
    sheet::print_metric(
        &mut screen,
        "scans shown",
        size::format_count(entries.len() as u64).as_str(),
        RecordTone::Accent,
        theme,
        canvas,
    );
    if entries.len() == 0 {
        screen.gap();
        screen.add(
            text::cat4(
                "  ",
                theme.muted("—").as_str(),
                " ",
                theme.text(
                    "No scan history yet. Run spacemind to create the first entry.",
                ).as_str(),
            ),
        );
    } else {
        let ghost top = screen@;
        let ghost all = order::views(entries@);
        let mut at: usize = 0;
        while at < entries.len()
            invariant
                at <= entries@.len(),
                all == order::views(entries@),
                screen@ == history_records(top, all, at as int, now as nat, theme, canvas as nat),
            decreases entries@.len() - at,
        {
            assert(all[at as int] == entries@[at as int]@);
            print_history_record(&mut screen, &entries[at], now, theme, canvas);
            at = at + 1;
        }
    }
    screen.gap();
    screen.add(text::cat2("  ", canvas::draw_rule(theme, canvas, 4).as_str()));
    screen.add(
        text::cat4(
            "  ",
            theme.green("✓").as_str(),
            " ",
            theme.green("History contains metadata only, never file contents.").as_str(),
        ),
    );
    screen.gap();
    screen
}

} // verus!
