//! The parts that reports are put together from.

use crate::canvas::{Screen, TerminalLayout, Theme};
use crate::labels::RecordTone;
use crate::order;
use crate::text;
use crate::width;
use vstd::prelude::*;

verus! {

/// How far a report's line is set in: not at all where it is empty.
pub open spec fn set_in(line: Seq<char>, margin: nat) -> Seq<char> {
    if line.len() == 0 {
        line
    } else {
        text::repeated(' ', margin) + line
    }
}

/// The lines of a report as they are printed.
pub open spec fn printed(lines: Seq<Seq<char>>, margin: nat) -> Seq<Seq<char>> {
    Seq::new(lines.len(), |i: int| set_in(lines[i], margin))
}

/// The lines of a report as they are printed in a terminal.
pub fn print_lines(screen: &Screen, layout: TerminalLayout) -> (result: Screen)
    ensures
        result@ == printed(screen@, layout.margin as nat),
{
    let margin = layout.prefix();
    let mut result = Screen::new();
    let mut at: usize = 0;
    while at < screen.lines.len()
        invariant
            at <= screen.lines@.len(),
            margin@ == text::repeated(' ', layout.margin as nat),
            result@ == printed(screen@, layout.margin as nat).take(at as int),
        decreases screen.lines@.len() - at,
    {
        let line = screen.lines[at].as_str();
        let ghost all = printed(screen@, layout.margin as nat);
        assert(all.take(at + 1) =~= all.take(at as int).push(all[at as int]));
        if text::chars_of(line).len() == 0 {
            result.add(line.to_owned());
        } else {
            result.add(text::cat2(margin.as_str(), line));
        }
        at = at + 1;
    }
    assert(printed(screen@, layout.margin as nat).take(at as int) =~= printed(
        screen@,
        layout.margin as nat,
    ));
    result
}

/// The lines with the first of some parts behind them, each behind something.
pub open spec fn with_parts(
    lines: Seq<Seq<char>>,
    parts: Seq<Seq<char>>,
    count: int,
    shape: spec_fn(int, Seq<char>) -> Seq<char>,
) -> Seq<Seq<char>>
    decreases count,
{
    if count <= 0 {
        lines
    } else {
        with_parts(lines, parts, count - 1, shape).push(shape(count - 1, parts[count - 1]))
    }
}

/// A description below a heading.
pub open spec fn description_shape(theme: Theme) -> spec_fn(int, Seq<char>) -> Seq<char> {
    |at: int, part: Seq<char>| "      "@ + theme.as_muted(part)
}

/// The head of a section, with its description.
pub open spec fn section(
    lines: Seq<Seq<char>>,
    number: Seq<char>,
    title: Seq<char>,
    description: Seq<char>,
    theme: Theme,
    canvas: nat,
) -> Seq<Seq<char>> {
    let heading = number + "  "@ + title;
    let parts = width::wrapped(description, width::less(canvas, 8));
    with_parts(
        lines.push(""@).push(
            "  "@ + theme.as_accent(heading) + " "@ + theme.as_border(
                text::repeated('─', width::less(canvas, heading.len() + 5)),
            ),
        ),
        parts,
        parts.len() as int,
        description_shape(theme),
    ).push(""@)
}

pub fn print_section(
    screen: &mut Screen,
    number: &str,
    title: &str,
    description: &str,
    theme: Theme,
    canvas: usize,
)
    ensures
        final(screen)@ == section(
            old(screen)@,
            number@,
            title@,
            description@,
            theme,
            canvas as nat,
        ),
{
    let heading = text::cat3(number, "  ", title);
    let length: usize = text::chars_of(heading.as_str()).len();
    let remaining: usize = if length > canvas {
        0
    } else {
        (canvas - length).saturating_sub(5)
    };
    screen.gap();
    screen.add(
        text::cat4(
            "  ",
            theme.accent(heading.as_str()).as_str(),
            " ",
            theme.border(text::repeat('─', remaining).as_str()).as_str(),
        ),
    );
    let parts = width::wrap_text(description, canvas.saturating_sub(8));
    let ghost all = order::views(parts@);
    let ghost top = screen@;
    let mut at: usize = 0;
    while at < parts.len()
        invariant
            at <= parts@.len(),
            all == order::views(parts@),
            screen@ == with_parts(top, all, at as int, description_shape(theme)),
        decreases parts@.len() - at,
    {
        assert(all[at as int] == parts@[at as int]@);
        screen.add(text::cat2("      ", theme.muted(parts[at].as_str()).as_str()));
        at = at + 1;
    }
    screen.gap();
}

/// A dotted line between records.
pub open spec fn divider(theme: Theme, canvas: nat) -> Seq<char> {
    "      "@ + theme.as_border(text::repeated('·', width::less(canvas, 8)))
}

pub fn print_record_divider(screen: &mut Screen, theme: Theme, canvas: usize)
    ensures
        final(screen)@ == old(screen)@.push(divider(theme, canvas as nat)),
{
    screen.add(
        text::cat2(
            "      ",
            theme.border(text::repeat('·', canvas.saturating_sub(8)).as_str()).as_str(),
        ),
    );
}

/// A value behind its label, which stands on the first line only.
pub open spec fn value_shape(
    indent: Seq<char>,
    label: Seq<char>,
    label_width: nat,
    theme: Theme,
    tone: RecordTone,
) -> spec_fn(int, Seq<char>) -> Seq<char> {
    |at: int, part: Seq<char>|
        indent + theme.as_muted(
            text::padded_end(
                if at == 0 {
                    label
                } else {
                    ""@
                },
                label_width,
            ),
        ) + "  "@ + theme.as_tone(part, tone)
}

/// A value behind its label, over as many lines as it takes.
pub open spec fn labelled(
    lines: Seq<Seq<char>>,
    indent: Seq<char>,
    label: Seq<char>,
    label_width: nat,
    value: Seq<char>,
    value_width: nat,
    theme: Theme,
    tone: RecordTone,
) -> Seq<Seq<char>> {
    let parts = width::wrapped(value, value_width);
    with_parts(
        lines,
        parts,
        parts.len() as int,
        value_shape(indent, label, label_width, theme, tone),
    )
}

fn print_labelled(
    screen: &mut Screen,
    indent: &str,
    label: &str,
    label_width: usize,
    value: &str,
    value_width: usize,
    theme: Theme,
    tone: RecordTone,
)
    ensures
        final(screen)@ == labelled(
            old(screen)@,
            indent@,
            label@,
            label_width as nat,
            value@,
            value_width as nat,
            theme,
            tone,
        ),
{
    let parts = width::wrap_text(value, value_width);
    let ghost all = order::views(parts@);
    let ghost top = screen@;
    let ghost shape = value_shape(indent@, label@, label_width as nat, theme, tone);
    let mut at: usize = 0;
    while at < parts.len()
        invariant
            at <= parts@.len(),
            all == order::views(parts@),
            shape == value_shape(indent@, label@, label_width as nat, theme, tone),
            screen@ == with_parts(top, all, at as int, shape),
        decreases parts@.len() - at,
    {
        assert(all[at as int] == parts@[at as int]@);
        let front = if at == 0 {
            label
        } else {
            ""
        };
        screen.add(
            text::cat4(
                indent,
                theme.muted(text::pad_end(front, label_width).as_str()).as_str(),
                "  ",
                theme.tone(parts[at].as_str(), tone).as_str(),
            ),
        );
        at = at + 1;
    }
}

/// The columns left for a value, at least a dozen of them.
pub open spec fn value_room(canvas: nat, beside: nat) -> nat {
    if width::less(canvas, beside) < 12 {
        12
    } else {
        width::less(canvas, beside)
    }
}

fn room_for_value(canvas: usize, beside: usize) -> (result: usize)
    ensures
        result == value_room(canvas as nat, beside as nat),
{
    let room: usize = canvas.saturating_sub(beside);
    if room < 12 {
        12
    } else {
        room
    }
}

/// A field of a record.
pub open spec fn record_field(
    lines: Seq<Seq<char>>,
    label: Seq<char>,
    value: Seq<char>,
    tone: RecordTone,
    theme: Theme,
    canvas: nat,
) -> Seq<Seq<char>> {
    labelled(lines, "      "@, label, 12, value, value_room(canvas, 24), theme, tone)
}

pub fn print_record_field(
    screen: &mut Screen,
    label: &str,
    value: &str,
    tone: RecordTone,
    theme: Theme,
    canvas: usize,
)
    ensures
        final(screen)@ == record_field(
            old(screen)@,
            label@,
            value@,
            tone,
            theme,
            canvas as nat,
        ),
{
    print_labelled(
        screen,
        "      ",
        label,
        12,
        value,
        room_for_value(canvas, 24),
        theme,
        tone,
    );
}

/// A figure of a section.
pub open spec fn metric(
    lines: Seq<Seq<char>>,
    label: Seq<char>,
    value: Seq<char>,
    tone: RecordTone,
    theme: Theme,
    canvas: nat,
) -> Seq<Seq<char>> {
    labelled(lines, "  "@, label, 17, value, value_room(canvas, 25), theme, tone)
}

pub fn print_metric(
    screen: &mut Screen,
    label: &str,
    value: &str,
    tone: RecordTone,
    theme: Theme,
    canvas: usize,
)
    ensures
        final(screen)@ == metric(old(screen)@, label@, value@, tone, theme, canvas as nat),
{
    print_labelled(screen, "  ", label, 17, value, room_for_value(canvas, 25), theme, tone);
}

/// A point of a list, marked on its first line only.
pub open spec fn bullet_shape(indent: Seq<char>, theme: Theme) -> spec_fn(int, Seq<char>) -> Seq<
    char,
> {
    |at: int, part: Seq<char>|
        indent + theme.as_accent(
            if at == 0 {
                "•"@
            } else {
                " "@
            },
        ) + " "@ + theme.as_muted(part)
}

/// A point of a list, over as many lines as it takes.
pub open spec fn bullet(
    lines: Seq<Seq<char>>,
    indent: Seq<char>,
    value: Seq<char>,
    room: nat,
    theme: Theme,
) -> Seq<Seq<char>> {
    let parts = width::wrapped(value, room);
    with_parts(lines, parts, parts.len() as int, bullet_shape(indent, theme))
}

pub fn print_bullet(screen: &mut Screen, indent: &str, value: &str, room: usize, theme: Theme)
    ensures
        final(screen)@ == bullet(old(screen)@, indent@, value@, room as nat, theme),
{
    let parts = width::wrap_text(value, room);
    let ghost all = order::views(parts@);
    let ghost top = screen@;
    let mut at: usize = 0;
    while at < parts.len()
        invariant
            at <= parts@.len(),
            all == order::views(parts@),
            screen@ == with_parts(top, all, at as int, bullet_shape(indent@, theme)),
        decreases parts@.len() - at,
    {
        assert(all[at as int] == parts@[at as int]@);
        let marker = if at == 0 {
            "•"
        } else {
            " "
        };
        screen.add(
            text::cat4(
                indent,
                theme.accent(marker).as_str(),
                " ",
                theme.muted(parts[at].as_str()).as_str(),
            ),
        );
        at = at + 1;
    }
}

/// A point of a list in a report.
pub open spec fn wrapped_bullet(
    lines: Seq<Seq<char>>,
    value: Seq<char>,
    theme: Theme,
    canvas: nat,
) -> Seq<Seq<char>> {
    bullet(lines, "        "@, value, value_room(canvas, 14), theme)
}

pub fn print_wrapped_bullet(screen: &mut Screen, value: &str, theme: Theme, canvas: usize)
    ensures
        final(screen)@ == wrapped_bullet(old(screen)@, value@, theme, canvas as nat),
{
    print_bullet(screen, "        ", value, room_for_value(canvas, 14), theme);
}

/// How many there are beside those that are shown, where there are more.
pub open spec fn more(
    lines: Seq<Seq<char>>,
    total: nat,
    shown: nat,
    label: Seq<char>,
    theme: Theme,
) -> Seq<Seq<char>> {
    if total > shown {
        lines.push(
            "  "@ + theme.as_muted(
                "… "@ + text::decimal((total - shown) as nat) + " more "@ + label
                    + " hidden by --top"@,
            ),
        )
    } else {
        lines
    }
}

pub fn print_more(screen: &mut Screen, total: usize, shown: usize, label: &str, theme: Theme)
    ensures
        final(screen)@ == more(old(screen)@, total as nat, shown as nat, label@, theme),
{
    if total > shown {
        let told = text::cat5(
            "… ",
            text::decimal_of((total - shown) as u64).as_str(),
            " more ",
            label,
            " hidden by --top",
        );
        screen.add(text::cat2("  ", theme.muted(told.as_str()).as_str()));
    }
}

/// The text with its underscores made blanks.
pub open spec fn spaced(text: Seq<char>) -> Seq<char> {
    Seq::new(
        text.len(),
        |i: int|
            if text[i] == '_' {
                ' '
            } else {
                text[i]
            },
    )
}

pub fn space(text: &str) -> (result: String)
    ensures
        result@ == spaced(text@),
{
    let characters = text::chars_of(text);
    let mut result: Vec<char> = Vec::new();
    let mut at: usize = 0;
    while at < characters.len()
        invariant
            at <= characters@.len(),
            characters@ == text@,
            result@ == spaced(text@).take(at as int),
        decreases characters@.len() - at,
    {
        let character: char = characters[at];
        assert(spaced(text@).take(at + 1) =~= spaced(text@).take(at as int).push(
            spaced(text@)[at as int],
        ));
        result.push(
            if character == '_' {
                ' '
            } else {
                character
            },
        );
        at = at + 1;
    }
    assert(spaced(text@).take(at as int) =~= spaced(text@));
    text::string_of(result.as_slice())
}

} // verus!
