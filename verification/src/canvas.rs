//! The canvas that screens and reports are drawn on.

use crate::order;
use crate::text;
use crate::width;
use vstd::prelude::*;

verus! {

/// What a terminal shows: whether it takes colours, and whether there is one.
#[derive(Debug, Clone, Copy, PartialEq, Eq, Structural)]
pub struct Theme {
    pub colors: bool,
    pub terminal: bool,
}

impl Theme {
    /// No terminal and no colours.
    pub fn plain() -> (result: Self)
        ensures
            result == (Theme { colors: false, terminal: false }),
    {
        Theme { colors: false, terminal: false }
    }

    /// The theme of an output, by what the environment says of the terminal
    /// and of colours.
    pub fn for_terminal(is_terminal: bool, term: Option<&str>, no_color: bool) -> (result: Self)
        ensures
            result.terminal == (is_terminal && match term {
                Some(name) => name@ != "dumb"@,
                None => true,
            }),
            result.colors == (result.terminal && !no_color),
    {
        let capable = match term {
            Some(name) => !text::same_text(name, "dumb"),
            None => true,
        };
        let terminal = is_terminal && capable;
        Theme { colors: terminal && !no_color, terminal }
    }

    /// A text in a colour.
    pub open spec fn painted(self, text: Seq<char>, code: Seq<char>) -> Seq<char> {
        if self.colors {
            "\x1b["@ + code + "m"@ + text + "\x1b[0m"@
        } else {
            text
        }
    }

    pub fn paint(self, text: &str, code: &str) -> (result: String)
        ensures
            result@ == self.painted(text@, code@),
    {
        if self.colors {
            text::cat5("\x1b[", code, "m", text, "\x1b[0m")
        } else {
            text.to_owned()
        }
    }

    pub open spec fn as_brand(self, text: Seq<char>) -> Seq<char> {
        self.painted(text, "1;38;2;255;96;0"@)
    }

    pub fn brand(self, text: &str) -> (result: String)
        ensures
            result@ == self.as_brand(text@),
    {
        self.paint(text, "1;38;2;255;96;0")
    }

    pub open spec fn as_accent(self, text: Seq<char>) -> Seq<char> {
        self.painted(text, "38;2;255;96;0"@)
    }

    pub fn accent(self, text: &str) -> (result: String)
        ensures
            result@ == self.as_accent(text@),
    {
        self.paint(text, "38;2;255;96;0")
    }

    pub open spec fn as_selected(self, text: Seq<char>) -> Seq<char> {
        self.painted(text, "1;38;2;22;24;27;48;2;255;96;0"@)
    }

    pub fn selected(self, text: &str) -> (result: String)
        ensures
            result@ == self.as_selected(text@),
    {
        self.paint(text, "1;38;2;22;24;27;48;2;255;96;0")
    }

    pub open spec fn as_aqua(self, text: Seq<char>) -> Seq<char> {
        self.painted(text, "1;38;2;214;217;222"@)
    }

    pub fn aqua(self, text: &str) -> (result: String)
        ensures
            result@ == self.as_aqua(text@),
    {
        self.paint(text, "1;38;2;214;217;222")
    }

    pub open spec fn as_green(self, text: Seq<char>) -> Seq<char> {
        self.painted(text, "1;38;2;132;187;132"@)
    }

    pub fn green(self, text: &str) -> (result: String)
        ensures
            result@ == self.as_green(text@),
    {
        self.paint(text, "1;38;2;132;187;132")
    }

    pub open spec fn as_yellow(self, text: Seq<char>) -> Seq<char> {
        self.painted(text, "1;38;2;214;170;96"@)
    }

    pub fn yellow(self, text: &str) -> (result: String)
        ensures
            result@ == self.as_yellow(text@),
    {
        self.paint(text, "1;38;2;214;170;96")
    }

    pub open spec fn as_red(self, text: Seq<char>) -> Seq<char> {
        self.painted(text, "1;38;2;211;112;112"@)
    }

    pub fn red(self, text: &str) -> (result: String)
        ensures
            result@ == self.as_red(text@),
    {
        self.paint(text, "1;38;2;211;112;112")
    }

    pub open spec fn as_text(self, text: Seq<char>) -> Seq<char> {
        self.painted(text, "1;38;2;225;228;232"@)
    }

    pub fn text(self, text: &str) -> (result: String)
        ensures
            result@ == self.as_text(text@),
    {
        self.paint(text, "1;38;2;225;228;232")
    }

    pub open spec fn as_muted(self, text: Seq<char>) -> Seq<char> {
        self.painted(text, "38;2;132;137;145"@)
    }

    pub fn muted(self, text: &str) -> (result: String)
        ensures
            result@ == self.as_muted(text@),
    {
        self.paint(text, "38;2;132;137;145")
    }

    pub open spec fn as_border(self, text: Seq<char>) -> Seq<char> {
        self.painted(text, "38;2;62;68;75"@)
    }

    pub fn border(self, text: &str) -> (result: String)
        ensures
            result@ == self.as_border(text@),
    {
        self.paint(text, "38;2;62;68;75")
    }
}

/// A painted text is the text itself between a colour and its reset, and
/// without colours nothing but the text.
pub proof fn law_colors_only_surround_the_text(theme: Theme, text: Seq<char>, code: Seq<char>)
    ensures
        !theme.colors ==> theme.painted(text, code) == text,
        theme.colors ==> text::ends(theme.painted(text, code), "\x1b[0m"@),
        theme.colors ==> theme.painted(text, code).subrange(
            ("\x1b["@ + code + "m"@).len() as int,
            (("\x1b["@ + code + "m"@).len() + text.len()) as int,
        ) == text,
{
    if theme.colors {
        let front = "\x1b["@ + code + "m"@;
        let painted = theme.painted(text, code);
        assert(painted =~= front + text + "\x1b[0m"@);
        assert(painted.subrange(front.len() as int, (front.len() + text.len()) as int) =~= text);
        assert(painted.skip(painted.len() - "\x1b[0m"@.len()) =~= "\x1b[0m"@);
    }
}

/// The most columns that the canvas takes.
pub const MAX_CANVAS_WIDTH: usize = 86;

/// The columns of an output that is no terminal.
pub const PLAIN_CANVAS_WIDTH: usize = 76;

/// Where the canvas lies in the terminal.
#[derive(Debug, Clone, Copy, PartialEq, Eq, Structural)]
pub struct TerminalLayout {
    pub columns: usize,
    pub rows: usize,
    pub width: usize,
    pub margin: usize,
}

/// How wide the canvas is: two columns less than the terminal, between 32 and
/// the most it takes, but never wider than the terminal itself.
pub open spec fn canvas_width(columns: nat) -> nat {
    let available = width::less(columns, 2);
    let bounded = if available > MAX_CANVAS_WIDTH {
        MAX_CANVAS_WIDTH as nat
    } else if available < 32 {
        32
    } else {
        available
    };
    let most = if columns == 0 {
        1
    } else {
        columns
    };
    if bounded > most {
        most
    } else {
        bounded
    }
}

pub open spec fn layout_for(columns: nat, rows: nat) -> TerminalLayout {
    TerminalLayout {
        columns: columns as usize,
        rows: rows as usize,
        width: canvas_width(columns) as usize,
        margin: (width::less(columns, canvas_width(columns)) / 2) as usize,
    }
}

impl TerminalLayout {
    /// The layout of a terminal of some size.
    pub fn for_size(columns: usize, rows: usize) -> (result: Self)
        ensures
            result == layout_for(columns as nat, rows as nat),
    {
        let available: usize = columns.saturating_sub(2);
        let bounded: usize = if available > MAX_CANVAS_WIDTH {
            MAX_CANVAS_WIDTH
        } else if available < 32 {
            32
        } else {
            available
        };
        let most: usize = if columns == 0 {
            1
        } else {
            columns
        };
        let width: usize = if bounded > most {
            most
        } else {
            bounded
        };
        TerminalLayout { columns, rows, width, margin: columns.saturating_sub(width) / 2 }
    }

    /// The layout of an output: that of the size a terminal tells, or else of
    /// the columns that the environment tells, or else the plain one.
    pub fn detect(
        theme: Theme,
        size: Option<(u16, u16)>,
        columns: Option<&str>,
    ) -> (result: Self)
        ensures
            result == detected(theme, size, crate::model::optional(columns)),
    {
        if !theme.terminal {
            return TerminalLayout::for_size(PLAIN_CANVAS_WIDTH, 24);
        }
        match size {
            Some((known, rows)) => TerminalLayout::for_size(known as usize, rows as usize),
            None => {
                let told: Option<u64> = match columns {
                    Some(value) => text::parse_number(value, usize::MAX as u64),
                    None => None,
                };
                match told {
                    Some(known) => TerminalLayout::for_size(known as usize, 24),
                    None => TerminalLayout::for_size(PLAIN_CANVAS_WIDTH, 24),
                }
            },
        }
    }

    pub fn prefix(self) -> (result: String)
        ensures
            result@ == text::repeated(' ', self.margin as nat),
    {
        text::repeat(' ', self.margin)
    }

    /// How many rows are left free above some lines.
    pub fn selector_top_padding(self, line_count: usize) -> (result: usize)
        ensures
            result == width::less(self.rows as nat, line_count as nat) / 3,
    {
        self.rows.saturating_sub(line_count) / 3
    }
}

pub open spec fn detected(
    theme: Theme,
    size: Option<(u16, u16)>,
    columns: Option<Seq<char>>,
) -> TerminalLayout {
    if !theme.terminal {
        layout_for(PLAIN_CANVAS_WIDTH as nat, 24)
    } else {
        match size {
            Some((known, rows)) => layout_for(known as nat, rows as nat),
            None => match columns {
                Some(value) => match text::spelled_number(value) {
                    Some(number) => if number <= usize::MAX {
                        layout_for(number, 24)
                    } else {
                        layout_for(PLAIN_CANVAS_WIDTH as nat, 24)
                    },
                    None => layout_for(PLAIN_CANVAS_WIDTH as nat, 24),
                },
                None => layout_for(PLAIN_CANVAS_WIDTH as nat, 24),
            },
        }
    }
}

/// The canvas lies within the terminal, wherever the terminal has a column.
pub proof fn law_canvas_stays_inside_the_terminal(columns: nat, rows: nat)
    requires
        0 < columns <= usize::MAX,
        rows <= usize::MAX,
    ensures
        ({
            let layout = layout_for(columns, rows);
            &&& 0 < layout.width <= MAX_CANVAS_WIDTH
            &&& layout.margin + layout.width <= columns
            &&& layout.margin <= columns - layout.width - layout.margin <= layout.margin + 1
        }),
{
}

/// Lines that are being drawn.
#[derive(Debug)]
pub struct Screen {
    pub lines: Vec<String>,
}

impl View for Screen {
    type V = Seq<Seq<char>>;

    open spec fn view(&self) -> Seq<Seq<char>> {
        order::views(self.lines@)
    }
}

impl Screen {
    pub fn new() -> (result: Self)
        ensures
            result@ == Seq::<Seq<char>>::empty(),
    {
        let lines: Vec<String> = Vec::new();
        assert(order::views(lines@) =~= Seq::<Seq<char>>::empty());
        Screen { lines }
    }

    /// Adds a line.
    pub fn add(&mut self, line: String)
        ensures
            final(self)@ == old(self)@.push(line@),
    {
        proof {
            order::lemma_views_push(self.lines@, line);
        }
        self.lines.push(line);
    }

    /// Adds an empty line.
    pub fn gap(&mut self)
        ensures
            final(self)@ == old(self)@.push(""@),
    {
        self.add("".to_owned());
    }

    pub fn len(&self) -> (result: usize)
        ensures
            result == self@.len(),
    {
        self.lines.len()
    }
}

/// The marks of the two places that the header names.
pub open spec fn scan_mark(active: Seq<char>) -> Seq<char> {
    if active == "SCAN"@ {
        "[scan]"@
    } else {
        " scan "@
    }
}

pub open spec fn report_mark(active: Seq<char>) -> Seq<char> {
    if active == "REPORT"@ {
        "[report]"@
    } else {
        " report "@
    }
}

/// A mark, set off where it is the active one.
pub open spec fn mark_shown(theme: Theme, mark: Seq<char>, active: bool) -> Seq<char> {
    if active {
        theme.as_selected(mark)
    } else {
        theme.as_muted(mark)
    }
}

pub fn show_mark(theme: Theme, mark: &str, active: bool) -> (result: String)
    ensures
        result@ == mark_shown(theme, mark@, active),
{
    if active {
        theme.selected(mark)
    } else {
        theme.muted(mark)
    }
}

/// How many columns the header takes with both of its marks.
pub open spec fn full_header_width(active: Seq<char>) -> int {
    width::str_width(" SPACEMIND   "@) + width::str_width(scan_mark(active)) + 3
        + width::str_width(report_mark(active))
}

/// The middle of the header: everything where there is room for it, else the
/// place alone, else the name alone.
pub open spec fn header_middle(theme: Theme, active: Seq<char>, canvas: nat) -> Seq<char> {
    let interior = width::less(canvas, 2) as int;
    let full = full_header_width(active);
    let right = width::str_width("local / read only "@);
    let side = theme.as_border("│"@);
    let place = "["@ + text::lowered(active) + "]"@;
    let compact = width::str_width(" SPACEMIND   "@) + width::str_width(place);
    if full + 1 + right <= interior {
        side + " "@ + theme.as_brand("SPACEMIND"@) + "   "@ + mark_shown(
            theme,
            scan_mark(active),
            active == "SCAN"@,
        ) + "   "@ + mark_shown(theme, report_mark(active), active == "REPORT"@) + text::repeated(
            ' ',
            (interior - full - right) as nat,
        ) + theme.as_muted("local / read only "@) + side
    } else if compact <= interior {
        side + " "@ + theme.as_brand("SPACEMIND"@) + "   "@ + theme.as_selected(place)
            + text::repeated(' ', (interior - compact) as nat) + side
    } else {
        side + theme.as_brand(
            width::padded(width::truncated_end(" SPACEMIND"@, interior as nat), interior as nat),
        ) + side
    }
}

fn middle_of_header(theme: Theme, active: &str, canvas: usize) -> (result: String)
    ensures
        result@ == header_middle(theme, active@, canvas as nat),
{
    let in_scan = text::same_text(active, "SCAN");
    let in_report = text::same_text(active, "REPORT");
    let scan = if in_scan {
        "[scan]"
    } else {
        " scan "
    };
    let report = if in_report {
        "[report]"
    } else {
        " report "
    };
    let interior: usize = canvas.saturating_sub(2);
    let full: u128 = width::display_width(" SPACEMIND   ") as u128 + width::display_width(
        scan,
    ) as u128 + 3 + width::display_width(report) as u128;
    let right: u128 = width::display_width("local / read only ") as u128;
    let side = theme.border("│");
    if full + 1 + right <= interior as u128 {
        let padding: usize = (interior as u128 - full - right) as usize;
        let front = text::cat4(
            side.as_str(),
            " ",
            theme.brand("SPACEMIND").as_str(),
            "   ",
        );
        return text::cat7(
            front.as_str(),
            show_mark(theme, scan, in_scan).as_str(),
            "   ",
            show_mark(theme, report, in_report).as_str(),
            text::repeat(' ', padding).as_str(),
            theme.muted("local / read only ").as_str(),
            side.as_str(),
        );
    }
    let place = text::cat3("[", text::lower(active).as_str(), "]");
    let compact: u128 = width::display_width(" SPACEMIND   ") as u128 + width::display_width(
        place.as_str(),
    ) as u128;
    if compact <= interior as u128 {
        let padding: usize = (interior as u128 - compact) as usize;
        return text::cat7(
            side.as_str(),
            " ",
            theme.brand("SPACEMIND").as_str(),
            "   ",
            theme.selected(place.as_str()).as_str(),
            text::repeat(' ', padding).as_str(),
            side.as_str(),
        );
    }
    let content = width::pad_right(
        width::truncate_end(" SPACEMIND", interior).as_str(),
        interior,
    );
    text::cat3(side.as_str(), theme.brand(content.as_str()).as_str(), side.as_str())
}

/// The three lines of the header.
pub open spec fn header(theme: Theme, active: Seq<char>, canvas: nat) -> Seq<Seq<char>> {
    let bar = text::repeated('─', width::less(canvas, 2));
    seq![
        theme.as_border("┌"@ + bar + "┐"@),
        header_middle(theme, active, canvas),
        theme.as_border("└"@ + bar + "┘"@),
    ]
}

/// The header of a canvas of some width.
pub fn brand_header_lines_for_width(theme: Theme, active: &str, canvas: usize) -> (result: Screen)
    ensures
        result@ == header(theme, active@, canvas as nat),
{
    let bar = text::repeat('─', canvas.saturating_sub(2));
    let mut screen = Screen::new();
    screen.add(theme.border(text::cat3("┌", bar.as_str(), "┐").as_str()));
    screen.add(middle_of_header(theme, active, canvas));
    screen.add(theme.border(text::cat3("└", bar.as_str(), "┘").as_str()));
    assert(screen@ =~= header(theme, active@, canvas as nat));
    screen
}

/// A line across the canvas but for some columns.
pub open spec fn rule(theme: Theme, canvas: nat, beside: nat) -> Seq<char> {
    theme.as_border(text::repeated('─', width::less(canvas, beside)))
}

pub fn draw_rule(theme: Theme, canvas: usize, beside: usize) -> (result: String)
    ensures
        result@ == rule(theme, canvas as nat, beside as nat),
{
    theme.border(text::repeat('─', canvas.saturating_sub(beside)).as_str())
}

} // verus!
