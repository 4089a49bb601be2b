//! The menus: what they show, and what a key does in them.

use crate::canvas;
use crate::canvas::{Screen, TerminalLayout, Theme};
use crate::model;
use crate::order;
use crate::path;
use crate::path::{FilePath, GivenView, PartView};
use crate::text;
use crate::width;
use vstd::prelude::*;

verus! {

/// A key as far as the screens tell keys apart.
#[derive(Debug, Clone, Copy, PartialEq, Eq, Structural)]
pub enum Key {
    Up,
    Down,
    Left,
    Right,
    Home,
    End,
    Tab,
    BackTab,
    Enter,
    Escape,
    Backspace,
    ControlC,
    Character(char),
    Other,
}

/// The place before another among some, the last before the first.
pub open spec fn before(selected: nat, count: nat) -> nat {
    if selected == 0 {
        (count - 1) as nat
    } else {
        (selected - 1) as nat
    }
}

/// The place behind another among some, the first behind the last.
pub open spec fn after(selected: nat, count: nat) -> nat {
    if selected + 1 >= count {
        0
    } else {
        selected + 1
    }
}

pub fn move_up(selected: usize, count: usize) -> (result: usize)
    requires
        0 < count,
    ensures
        result == before(selected as nat, count as nat),
        selected < count ==> result < count,
{
    if selected == 0 {
        count - 1
    } else {
        selected - 1
    }
}

pub fn move_down(selected: usize, count: usize) -> (result: usize)
    requires
        selected < count,
    ensures
        result == after(selected as nat, count as nat),
        result < count,
{
    if selected + 1 == count {
        0
    } else {
        selected + 1
    }
}

/// Moving up and moving down undo each other, also around the ends.
pub proof fn law_moves_undo_each_other(selected: nat, count: nat)
    requires
        selected < count,
    ensures
        after(before(selected, count), count) == selected,
        before(after(selected, count), count) == selected,
        before(selected, count) < count,
        after(selected, count) < count,
{
}

/// What the home menu offers.
#[derive(Debug, Clone, Copy, PartialEq, Eq, Structural)]
pub enum InteractiveAction {
    Scan,
    History,
    Quit,
}

/// What a key does in the home menu.
#[derive(Debug, Clone, Copy, PartialEq, Eq, Structural)]
pub enum MenuStep {
    Stay(usize),
    Choose(InteractiveAction),
    Close,
}

pub open spec fn action_at(selected: nat) -> InteractiveAction {
    if selected == 0 {
        InteractiveAction::Scan
    } else if selected == 1 {
        InteractiveAction::History
    } else {
        InteractiveAction::Quit
    }
}

pub open spec fn menu_next(selected: usize, key: Key) -> MenuStep {
    match key {
        Key::ControlC => MenuStep::Close,
        Key::Up | Key::Character('k') => MenuStep::Stay(before(selected as nat, 3) as usize),
        Key::Down | Key::Character('j') => MenuStep::Stay(after(selected as nat, 3) as usize),
        Key::Character('s') | Key::Character('1') => MenuStep::Choose(InteractiveAction::Scan),
        Key::Character('h') | Key::Character('2') => MenuStep::Choose(InteractiveAction::History),
        Key::Character('q') | Key::Character('3') | Key::Escape => MenuStep::Choose(
            InteractiveAction::Quit,
        ),
        Key::Enter => MenuStep::Choose(action_at(selected as nat)),
        _ => MenuStep::Stay(selected),
    }
}

/// What a key does in the home menu.
pub fn menu_step(selected: usize, key: Key) -> (result: MenuStep)
    requires
        selected < 3,
    ensures
        result == menu_next(selected, key),
        match result {
            MenuStep::Stay(place) => place < 3,
            _ => true,
        },
{
    match key {
        Key::ControlC => MenuStep::Close,
        Key::Up | Key::Character('k') => MenuStep::Stay(move_up(selected, 3)),
        Key::Down | Key::Character('j') => MenuStep::Stay(move_down(selected, 3)),
        Key::Character('s') | Key::Character('1') => MenuStep::Choose(InteractiveAction::Scan),
        Key::Character('h') | Key::Character('2') => MenuStep::Choose(InteractiveAction::History),
        Key::Character('q') | Key::Character('3') | Key::Escape => MenuStep::Choose(
            InteractiveAction::Quit,
        ),
        Key::Enter => MenuStep::Choose(
            if selected == 0 {
                InteractiveAction::Scan
            } else if selected == 1 {
                InteractiveAction::History
            } else {
                InteractiveAction::Quit
            },
        ),
        _ => MenuStep::Stay(selected),
    }
}

/// A number in at least two digits.
pub open spec fn numbered(number: nat) -> Seq<char> {
    if number < 10 {
        "0"@ + text::decimal(number)
    } else {
        text::decimal(number)
    }
}

pub fn number(value: u64) -> (result: String)
    ensures
        result@ == numbered(value as nat),
{
    if value < 10 {
        text::cat2("0", text::decimal_of(value).as_str())
    } else {
        text::decimal_of(value)
    }
}

pub open spec fn marker(selected: bool) -> Seq<char> {
    if selected {
        "›"@
    } else {
        " "@
    }
}

pub fn mark(selected: bool) -> (result: &'static str)
    ensures
        result@ == marker(selected),
{
    if selected {
        "›"
    } else {
        " "
    }
}

/// A row, set off where it is the selected one.
pub open spec fn row_shown(theme: Theme, row: Seq<char>, selected: bool) -> Seq<char> {
    if selected {
        theme.as_selected(row)
    } else {
        theme.as_text(row)
    }
}

pub fn show_row(theme: Theme, row: &str, selected: bool) -> (result: String)
    ensures
        result@ == row_shown(theme, row@, selected),
{
    if selected {
        theme.selected(row)
    } else {
        theme.text(row)
    }
}

/// A line of a menu: its marker, its number and label, and what it stands for.
pub open spec fn choice_line(
    theme: Theme,
    number: nat,
    label: Seq<char>,
    detail: Seq<char>,
    label_width: nat,
    selected: bool,
) -> Seq<char> {
    "  "@ + theme.as_accent(marker(selected)) + " "@ + row_shown(
        theme,
        " "@ + numbered(number) + "  "@ + width::padded(label, label_width) + " "@,
        selected,
    ) + "  "@ + theme.as_muted(detail)
}

fn draw_choice(
    theme: Theme,
    place: u64,
    label: &str,
    detail: &str,
    label_width: usize,
    selected: bool,
) -> (result: String)
    ensures
        result@ == choice_line(theme, place as nat, label@, detail@, label_width as nat, selected),
{
    let choice = text::cat5(
        " ",
        number(place).as_str(),
        "  ",
        width::pad_right(label, label_width).as_str(),
        " ",
    );
    text::cat6(
        "  ",
        theme.accent(mark(selected)).as_str(),
        " ",
        show_row(theme, choice.as_str(), selected).as_str(),
        "  ",
        theme.muted(detail).as_str(),
    )
}

pub open spec fn menu_label_width(canvas: nat) -> nat {
    width::bounded(width::less(canvas, 18), 8, 18)
}

/// A line of the home menu.
pub open spec fn menu_choice(
    theme: Theme,
    canvas: nat,
    selected: nat,
    place: nat,
    label: Seq<char>,
    description: Seq<char>,
) -> Seq<char> {
    choice_line(
        theme,
        place + 1,
        label,
        width::truncated_end(description, width::less(canvas, 12 + menu_label_width(canvas))),
        menu_label_width(canvas),
        selected == place,
    )
}

fn draw_menu_choice(
    theme: Theme,
    canvas: usize,
    selected: usize,
    place: usize,
    label: &str,
    description: &str,
) -> (result: String)
    requires
        place < 3,
    ensures
        result@ == menu_choice(
            theme,
            canvas as nat,
            selected as nat,
            place as nat,
            label@,
            description@,
        ),
{
    let label_width: usize = width::bound(canvas.saturating_sub(18), 8, 18);
    draw_choice(
        theme,
        place as u64 + 1,
        label,
        width::truncate_end(description, canvas.saturating_sub(12 + label_width)).as_str(),
        label_width,
        selected == place,
    )
}

/// The home menu.
pub open spec fn menu_screen(selected: nat, theme: Theme, layout: TerminalLayout) -> Seq<
    Seq<char>,
> {
    let canvas = layout.width as nat;
    canvas::header(theme, "HOME"@, canvas).push(""@).push(
        "  "@ + theme.as_accent(
            width::truncated_end(
                "storage, understood.  Private analysis on this computer."@,
                width::less(canvas, 2),
            ),
        ),
    ).push(""@).push("  "@ + theme.as_text("What would you like to do?"@)).push(
        "  "@ + canvas::rule(theme, canvas, 4),
    ).push(
        menu_choice(theme, canvas, selected, 0, "Scan storage"@, "analyze a folder"@),
    ).push(
        menu_choice(theme, canvas, selected, 1, "Scan history"@, "review previous results"@),
    ).push(
        menu_choice(theme, canvas, selected, 2, "Quit"@, "leave without changing files"@),
    ).push(""@).push("  "@ + canvas::rule(theme, canvas, 4)).push(
        "  "@ + theme.as_muted(
            width::truncated_end(
                "↑/↓  j/k move    enter select    q quit"@,
                width::less(canvas, 2),
            ),
        ),
    )
}

pub fn main_menu_lines(selected: usize, theme: Theme, layout: TerminalLayout) -> (result: Screen)
    ensures
        result@ == menu_screen(selected as nat, theme, layout),
{
    let canvas: usize = layout.width;
    let mut screen = canvas::brand_header_lines_for_width(theme, "HOME", canvas);
    screen.gap();
    let tagline = width::truncate_end(
        "storage, understood.  Private analysis on this computer.",
        canvas.saturating_sub(2),
    );
    screen.add(text::cat2("  ", theme.accent(tagline.as_str()).as_str()));
    screen.gap();
    screen.add(text::cat2("  ", theme.text("What would you like to do?").as_str()));
    screen.add(text::cat2("  ", canvas::draw_rule(theme, canvas, 4).as_str()));
    screen.add(draw_menu_choice(theme, canvas, selected, 0, "Scan storage", "analyze a folder"));
    screen.add(
        draw_menu_choice(theme, canvas, selected, 1, "Scan history", "review previous results"),
    );
    screen.add(
        draw_menu_choice(theme, canvas, selected, 2, "Quit", "leave without changing files"),
    );
    screen.gap();
    screen.add(text::cat2("  ", canvas::draw_rule(theme, canvas, 4).as_str()));
    let help = width::truncate_end(
        "↑/↓  j/k move    enter select    q quit",
        canvas.saturating_sub(2),
    );
    screen.add(text::cat2("  ", theme.muted(help.as_str()).as_str()));
    screen
}

/// A folder that is offered for scanning.
#[derive(Debug, PartialEq, Eq)]
pub struct DirectoryChoice {
    pub label: &'static str,
    pub path: FilePath,
}

#[verifier::ext_equal]
pub struct DirectoryChoiceView {
    pub label: Seq<char>,
    pub given: GivenView,
}

impl View for DirectoryChoice {
    type V = DirectoryChoiceView;

    open spec fn view(&self) -> DirectoryChoiceView {
        DirectoryChoiceView { label: self.label@, given: self.path.as_given() }
    }
}

/// The folders that a home directory may hold, and the home directory itself.
pub open spec fn home_choices(home: GivenView) -> Seq<DirectoryChoiceView> {
    seq![
        DirectoryChoiceView { label: "Home"@, given: home },
        DirectoryChoiceView {
            label: "Downloads"@,
            given: path::resolved(home, path::given_as(text::bytes_of("Downloads"@))),
        },
        DirectoryChoiceView {
            label: "Documents"@,
            given: path::resolved(home, path::given_as(text::bytes_of("Documents"@))),
        },
        DirectoryChoiceView {
            label: "Desktop"@,
            given: path::resolved(home, path::given_as(text::bytes_of("Desktop"@))),
        },
    ]
}

pub fn home_directories(home: &FilePath) -> (result: Vec<DirectoryChoice>)
    ensures
        order::views(result@) == home_choices(home.as_given()),
        result@.len() == 4,
{
    let result = vec![
        DirectoryChoice { label: "Home", path: home.clone() },
        DirectoryChoice { label: "Downloads", path: home.child("Downloads") },
        DirectoryChoice { label: "Documents", path: home.child("Documents") },
        DirectoryChoice { label: "Desktop", path: home.child("Desktop") },
    ];
    assert(order::views(result@) =~= home_choices(home.as_given()));
    result
}

pub open spec fn is_offered(choices: Seq<DirectoryChoiceView>, path: Seq<PartView>) -> bool {
    exists|i: int| 0 <= i < choices.len() && (#[trigger] choices[i]).given.path == path
}

/// The choices after those of some more folders that exist and are not offered
/// yet.
pub open spec fn with_directories(
    choices: Seq<DirectoryChoiceView>,
    more: Seq<DirectoryChoiceView>,
    present: Seq<bool>,
) -> Seq<DirectoryChoiceView>
    decreases more.len(),
{
    if more.len() == 0 {
        choices
    } else {
        let earlier = with_directories(choices, more.drop_last(), present);
        if present[more.len() - 1] && !is_offered(earlier, more.last().given.path) {
            earlier.push(more.last())
        } else {
            earlier
        }
    }
}

/// The folders that are offered: the current one, then those of the home
/// directory that exist and are not offered yet.
pub open spec fn offered(
    current: GivenView,
    home: Option<GivenView>,
    present: Seq<bool>,
) -> Seq<DirectoryChoiceView> {
    let first = seq![DirectoryChoiceView { label: "Current folder"@, given: current }];
    match home {
        Some(known) => with_directories(first, home_choices(known), present),
        None => first,
    }
}

fn offers(choices: &Vec<DirectoryChoice>, path: &FilePath) -> (result: bool)
    ensures
        result == is_offered(order::views(choices@), path@),
{
    let ghost all = order::views(choices@);
    let mut at: usize = 0;
    while at < choices.len()
        invariant
            at <= choices@.len(),
            all == order::views(choices@),
            forall|i: int| 0 <= i < at ==> (#[trigger] all[i]).given.path != path@,
        decreases choices@.len() - at,
    {
        assert(all[at as int] == choices@[at as int]@);
        if choices[at].path.same(path) {
            return true;
        }
        at = at + 1;
    }
    false
}

/// The folders that are offered. `present` tells which of the folders of the
/// home directory exist.
pub fn directory_choices(
    current: FilePath,
    home: Option<FilePath>,
    present: &[bool],
) -> (result: Vec<DirectoryChoice>)
    requires
        home is Some ==> present@.len() == 4,
    ensures
        order::views(result@) == offered(
            current.as_given(),
            match home {
                Some(known) => Some(known.as_given()),
                None => None,
            },
            present@,
        ),
        result@.len() <= 5,
{
    let mut choices = vec![DirectoryChoice { label: "Current folder", path: current }];
    let ghost first = order::views(choices@);
    assert(first =~= seq![DirectoryChoiceView { label: "Current folder"@, given: current.as_given() }]);
    if let Some(known) = home {
        let more = home_directories(&known);
        let ghost all = order::views(more@);
        let mut at: usize = 0;
        assert(all.take(0) =~= Seq::<DirectoryChoiceView>::empty());
        while at < more.len()
            invariant
                at <= more@.len(),
                more@.len() == 4,
                present@.len() == 4,
                all == order::views(more@),
                order::views(choices@) == with_directories(first, all.take(at as int), present@),
                choices@.len() <= at + 1,
            decreases more@.len() - at,
        {
            assert(all.take(at + 1).drop_last() =~= all.take(at as int));
            assert(all[at as int] == more@[at as int]@);
            if present[at] && !offers(&choices, &more[at].path) {
                let choice = DirectoryChoice {
                    label: more[at].label,
                    path: more[at].path.clone(),
                };
                proof {
                    order::lemma_views_push(choices@, choice);
                }
                choices.push(choice);
            }
            at = at + 1;
        }
        assert(all.take(at as int) =~= all);
    }
    choices
}

proof fn lemma_offered_are_distinct(
    choices: Seq<DirectoryChoiceView>,
    more: Seq<DirectoryChoiceView>,
    present: Seq<bool>,
)
    requires
        forall|i: int, j: int|
            0 <= i < j < choices.len() ==> (#[trigger] choices[i]).given.path != (
            #[trigger] choices[j]).given.path,
    ensures
        ({
            let all = with_directories(choices, more, present);
            forall|i: int, j: int|
                0 <= i < j < all.len() ==> (#[trigger] all[i]).given.path != (#[trigger] all[j]).given.path
        }),
    decreases more.len(),
{
    if more.len() > 0 {
        lemma_offered_are_distinct(choices, more.drop_last(), present);
        let earlier = with_directories(choices, more.drop_last(), present);
        let all = with_directories(choices, more, present);
        assert forall|i: int, j: int| 0 <= i < j < all.len() implies (#[trigger] all[i]).given.path != (
        #[trigger] all[j]).given.path by {
            assert(all[i] == earlier[i]);
            if j < earlier.len() {
                assert(all[j] == earlier[j]);
            }
        }
    }
}

/// No folder is offered twice.
pub proof fn law_no_folder_is_offered_twice(
    current: GivenView,
    home: Option<GivenView>,
    present: Seq<bool>,
    first: int,
    second: int,
)
    requires
        0 <= first < second < offered(current, home, present).len(),
    ensures
        offered(current, home, present)[first].given.path != offered(
            current,
            home,
            present,
        )[second].given.path,
{
    if let Some(known) = home {
        lemma_offered_are_distinct(
            seq![DirectoryChoiceView { label: "Current folder"@, given: current }],
            home_choices(known),
            present,
        );
    }
}

pub open spec fn selector_label_width(canvas: nat) -> nat {
    width::bounded(width::less(canvas, 16), 4, 16)
}

pub open spec fn selector_path_width(canvas: nat) -> nat {
    width::less(canvas, 12 + selector_label_width(canvas))
}

/// The lines of the first choices.
pub open spec fn choice_lines(
    lines: Seq<Seq<char>>,
    choices: Seq<DirectoryChoiceView>,
    count: int,
    selected: nat,
    theme: Theme,
    canvas: nat,
) -> Seq<Seq<char>>
    decreases count,
{
    if count <= 0 {
        lines
    } else {
        choice_lines(lines, choices, count - 1, selected, theme, canvas).push(
            choice_line(
                theme,
                count as nat,
                choices[count - 1].label,
                width::truncated_start(
                    path::spelled(choices[count - 1].given.spelling),
                    selector_path_width(canvas),
                ),
                selector_label_width(canvas),
                selected == count - 1,
            ),
        )
    }
}

/// The last lines of the selector: the prompt for a path, or the keys.
pub open spec fn selector_prompt(
    lines: Seq<Seq<char>>,
    input: Option<Seq<char>>,
    theme: Theme,
    canvas: nat,
) -> Seq<Seq<char>> {
    match input {
        Some(typed) => lines.push(
            "  "@ + theme.as_accent("path ›"@) + " "@ + theme.as_text(
                width::truncated_start(
                    typed + "▌"@,
                    width::less(canvas, width::str_width("  path › "@) as nat),
                ),
            ),
        ).push(
            "  "@ + theme.as_muted(
                width::truncated_end("enter accept    esc go back"@, width::less(canvas, 2)),
            ),
        ),
        None => {
            let full = "↑/↓  j/k move    enter scan    c custom    q quit"@;
            lines.push(
                "  "@ + theme.as_muted(
                    if width::str_width(full) <= width::less(canvas, 2) {
                        full
                    } else {
                        width::truncated_end(
                            "j/k move  enter scan  q quit"@,
                            width::less(canvas, 2),
                        )
                    },
                ),
            )
        },
    }
}

/// The selector of a folder to scan.
pub open spec fn selector_screen(
    choices: Seq<DirectoryChoiceView>,
    selected: nat,
    input: Option<Seq<char>>,
    message: Option<Seq<char>>,
    theme: Theme,
    layout: TerminalLayout,
) -> Seq<Seq<char>> {
    let canvas = layout.width as nat;
    let top = canvas::header(theme, "SCAN"@, canvas).push(""@).push(
        "  "@ + theme.as_accent(
            width::truncated_end(
                "storage, understood.  Private analysis on this computer."@,
                width::less(canvas, 2),
            ),
        ),
    ).push(""@).push(
        "  "@ + theme.as_text(
            width::truncated_end("Choose a folder to scan"@, width::less(canvas, 2)),
        ),
    ).push("  "@ + canvas::rule(theme, canvas, 4));
    let listed = choice_lines(top, choices, choices.len() as int, selected, theme, canvas).push(
        choice_line(
            theme,
            choices.len() + 1,
            "Custom path"@,
            width::truncated_end("enter any folder"@, selector_path_width(canvas)),
            selector_label_width(canvas),
            selected == choices.len(),
        ),
    ).push(""@).push("  "@ + canvas::rule(theme, canvas, 4));
    let prompted = selector_prompt(listed, input, theme, canvas);
    match message {
        Some(told) => prompted.push(
            "  "@ + theme.as_red("!"@) + " "@ + theme.as_muted(
                width::truncated_end(told, width::less(canvas, 4)),
            ),
        ),
        None => prompted,
    }
}

fn draw_prompt(screen: &mut Screen, input: Option<&str>, theme: Theme, canvas: usize)
    ensures
        final(screen)@ == selector_prompt(
            old(screen)@,
            model::optional(input),
            theme,
            canvas as nat,
        ),
{
    match input {
        Some(typed) => {
            let room: usize = canvas.saturating_sub(width::display_width("  path › "));
            let shown = width::truncate_start(text::cat2(typed, "▌").as_str(), room);
            screen.add(
                text::cat4(
                    "  ",
                    theme.accent("path ›").as_str(),
                    " ",
                    theme.text(shown.as_str()).as_str(),
                ),
            );
            let help = width::truncate_end(
                "enter accept    esc go back",
                canvas.saturating_sub(2),
            );
            screen.add(text::cat2("  ", theme.muted(help.as_str()).as_str()));
        },
        None => {
            let full = "↑/↓  j/k move    enter scan    c custom    q quit";
            let room: usize = canvas.saturating_sub(2);
            let help = if width::display_width(full) <= room {
                full.to_owned()
            } else {
                width::truncate_end("j/k move  enter scan  q quit", room)
            };
            screen.add(text::cat2("  ", theme.muted(help.as_str()).as_str()));
        },
    }
}

pub fn directory_selector_lines(
    choices: &[DirectoryChoice],
    selected: usize,
    input: Option<&str>,
    message: Option<&str>,
    theme: Theme,
    layout: TerminalLayout,
) -> (result: Screen)
    requires
        choices@.len() < usize::MAX,
    ensures
        result@ == selector_screen(
            order::views(choices@),
            selected as nat,
            model::optional(input),
            model::optional(message),
            theme,
            layout,
        ),
{
    let canvas: usize = layout.width;
    let mut screen = canvas::brand_header_lines_for_width(theme, "SCAN", canvas);
    screen.gap();
    let tagline = width::truncate_end(
        "storage, understood.  Private analysis on this computer.",
        canvas.saturating_sub(2),
    );
    screen.add(text::cat2("  ", theme.accent(tagline.as_str()).as_str()));
    screen.gap();
    let title = width::truncate_end("Choose a folder to scan", canvas.saturating_sub(2));
    screen.add(text::cat2("  ", theme.text(title.as_str()).as_str()));
    screen.add(text::cat2("  ", canvas::draw_rule(theme, canvas, 4).as_str()));
    let label_width: usize = width::bound(canvas.saturating_sub(16), 4, 16);
    let path_width: usize = canvas.saturating_sub(12 + label_width);
    let ghost top = screen@;
    let ghost all = order::views(choices@);
    let mut at: usize = 0;
    while at < choices.len()
        invariant
            at <= choices@.len(),
            choices@.len() < usize::MAX,
            all == order::views(choices@),
            label_width == selector_label_width(canvas as nat),
            path_width == selector_path_width(canvas as nat),
            screen@ == choice_lines(top, all, at as int, selected as nat, theme, canvas as nat),
        decreases choices@.len() - at,
    {
        let choice = &choices[at];
        assert(all[at as int] == choice@);
        let place = width::truncate_start(choice.path.display().as_str(), path_width);
        screen.add(
            draw_choice(
                theme,
                at as u64 + 1,
                choice.label,
                place.as_str(),
                label_width,
                selected == at,
            ),
        );
        at = at + 1;
    }
    let hint = width::truncate_end("enter any folder", path_width);
    screen.add(
        draw_choice(
            theme,
            choices.len() as u64 + 1,
            "Custom path",
            hint.as_str(),
            label_width,
            selected == choices.len(),
        ),
    );
    screen.gap();
    screen.add(text::cat2("  ", canvas::draw_rule(theme, canvas, 4).as_str()));
    draw_prompt(&mut screen, input, theme, canvas);
    if let Some(told) = message {
        let shown = width::truncate_end(told, canvas.saturating_sub(4));
        screen.add(
            text::cat4("  ", theme.red("!").as_str(), " ", theme.muted(shown.as_str()).as_str()),
        );
    }
    screen
}

/// Where the choosing of a folder has come to.
#[derive(Debug)]
pub struct Selector {
    pub selected: usize,
    pub input: Option<String>,
    pub message: Option<String>,
}

#[verifier::ext_equal]
pub struct SelectorView {
    pub selected: usize,
    pub input: Option<Seq<char>>,
    pub message: Option<Seq<char>>,
}

impl View for Selector {
    type V = SelectorView;

    open spec fn view(&self) -> SelectorView {
        SelectorView {
            selected: self.selected,
            input: model::optional(self.input),
            message: model::optional(self.message),
        }
    }
}

/// What a key leads to while a folder is chosen.
#[derive(Debug)]
pub enum SelectorStep {
    Stay,
    /// A folder that was offered.
    Chosen(FilePath),
    /// A folder that was typed, and has yet to be looked for.
    Typed(FilePath),
    Cancelled,
}

#[verifier::ext_equal]
pub enum SelectorStepView {
    Stay,
    Chosen(GivenView),
    Typed(GivenView),
    Cancelled,
}

impl View for SelectorStep {
    type V = SelectorStepView;

    open spec fn view(&self) -> SelectorStepView {
        match self {
            SelectorStep::Stay => SelectorStepView::Stay,
            SelectorStep::Chosen(path) => SelectorStepView::Chosen(path.as_given()),
            SelectorStep::Typed(path) => SelectorStepView::Typed(path.as_given()),
            SelectorStep::Cancelled => SelectorStepView::Cancelled,
        }
    }
}

/// What a key does while a path is typed.
pub open spec fn typing_next(
    state: SelectorView,
    typed: Seq<char>,
    home: Option<GivenView>,
    key: Key,
) -> (SelectorView, SelectorStepView) {
    match key {
        Key::Enter => (
            state,
            SelectorStepView::Typed(
                path::expanded_as_given(
                    path::given_as(text::bytes_of(text::trimmed(typed))),
                    home,
                ),
            ),
        ),
        Key::Escape => (
            SelectorView { input: None, message: None, ..state },
            SelectorStepView::Stay,
        ),
        Key::Backspace => (
            SelectorView {
                input: Some(
                    if typed.len() > 0 {
                        typed.drop_last()
                    } else {
                        typed
                    },
                ),
                message: None,
                ..state
            },
            SelectorStepView::Stay,
        ),
        Key::Character(character) => (
            SelectorView { input: Some(typed.push(character)), message: None, ..state },
            SelectorStepView::Stay,
        ),
        _ => (state, SelectorStepView::Stay),
    }
}

/// What a key does while one of the choices is selected.
pub open spec fn choosing_next(
    state: SelectorView,
    choices: Seq<DirectoryChoiceView>,
    key: Key,
) -> (SelectorView, SelectorStepView) {
    let count = choices.len();
    match key {
        Key::Character('q') => (state, SelectorStepView::Cancelled),
        Key::Up | Key::Character('k') => (
            SelectorView {
                selected: before(state.selected as nat, count + 1) as usize,
                message: None,
                ..state
            },
            SelectorStepView::Stay,
        ),
        Key::Down | Key::Character('j') => (
            SelectorView {
                selected: after(state.selected as nat, count + 1) as usize,
                message: None,
                ..state
            },
            SelectorStepView::Stay,
        ),
        Key::Character('c') => (
            SelectorView { selected: count as usize, input: Some(""@), message: None },
            SelectorStepView::Stay,
        ),
        Key::Character(character) => if '1' <= character <= '9' && character as int - '1' as int
            <= count {
            (
                SelectorView { selected: (character as int - '1' as int) as usize, ..state },
                SelectorStepView::Stay,
            )
        } else {
            (state, SelectorStepView::Stay)
        },
        Key::Enter => if state.selected < count {
            (state, SelectorStepView::Chosen(choices[state.selected as int].given))
        } else {
            (SelectorView { input: Some(""@), message: None, ..state }, SelectorStepView::Stay)
        },
        _ => (state, SelectorStepView::Stay),
    }
}

/// What a key does while a folder is chosen.
pub open spec fn selector_next(
    state: SelectorView,
    choices: Seq<DirectoryChoiceView>,
    home: Option<GivenView>,
    key: Key,
) -> (SelectorView, SelectorStepView) {
    if key == Key::ControlC {
        (state, SelectorStepView::Cancelled)
    } else {
        match state.input {
            Some(typed) => typing_next(state, typed, home, key),
            None => choosing_next(state, choices, key),
        }
    }
}

impl Selector {
    pub fn new() -> (result: Self)
        ensures
            result@ == (SelectorView { selected: 0, input: None, message: None }),
    {
        Selector { selected: 0, input: None, message: None }
    }

    /// Takes a key while a path is typed.
    fn type_key(&mut self, home: Option<&FilePath>, key: Key) -> (result: SelectorStep)
        requires
            old(self)@.input is Some,
        ensures
            (final(self)@, result@) == typing_next(
                old(self)@,
                old(self)@.input->Some_0,
                match home {
                    Some(known) => Some(known.as_given()),
                    None => None,
                },
                key,
            ),
    {
        let typed = match &self.input {
            Some(typed) => typed.clone(),
            None => String::new(),
        };
        match key {
            Key::Enter => {
                let path = FilePath::new(text::trim(typed.as_str()).as_str());
                SelectorStep::Typed(path.expand_home(home))
            },
            Key::Escape => {
                self.input = None;
                self.message = None;
                SelectorStep::Stay
            },
            Key::Backspace => {
                let characters = text::chars_of(typed.as_str());
                if characters.len() > 0 {
                    let shorter = text::string_between(
                        characters.as_slice(),
                        0,
                        characters.len() - 1,
                    );
                    assert(shorter@ =~= typed@.drop_last());
                    self.input = Some(shorter);
                }
                self.message = None;
                SelectorStep::Stay
            },
            Key::Character(character) => {
                let mut longer = typed;
                longer.push(character);
                self.input = Some(longer);
                self.message = None;
                SelectorStep::Stay
            },
            _ => SelectorStep::Stay,
        }
    }

    /// Takes a key while one of the choices is selected.
    fn choose_key(&mut self, choices: &[DirectoryChoice], key: Key) -> (result: SelectorStep)
        requires
            old(self)@.selected <= choices@.len(),
            choices@.len() < usize::MAX,
        ensures
            (final(self)@, result@) == choosing_next(old(self)@, order::views(choices@), key),
            final(self)@.selected <= choices@.len(),
    {
        match key {
            Key::Character('q') => SelectorStep::Cancelled,
            Key::Up | Key::Character('k') => {
                self.selected = move_up(self.selected, choices.len() + 1);
                self.message = None;
                SelectorStep::Stay
            },
            Key::Down | Key::Character('j') => {
                self.selected = move_down(self.selected, choices.len() + 1);
                self.message = None;
                SelectorStep::Stay
            },
            Key::Character('c') => {
                self.selected = choices.len();
                self.input = Some("".to_owned());
                self.message = None;
                SelectorStep::Stay
            },
            Key::Character(character) => {
                if character >= '1' && character <= '9' {
                    let place: usize = (character as u32 - '1' as u32) as usize;
                    if place <= choices.len() {
                        self.selected = place;
                    }
                }
                SelectorStep::Stay
            },
            Key::Enter => {
                if self.selected < choices.len() {
                    assert(order::views(choices@)[self.selected as int]
                        == choices@[self.selected as int]@);
                    SelectorStep::Chosen(choices[self.selected].path.clone())
                } else {
                    self.input = Some("".to_owned());
                    self.message = None;
                    SelectorStep::Stay
                }
            },
            _ => SelectorStep::Stay,
        }
    }

    /// Takes a key.
    pub fn step(
        &mut self,
        choices: &[DirectoryChoice],
        home: Option<&FilePath>,
        key: Key,
    ) -> (result: SelectorStep)
        requires
            old(self)@.selected <= choices@.len(),
            choices@.len() < usize::MAX,
        ensures
            (final(self)@, result@) == selector_next(
                old(self)@,
                order::views(choices@),
                match home {
                    Some(known) => Some(known.as_given()),
                    None => None,
                },
                key,
            ),
            final(self)@.selected <= choices@.len(),
    {
        if key == Key::ControlC {
            return SelectorStep::Cancelled;
        }
        if self.input.is_some() {
            self.type_key(home, key)
        } else {
            self.choose_key(choices, key)
        }
    }

    /// Notes that the folder that was typed does not exist.
    pub fn refuse(&mut self)
        ensures
            final(self)@ == (SelectorView {
                message: Some("That folder does not exist. Check the path and try again."@),
                ..old(self)@
            }),
    {
        self.message = Some(
            "That folder does not exist. Check the path and try again.".to_owned(),
        );
    }
}

} // verus!
