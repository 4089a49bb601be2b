//! What keys do: in the review of an analysis, in the home menu, in the list of
//! earlier scans, and while a folder is chosen.

use vstd::prelude::*;

use crate::history;
use crate::history::BrowseStep;
use crate::menu;
use crate::menu::{
    DirectoryChoiceView, InteractiveAction, Key, MenuStep, SelectorStepView, SelectorView,
};
use crate::path;
use crate::path::GivenView;
use crate::review;
use crate::review::{ReviewCursor, ReviewSection, ReviewStep};
use crate::storage::{ScanHistoryEntryView, StoredAnalysisView};
use crate::text;

verus! {

/// The part of a review behind another, the first behind the last.
pub open spec fn next_section(section: ReviewSection) -> ReviewSection {
    match section {
        ReviewSection::Overview => ReviewSection::Recommendations,
        ReviewSection::Recommendations => ReviewSection::Duplicates,
        ReviewSection::Duplicates => ReviewSection::Relationships,
        ReviewSection::Relationships => ReviewSection::Warnings,
        ReviewSection::Warnings => ReviewSection::Overview,
    }
}

/// The keys that turn to the next part of a review open that part and no other
/// one; those that turn back undo it; a digit opens the part that it counts; and
/// none of them changes what is selected in any part.
pub proof fn law_reviews_turn_from_part_to_part(
    cursor: ReviewCursor,
    analysis: StoredAnalysisView,
)
    ensures
        forall|key: Key|
            key == Key::Right || key == Key::Tab || key == Key::Character('l') ==> (
            #[trigger] review::review_next(cursor, analysis, key)) == ReviewStep::Stay(
                ReviewCursor { section: next_section(cursor.section), ..cursor },
            ),
        forall|key: Key|
            key == Key::Left || key == Key::BackTab || key == Key::Character('h') ==> (
            #[trigger] review::review_next(
                ReviewCursor { section: next_section(cursor.section), ..cursor },
                analysis,
                key,
            )) == ReviewStep::Stay(cursor),
        review::review_next(cursor, analysis, Key::Character('1')) == ReviewStep::Stay(
            ReviewCursor { section: ReviewSection::Overview, ..cursor },
        ),
        review::review_next(cursor, analysis, Key::Character('2')) == ReviewStep::Stay(
            ReviewCursor { section: ReviewSection::Recommendations, ..cursor },
        ),
        review::review_next(cursor, analysis, Key::Character('3')) == ReviewStep::Stay(
            ReviewCursor { section: ReviewSection::Duplicates, ..cursor },
        ),
        review::review_next(cursor, analysis, Key::Character('4')) == ReviewStep::Stay(
            ReviewCursor { section: ReviewSection::Relationships, ..cursor },
        ),
        review::review_next(cursor, analysis, Key::Character('5')) == ReviewStep::Stay(
            ReviewCursor { section: ReviewSection::Warnings, ..cursor },
        ),
{
}

/// A review is left by Escape and `q` alone, and closed by Control-C alone.
pub proof fn law_reviews_are_left_when_asked(
    cursor: ReviewCursor,
    analysis: StoredAnalysisView,
    key: Key,
)
    ensures
        review::review_next(cursor, analysis, key) == ReviewStep::Back <==> (key == Key::Escape
            || key == Key::Character('q')),
        review::review_next(cursor, analysis, key) == ReviewStep::Close <==> key == Key::ControlC,
{
}

/// In a part of a review with items, the keys down and up go from item to item and
/// around the ends, Home goes to the first and End to the last. The part stays
/// open, and what is selected in the other parts stays selected. A part counts the
/// recommendations, the groups of duplicates, the relationships or the warnings of
/// the analysis; in a part without items the keys do nothing.
pub proof fn law_reviews_move_from_item_to_item(
    cursor: ReviewCursor,
    analysis: StoredAnalysisView,
    count: nat,
    key: Key,
)
    requires
        count == match cursor.section {
            ReviewSection::Overview => 0,
            ReviewSection::Recommendations => analysis.findings.len(),
            ReviewSection::Duplicates => analysis.duplicate_groups.len(),
            ReviewSection::Relationships => analysis.relationships.len(),
            ReviewSection::Warnings => analysis.warnings.len(),
        },
        count <= usize::MAX,
        0 < count ==> cursor.selected_in(cursor.section) < count,
        key == Key::Down || key == Key::Character('j') || key == Key::Up || key == Key::Character(
            'k',
        ) || key == Key::Home || key == Key::End,
    ensures
        count == 0 ==> review::review_next(cursor, analysis, key) == ReviewStep::Stay(cursor),
        match review::review_next(cursor, analysis, key) {
            ReviewStep::Stay(moved) => {
                let from = cursor.selected_in(cursor.section);
                let to = moved.selected_in(cursor.section);
                &&& moved.section == cursor.section
                &&& forall|other: ReviewSection|
                    other != cursor.section ==> (#[trigger] moved.selected_in(other))
                        == cursor.selected_in(other)
                &&& 0 < count && (key == Key::Down || key == Key::Character('j')) ==> to == (from
                    + 1) % (count as int)
                &&& 0 < count && (key == Key::Up || key == Key::Character('k')) ==> from == (to
                    + 1) % (count as int) && to < count
                &&& 0 < count && key == Key::Home ==> to == 0
                &&& 0 < count && key == Key::End ==> to + 1 == count
            },
            _ => false,
        },
{
    let from = cursor.selected_in(cursor.section) as int;
    if 0 < count {
        if from + 1 < count {
            vstd::arithmetic::div_mod::lemma_small_mod((from + 1) as nat, count);
        } else {
            vstd::arithmetic::div_mod::lemma_mod_self_0(count as int);
        }
        vstd::arithmetic::div_mod::lemma_small_mod(from as nat, count);
        vstd::arithmetic::div_mod::lemma_mod_self_0(count as int);
    }
}

/// The home menu offers a scan, the earlier scans and the end, in this order: Enter
/// takes what is selected, and letter and digit of an entry take it wherever the
/// selection stands. Down from one goes to the next and from the last to the first,
/// and up undoes it.
pub proof fn law_the_home_menu_offers_three_things(selected: usize)
    requires
        selected < 3,
    ensures
        menu::menu_next(0, Key::Enter) == MenuStep::Choose(InteractiveAction::Scan),
        menu::menu_next(1, Key::Enter) == MenuStep::Choose(InteractiveAction::History),
        menu::menu_next(2, Key::Enter) == MenuStep::Choose(InteractiveAction::Quit),
        forall|key: Key|
            {
                let step = #[trigger] menu::menu_next(selected, key);
                &&& key == Key::Character('s') || key == Key::Character('1') ==> step
                    == menu::menu_next(0, Key::Enter)
                &&& key == Key::Character('h') || key == Key::Character('2') ==> step
                    == menu::menu_next(1, Key::Enter)
                &&& key == Key::Character('q') || key == Key::Character('3') || key == Key::Escape
                    ==> step == menu::menu_next(2, Key::Enter)
                &&& step == MenuStep::Close <==> key == Key::ControlC
                &&& key == Key::Down || key == Key::Character('j') ==> step == MenuStep::Stay(
                    ((selected + 1) % 3) as usize,
                )
                &&& key == Key::Up || key == Key::Character('k') ==> step == MenuStep::Stay(
                    ((selected + 2) % 3) as usize,
                )
                &&& key == Key::Left || key == Key::Right || key == Key::Home || key == Key::End
                    || key == Key::Tab || key == Key::BackTab || key == Key::Backspace || key
                    == Key::Other ==> step == MenuStep::Stay(selected)
            },
{
}

/// In the list of earlier scans Enter opens the scan that is selected; the other
/// keys go from scan to scan as in a review; Escape and `q` go back, Control-C
/// closes. In an empty list nothing can be opened.
pub proof fn law_earlier_scans_are_opened_by_their_numbers(
    list: Seq<ScanHistoryEntryView>,
    selected: usize,
    key: Key,
)
    requires
        list.len() <= usize::MAX,
        0 < list.len() ==> selected < list.len(),
    ensures
        key == Key::Enter && 0 < list.len() ==> history::browse_next(list, selected, key)
            == BrowseStep::Open(list[selected as int].id),
        history::browse_next(list, selected, key) is Open ==> key == Key::Enter && 0 < list.len(),
        history::browse_next(list, selected, key) == BrowseStep::Back <==> (key == Key::Escape
            || key == Key::Character('q')),
        history::browse_next(list, selected, key) == BrowseStep::Close <==> key == Key::ControlC,
        match history::browse_next(list, selected, key) {
            BrowseStep::Stay(to) => if list.len() == 0 {
                to == selected
            } else {
                &&& key == Key::Down || key == Key::Character('j') ==> to == (selected + 1) % (
                list.len() as int)
                &&& key == Key::Up || key == Key::Character('k') ==> to < list.len() && selected
                    == (to + 1) % (list.len() as int)
                &&& key == Key::Home ==> to == 0
                &&& key == Key::End ==> to + 1 == list.len()
                &&& key == Key::Left || key == Key::Right || key == Key::Tab || key == Key::BackTab
                    || key == Key::Backspace || key == Key::Other ==> to == selected
            },
            _ => true,
        },
{
    let count = list.len();
    if 0 < count {
        if selected + 1 < count {
            vstd::arithmetic::div_mod::lemma_small_mod((selected + 1) as nat, count);
        }
        vstd::arithmetic::div_mod::lemma_small_mod(selected as nat, count);
        vstd::arithmetic::div_mod::lemma_mod_self_0(count as int);
    }
}

/// While a path is typed, a character is put behind it, and Backspace takes the last
/// one away: behind a character it brings back what was there. Escape gives the
/// typing up, and Enter hands over what was typed between its blanks, with the home
/// directory in place of a leading tilde. Only Control-C ends the choice.
pub proof fn law_typing_adds_and_takes_characters(
    state: SelectorView,
    typed: Seq<char>,
    choices: Seq<DirectoryChoiceView>,
    home: Option<GivenView>,
    character: char,
    key: Key,
)
    requires
        state.input == Some(typed),
    ensures
        ({
            let (longer, step) = menu::selector_next(
                state,
                choices,
                home,
                Key::Character(character),
            );
            let (back, other) = menu::selector_next(longer, choices, home, Key::Backspace);
            &&& step == SelectorStepView::Stay
            &&& longer.input == Some(typed + seq![character])
            &&& longer.selected == state.selected
            &&& longer.message is None
            &&& other == SelectorStepView::Stay
            &&& back == (SelectorView { message: None, ..state })
        }),
        typed.len() == 0 ==> menu::selector_next(state, choices, home, Key::Backspace).0.input
            == Some(typed),
        menu::selector_next(state, choices, home, Key::Escape) == ((
            SelectorView { selected: state.selected, input: None, message: None },
            SelectorStepView::Stay,
        )),
        menu::selector_next(state, choices, home, Key::Enter) == (
            state,
            SelectorStepView::Typed(
                path::expanded_as_given(
                    path::given_as(text::bytes_of(text::trimmed(typed))),
                    home,
                ),
            ),
        ),
        menu::selector_next(state, choices, home, key).1 == SelectorStepView::Cancelled <==> key
            == Key::ControlC,
{
    assert(typed + seq![character] =~= typed.push(character));
    assert(typed.push(character).drop_last() =~= typed);
}

/// While a folder is chosen, Enter hands over the folder that is selected, and on
/// the place behind the folders it begins a path; so does `c` from anywhere. The
/// keys down and up go from place to place and around the ends, and a digit goes to
/// the place that it counts. `q` and Control-C alone end the choice.
pub proof fn law_folders_are_chosen_among_those_offered(
    state: SelectorView,
    choices: Seq<DirectoryChoiceView>,
    home: Option<GivenView>,
    key: Key,
)
    requires
        state.input is None,
        state.selected <= choices.len(),
        choices.len() < usize::MAX,
    ensures
        state.selected < choices.len() ==> menu::selector_next(state, choices, home, Key::Enter)
            == (state, SelectorStepView::Chosen(choices[state.selected as int].given)),
        state.selected == choices.len() ==> menu::selector_next(state, choices, home, Key::Enter)
            == ((
            SelectorView { selected: state.selected, input: Some(""@), message: None },
            SelectorStepView::Stay,
        )),
        menu::selector_next(state, choices, home, Key::Character('c')) == ((
            SelectorView { selected: choices.len() as usize, input: Some(""@), message: None },
            SelectorStepView::Stay,
        )),
        menu::selector_next(state, choices, home, key).1 is Chosen ==> key == Key::Enter,
        menu::selector_next(state, choices, home, key).1 !is Typed,
        menu::selector_next(state, choices, home, key).1 == SelectorStepView::Cancelled <==> (key
            == Key::Character('q') || key == Key::ControlC),
        ({
            let to = menu::selector_next(state, choices, home, key).0;
            let places = choices.len() + 1;
            &&& to.selected < places
            &&& key == Key::Down || key == Key::Character('j') ==> to.selected == (state.selected
                + 1) % (places as int) && to.input is None
            &&& key == Key::Up || key == Key::Character('k') ==> state.selected == (to.selected
                + 1) % (places as int) && to.input is None
            &&& match key {
                Key::Character(digit) => '1' <= digit <= '9' ==> {
                    &&& to.input is None
                    &&& digit as int - 48 <= places ==> to.selected == digit as int - 49
                    &&& digit as int - 48 > places ==> to == state
                },
                _ => true,
            }
        }),
{
    let places = (choices.len() + 1) as nat;
    if state.selected + 1 < places {
        vstd::arithmetic::div_mod::lemma_small_mod((state.selected + 1) as nat, places);
    }
    vstd::arithmetic::div_mod::lemma_small_mod(state.selected as nat, places);
    vstd::arithmetic::div_mod::lemma_mod_self_0(places as int);
}

proof fn lemma_offered(
    choices: Seq<DirectoryChoiceView>,
    more: Seq<DirectoryChoiceView>,
    present: Seq<bool>,
)
    ensures
        ({
            let all = menu::with_directories(choices, more, present);
            &&& choices.len() <= all.len()
            &&& forall|i: int| 0 <= i < choices.len() ==> #[trigger] all[i] == choices[i]
            &&& forall|i: int|
                choices.len() <= i < all.len() ==> exists|k: int|
                    0 <= k < more.len() && present[k] && more[k] == #[trigger] all[i]
            &&& forall|k: int|
                0 <= k < more.len() && present[k] ==> exists|i: int|
                    0 <= i < all.len() && (#[trigger] all[i]).given.path == (
                    #[trigger] more[k]).given.path
        }),
    decreases more.len(),
{
    if more.len() > 0 {
        let fewer = more.drop_last();
        lemma_offered(choices, fewer, present);
        let earlier = menu::with_directories(choices, fewer, present);
        let all = menu::with_directories(choices, more, present);
        assert forall|i: int| 0 <= i < earlier.len() implies #[trigger] all[i] == earlier[i] by {}
        assert forall|i: int| choices.len() <= i < all.len() implies exists|k: int|
            0 <= k < more.len() && present[k] && more[k] == #[trigger] all[i] by {
            if i < earlier.len() {
                assert(all[i] == earlier[i]);
                let k = choose|k: int| 0 <= k < fewer.len() && present[k] && fewer[k] == earlier[i];
                assert(more[k] == all[i]);
            } else {
                assert(more[more.len() - 1] == all[i]);
            }
        }
        assert forall|k: int| 0 <= k < more.len() && present[k] implies exists|i: int|
            0 <= i < all.len() && (#[trigger] all[i]).given.path == (
            #[trigger] more[k]).given.path by {
            if k < fewer.len() {
                assert(fewer[k] == more[k]);
                let i = choose|i: int|
                    0 <= i < earlier.len() && (#[trigger] earlier[i]).given.path
                        == fewer[k].given.path;
                assert(all[i] == earlier[i]);
            } else if menu::is_offered(earlier, more[k].given.path) {
                let i = choose|i: int|
                    0 <= i < earlier.len() && (#[trigger] earlier[i]).given.path
                        == more[k].given.path;
                assert(all[i] == earlier[i]);
            } else {
                assert(all[all.len() - 1] == more[k]);
            }
        }
    }
}

/// The current folder is offered first. Of the home directory and its folders for
/// downloads, documents and the desktop those are offered that exist, and nothing else;
/// without a home directory the current folder is offered alone.
pub proof fn law_folders_that_exist_are_offered(
    current: GivenView,
    home: GivenView,
    present: Seq<bool>,
    place: int,
)
    requires
        present.len() == 4,
    ensures
        menu::offered(current, None, present) == seq![
            DirectoryChoiceView { label: "Current folder"@, given: current },
        ],
        ({
            let all = menu::offered(current, Some(home), present);
            let downloads = path::resolved(home, path::given_as(text::bytes_of("Downloads"@)));
            let documents = path::resolved(home, path::given_as(text::bytes_of("Documents"@)));
            let desktop = path::resolved(home, path::given_as(text::bytes_of("Desktop"@)));
            &&& all.len() > 0
            &&& all[0] == (DirectoryChoiceView { label: "Current folder"@, given: current })
            &&& 0 < place < all.len() ==> {
                let one = all[place];
                ||| present[0] && one == (DirectoryChoiceView { label: "Home"@, given: home })
                ||| present[1] && one == (DirectoryChoiceView {
                    label: "Downloads"@,
                    given: downloads,
                })
                ||| present[2] && one == (DirectoryChoiceView {
                    label: "Documents"@,
                    given: documents,
                })
                ||| present[3] && one == (DirectoryChoiceView {
                    label: "Desktop"@,
                    given: desktop,
                })
            }
            &&& present[0] ==> menu::is_offered(all, home.path)
            &&& present[1] ==> menu::is_offered(all, downloads.path)
            &&& present[2] ==> menu::is_offered(all, documents.path)
            &&& present[3] ==> menu::is_offered(all, desktop.path)
        }),
{
    let first = seq![DirectoryChoiceView { label: "Current folder"@, given: current }];
    let more = menu::home_choices(home);
    let all = menu::offered(current, Some(home), present);
    lemma_offered(first, more, present);
    assert(all[0] == first[0]);
    if 0 < place < all.len() {
        let k = choose|k: int| 0 <= k < more.len() && present[k] && more[k] == all[place];
        assert(k == 0 || k == 1 || k == 2 || k == 3);
    }
    assert(more[0].given == home);
    assert(more.len() == 4);
    assert(present[1] ==> menu::is_offered(all, more[1].given.path));
    assert(present[2] ==> menu::is_offered(all, more[2].given.path));
    assert(present[3] ==> menu::is_offered(all, more[3].given.path));
}

} // verus!
