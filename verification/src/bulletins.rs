//! What is counted and told while an analysis is made.

use vstd::prelude::*;

use crate::duplicates;
use crate::duplicates::PhysicalView;
use crate::model::{GroupView, ItemKind, ItemView, ScanWarningView};
use crate::path::{GivenView, PartView};
use crate::policy::PolicyView;
use crate::progress::{AnalysisPhase, EventView};
use crate::relationships;
use crate::rules;
use crate::scanner;
use crate::scanner::WalkEventView;
use crate::tally;

verus! {

/// The path that a step of a walk has come to, where it is known.
pub open spec fn place_of(event: WalkEventView) -> Option<GivenView> {
    match event {
        WalkEventView::Unreadable { place, .. } => place,
        WalkEventView::Lost { given, .. } => Some(given),
        WalkEventView::Entry { given, .. } => Some(given),
    }
}

/// Whether a step of a walk has come to something that the rules leave out; what
/// cannot be read at all is left out by none.
pub open spec fn is_left_out(rules: PolicyView, event: WalkEventView) -> bool {
    &&& !(event is Unreadable)
    &&& place_of(event) is Some
    &&& rules.matches(place_of(event)->Some_0.path)
}

/// A walk counts each step once that the rules do not leave out, and the length of
/// each file. A step that cannot be read is warned of at its place, unless it is left
/// out; nothing else is.
pub proof fn law_walks_count_what_they_come_to(
    root: Seq<PartView>,
    rules: PolicyView,
    events: Seq<WalkEventView>,
    event: WalkEventView,
)
    ensures
        ({
            let before = scanner::walked(root, rules, events);
            let after = scanner::walked(root, rules, events.push(event));
            let out = is_left_out(rules, event);
            &&& after.items_processed == if out {
                before.items_processed as int
            } else {
                tally::at_most_max(before.items_processed + 1)
            }
            &&& after.bytes_processed == match event {
                WalkEventView::Entry { metadata, .. } => if !out && metadata.kind
                    == ItemKind::File {
                    tally::at_most_max(before.bytes_processed + metadata.length)
                } else {
                    before.bytes_processed as int
                },
                _ => before.bytes_processed as int,
            }
            &&& after.warnings == match event {
                WalkEventView::Unreadable { place, message } => before.warnings + seq![
                    ScanWarningView { path: place, message },
                ],
                WalkEventView::Lost { given, message } => if out {
                    before.warnings
                } else {
                    before.warnings + seq![ScanWarningView { path: Some(given), message }]
                },
                WalkEventView::Entry { .. } => before.warnings,
            }
        }),
{
    assert(events.push(event).drop_last() =~= events);
}

/// A scan tells that it begins, and then, with the first thing that it counts and
/// with every 128th, how much it has counted and where it is; of what is left out it
/// tells nothing.
pub proof fn law_scans_tell_how_far_they_are(
    root: Seq<PartView>,
    rules: PolicyView,
    events: Seq<WalkEventView>,
    event: WalkEventView,
)
    ensures
        scanner::walk_reports(root, rules, Seq::empty()) == seq![
            EventView {
                phase: AnalysisPhase::Scanning,
                items_processed: 0,
                bytes_processed: 0,
                total_items: None,
                total_bytes: None,
                current_path: None,
            },
        ],
        ({
            let state = scanner::walked(root, rules, events.push(event));
            let before = scanner::walk_reports(root, rules, events);
            let after = scanner::walk_reports(root, rules, events.push(event));
            after == if !is_left_out(rules, event) && (state.items_processed == 1
                || state.items_processed % 128 == 0) {
                before + seq![
                    EventView {
                        phase: AnalysisPhase::Scanning,
                        items_processed: state.items_processed,
                        bytes_processed: state.bytes_processed,
                        total_items: None,
                        total_bytes: None,
                        current_path: place_of(event),
                    },
                ]
            } else {
                before
            }
        }),
{
    assert(events.push(event).drop_last() =~= events);
    let before = scanner::walk_reports(root, rules, events);
    assert(before + Seq::<EventView>::empty() =~= before);
}

/// The rules tell how far they are with every 128th item: at the place of each
/// message stands how many times 128 items there were before it.
pub proof fn law_rules_tell_how_far_they_are(total: u64, steps: int)
    requires
        0 <= steps <= u64::MAX,
    ensures
        ({
            let told = rules::reports(total, steps);
            &&& told.len() == steps / 128 + 1
            &&& forall|i: int|
                0 <= i < told.len() ==> (#[trigger] told[i]) == (EventView {
                    phase: AnalysisPhase::BuildingRecommendations,
                    items_processed: (128 * i) as u64,
                    bytes_processed: 0,
                    total_items: Some(total),
                    total_bytes: None,
                    current_path: None,
                })
        }),
    decreases steps,
{
    if steps > 0 {
        law_rules_tell_how_far_they_are(total, steps - 1);
    }
}

/// The path of an item, or else of the first copy in a group, by their place in one
/// row.
pub open spec fn path_at(items: Seq<ItemView>, groups: Seq<GroupView>, place: int) -> Option<
    GivenView,
> {
    if place < items.len() {
        Some(GivenView { path: items[place].path, spelling: items[place].spelling })
    } else if groups[place - items.len()].entries.len() > 0 {
        let copy = groups[place - items.len()].entries[0];
        Some(GivenView { path: copy.path, spelling: copy.spelling })
    } else {
        None
    }
}

/// The search for relationships tells with every 128th item or group how many there
/// were of all, and which was the last.
pub proof fn law_relationships_tell_how_far_they_are(
    items: Seq<ItemView>,
    groups: Seq<GroupView>,
    steps: int,
)
    requires
        0 <= steps <= items.len() + groups.len() <= u64::MAX,
    ensures
        ({
            let told = relationships::reports(items, groups, steps);
            &&& told.len() == steps / 128 + 1
            &&& forall|i: int|
                0 <= i < told.len() ==> (#[trigger] told[i]) == (EventView {
                    phase: AnalysisPhase::DetectingRelationships,
                    items_processed: (128 * i) as u64,
                    bytes_processed: 0,
                    total_items: Some((items.len() + groups.len()) as u64),
                    total_bytes: None,
                    current_path: if i == 0 {
                        None
                    } else {
                        path_at(items, groups, 128 * i - 1)
                    },
                })
        }),
    decreases steps,
{
    if steps > 0 {
        law_relationships_tell_how_far_they_are(items, groups, steps - 1);
    }
}

proof fn lemma_plan_bytes(plan: Seq<PhysicalView>, more: Seq<PhysicalView>, count: int)
    requires
        count <= plan.len() <= more.len(),
        forall|i: int| 0 <= i < plan.len() ==> plan[i] == #[trigger] more[i],
    ensures
        duplicates::plan_bytes(plan, count) == duplicates::plan_bytes(more, count),
    decreases count,
{
    if count > 0 {
        lemma_plan_bytes(plan, more, count - 1);
        assert(plan[count - 1] == more[count - 1]);
    }
}

/// Hashing has come one file further with each file, and by its bytes; it begins
/// with none, and at its end it has come to all files and all bytes. One file more in
/// a plan is one more to come to, with its bytes.
pub proof fn law_hashing_comes_to_all_files(plan: Seq<PhysicalView>, file: PhysicalView, count: int)
    requires
        0 <= count < plan.len(),
        plan.len() < u64::MAX,
        duplicates::plan_bytes(plan, plan.len() as int) <= u64::MAX,
    ensures
        ({
            let first = duplicates::tally_after(plan, 0);
            let here = duplicates::tally_after(plan, count);
            let next = duplicates::tally_after(plan, count + 1);
            let last = duplicates::tally_after(plan, plan.len() as int);
            &&& first.files == 0 && first.bytes == 0
            &&& next.files == here.files + 1
            &&& next.bytes == here.bytes + plan[count].size_bytes
            &&& next.total_files == here.total_files == plan.len()
            &&& next.total_bytes == here.total_bytes
            &&& last.files == last.total_files
            &&& last.bytes == last.total_bytes
        }),
        duplicates::plan_bytes(plan.push(file), plan.len() as int + 1) == duplicates::plan_bytes(
            plan,
            plan.len() as int,
        ) + file.size_bytes,
{
    lemma_bytes_grow(plan, count + 1, plan.len() as int);
    lemma_plan_bytes(plan, plan.push(file), plan.len() as int);
    assert(plan.push(file)[plan.len() as int] == file);
}

proof fn lemma_bytes_grow(plan: Seq<PhysicalView>, few: int, many: int)
    requires
        0 <= few <= many,
    ensures
        duplicates::plan_bytes(plan, few) <= duplicates::plan_bytes(plan, many),
    decreases many - few,
{
    if few < many {
        lemma_bytes_grow(plan, few, many - 1);
    }
}

} // verus!
