//! What the sizes and counts of a scan come to.

use crate::model::{FileIdentity, ItemKind, ItemView, ScanWarningView};
use crate::order;
use crate::path;
use crate::path::{GivenView, PartView};
use crate::policy::PolicyView;
use crate::scanner;
use crate::scanner::{ChargedView, EntryMetadata, Moment, WalkEventView};
use vstd::prelude::*;

verus! {

/// The allocated bytes below a directory of all of some items.
spec fn cost_below(items: Seq<ChargedView>, directory: Seq<PartView>) -> nat {
    scanner::allocated_below(items, directory, items.len() as int)
}

/// Whether an item behind some others adds to what a directory takes up.
spec fn adds_below(before: Seq<ChargedView>, one: ChargedView, directory: Seq<PartView>) -> bool {
    &&& one.item.kind == ItemKind::File
    &&& one.item.allocated_size_bytes is Some
    &&& path::below(one.item.path, directory)
    &&& scanner::is_linked(one.item) ==> forall|other: ChargedView|
        before.contains(other) && path::below(other.item.path, directory)
            ==> !(#[trigger] scanner::is_link_to(
            other.item,
            one.item.file_identity->Some_0,
        ))
}

/// Whether all names of a file cost the same.
spec fn even(items: Seq<ChargedView>) -> bool {
    forall|i: int, j: int|
        0 <= i < items.len() && 0 <= j < items.len() && scanner::is_linked(
            (#[trigger] items[i]).item,
        ) && scanner::is_linked((#[trigger] items[j]).item) && items[i].item.file_identity
            == items[j].item.file_identity ==> items[i].charge == items[j].charge
}

proof fn lemma_cost_take(items: Seq<ChargedView>, directory: Seq<PartView>, count: int, whole: int)
    requires
        0 <= count <= whole <= items.len(),
    ensures
        scanner::allocated_below(items.take(whole), directory, count) == scanner::allocated_below(
            items,
            directory,
            count,
        ),
    decreases count,
{
    if count > 0 {
        lemma_cost_take(items, directory, count - 1, whole);
        let part = items.take(whole);
        assert(part[count - 1] == items[count - 1]);
        assert forall|earlier: int| 0 <= earlier < count - 1 implies part[earlier]
            == items[earlier] by {}
        assert(scanner::counts_below(part, directory, count - 1) == scanner::counts_below(
            items,
            directory,
            count - 1,
        ));
    }
}

proof fn lemma_cost_push(before: Seq<ChargedView>, one: ChargedView, directory: Seq<PartView>)
    ensures
        cost_below(before.push(one), directory) == cost_below(before, directory) + if adds_below(
            before,
            one,
            directory,
        ) {
            one.charge as nat
        } else {
            0
        },
{
    let all = before.push(one);
    let at = before.len() as int;
    lemma_cost_take(all, directory, at, at);
    assert(all.take(at) =~= before);
    assert(scanner::counts_below(all, directory, at) == adds_below(before, one, directory)) by {
        if scanner::is_linked(one.item) {
            let identity = one.item.file_identity->Some_0;
            if scanner::counts_below(all, directory, at) {
                assert forall|other: ChargedView|
                    before.contains(other) && path::below(
                        other.item.path,
                        directory,
                    ) implies !(#[trigger] scanner::is_link_to(other.item, identity)) by {
                    let k = choose|k: int| 0 <= k < before.len() && before[k] == other;
                    assert(all[k] == other);
                }
            }
            if adds_below(before, one, directory) {
                assert forall|earlier: int|
                    0 <= earlier < at && path::below(
                        (#[trigger] all[earlier]).item.path,
                        directory,
                    ) implies !scanner::is_link_to(all[earlier].item, identity) by {
                    assert(before[earlier] == all[earlier]);
                    assert(before.contains(before[earlier]));
                }
            }
        }
    }
}

/// Of two items at the end either may stand first.
proof fn lemma_cost_swap(
    before: Seq<ChargedView>,
    one: ChargedView,
    other: ChargedView,
    directory: Seq<PartView>,
)
    requires
        scanner::is_linked(one.item) && scanner::is_linked(other.item) && one.item.file_identity
            == other.item.file_identity ==> one.charge == other.charge,
    ensures
        cost_below(before.push(one).push(other), directory) == cost_below(
            before.push(other).push(one),
            directory,
        ),
{
    lemma_cost_push(before, one, directory);
    lemma_cost_push(before, other, directory);
    lemma_cost_push(before.push(one), other, directory);
    lemma_cost_push(before.push(other), one, directory);
    lemma_adds_after(before, one, other, directory);
    lemma_adds_after(before, other, one, directory);
}

/// What an item adds behind another, by what it adds without it.
proof fn lemma_adds_after(
    before: Seq<ChargedView>,
    one: ChargedView,
    other: ChargedView,
    directory: Seq<PartView>,
)
    ensures
        adds_below(before.push(one), other, directory) == (adds_below(before, other, directory) && !(
        path::below(one.item.path, directory) && scanner::is_linked(other.item)
            && scanner::is_link_to(one.item, other.item.file_identity->Some_0))),
{
    let longer = before.push(one);
    assert(longer[before.len() as int] == one);
    assert(longer.contains(one));
    assert forall|each: ChargedView| longer.contains(each) implies each == one || before.contains(
        each,
    ) by {
        let k = choose|k: int| 0 <= k < longer.len() && longer[k] == each;
        if k < before.len() {
            assert(before[k] == each);
        }
    }
    assert forall|each: ChargedView| before.contains(each) implies longer.contains(each) by {
        let k = choose|k: int| 0 <= k < before.len() && before[k] == each;
        assert(longer[k] == each);
    }
}

proof fn lemma_adds_same(
    left: Seq<ChargedView>,
    right: Seq<ChargedView>,
    one: ChargedView,
    directory: Seq<PartView>,
)
    requires
        left.to_multiset() == right.to_multiset(),
    ensures
        adds_below(left, one, directory) == adds_below(right, one, directory),
{
    broadcast use vstd::seq_lib::group_to_multiset_ensures;

    assert forall|each: ChargedView| left.contains(each) == right.contains(each) by {
        assert(left.contains(each) <==> left.to_multiset().contains(each));
        assert(right.contains(each) <==> right.to_multiset().contains(each));
    }
}

/// An item may stand last instead of where it stands.
proof fn lemma_cost_moved(items: Seq<ChargedView>, at: int, directory: Seq<PartView>)
    requires
        0 <= at < items.len(),
        even(items),
    ensures
        cost_below(items, directory) == cost_below(items.remove(at).push(items[at]), directory),
    decreases items.len(),
{
    broadcast use vstd::seq_lib::group_to_multiset_ensures;

    if at == items.len() - 1 {
        assert(items.remove(at).push(items[at]) =~= items);
    } else {
        let front = items.drop_last();
        let last = items.last();
        assert(even(front)) by {
            assert forall|i: int, j: int|
                0 <= i < front.len() && 0 <= j < front.len() && scanner::is_linked(
                    (#[trigger] front[i]).item,
                ) && scanner::is_linked((#[trigger] front[j]).item) && front[i].item.file_identity
                    == front[j].item.file_identity implies front[i].charge == front[j].charge by {
                assert(items[i] == front[i] && items[j] == front[j]);
            }
        }
        lemma_cost_moved(front, at, directory);
        let rest = front.remove(at);
        let moved = rest.push(front[at]);
        assert(front.push(last) =~= items);
        lemma_cost_push(front, last, directory);
        lemma_cost_push(moved, last, directory);
        assert(moved.to_multiset() =~= front.to_multiset());
        lemma_adds_same(front, moved, last, directory);
        assert(items[at] == front[at] && items[items.len() - 1] == last);
        lemma_cost_swap(rest, front[at], last, directory);
        assert(items.remove(at) =~= rest.push(last));
    }
}

/// What a directory takes up does not depend on the order of the items.
proof fn lemma_cost_permuted(
    left: Seq<ChargedView>,
    right: Seq<ChargedView>,
    directory: Seq<PartView>,
)
    requires
        left.to_multiset() == right.to_multiset(),
        even(left),
    ensures
        cost_below(left, directory) == cost_below(right, directory),
    decreases left.len(),
{
    broadcast use vstd::seq_lib::group_to_multiset_ensures;

    assert(left.len() == left.to_multiset().len());
    assert(right.len() == right.to_multiset().len());
    if left.len() > 0 {
        let last = right.last();
        assert(right.contains(right[right.len() - 1]));
        assert(right.to_multiset().contains(last));
        assert(left.contains(last));
        let at = choose|at: int| 0 <= at < left.len() && left[at] == last;
        lemma_cost_moved(left, at, directory);
        let rest = left.remove(at);
        let front = right.drop_last();
        assert(right =~= front.push(last));
        assert(right.to_multiset() =~= front.to_multiset().insert(last));
        assert(rest.to_multiset() =~= left.to_multiset().remove(last));
        assert(rest.to_multiset() =~= front.to_multiset());
        assert(even(rest)) by {
            assert forall|i: int, j: int|
                0 <= i < rest.len() && 0 <= j < rest.len() && scanner::is_linked(
                    (#[trigger] rest[i]).item,
                ) && scanner::is_linked((#[trigger] rest[j]).item) && rest[i].item.file_identity
                    == rest[j].item.file_identity implies rest[i].charge == rest[j].charge by {
                let p = if i < at { i } else { i + 1 };
                let q = if j < at { j } else { j + 1 };
                assert(left[p] == rest[i] && left[q] == rest[j]);
            }
        }
        lemma_cost_permuted(rest, front, directory);
        lemma_cost_push(rest, last, directory);
        lemma_cost_push(front, last, directory);
        lemma_adds_same(rest, front, last, directory);
    }
}

proof fn lemma_first_link(items: Seq<ItemView>, identity: FileIdentity, at: int)
    requires
        0 <= at < items.len(),
        scanner::is_link_to(items[at], identity),
    ensures
        0 <= scanner::first_link(items, identity) <= at,
        scanner::is_link_to(items[scanner::first_link(items, identity)], identity),
    decreases items.len(),
{
    lemma_link_range(items.drop_last(), identity);
    if at < items.len() - 1 {
        assert(items.drop_last()[at] == items[at]);
        lemma_first_link(items.drop_last(), identity, at);
    } else if scanner::first_link(items.drop_last(), identity) < items.len() - 1 {
        lemma_link_stands(items.drop_last(), identity);
    }
}

proof fn lemma_link_range(items: Seq<ItemView>, identity: FileIdentity)
    ensures
        0 <= scanner::first_link(items, identity) <= items.len(),
    decreases items.len(),
{
    if items.len() > 0 {
        lemma_link_range(items.drop_last(), identity);
    }
}

proof fn lemma_link_stands(items: Seq<ItemView>, identity: FileIdentity)
    requires
        scanner::first_link(items, identity) < items.len(),
    ensures
        scanner::is_link_to(items[scanner::first_link(items, identity)], identity),
    decreases items.len(),
{
    lemma_link_range(items, identity);
    if items.len() > 0 {
        lemma_link_range(items.drop_last(), identity);
        if scanner::first_link(items.drop_last(), identity) < items.len() - 1 {
            lemma_link_stands(items.drop_last(), identity);
        }
    }
}

/// What the items of a walk cost does not change with an item behind them.
proof fn lemma_charged_push(items: Seq<ItemView>, item: ItemView)
    ensures
        scanner::charged(items.push(item)) == scanner::charged(items).push(
            ChargedView { item, charge: scanner::charge(items.push(item), items.len() as int) },
        ),
{
    let all = items.push(item);
    assert(all.drop_last() =~= items);
    let left = scanner::charged(all);
    let right = scanner::charged(items).push(
        ChargedView { item, charge: scanner::charge(all, items.len() as int) },
    );
    assert forall|i: int| 0 <= i < items.len() implies left[i] == right[i] by {
        assert(all[i] == items[i]);
        if scanner::is_linked(items[i]) {
            lemma_first_link(items, items[i].file_identity->Some_0, i);
        }
    }
    assert(left =~= right);
}

proof fn lemma_charged_even(items: Seq<ItemView>)
    ensures
        even(scanner::charged(items)),
{
}

/// What a directory of a scan takes up, by the items in the order of the walk.
proof fn lemma_cost_sorted(items: Seq<ItemView>, directory: Seq<PartView>)
    ensures
        cost_below(order::sorted(scanner::charged(items), scanner::by_path()), directory)
            == cost_below(scanner::charged(items), directory),
{
    let found = scanner::charged(items);
    scanner::lemma_by_path();
    order::law_sorted_is_an_ordered_permutation(found, scanner::by_path());
    lemma_charged_even(items);
    lemma_cost_permuted(found, order::sorted(found, scanner::by_path()), directory);
}

/// The logical bytes below a directory of all of some items.
spec fn size_below(items: Seq<ChargedView>, directory: Seq<PartView>) -> nat {
    scanner::bytes_below(items, directory, items.len() as int)
}

proof fn lemma_size_take(items: Seq<ChargedView>, directory: Seq<PartView>, count: int, whole: int)
    requires
        0 <= count <= whole <= items.len(),
    ensures
        scanner::bytes_below(items.take(whole), directory, count) == scanner::bytes_below(
            items,
            directory,
            count,
        ),
    decreases count,
{
    if count > 0 {
        lemma_size_take(items, directory, count - 1, whole);
    }
}

proof fn lemma_size_push(before: Seq<ChargedView>, one: ChargedView, directory: Seq<PartView>)
    ensures
        size_below(before.push(one), directory) == size_below(before, directory) + if one.item.kind
            == ItemKind::File && path::below(one.item.path, directory) {
            one.item.size_bytes as nat
        } else {
            0
        },
{
    let all = before.push(one);
    lemma_size_take(all, directory, before.len() as int, before.len() as int);
    assert(all.take(before.len() as int) =~= before);
}

proof fn lemma_size_inserted(
    items: Seq<ChargedView>,
    value: ChargedView,
    directory: Seq<PartView>,
    le: spec_fn(ChargedView, ChargedView) -> bool,
)
    ensures
        size_below(order::inserted(items, value, le), directory) == size_below(
            items.push(value),
            directory,
        ),
    decreases items.len(),
{
    lemma_size_push(items, value, directory);
    if items.len() == 0 {
        assert(items.push(value) =~= seq![value]);
    } else if !le(items.last(), value) {
        let front = items.drop_last();
        lemma_size_inserted(front, value, directory, le);
        lemma_size_push(front, value, directory);
        lemma_size_push(order::inserted(front, value, le), items.last(), directory);
        lemma_size_push(front, items.last(), directory);
        assert(front.push(items.last()) =~= items);
    }
}

proof fn lemma_size_sorted(
    items: Seq<ChargedView>,
    directory: Seq<PartView>,
    le: spec_fn(ChargedView, ChargedView) -> bool,
)
    ensures
        size_below(order::sorted(items, le), directory) == size_below(items, directory),
    decreases items.len(),
{
    if items.len() > 0 {
        let front = items.drop_last();
        lemma_size_sorted(front, directory, le);
        lemma_size_inserted(order::sorted(front, le), items.last(), directory, le);
        lemma_size_push(order::sorted(front, le), items.last(), directory);
        lemma_size_push(front, items.last(), directory);
        assert(front.push(items.last()) =~= items);
    }
}

/// A walk that came upon nothing adds up to nothing.
pub proof fn law_an_empty_walk_adds_up_to_nothing(
    directory: GivenView,
    root: Seq<PartView>,
    rules: PolicyView,
    started: u64,
    completed: u64,
)
    ensures
        ({
            let scan = scanner::scanned(
                directory,
                scanner::walked(root, rules, Seq::empty()),
                started,
                completed,
            );
            &&& scan.total_size_bytes == 0
            &&& scan.total_allocated_size_bytes == Some(0u64)
            &&& scan.file_count == 0
            &&& scan.directory_count == 0
            &&& scan.items.len() == 0
            &&& scan.ignored_paths.len() == 0
            &&& scan.warnings.len() == 0
        }),
{
    let state = scanner::walked(root, rules, Seq::empty());
    assert(scanner::charged(state.items) =~= Seq::<ChargedView>::empty());
}

proof fn lemma_walked_push(
    root: Seq<PartView>,
    rules: PolicyView,
    events: Seq<WalkEventView>,
    event: WalkEventView,
)
    ensures
        scanner::walked(root, rules, events.push(event)) == scanner::stepped(
            root,
            rules,
            scanner::walked(root, rules, events),
            event,
        ),
{
    assert(events.push(event).drop_last() =~= events);
}

proof fn lemma_kind_count_bound(items: Seq<ItemView>, kind: ItemKind)
    ensures
        scanner::kind_count(items, kind) <= items.len(),
    decreases items.len(),
{
    if items.len() > 0 {
        lemma_kind_count_bound(items.drop_last(), kind);
    }
}

proof fn lemma_walked_bound(root: Seq<PartView>, rules: PolicyView, events: Seq<WalkEventView>)
    ensures
        scanner::walked(root, rules, events).items.len() <= events.len(),
    decreases events.len(),
{
    if events.len() > 0 {
        lemma_walked_bound(root, rules, events.drop_last());
    }
}

/// A file that a walk comes upon adds its length to every directory that it
/// lies below, at whatever depth, and to no other; it is one file more.
pub proof fn law_a_file_adds_its_length(
    directory: GivenView,
    root: Seq<PartView>,
    rules: PolicyView,
    events: Seq<WalkEventView>,
    given: GivenView,
    metadata: EntryMetadata,
    started: u64,
    completed: u64,
)
    requires
        !rules.matches(given.path),
        metadata.kind == ItemKind::File,
        events.len() < u64::MAX,
    ensures
        ({
            let before = scanner::scanned(
                directory,
                scanner::walked(root, rules, events),
                started,
                completed,
            );
            let after = scanner::scanned(
                directory,
                scanner::walked(
                    root,
                    rules,
                    events.push(WalkEventView::Entry { given, metadata }),
                ),
                started,
                completed,
            );
            let sum = before.total_size_bytes + metadata.length;
            &&& after.total_size_bytes == if directory.path.len() < given.path.len()
                && directory.path.is_prefix_of(given.path) {
                if sum <= u64::MAX {
                    sum
                } else {
                    u64::MAX as int
                }
            } else {
                before.total_size_bytes as int
            }
            &&& after.file_count == before.file_count + 1
            &&& after.directory_count == before.directory_count
            &&& after.items.len() == before.items.len() + 1
            &&& after.warnings == before.warnings
            &&& after.ignored_paths == before.ignored_paths
        }),
{
    let event = WalkEventView::Entry { given, metadata };
    let old_state = scanner::walked(root, rules, events);
    let new_state = scanner::walked(root, rules, events.push(event));
    lemma_walked_push(root, rules, events, event);
    let item = scanner::item_of(given, metadata);
    lemma_charged_push(old_state.items, item);
    let le = scanner::by_path();
    lemma_size_sorted(scanner::charged(old_state.items), directory.path, le);
    lemma_size_sorted(scanner::charged(new_state.items), directory.path, le);
    lemma_size_push(
        scanner::charged(old_state.items),
        scanner::charged(new_state.items).last(),
        directory.path,
    );
    order::lemma_sorted_len(scanner::charged(old_state.items), le);
    order::lemma_sorted_len(scanner::charged(new_state.items), le);
    assert(new_state.items.drop_last() =~= old_state.items);
    lemma_kind_count_bound(old_state.items, ItemKind::File);
    lemma_kind_count_bound(old_state.items, ItemKind::Directory);
    lemma_walked_bound(root, rules, events);
}

/// What is not a file, what a rule leaves out and what cannot be read adds
/// nothing to any directory; a directory is one directory more.
pub proof fn law_only_files_have_a_size(
    directory: GivenView,
    root: Seq<PartView>,
    rules: PolicyView,
    events: Seq<WalkEventView>,
    event: WalkEventView,
    started: u64,
    completed: u64,
)
    requires
        event matches WalkEventView::Entry { given, metadata } ==> rules.matches(given.path)
            || metadata.kind != ItemKind::File,
        events.len() < u64::MAX,
    ensures
        ({
            let before = scanner::scanned(
                directory,
                scanner::walked(root, rules, events),
                started,
                completed,
            );
            let after = scanner::scanned(
                directory,
                scanner::walked(root, rules, events.push(event)),
                started,
                completed,
            );
            let kept = event is Entry && !rules.matches(event->Entry_given.path);
            &&& after.total_size_bytes == before.total_size_bytes
            &&& after.total_allocated_size_bytes == before.total_allocated_size_bytes
            &&& after.file_count == before.file_count
            &&& after.directory_count == before.directory_count + if kept
                && event->metadata.kind == ItemKind::Directory {
                1int
            } else {
                0
            }
            &&& after.items.len() == before.items.len() + if kept {
                1int
            } else {
                0
            }
        }),
{
    let old_state = scanner::walked(root, rules, events);
    let new_state = scanner::walked(root, rules, events.push(event));
    lemma_walked_push(root, rules, events, event);
    lemma_kind_count_bound(old_state.items, ItemKind::File);
    lemma_kind_count_bound(old_state.items, ItemKind::Directory);
    lemma_walked_bound(root, rules, events);
    if event is Entry && !rules.matches(event->Entry_given.path) {
        let item = scanner::item_of(event->Entry_given, event->metadata);
        lemma_charged_push(old_state.items, item);
        let le = scanner::by_path();
        let last = scanner::charged(new_state.items).last();
        lemma_size_sorted(scanner::charged(old_state.items), directory.path, le);
        lemma_size_sorted(scanner::charged(new_state.items), directory.path, le);
        lemma_size_push(scanner::charged(old_state.items), last, directory.path);
        lemma_cost_sorted(old_state.items, directory.path);
        lemma_cost_sorted(new_state.items, directory.path);
        lemma_cost_push(scanner::charged(old_state.items), last, directory.path);
        order::lemma_sorted_len(scanner::charged(old_state.items), le);
        order::lemma_sorted_len(scanner::charged(new_state.items), le);
        assert(new_state.items.drop_last() =~= old_state.items);
        assert(scanner::allocation_known(old_state.items) == scanner::allocation_known(
            new_state.items,
        )) by {
            assert forall|i: int| 0 <= i < old_state.items.len() implies old_state.items[i]
                == new_state.items[i] by {}
            if scanner::allocation_known(new_state.items) {
                assert forall|i: int|
                    0 <= i < old_state.items.len() && (#[trigger] old_state.items[i]).kind
                        == ItemKind::File implies old_state.items[i].allocated_size_bytes is Some by {
                    assert(new_state.items[i] == old_state.items[i]);
                }
            }
        }
    } else {
        assert(new_state.items =~= old_state.items);
    }
}

/// Whether a step of a walk is one of several names of a file, kept by the
/// rules and of known allocation.
pub open spec fn names_file(
    rules: PolicyView,
    event: WalkEventView,
    identity: FileIdentity,
) -> bool {
    &&& event is Entry
    &&& !rules.matches(event->Entry_given.path)
    &&& event->metadata.kind == ItemKind::File
    &&& event->metadata.blocks is Some
    &&& event->metadata.identity == Some(identity)
    &&& event->metadata.links is Some
    &&& event->metadata.links->Some_0 > 1
}

/// The names of a file among the items of a walk are those of its steps.
proof fn lemma_names(
    root: Seq<PartView>,
    rules: PolicyView,
    events: Seq<WalkEventView>,
    identity: FileIdentity,
    item: ItemView,
)
    requires
        scanner::walked(root, rules, events).items.contains(item),
        scanner::is_link_to(item, identity),
    ensures
        exists|k: int|
            0 <= k < events.len() && names_file(rules, #[trigger] events[k], identity) && item
                == scanner::item_of(events[k]->Entry_given, events[k]->metadata),
    decreases events.len(),
{
    let all = scanner::walked(root, rules, events).items;
    let i = choose|i: int| 0 <= i < all.len() && all[i] == item;
    if events.len() > 0 {
        let front = events.drop_last();
        let before = scanner::walked(root, rules, front).items;
        if i < before.len() {
            assert(before[i] == item);
            lemma_names(root, rules, front, identity, item);
            let k = choose|k: int|
                0 <= k < front.len() && names_file(rules, #[trigger] front[k], identity) && item
                    == scanner::item_of(front[k]->Entry_given, front[k]->metadata);
            assert(events[k] == front[k]);
        } else {
            let k = events.len() - 1;
            assert(events[k] == events.last());
        }
    }
}

/// A name of a file among the steps of a walk is one of the items.
proof fn lemma_named(
    root: Seq<PartView>,
    rules: PolicyView,
    events: Seq<WalkEventView>,
    identity: FileIdentity,
    at: int,
)
    requires
        0 <= at < events.len(),
        names_file(rules, events[at], identity),
    ensures
        scanner::walked(root, rules, events).items.contains(
            scanner::item_of(events[at]->Entry_given, events[at]->metadata),
        ),
        scanner::is_link_to(
            scanner::item_of(events[at]->Entry_given, events[at]->metadata),
            identity,
        ),
    decreases events.len(),
{
    let front = events.drop_last();
    let before = scanner::walked(root, rules, front).items;
    let after = scanner::walked(root, rules, events).items;
    let item = scanner::item_of(events[at]->Entry_given, events[at]->metadata);
    if at < front.len() {
        assert(front[at] == events[at]);
        lemma_named(root, rules, front, identity, at);
        let k = choose|k: int| 0 <= k < before.len() && before[k] == item;
        assert(after[k] == item);
    } else {
        assert(after[after.len() - 1] == item);
    }
}

/// The first name of a file among the steps is the first among the items.
proof fn lemma_first_named(
    root: Seq<PartView>,
    rules: PolicyView,
    events: Seq<WalkEventView>,
    identity: FileIdentity,
    at: int,
)
    requires
        0 <= at < events.len(),
        names_file(rules, events[at], identity),
        forall|k: int| 0 <= k < at ==> !names_file(rules, #[trigger] events[k], identity),
    ensures
        ({
            let items = scanner::walked(root, rules, events).items;
            &&& scanner::first_link(items, identity) < items.len()
            &&& items[scanner::first_link(items, identity)] == scanner::item_of(
                events[at]->Entry_given,
                events[at]->metadata,
            )
        }),
    decreases events.len(),
{
    let front = events.drop_last();
    let before = scanner::walked(root, rules, front).items;
    let after = scanner::walked(root, rules, events).items;
    lemma_link_range(before, identity);
    if at < front.len() {
        assert(front[at] == events[at]);
        assert forall|k: int| 0 <= k < at implies !names_file(
            rules,
            #[trigger] front[k],
            identity,
        ) by {
            assert(events[k] == front[k]);
        }
        lemma_first_named(root, rules, front, identity, at);
        if after.len() > before.len() {
            assert(after.drop_last() =~= before);
        } else {
            assert(after =~= before);
        }
    } else {
        assert(after.drop_last() =~= before);
        if scanner::first_link(before, identity) < before.len() {
            let first = scanner::first_link(before, identity);
            lemma_link_stands(before, identity);
            assert(before.contains(before[first]));
            lemma_names(root, rules, front, identity, before[first]);
            let k = choose|k: int|
                0 <= k < front.len() && names_file(rules, #[trigger] front[k], identity)
                    && before[first] == scanner::item_of(
                    front[k]->Entry_given,
                    front[k]->metadata,
                );
            assert(events[k] == front[k]);
        }
    }
}

/// What was taken up, and some bytes more.
pub open spec fn grown(before: Option<u64>, bytes: int) -> Option<u64> {
    match before {
        Some(known) => if known + bytes <= u64::MAX {
            Some((known + bytes) as u64)
        } else {
            Some(u64::MAX)
        },
        None => None,
    }
}

proof fn lemma_allocated_step(
    directory: GivenView,
    root: Seq<PartView>,
    rules: PolicyView,
    events: Seq<WalkEventView>,
    given: GivenView,
    metadata: EntryMetadata,
    started: u64,
    completed: u64,
)
    requires
        !rules.matches(given.path),
        metadata.kind == ItemKind::File,
    ensures
        ({
            let old_items = scanner::walked(root, rules, events).items;
            let event = WalkEventView::Entry { given, metadata };
            let before = scanner::scanned(
                directory,
                scanner::walked(root, rules, events),
                started,
                completed,
            ).total_allocated_size_bytes;
            let after = scanner::scanned(
                directory,
                scanner::walked(root, rules, events.push(event)),
                started,
                completed,
            ).total_allocated_size_bytes;
            let item = scanner::item_of(given, metadata);
            let charge = scanner::charge(old_items.push(item), old_items.len() as int);
            &&& after is Some <==> before is Some && metadata.blocks is Some
            &&& after is Some ==> after == grown(
                before,
                if adds_below(
                    scanner::charged(old_items),
                    ChargedView { item, charge },
                    directory.path,
                ) {
                    charge as int
                } else {
                    0
                },
            )
        }),
{
    let event = WalkEventView::Entry { given, metadata };
    let old_state = scanner::walked(root, rules, events);
    let new_state = scanner::walked(root, rules, events.push(event));
    lemma_walked_push(root, rules, events, event);
    let item = scanner::item_of(given, metadata);
    assert(new_state.items == old_state.items.push(item));
    lemma_charged_push(old_state.items, item);
    let charge = scanner::charge(new_state.items, old_state.items.len() as int);
    lemma_cost_sorted(old_state.items, directory.path);
    lemma_cost_sorted(new_state.items, directory.path);
    lemma_cost_push(
        scanner::charged(old_state.items),
        ChargedView { item, charge },
        directory.path,
    );
    assert(scanner::allocation_known(new_state.items) <==> scanner::allocation_known(
        old_state.items,
    ) && metadata.blocks is Some) by {
        assert(new_state.items[old_state.items.len() as int] == item);
        if scanner::allocation_known(new_state.items) {
            assert forall|i: int|
                0 <= i < old_state.items.len() && (#[trigger] old_state.items[i]).kind
                    == ItemKind::File implies old_state.items[i].allocated_size_bytes is Some by {
                assert(new_state.items[i] == old_state.items[i]);
            }
        }
    }
}

/// A file that a walk comes upon adds what it takes up on disk to every
/// directory that it lies below, at whatever depth, and to no other. Of a file
/// with several names exactly one below a directory is counted there: the
/// first to be found adds what the first name of the file was found to take
/// up, and a further one adds nothing. Where the allocation of one file is not
/// known, that of no directory is.
pub proof fn law_a_file_adds_what_it_takes_up(
    directory: GivenView,
    root: Seq<PartView>,
    rules: PolicyView,
    events: Seq<WalkEventView>,
    given: GivenView,
    metadata: EntryMetadata,
    started: u64,
    completed: u64,
)
    requires
        !rules.matches(given.path),
        metadata.kind == ItemKind::File,
    ensures
        ({
            let before = scanner::scanned(
                directory,
                scanner::walked(root, rules, events),
                started,
                completed,
            ).total_allocated_size_bytes;
            let after = scanner::scanned(
                directory,
                scanner::walked(
                    root,
                    rules,
                    events.push(WalkEventView::Entry { given, metadata }),
                ),
                started,
                completed,
            ).total_allocated_size_bytes;
            let inside = directory.path.len() < given.path.len() && directory.path.is_prefix_of(
                given.path,
            );
            let single = metadata.identity is None || metadata.links is None
                || metadata.links->Some_0 <= 1;
            let identity = metadata.identity->Some_0;
            let found_before = exists|k: int|
                0 <= k < events.len() && names_file(rules, #[trigger] events[k], identity);
            let found_inside = exists|k: int|
                0 <= k < events.len() && names_file(rules, #[trigger] events[k], identity)
                    && directory.path.len() < events[k]->Entry_given.path.len()
                    && directory.path.is_prefix_of(events[k]->Entry_given.path);
            &&& after is Some <==> before is Some && metadata.blocks is Some
            &&& after is Some && !inside ==> after == before
            &&& after is Some && inside && (single || !found_before) ==> after == grown(
                before,
                metadata.blocks->Some_0 * 512,
            )
            &&& after is Some && inside && !single && found_inside ==> after == before
            &&& after is Some && inside && !single && !found_inside ==> forall|k: int|
                0 <= k < events.len() && names_file(rules, #[trigger] events[k], identity) && (
                forall|j: int|
                    0 <= j < k ==> !names_file(rules, #[trigger] events[j], identity)) ==> after
                    == grown(before, events[k]->metadata.blocks->Some_0 * 512)
        }),
{
    lemma_allocated_step(
        directory,
        root,
        rules,
        events,
        given,
        metadata,
        started,
        completed,
    );
    let items = scanner::walked(root, rules, events).items;
    let found = scanner::charged(items);
    let item = scanner::item_of(given, metadata);
    let all = items.push(item);
    let one = ChargedView { item, charge: scanner::charge(all, items.len() as int) };
    let identity = metadata.identity->Some_0;
    let single = metadata.identity is None || metadata.links is None || metadata.links->Some_0 <= 1;
    let inside = path::below(given.path, directory.path);
    if metadata.blocks is Some && inside && !single {
        assert(scanner::is_linked(item));
        assert(all.drop_last() =~= items);
        lemma_link_range(items, identity);
        // What was found before, in steps and in items.
        assert forall|other: ChargedView|
            found.contains(other) && #[trigger] scanner::is_link_to(other.item, identity) implies exists|
            k: int,
        |
            0 <= k < events.len() && names_file(rules, #[trigger] events[k], identity)
                && other.item.path == events[k]->Entry_given.path by {
            let i = choose|i: int| 0 <= i < found.len() && found[i] == other;
            assert(items[i] == other.item);
            assert(items.contains(items[i]));
            lemma_names(root, rules, events, identity, other.item);
        }
        assert forall|k: int|
            0 <= k < events.len() && names_file(
                rules,
                #[trigger] events[k],
                identity,
            ) implies exists|other: ChargedView|
            found.contains(other) && #[trigger] scanner::is_link_to(other.item, identity)
                && other.item.path == events[k]->Entry_given.path by {
            lemma_named(root, rules, events, identity, k);
            let wanted = scanner::item_of(events[k]->Entry_given, events[k]->metadata);
            let i = choose|i: int| 0 <= i < items.len() && items[i] == wanted;
            assert(found[i].item == wanted);
            assert(found.contains(found[i]));
        }
        // The first name tells what the file takes up.
        assert forall|k: int|
            0 <= k < events.len() && names_file(rules, #[trigger] events[k], identity) && (forall|
                j: int,
            |
                0 <= j < k ==> !names_file(rules, #[trigger] events[j], identity)) implies one.charge
            == scanner::saturated(events[k]->metadata.blocks->Some_0 as nat * 512) by {
            lemma_first_named(root, rules, events, identity, k);
            let first = scanner::first_link(items, identity);
            assert(scanner::first_link(all, identity) == first);
            assert(all[first] == items[first]);
        }
        if forall|k: int|
            0 <= k < events.len() ==> !names_file(rules, #[trigger] events[k], identity) {
            if scanner::first_link(items, identity) < items.len() {
                let first = scanner::first_link(items, identity);
                lemma_link_stands(items, identity);
                assert(items.contains(items[first]));
                lemma_names(root, rules, events, identity, items[first]);
            }
            assert(scanner::first_link(all, identity) == items.len());
            assert(all[items.len() as int] == item);
            assert(one.charge == scanner::saturated(metadata.blocks->Some_0 as nat * 512));
        }
    }
}

/// A directory among the items is as large, and takes up as much, as a scan
/// that starts there.
pub proof fn law_a_directory_is_as_large_as_a_scan_of_it(
    directory: GivenView,
    root: GivenView,
    rules: PolicyView,
    events: Seq<WalkEventView>,
    started: u64,
    completed: u64,
    at: int,
)
    requires
        0 <= at < scanner::scanned(
            root,
            scanner::walked(root.path, rules, events),
            started,
            completed,
        ).items.len(),
        ({
            let item = scanner::scanned(
                root,
                scanner::walked(root.path, rules, events),
                started,
                completed,
            ).items[at];
            item.kind == ItemKind::Directory && item.path == directory.path
        }),
    ensures
        ({
            let state = scanner::walked(root.path, rules, events);
            let item = scanner::scanned(root, state, started, completed).items[at];
            let inner = scanner::scanned(directory, state, started, completed);
            &&& item.size_bytes == inner.total_size_bytes
            &&& item.allocated_size_bytes == inner.total_allocated_size_bytes
        }),
{
}

/// A sum that stays at the largest number that fits.
pub open spec fn at_most_max(value: int) -> int {
    if value <= u64::MAX {
        value
    } else {
        u64::MAX as int
    }
}

proof fn lemma_bytes_folded(
    items: Seq<ChargedView>,
    known: bool,
    directory: Seq<PartView>,
    count: int,
)
    requires
        0 <= count <= items.len(),
    ensures
        scanner::bytes_below(items, directory, count) == Seq::new(
            items.len(),
            |i: int| scanner::summed(items, i, known),
        ).take(count).fold_left(
            0int,
            |sum: int, item: ItemView|
                if item.kind == ItemKind::File && directory.len() < item.path.len()
                    && directory.is_prefix_of(item.path) {
                    sum + item.size_bytes
                } else {
                    sum
                },
        ),
    decreases count,
{
    let all = Seq::new(items.len(), |i: int| scanner::summed(items, i, known));
    if count > 0 {
        lemma_bytes_folded(items, known, directory, count - 1);
        assert(all.take(count).drop_last() =~= all.take(count - 1));
        assert(all.take(count).last() == scanner::summed(items, count - 1, known));
    }
}

/// A directory is as large as all files below it together, at whatever depth
/// they lie; so is the root.
pub proof fn law_a_directory_is_the_sum_of_the_files_below_it(
    root: GivenView,
    rules: PolicyView,
    events: Seq<WalkEventView>,
    started: u64,
    completed: u64,
)
    ensures
        ({
            let scan = scanner::scanned(
                root,
                scanner::walked(root.path, rules, events),
                started,
                completed,
            );
            let together = |directory: Seq<PartView>|
                scan.items.fold_left(
                    0int,
                    |sum: int, item: ItemView|
                        if item.kind == ItemKind::File && directory.len() < item.path.len()
                            && directory.is_prefix_of(item.path) {
                            sum + item.size_bytes
                        } else {
                            sum
                        },
                );
            &&& scan.total_size_bytes == at_most_max(together(root.path))
            &&& forall|i: int|
                0 <= i < scan.items.len() && (#[trigger] scan.items[i]).kind == ItemKind::Directory
                    ==> scan.items[i].size_bytes == at_most_max(together(scan.items[i].path))
        }),
{
    let state = scanner::walked(root.path, rules, events);
    let scan = scanner::scanned(root, state, started, completed);
    let items = order::sorted(scanner::charged(state.items), scanner::by_path());
    let known = scanner::allocation_known(state.items);
    let count = items.len() as int;
    assert(scan.items.take(count) =~= scan.items);
    assert(scan.items =~= Seq::new(items.len(), |i: int| scanner::summed(items, i, known)));
    lemma_bytes_folded(items, known, root.path, count);
    assert forall|i: int|
        0 <= i < scan.items.len() && (#[trigger] scan.items[i]).kind
            == ItemKind::Directory implies scan.items[i].size_bytes == at_most_max(
        scan.items.fold_left(
            0int,
            |sum: int, item: ItemView|
                if item.kind == ItemKind::File && scan.items[i].path.len() < item.path.len()
                    && scan.items[i].path.is_prefix_of(item.path) {
                    sum + item.size_bytes
                } else {
                    sum
                },
        ),
    ) by {
        lemma_bytes_folded(items, known, scan.items[i].path, count);
    }
}

proof fn lemma_allocated_folded(
    items: Seq<ChargedView>,
    known: bool,
    directory: Seq<PartView>,
    count: int,
)
    requires
        0 <= count <= items.len(),
        forall|i: int|
            0 <= i < items.len() && (#[trigger] items[i]).item.kind == ItemKind::File
                ==> items[i].item.allocated_size_bytes == Some(items[i].charge)
                && !scanner::is_linked(items[i].item),
    ensures
        scanner::allocated_below(items, directory, count) == Seq::new(
            items.len(),
            |i: int| scanner::summed(items, i, known),
        ).take(count).fold_left(
            0int,
            |sum: int, item: ItemView|
                if item.kind == ItemKind::File && directory.len() < item.path.len()
                    && directory.is_prefix_of(item.path) {
                    sum + item.allocated_size_bytes->Some_0
                } else {
                    sum
                },
        ),
    decreases count,
{
    let all = Seq::new(items.len(), |i: int| scanner::summed(items, i, known));
    if count > 0 {
        lemma_allocated_folded(items, known, directory, count - 1);
        assert(all.take(count).drop_last() =~= all.take(count - 1));
        assert(all.take(count).last() == scanner::summed(items, count - 1, known));
        assert(items[count - 1].item.kind == ItemKind::File ==> !scanner::is_linked(
            items[count - 1].item,
        ));
    }
}

/// Where every allocation is known and no file has several names, a directory
/// takes up as much as all files below it together, at whatever depth they
/// lie; so does the root.
pub proof fn law_a_directory_takes_up_what_the_files_below_it_do(
    root: GivenView,
    rules: PolicyView,
    events: Seq<WalkEventView>,
    started: u64,
    completed: u64,
)
    requires
        forall|i: int|
            0 <= i < scanner::scanned(
                root,
                scanner::walked(root.path, rules, events),
                started,
                completed,
            ).items.len() && (#[trigger] scanner::scanned(
                root,
                scanner::walked(root.path, rules, events),
                started,
                completed,
            ).items[i]).kind == ItemKind::File ==> ({
                let item = scanner::scanned(
                    root,
                    scanner::walked(root.path, rules, events),
                    started,
                    completed,
                ).items[i];
                item.allocated_size_bytes is Some && (item.hard_link_count is None
                    || item.hard_link_count->Some_0 <= 1)
            }),
    ensures
        ({
            let scan = scanner::scanned(
                root,
                scanner::walked(root.path, rules, events),
                started,
                completed,
            );
            let together = |directory: Seq<PartView>|
                scan.items.fold_left(
                    0int,
                    |sum: int, item: ItemView|
                        if item.kind == ItemKind::File && directory.len() < item.path.len()
                            && directory.is_prefix_of(item.path) {
                            sum + item.allocated_size_bytes->Some_0
                        } else {
                            sum
                        },
                );
            &&& scan.total_allocated_size_bytes is Some
            &&& scan.total_allocated_size_bytes->Some_0 == at_most_max(together(root.path))
            &&& forall|i: int|
                0 <= i < scan.items.len() && (#[trigger] scan.items[i]).kind == ItemKind::Directory
                    ==> scan.items[i].allocated_size_bytes is Some
                    && scan.items[i].allocated_size_bytes->Some_0 == at_most_max(
                    together(scan.items[i].path),
                )
        }),
{
    let state = scanner::walked(root.path, rules, events);
    let scan = scanner::scanned(root, state, started, completed);
    let found = scanner::charged(state.items);
    let items = order::sorted(found, scanner::by_path());
    let known = scanner::allocation_known(state.items);
    let count = items.len() as int;
    scanner::lemma_by_path();
    assert(scan.items =~= Seq::new(items.len(), |i: int| scanner::summed(items, i, known)));
    assert forall|i: int|
        0 <= i < items.len() && (#[trigger] items[i]).item.kind
            == ItemKind::File implies items[i].item.allocated_size_bytes == Some(items[i].charge)
        && !scanner::is_linked(items[i].item) by {
        assert(scan.items[i] == items[i].item);
        assert(items.contains(items[i]));
        order::lemma_sorted_contains(found, items[i], scanner::by_path());
        let k = choose|k: int| 0 <= k < found.len() && found[k] == items[i];
        assert(found[k].item == state.items[k]);
    }
    assert(known) by {
        assert forall|k: int|
            0 <= k < state.items.len() && (#[trigger] state.items[k]).kind
                == ItemKind::File implies state.items[k].allocated_size_bytes is Some by {
            assert(found[k].item == state.items[k]);
            assert(found.contains(found[k]));
            order::lemma_sorted_contains(found, found[k], scanner::by_path());
            let i = choose|i: int| 0 <= i < items.len() && items[i] == found[k];
            assert(items[i].item.kind == ItemKind::File);
        }
    }
    assert(scan.items.take(count) =~= scan.items);
    lemma_allocated_folded(items, known, root.path, count);
    assert forall|i: int|
        0 <= i < scan.items.len() && (#[trigger] scan.items[i]).kind
            == ItemKind::Directory implies scan.items[i].allocated_size_bytes is Some
        && scan.items[i].allocated_size_bytes->Some_0 == at_most_max(
        scan.items.fold_left(
            0int,
            |sum: int, item: ItemView|
                if item.kind == ItemKind::File && scan.items[i].path.len() < item.path.len()
                    && scan.items[i].path.is_prefix_of(item.path) {
                    sum + item.allocated_size_bytes->Some_0
                } else {
                    sum
                },
        ),
    ) by {
        lemma_allocated_folded(items, known, scan.items[i].path, count);
    }
}

/// What a directory takes up is no less than what any directory in it does.
proof fn lemma_cost_within(
    items: Seq<ChargedView>,
    inner: Seq<PartView>,
    outer: Seq<PartView>,
)
    requires
        path::within(inner, outer),
        even(items),
    ensures
        cost_below(items, inner) <= cost_below(items, outer),
    decreases items.len(),
{
    if exists|i: int|
        0 <= i < items.len() && !path::below((#[trigger] items[i]).item.path, inner) {
        let i = choose|i: int|
            0 <= i < items.len() && !path::below((#[trigger] items[i]).item.path, inner);
        let rest = items.remove(i);
        assert(even(rest)) by {
            assert forall|p: int, q: int|
                0 <= p < rest.len() && 0 <= q < rest.len() && scanner::is_linked(
                    (#[trigger] rest[p]).item,
                ) && scanner::is_linked((#[trigger] rest[q]).item) && rest[p].item.file_identity
                    == rest[q].item.file_identity implies rest[p].charge == rest[q].charge by {
                let a = if p < i { p } else { p + 1 };
                let b = if q < i { q } else { q + 1 };
                assert(items[a] == rest[p] && items[b] == rest[q]);
            }
        }
        lemma_cost_within(rest, inner, outer);
        lemma_cost_moved(items, i, inner);
        lemma_cost_moved(items, i, outer);
        lemma_cost_push(rest, items[i], inner);
        lemma_cost_push(rest, items[i], outer);
    } else {
        lemma_cost_all_within(items, inner, outer, items.len() as int);
    }
}

proof fn lemma_cost_all_within(
    items: Seq<ChargedView>,
    inner: Seq<PartView>,
    outer: Seq<PartView>,
    count: int,
)
    requires
        path::within(inner, outer),
        0 <= count <= items.len(),
        forall|i: int| 0 <= i < items.len() ==> path::below((#[trigger] items[i]).item.path, inner),
    ensures
        scanner::allocated_below(items, inner, count) == scanner::allocated_below(
            items,
            outer,
            count,
        ),
    decreases count,
{
    if count > 0 {
        lemma_cost_all_within(items, inner, outer, count - 1);
        assert forall|i: int| 0 <= i < items.len() implies path::below(
            (#[trigger] items[i]).item.path,
            outer,
        ) by {
            let given = items[i].item.path;
            assert(given.take(outer.len() as int) =~= given.take(inner.len() as int).take(
                outer.len() as int,
            ));
        }
        assert(path::below(items[count - 1].item.path, inner));
        assert(scanner::counts_below(items, inner, count - 1) == scanner::counts_below(
            items,
            outer,
            count - 1,
        ));
    }
}

/// A directory is at least as large as any directory in it, and takes up at
/// least as much, whatever names files have.
pub proof fn law_directories_grow_upwards(
    root: GivenView,
    rules: PolicyView,
    events: Seq<WalkEventView>,
    started: u64,
    completed: u64,
    inner: int,
    outer: int,
)
    requires
        ({
            let items = scanner::scanned(
                root,
                scanner::walked(root.path, rules, events),
                started,
                completed,
            ).items;
            &&& 0 <= inner < items.len()
            &&& 0 <= outer < items.len()
            &&& items[inner].kind == ItemKind::Directory
            &&& items[outer].kind == ItemKind::Directory
            &&& items[outer].path.is_prefix_of(items[inner].path)
        }),
    ensures
        ({
            let items = scanner::scanned(
                root,
                scanner::walked(root.path, rules, events),
                started,
                completed,
            ).items;
            &&& items[inner].size_bytes <= items[outer].size_bytes
            &&& items[inner].allocated_size_bytes is Some
                == items[outer].allocated_size_bytes is Some
            &&& items[outer].allocated_size_bytes is Some
                ==> items[inner].allocated_size_bytes->Some_0
                <= items[outer].allocated_size_bytes->Some_0
        }),
{
    let state = scanner::walked(root.path, rules, events);
    let all = scanner::scanned(root, state, started, completed).items;
    let found = scanner::charged(state.items);
    let items = order::sorted(found, scanner::by_path());
    assert(path::within(all[inner].path, all[outer].path));
    scanner::law_directories_hold_what_lies_in_them(items, all[inner].path, all[outer].path);
    lemma_charged_even(state.items);
    lemma_cost_sorted(state.items, all[inner].path);
    lemma_cost_sorted(state.items, all[outer].path);
    lemma_cost_within(found, all[inner].path, all[outer].path);
}

proof fn lemma_one_counted(
    items: Seq<ChargedView>,
    directory: Seq<PartView>,
    identity: FileIdentity,
    at: int,
)
    requires
        0 <= at < items.len(),
        scanner::is_link_to(items[at].item, identity),
        path::below(items[at].item.path, directory),
    ensures
        exists|i: int|
            0 <= i <= at && scanner::is_link_to(items[i].item, identity)
                && #[trigger] scanner::counts_below(items, directory, i),
    decreases at,
{
    if !scanner::counts_below(items, directory, at) {
        let earlier = choose|earlier: int|
            0 <= earlier < at && path::below((#[trigger] items[earlier]).item.path, directory)
                && scanner::is_link_to(items[earlier].item, identity);
        lemma_one_counted(items, directory, identity, earlier);
    }
}

/// Of the names of one file below a directory one is counted in what the
/// directory takes up, and only one.
pub proof fn law_one_name_of_a_file_is_counted(
    items: Seq<ChargedView>,
    directory: Seq<PartView>,
    identity: FileIdentity,
    at: int,
)
    requires
        0 <= at < items.len(),
        scanner::is_link_to(items[at].item, identity),
        directory.len() < items[at].item.path.len(),
        directory.is_prefix_of(items[at].item.path),
    ensures
        exists|i: int|
            {
                &&& 0 <= i < items.len()
                &&& scanner::is_link_to(items[i].item, identity)
                &&& #[trigger] scanner::counts_below(items, directory, i)
                &&& forall|j: int|
                    0 <= j < items.len() && scanner::is_link_to(items[j].item, identity)
                        && #[trigger] scanner::counts_below(items, directory, j) ==> j == i
            },
{
    lemma_one_counted(items, directory, identity, at);
    let i = choose|i: int|
        0 <= i <= at && scanner::is_link_to(items[i].item, identity)
            && #[trigger] scanner::counts_below(items, directory, i);
    assert forall|j: int|
        0 <= j < items.len() && scanner::is_link_to(items[j].item, identity)
            && #[trigger] scanner::counts_below(items, directory, j) implies j == i by {
        if j < i {
            scanner::law_hard_links_are_counted_once(items, directory, identity, j, i);
        } else if i < j {
            scanner::law_hard_links_are_counted_once(items, directory, identity, i, j);
        }
    }
}

/// Whether some seconds since the epoch are those of a moment.
pub open spec fn tells_seconds(seconds: Option<u64>, moment: Option<Moment>) -> bool {
    &&& seconds is Some == moment is Some
    &&& moment is Some ==> seconds->Some_0 == moment->Some_0.seconds
}

/// Whether an item carries what was found of an entry: a file its length, its
/// blocks of 512 bytes, its identity and its number of names, and any entry
/// its times.
pub open spec fn carries(item: ItemView, given: GivenView, metadata: EntryMetadata) -> bool {
    &&& item.path == given.path
    &&& item.spelling == given.spelling
    &&& item.kind == metadata.kind
    &&& item.kind == ItemKind::File ==> {
        &&& item.size_bytes == metadata.length
        &&& item.allocated_size_bytes is Some == metadata.blocks is Some
        &&& metadata.blocks is Some ==> item.allocated_size_bytes->Some_0 == at_most_max(
            metadata.blocks->Some_0 * 512,
        )
        &&& item.file_identity == metadata.identity
        &&& item.hard_link_count == metadata.links
    }
    &&& item.kind != ItemKind::File ==> {
        &&& item.file_identity is None
        &&& item.hard_link_count is None
        &&& item.extension is None
    }
    &&& item.kind == ItemKind::Symlink || item.kind == ItemKind::Other ==> {
        &&& item.size_bytes == 0
        &&& item.allocated_size_bytes is None
    }
    &&& tells_seconds(item.created_at_epoch_seconds, metadata.created)
    &&& tells_seconds(item.modified_at_epoch_seconds, metadata.modified)
    &&& tells_seconds(item.accessed_at_epoch_seconds, metadata.accessed)
    &&& metadata.modified is None ==> item.modified_at_epoch_nanoseconds is None
    &&& metadata.modified matches Some(moment) ==> {
        let whole = moment.seconds * 1_000_000_000 + moment.nanoseconds;
        &&& item.modified_at_epoch_nanoseconds is Some <==> whole <= u64::MAX
        &&& whole <= u64::MAX ==> item.modified_at_epoch_nanoseconds->Some_0 == whole
    }
}

/// Every item of a walk carries what was found of an entry that no rule leaves
/// out.
proof fn lemma_walked_source(
    root: Seq<PartView>,
    rules: PolicyView,
    events: Seq<WalkEventView>,
    item: ItemView,
)
    requires
        scanner::walked(root, rules, events).items.contains(item),
    ensures
        exists|k: int|
            0 <= k < events.len() && (#[trigger] events[k]) is Entry && !rules.matches(
                events[k]->Entry_given.path,
            ) && item == scanner::item_of(events[k]->Entry_given, events[k]->metadata),
    decreases events.len(),
{
    let all = scanner::walked(root, rules, events).items;
    let i = choose|i: int| 0 <= i < all.len() && all[i] == item;
    if events.len() > 0 {
        let front = events.drop_last();
        let before = scanner::walked(root, rules, front).items;
        if i < before.len() {
            assert(before[i] == item);
            lemma_walked_source(root, rules, front, item);
            let k = choose|k: int|
                0 <= k < front.len() && (#[trigger] front[k]) is Entry && !rules.matches(
                    front[k]->Entry_given.path,
                ) && item == scanner::item_of(front[k]->Entry_given, front[k]->metadata);
            assert(events[k] == front[k]);
        } else {
            let k = events.len() - 1;
            assert(events[k] == events.last());
        }
    }
}

proof fn lemma_walked_keeps(
    root: Seq<PartView>,
    rules: PolicyView,
    events: Seq<WalkEventView>,
    at: int,
)
    requires
        0 <= at < events.len(),
        events[at] is Entry,
        !rules.matches(events[at]->Entry_given.path),
    ensures
        scanner::walked(root, rules, events).items.contains(
            scanner::item_of(events[at]->Entry_given, events[at]->metadata),
        ),
    decreases events.len(),
{
    let front = events.drop_last();
    let before = scanner::walked(root, rules, front).items;
    let after = scanner::walked(root, rules, events).items;
    let item = scanner::item_of(events[at]->Entry_given, events[at]->metadata);
    if at < front.len() {
        assert(front[at] == events[at]);
        lemma_walked_keeps(root, rules, front, at);
        let k = choose|k: int| 0 <= k < before.len() && before[k] == item;
        assert(after[k] == item);
    } else {
        assert(after[after.len() - 1] == item);
    }
}

/// Every entry that no rule leaves out is an item of the scan, with all that
/// was found of it.
pub proof fn law_every_entry_is_an_item(
    root: GivenView,
    rules: PolicyView,
    events: Seq<WalkEventView>,
    started: u64,
    completed: u64,
    at: int,
)
    requires
        0 <= at < events.len(),
        events[at] is Entry,
        !rules.matches(events[at]->Entry_given.path),
    ensures
        exists|i: int|
            0 <= i < scanner::scanned(
                root,
                scanner::walked(root.path, rules, events),
                started,
                completed,
            ).items.len() && carries(
                #[trigger] scanner::scanned(
                    root,
                    scanner::walked(root.path, rules, events),
                    started,
                    completed,
                ).items[i],
                events[at]->Entry_given,
                events[at]->metadata,
            ),
{
    let state = scanner::walked(root.path, rules, events);
    let items = scanner::scanned(root, state, started, completed).items;
    let found = scanner::charged(state.items);
    let le = scanner::by_path();
    let sorted = order::sorted(found, le);
    scanner::lemma_by_path();
    lemma_walked_keeps(root.path, rules, events, at);
    let wanted = scanner::item_of(events[at]->Entry_given, events[at]->metadata);
    let p = choose|p: int| 0 <= p < state.items.len() && state.items[p] == wanted;
    assert(found[p].item == wanted);
    assert(found.contains(found[p]));
    order::lemma_sorted_contains(found, found[p], le);
    let i = choose|i: int| 0 <= i < sorted.len() && sorted[i] == found[p];
    assert(carries(items[i], events[at]->Entry_given, events[at]->metadata));
}

/// Every item of a scan is an entry that no rule leaves out, with all that was
/// found of it.
pub proof fn law_every_item_was_an_entry(
    root: GivenView,
    rules: PolicyView,
    events: Seq<WalkEventView>,
    started: u64,
    completed: u64,
    item: ItemView,
)
    requires
        scanner::scanned(
            root,
            scanner::walked(root.path, rules, events),
            started,
            completed,
        ).items.contains(item),
    ensures
        exists|k: int|
            0 <= k < events.len() && (#[trigger] events[k]) is Entry && !rules.matches(
                events[k]->Entry_given.path,
            ) && carries(item, events[k]->Entry_given, events[k]->metadata),
{
    let state = scanner::walked(root.path, rules, events);
    let items = scanner::scanned(root, state, started, completed).items;
    let found = scanner::charged(state.items);
    let le = scanner::by_path();
    let sorted = order::sorted(found, le);
    scanner::lemma_by_path();
    let i = choose|i: int| 0 <= i < items.len() && items[i] == item;
    assert(sorted.contains(sorted[i]));
    order::lemma_sorted_contains(found, sorted[i], le);
    let p = choose|p: int| 0 <= p < found.len() && found[p] == sorted[i];
    assert(state.items[p] == sorted[i].item);
    assert(state.items.contains(state.items[p]));
    lemma_walked_source(root.path, rules, events, state.items[p]);
    let k = choose|k: int|
        0 <= k < events.len() && (#[trigger] events[k]) is Entry && !rules.matches(
            events[k]->Entry_given.path,
        ) && state.items[p] == scanner::item_of(events[k]->Entry_given, events[k]->metadata);
    assert(carries(item, events[k]->Entry_given, events[k]->metadata));
}

/// The items of a scan stand in the order of their paths.
pub proof fn law_items_stand_in_the_order_of_their_paths(
    root: GivenView,
    rules: PolicyView,
    events: Seq<WalkEventView>,
    started: u64,
    completed: u64,
    first: int,
    second: int,
)
    requires
        0 <= first < second < scanner::scanned(
            root,
            scanner::walked(root.path, rules, events),
            started,
            completed,
        ).items.len(),
    ensures
        ({
            let items = scanner::scanned(
                root,
                scanner::walked(root.path, rules, events),
                started,
                completed,
            ).items;
            path::at_most(items[first].path, items[second].path)
        }),
{
    let state = scanner::walked(root.path, rules, events);
    let le = scanner::by_path();
    let found = scanner::charged(state.items);
    scanner::lemma_by_path();
    order::law_sorted_is_an_ordered_permutation(found, le);
    let sorted = order::sorted(found, le);
    assert(le(sorted[first], sorted[second]));
}

/// A path that a rule leaves out is listed, unless the directory that it
/// stands in, at or below the root, is left out as well; a failure that no
/// rule leaves out is one warning more, and nothing else is listed or warned
/// of.
pub proof fn law_what_is_left_out_is_listed_once(
    root: GivenView,
    rules: PolicyView,
    events: Seq<WalkEventView>,
    event: WalkEventView,
    started: u64,
    completed: u64,
)
    ensures
        ({
            let before = scanner::scanned(
                root,
                scanner::walked(root.path, rules, events),
                started,
                completed,
            );
            let after = scanner::scanned(
                root,
                scanner::walked(root.path, rules, events.push(event)),
                started,
                completed,
            );
            let given = match event {
                WalkEventView::Entry { given, .. } => given,
                WalkEventView::Lost { given, .. } => given,
                WalkEventView::Unreadable { .. } => root,
            };
            let refused = !(event is Unreadable) && rules.matches(given.path);
            let above = given.path.drop_last();
            let covered = given.path.len() > 0 && !(given.path.last() is Root)
                && root.path.is_prefix_of(above) && rules.matches(above);
            &&& after.ignored_paths.to_multiset() == if refused && !covered {
                before.ignored_paths.to_multiset().insert(given)
            } else {
                before.ignored_paths.to_multiset()
            }
            &&& after.warnings.to_multiset() == match event {
                WalkEventView::Unreadable {
                    place,
                    message,
                } => before.warnings.to_multiset().insert(
                    ScanWarningView { path: place, message },
                ),
                WalkEventView::Lost { given, message } => if refused {
                    before.warnings.to_multiset()
                } else {
                    before.warnings.to_multiset().insert(
                        ScanWarningView { path: Some(given), message },
                    )
                },
                WalkEventView::Entry { .. } => before.warnings.to_multiset(),
            }
        }),
{
    broadcast use vstd::seq_lib::group_to_multiset_ensures;

    let old_state = scanner::walked(root.path, rules, events);
    let new_state = scanner::walked(root.path, rules, events.push(event));
    lemma_walked_push(root.path, rules, events, event);
    scanner::lemma_warning_order();
    scanner::lemma_path_ranking(|one: GivenView| one.path, scanner::given_order());
    order::law_sorted_is_an_ordered_permutation(old_state.warnings, scanner::warning_order());
    order::law_sorted_is_an_ordered_permutation(new_state.warnings, scanner::warning_order());
    order::law_sorted_is_an_ordered_permutation(old_state.ignored, scanner::given_order());
    order::law_sorted_is_an_ordered_permutation(new_state.ignored, scanner::given_order());
    assert forall|above: Seq<PartView>| #[trigger] path::within(above, root.path)
        == root.path.is_prefix_of(above) by {}
}

} // verus!
