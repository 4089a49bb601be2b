//! What a report on duplicates comes to.

use crate::duplicates;
use crate::duplicates::{BatchView, HashedView, OutcomeView, PhysicalView};
use crate::model::{EntryView, GroupView, ItemKind, ItemView};
use crate::order;
use crate::path;
use crate::policy::PolicyView;
use crate::tally;
use vstd::prelude::*;

verus! {

proof fn lemma_recovery_folded(groups: Seq<GroupView>)
    ensures
        duplicates::recovery_total(groups) is Some <==> forall|i: int|
            0 <= i < groups.len() ==> (
            #[trigger] groups[i]).potential_recovery_allocated_bytes is Some,
        duplicates::recovery_total(groups) is Some ==> duplicates::recovery_total(groups)->Some_0
            == groups.fold_left(
            0int,
            |sum: int, group: GroupView| sum + group.potential_recovery_allocated_bytes->Some_0,
        ),
    decreases groups.len(),
{
    if groups.len() > 0 {
        let front = groups.drop_last();
        lemma_recovery_folded(front);
        assert(groups[groups.len() - 1] == groups.last());
        assert forall|i: int| 0 <= i < front.len() implies front[i] == #[trigger] groups[i] by {}
        if forall|i: int|
            0 <= i < groups.len() ==> (
            #[trigger] groups[i]).potential_recovery_allocated_bytes is Some {
            assert forall|i: int| 0 <= i < front.len() implies (
            #[trigger] front[i]).potential_recovery_allocated_bytes is Some by {
                assert(groups[i] == front[i]);
            }
        }
    }
}

proof fn lemma_logical_folded(groups: Seq<GroupView>)
    ensures
        duplicates::logical_total(groups) == groups.fold_left(
            0int,
            |sum: int, group: GroupView| sum + group.logical_duplicate_bytes,
        ),
    decreases groups.len(),
{
    if groups.len() > 0 {
        lemma_logical_folded(groups.drop_last());
    }
}

/// What a report may recover is what its groups may recover together, and is
/// known where it is known of each; what it counts as duplicated is what its
/// groups do together.
pub proof fn law_a_report_adds_up_its_groups(
    plan: Seq<PhysicalView>,
    outcomes: Seq<OutcomeView>,
    protected: PolicyView,
)
    ensures
        ({
            let report = duplicates::report_of(plan, outcomes, protected);
            &&& report.potential_recovery_allocated_bytes is Some <==> forall|i: int|
                0 <= i < report.groups.len() ==> (
                #[trigger] report.groups[i]).potential_recovery_allocated_bytes is Some
            &&& report.potential_recovery_allocated_bytes is Some
                ==> report.potential_recovery_allocated_bytes->Some_0 == tally::at_most_max(
                report.groups.fold_left(
                    0int,
                    |sum: int, group: GroupView|
                        sum + group.potential_recovery_allocated_bytes->Some_0,
                ),
            )
            &&& report.logical_duplicate_bytes == tally::at_most_max(
                report.groups.fold_left(
                    0int,
                    |sum: int, group: GroupView| sum + group.logical_duplicate_bytes,
                ),
            )
        }),
{
    let groups = duplicates::report_of(plan, outcomes, protected).groups;
    lemma_recovery_folded(groups);
    lemma_logical_folded(groups);
}

/// With one group more a list of groups may recover as much more as that group
/// may.
pub proof fn law_one_group_more_recovers_as_much_more(groups: Seq<GroupView>, group: GroupView)
    ensures
        duplicates::recovery_total(Seq::<GroupView>::empty()) == Some(0nat),
        duplicates::recovery_total(groups.push(group)) is Some <==> duplicates::recovery_total(
            groups,
        ) is Some && group.potential_recovery_allocated_bytes is Some,
        duplicates::recovery_total(groups.push(group)) is Some ==> duplicates::recovery_total(
            groups.push(group),
        )->Some_0 - duplicates::recovery_total(groups)->Some_0
            == group.potential_recovery_allocated_bytes->Some_0,
        duplicates::logical_total(groups.push(group)) - duplicates::logical_total(groups)
            == group.logical_duplicate_bytes,
{
    assert(groups.push(group).drop_last() =~= groups);
}

proof fn lemma_hashed_take(
    plan: Seq<PhysicalView>,
    outcomes: Seq<OutcomeView>,
    more: Seq<PhysicalView>,
    others: Seq<OutcomeView>,
    count: int,
)
    requires
        forall|i: int| 0 <= i < count ==> plan[i] == #[trigger] more[i],
        forall|i: int| 0 <= i < count ==> outcomes[i] == #[trigger] others[i],
    ensures
        duplicates::hashed(plan, outcomes, count) == duplicates::hashed(more, others, count),
        duplicates::failures(outcomes, count) == duplicates::failures(others, count),
    decreases count,
{
    if count > 0 {
        lemma_hashed_take(plan, outcomes, more, others, count - 1);
        assert(plan[count - 1] == more[count - 1]);
        assert(outcomes[count - 1] == others[count - 1]);
    }
}

/// A report counts each file that was hashed, with its bytes, and warns of
/// each that could not be.
pub proof fn law_a_report_counts_what_was_hashed(
    plan: Seq<PhysicalView>,
    outcomes: Seq<OutcomeView>,
    file: PhysicalView,
    outcome: OutcomeView,
    protected: PolicyView,
)
    requires
        outcomes.len() == plan.len(),
    ensures
        ({
            let before = duplicates::report_of(plan, outcomes, protected);
            let after = duplicates::report_of(plan.push(file), outcomes.push(outcome), protected);
            match outcome {
                OutcomeView::Hashed(_) => {
                    &&& after.files_hashed == tally::at_most_max(before.files_hashed + 1)
                    &&& after.bytes_hashed == tally::at_most_max(
                        before.bytes_hashed + file.size_bytes,
                    )
                    &&& after.warnings == before.warnings
                },
                OutcomeView::Failed(warning) => {
                    &&& after.files_hashed == before.files_hashed
                    &&& after.bytes_hashed == before.bytes_hashed
                    &&& after.groups == before.groups
                    &&& after.warnings.to_multiset() == before.warnings.to_multiset().insert(
                        warning,
                    )
                },
            }
        }),
        ({
            let nothing = duplicates::report_of(Seq::empty(), Seq::empty(), protected);
            &&& nothing.files_hashed == 0
            &&& nothing.bytes_hashed == 0
            &&& nothing.groups.len() == 0
            &&& nothing.warnings.len() == 0
        }),
{
    broadcast use vstd::seq_lib::group_to_multiset_ensures;

    let count = plan.len() as int;
    let more = plan.push(file);
    let others = outcomes.push(outcome);
    lemma_hashed_take(plan, outcomes, more, others, count);
    let files = duplicates::hashed(plan, outcomes, count);
    if let OutcomeView::Hashed(hash) = outcome {
        assert(files.push(HashedView { file, hash }).drop_last() =~= files);
    }
    duplicates::lemma_failure_order();
    let le = duplicates::failure_order();
    order::law_sorted_is_an_ordered_permutation(duplicates::failures(outcomes, count), le);
    order::law_sorted_is_an_ordered_permutation(duplicates::failures(others, count + 1), le);
    let none = duplicates::hashed(Seq::empty(), Seq::empty(), 0);
    assert(order::sorted(none, duplicates::hashed_order()) =~= none);
    assert(duplicates::batched(none) =~= Seq::<BatchView>::empty());
    assert(duplicates::groups_of(Seq::empty(), protected) =~= Seq::<GroupView>::empty());
}

/// The groups of a report come by what they may recover, the most first, those
/// of which it is not known last; then by the size of a file, the largest
/// first.
pub proof fn law_the_best_groups_come_first(
    plan: Seq<PhysicalView>,
    outcomes: Seq<OutcomeView>,
    protected: PolicyView,
    first: int,
    second: int,
)
    requires
        0 <= first < second < duplicates::report_of(plan, outcomes, protected).groups.len(),
    ensures
        ({
            let groups = duplicates::report_of(plan, outcomes, protected).groups;
            let one = groups[first];
            let other = groups[second];
            let better = one.potential_recovery_allocated_bytes;
            let worse = other.potential_recovery_allocated_bytes;
            &&& worse is Some ==> better is Some
            &&& better is Some && worse is Some ==> better->Some_0 >= worse->Some_0
            &&& better == worse ==> one.size_bytes_per_file >= other.size_bytes_per_file
            &&& better == worse && one.size_bytes_per_file == other.size_bytes_per_file
                && one.entries.len() > 0 && other.entries.len() > 0 ==> path::at_most(
                one.entries[0].path,
                other.entries[0].path,
            )
        }),
{
    let files = duplicates::hashed(plan, outcomes, plan.len() as int);
    let found = duplicates::groups_of(
        duplicates::batched(order::sorted(files, duplicates::hashed_order())),
        protected,
    );
    let le = duplicates::group_order();
    duplicates::lemma_group_order();
    order::law_sorted_is_an_ordered_permutation(found, le);
    let groups = order::sorted(found, le);
    assert(le(groups[first], groups[second]));
}

/// Whether some name of a physical file is protected.
pub open spec fn is_guarded(file: PhysicalView, protected: PolicyView) -> bool {
    exists|n: int|
        0 <= n < file.entries.len() && protected.matches((#[trigger] file.entries[n]).path)
}

/// What a physical file takes up on disk, by the name under which it is hashed.
pub open spec fn taken_up(file: PhysicalView) -> Option<u64> {
    file.entries[0].allocated_size_bytes
}

/// Whether an entry tells what was found of a name, and whether it is
/// protected.
pub open spec fn tells(entry: EntryView, name: ItemView, protected: PolicyView) -> bool {
    &&& entry.path == name.path
    &&& entry.spelling == name.spelling
    &&& entry.file_identity == name.file_identity
    &&& entry.allocated_size_bytes == name.allocated_size_bytes
    &&& entry.hard_link_count == name.hard_link_count
    &&& entry.protected == protected.matches(name.path)
}

/// Whether some physical files are all that were hashed to a hash and have a
/// size.
pub open spec fn are_all_of(
    plan: Seq<PhysicalView>,
    outcomes: Seq<OutcomeView>,
    hash: Seq<char>,
    size: u64,
    files: Seq<PhysicalView>,
) -> bool {
    &&& files.no_duplicates()
    &&& forall|f: int|
        0 <= f < files.len() ==> exists|i: int|
            0 <= i < plan.len() && #[trigger] plan[i] == #[trigger] files[f] && outcomes[i]
                == OutcomeView::Hashed(hash) && plan[i].size_bytes == size
    &&& forall|i: int|
        0 <= i < plan.len() && outcomes[i] == OutcomeView::Hashed(hash) && (
        #[trigger] plan[i]).size_bytes == size ==> files.contains(plan[i])
}

/// Whether some bytes are what can be recovered of some files of known
/// allocation: what the unprotected ones take up where one is protected, and
/// else all of them but one of the largest.
pub open spec fn spares_one(
    recovery: u64,
    files: Seq<PhysicalView>,
    protected: PolicyView,
) -> bool {
    let together = files.fold_left(
        0int,
        |sum: int, file: PhysicalView|
            if is_guarded(file, protected) {
                sum
            } else {
                sum + taken_up(file)->Some_0
            },
    );
    if exists|f: int| 0 <= f < files.len() && is_guarded(#[trigger] files[f], protected) {
        recovery == tally::at_most_max(together)
    } else {
        exists|kept: int|
            {
                &&& 0 <= kept < files.len()
                &&& forall|f: int|
                    0 <= f < files.len() ==> taken_up(#[trigger] files[f])->Some_0 <= taken_up(
                        files[kept],
                    )->Some_0
                &&& recovery == tally::at_most_max(together) - taken_up(
                    #[trigger] files[kept],
                )->Some_0
            }
    }
}

proof fn lemma_guarded_folded(files: Seq<PhysicalView>, protected: PolicyView)
    ensures
        duplicates::protected_count(files, protected) == files.fold_left(
            0int,
            |sum: int, file: PhysicalView|
                if is_guarded(file, protected) {
                    sum + 1
                } else {
                    sum
                },
        ),
        duplicates::protected_count(files, protected) <= files.len(),
        duplicates::protected_count(files, protected) > 0 <==> exists|f: int|
            0 <= f < files.len() && is_guarded(#[trigger] files[f], protected),
    decreases files.len(),
{
    if files.len() > 0 {
        let front = files.drop_last();
        lemma_guarded_folded(front, protected);
        assert(files[files.len() - 1] == files.last());
        assert forall|f: int| 0 <= f < front.len() implies front[f] == #[trigger] files[f] by {}
        assert(duplicates::is_protected(files.last(), protected) == is_guarded(
            files.last(),
            protected,
        ));
        if exists|f: int| 0 <= f < front.len() && is_guarded(#[trigger] front[f], protected) {
            let f = choose|f: int|
                0 <= f < front.len() && is_guarded(#[trigger] front[f], protected);
            assert(is_guarded(files[f], protected));
        }
    }
}

proof fn lemma_open_folded(files: Seq<PhysicalView>, protected: PolicyView)
    ensures
        duplicates::open_allocation(files, protected) is Some <==> forall|f: int|
            0 <= f < files.len() ==> taken_up(#[trigger] files[f]) is Some,
        duplicates::open_allocation(files, protected) is Some ==> duplicates::open_allocation(
            files,
            protected,
        )->Some_0 == files.fold_left(
            0int,
            |sum: int, file: PhysicalView|
                if is_guarded(file, protected) {
                    sum
                } else {
                    sum + taken_up(file)->Some_0
                },
        ),
    decreases files.len(),
{
    if files.len() > 0 {
        let front = files.drop_last();
        lemma_open_folded(front, protected);
        assert(files[files.len() - 1] == files.last());
        assert forall|f: int| 0 <= f < front.len() implies front[f] == #[trigger] files[f] by {}
        assert(duplicates::is_protected(files.last(), protected) == is_guarded(
            files.last(),
            protected,
        ));
        if forall|f: int| 0 <= f < files.len() ==> taken_up(#[trigger] files[f]) is Some {
            assert forall|f: int| 0 <= f < front.len() implies taken_up(
                #[trigger] front[f],
            ) is Some by {
                assert(files[f] == front[f]);
            }
        }
    }
}

proof fn lemma_largest_bounds(files: Seq<PhysicalView>)
    requires
        forall|f: int| 0 <= f < files.len() ==> taken_up(#[trigger] files[f]) is Some,
    ensures
        forall|f: int|
            0 <= f < files.len() ==> taken_up(#[trigger] files[f])->Some_0
                <= duplicates::largest_allocation(files),
    decreases files.len(),
{
    if files.len() > 0 {
        let front = files.drop_last();
        assert(files[files.len() - 1] == files.last());
        assert forall|f: int| 0 <= f < front.len() implies taken_up(#[trigger] front[f]) is Some by {
            assert(files[f] == front[f]);
        }
        lemma_largest_bounds(front);
        assert forall|f: int| 0 <= f < files.len() implies taken_up(#[trigger] files[f])->Some_0
            <= duplicates::largest_allocation(files) by {
            if f < front.len() {
                assert(files[f] == front[f]);
            }
        }
    }
}

proof fn lemma_spares_one(files: Seq<PhysicalView>, protected: PolicyView)
    requires
        files.len() > 0,
    ensures
        duplicates::recovery_of(files, protected) is Some <==> forall|f: int|
            0 <= f < files.len() ==> taken_up(#[trigger] files[f]) is Some,
        duplicates::recovery_of(files, protected) is Some ==> spares_one(
            duplicates::recovery_of(files, protected)->Some_0,
            files,
            protected,
        ),
{
    lemma_open_folded(files, protected);
    lemma_guarded_folded(files, protected);
    if duplicates::recovery_of(files, protected) is Some {
        assert forall|i: int| 0 <= i < files.len() implies (
        #[trigger] files[i]).entries[0].allocated_size_bytes is Some by {
            assert(taken_up(files[i]) is Some);
        }
        lemma_largest_bounds(files);
        let kept = duplicates::lemma_largest(files);
        if duplicates::protected_count(files, protected) == 0 {
            lemma_sum_bound(files, protected, kept);
            assert(taken_up(files[kept]) == Some(duplicates::largest_allocation(files)));
        }
    }
}

proof fn lemma_sum_bound(files: Seq<PhysicalView>, protected: PolicyView, kept: int)
    requires
        0 <= kept < files.len(),
        forall|f: int| 0 <= f < files.len() ==> taken_up(#[trigger] files[f]) is Some,
        forall|f: int| 0 <= f < files.len() ==> !is_guarded(#[trigger] files[f], protected),
    ensures
        files.fold_left(
            0int,
            |sum: int, file: PhysicalView|
                if is_guarded(file, protected) {
                    sum
                } else {
                    sum + taken_up(file)->Some_0
                },
        ) >= taken_up(files[kept])->Some_0,
    decreases files.len(),
{
    let front = files.drop_last();
    assert(files[files.len() - 1] == files.last());
    assert forall|f: int| 0 <= f < front.len() implies taken_up(#[trigger] front[f]) is Some
        && !is_guarded(front[f], protected) by {
        assert(files[f] == front[f]);
    }
    lemma_open_folded(front, protected);
    if kept < front.len() {
        assert(front[kept] == files[kept]);
        lemma_sum_bound(front, protected, kept);
    }
}

/// Files that differ fall into batches without a file twice.
proof fn lemma_batches_distinct(files: Seq<HashedView>)
    requires
        files.no_duplicates(),
    ensures
        forall|b: int|
            0 <= b < duplicates::batched(files).len() ==> (
            #[trigger] duplicates::batched(files)[b]).files.no_duplicates(),
    decreases files.len(),
{
    if files.len() > 0 {
        let front = files.drop_last();
        let next = files.last();
        assert forall|i: int, j: int| 0 <= i < front.len() && 0 <= j < front.len() && i
            != j implies front[i] != front[j] by {
            assert(files[i] != files[j]);
        }
        lemma_batches_distinct(front);
        duplicates::lemma_batches_are_uniform(front);
        let before = duplicates::batched(front);
        let after = duplicates::batched(files);
        assert forall|b: int| 0 <= b < after.len() implies (
        #[trigger] after[b]).files.no_duplicates() by {
            if b < before.len() {
                assert(before[b].files.no_duplicates());
                if after[b] != before[b] {
                    let last = before[b];
                    assert(after[b].files == last.files.push(next.file));
                    assert forall|k: int| 0 <= k < last.files.len() implies last.files[k]
                        != next.file by {
                        assert(front.contains(
                            HashedView { file: before[b].files[k], hash: before[b].hash },
                        ));
                        let wanted = HashedView { file: last.files[k], hash: last.hash };
                        let at = choose|at: int| 0 <= at < front.len() && front[at] == wanted;
                        assert(files[at] != files[files.len() - 1]);
                    }
                }
            }
        }
    }
}

proof fn lemma_hashed_distinct(
    plan: Seq<PhysicalView>,
    outcomes: Seq<OutcomeView>,
    count: int,
)
    requires
        plan.no_duplicates(),
        0 <= count <= plan.len(),
    ensures
        duplicates::hashed(plan, outcomes, count).no_duplicates(),
    decreases count,
{
    if count > 0 {
        lemma_hashed_distinct(plan, outcomes, count - 1);
        let before = duplicates::hashed(plan, outcomes, count - 1);
        let after = duplicates::hashed(plan, outcomes, count);
        if after.len() > before.len() {
            assert forall|k: int| 0 <= k < before.len() implies before[k] != after.last() by {
                assert(before.contains(before[k]));
                duplicates::lemma_hashed_comes_from_plan(plan, outcomes, count - 1, before[k]);
                let i = choose|i: int|
                    0 <= i < count - 1 && #[trigger] plan[i] == before[k].file && outcomes[i]
                        == OutcomeView::Hashed(before[k].hash);
                assert(plan[i] != plan[count - 1]);
            }
        }
    }
}

/// Whether a group counts some files, those of them that are protected and the
/// bytes of all but one, and tells what can go while one copy stays: known
/// where the allocation of each file is.
pub open spec fn counts(
    group: GroupView,
    files: Seq<PhysicalView>,
    protected: PolicyView,
) -> bool {
    &&& files.len() >= 2
    &&& group.unique_file_count == files.len()
    &&& group.protected_file_count == files.fold_left(
        0int,
        |sum: int, file: PhysicalView|
            if is_guarded(file, protected) {
                sum + 1
            } else {
                sum
            },
    )
    &&& group.logical_duplicate_bytes == tally::at_most_max(
        group.size_bytes_per_file * (files.len() - 1),
    )
    &&& group.potential_recovery_allocated_bytes is Some <==> forall|f: int|
        0 <= f < files.len() ==> taken_up(#[trigger] files[f]) is Some
    &&& group.potential_recovery_allocated_bytes is Some ==> spares_one(
        group.potential_recovery_allocated_bytes->Some_0,
        files,
        protected,
    )
}

/// Whether a group has an entry for a name.
pub open spec fn is_listed(group: GroupView, name: ItemView, protected: PolicyView) -> bool {
    exists|e: int|
        0 <= e < group.entries.len() && tells(#[trigger] group.entries[e], name, protected)
}

/// Whether an entry is that of a name of some files.
pub open spec fn is_named(
    entry: EntryView,
    files: Seq<PhysicalView>,
    protected: PolicyView,
) -> bool {
    exists|f: int, n: int|
        0 <= f < files.len() && 0 <= n < files[f].entries.len() && tells(
            entry,
            #[trigger] files[f].entries[n],
            protected,
        )
}

/// Whether a group lists every name of some files and nothing else, in the
/// order of the paths.
pub open spec fn lists(group: GroupView, files: Seq<PhysicalView>, protected: PolicyView) -> bool {
    &&& forall|f: int, n: int|
        #![trigger files[f].entries[n]]
        0 <= f < files.len() && 0 <= n < files[f].entries.len() ==> is_listed(
            group,
            files[f].entries[n],
            protected,
        )
    &&& forall|e: int|
        #![trigger group.entries[e]]
        0 <= e < group.entries.len() ==> is_named(group.entries[e], files, protected)
    &&& forall|d: int, e: int|
        0 <= d < e < group.entries.len() ==> path::at_most(
            (#[trigger] group.entries[d]).path,
            (#[trigger] group.entries[e]).path,
        )
}

proof fn lemma_counts(batch: BatchView, protected: PolicyView)
    requires
        batch.files.len() >= 2,
        batch.files.len() <= u64::MAX,
    ensures
        counts(duplicates::group_of(batch, protected), batch.files, protected),
{
    let files = batch.files;
    lemma_guarded_folded(files, protected);
    lemma_spares_one(files, protected);
    assert(batch.size_bytes as nat * (files.len() - 1) as nat == batch.size_bytes * (files.len()
        - 1));
}

proof fn lemma_lists(batch: BatchView, protected: PolicyView)
    ensures
        lists(duplicates::group_of(batch, protected), batch.files, protected),
{
    let files = batch.files;
    let group = duplicates::group_of(batch, protected);
    let listed = duplicates::entries_of(files, protected);
    let le = duplicates::entry_order();
    duplicates::lemma_entry_order();
    order::law_sorted_is_an_ordered_permutation(listed, le);
    assert forall|f: int, n: int|
        #![trigger files[f].entries[n]]
        0 <= f < files.len() && 0 <= n < files[f].entries.len() implies is_listed(
        group,
        files[f].entries[n],
        protected,
    ) by {
        let wanted = duplicates::entry_of(files[f].entries[n], protected);
        duplicates::lemma_entries_have(files, protected, f, n);
        order::lemma_sorted_contains(listed, wanted, le);
        let e = choose|e: int| 0 <= e < group.entries.len() && group.entries[e] == wanted;
        assert(tells(group.entries[e], files[f].entries[n], protected));
    }
    assert forall|e: int|
        #![trigger group.entries[e]]
        0 <= e < group.entries.len() implies is_named(group.entries[e], files, protected) by {
        let entry = group.entries[e];
        assert(group.entries.contains(entry));
        order::lemma_sorted_contains(listed, entry, le);
        duplicates::lemma_entry_has_a_file(files, protected, entry);
        let (f, n) = choose|f: int, n: int|
            0 <= f < files.len() && 0 <= n < files[f].entries.len() && duplicates::entry_of(
                #[trigger] files[f].entries[n],
                protected,
            ) == entry;
        assert(tells(entry, files[f].entries[n], protected));
    }
    assert forall|d: int, e: int| 0 <= d < e < group.entries.len() implies path::at_most(
        (#[trigger] group.entries[d]).path,
        (#[trigger] group.entries[e]).path,
    ) by {
        assert(le(group.entries[d], group.entries[e]));
    }
}

/// A group of a report is all files of one size that were hashed to one hash,
/// each once and at least two: it counts them and lists all their names.
pub proof fn law_a_group_is_all_files_of_one_content(
    plan: Seq<PhysicalView>,
    outcomes: Seq<OutcomeView>,
    protected: PolicyView,
    group: GroupView,
)
    requires
        plan.no_duplicates(),
        plan.len() <= u64::MAX,
        duplicates::report_of(plan, outcomes, protected).groups.contains(group),
    ensures
        exists|files: Seq<PhysicalView>|
            {
                &&& #[trigger] are_all_of(
                    plan,
                    outcomes,
                    group.blake3_hash,
                    group.size_bytes_per_file,
                    files,
                )
                &&& counts(group, files, protected)
                &&& lists(group, files, protected)
            },
{
    let found = duplicates::hashed(plan, outcomes, plan.len() as int);
    let ranked = order::sorted(found, duplicates::hashed_order());
    let batches = duplicates::batched(ranked);
    let groups = duplicates::groups_of(batches, protected);
    duplicates::lemma_group_order();
    order::lemma_sorted_contains(groups, group, duplicates::group_order());
    let b = duplicates::lemma_group_has_a_batch(batches, protected, group);
    let batch = batches[b];
    lemma_are_all_of(plan, outcomes, b);
    lemma_files_bound(plan, outcomes, b);
    lemma_counts(batch, protected);
    lemma_lists(batch, protected);
    assert(are_all_of(
        plan,
        outcomes,
        group.blake3_hash,
        group.size_bytes_per_file,
        batch.files,
    ));
}

proof fn lemma_are_all_of(plan: Seq<PhysicalView>, outcomes: Seq<OutcomeView>, b: int)
    requires
        plan.no_duplicates(),
        0 <= b < duplicates::batched(
            order::sorted(
                duplicates::hashed(plan, outcomes, plan.len() as int),
                duplicates::hashed_order(),
            ),
        ).len(),
    ensures
        ({
            let batch = duplicates::batched(
                order::sorted(
                    duplicates::hashed(plan, outcomes, plan.len() as int),
                    duplicates::hashed_order(),
                ),
            )[b];
            are_all_of(plan, outcomes, batch.hash, batch.size_bytes, batch.files)
        }),
{
    let found = duplicates::hashed(plan, outcomes, plan.len() as int);
    let le = duplicates::hashed_order();
    let ranked = order::sorted(found, le);
    let batches = duplicates::batched(ranked);
    let batch = batches[b];
    duplicates::lemma_hashed_order();
    order::law_sorted_is_an_ordered_permutation(found, le);
    lemma_hashed_distinct(plan, outcomes, plan.len() as int);
    lemma_distinct_permuted(found, ranked);
    lemma_batches_distinct(ranked);
    duplicates::lemma_batches_are_uniform(ranked);
    duplicates::lemma_batches_differ(ranked);
    assert forall|f: int| 0 <= f < batch.files.len() implies exists|i: int|
        0 <= i < plan.len() && #[trigger] plan[i] == #[trigger] batch.files[f] && outcomes[i]
            == OutcomeView::Hashed(batch.hash) && plan[i].size_bytes == batch.size_bytes by {
        let one = HashedView { file: batches[b].files[f], hash: batches[b].hash };
        assert(ranked.contains(one));
        order::lemma_sorted_contains(found, one, le);
        duplicates::lemma_hashed_comes_from_plan(plan, outcomes, plan.len() as int, one);
    }
    assert forall|i: int|
        0 <= i < plan.len() && outcomes[i] == OutcomeView::Hashed(batch.hash) && (
        #[trigger] plan[i]).size_bytes == batch.size_bytes implies batch.files.contains(
        plan[i],
    ) by {
        let one = HashedView { file: plan[i], hash: batch.hash };
        duplicates::lemma_hashed_has(plan, outcomes, plan.len() as int, i, batch.hash);
        order::lemma_sorted_contains(found, one, le);
        let at = choose|at: int| 0 <= at < ranked.len() && ranked[at] == one;
        let (c, k) = duplicates::lemma_file_has_a_batch(ranked, at);
        if c < b {
            assert(!(batches[c].size_bytes == batches[b].size_bytes && batches[c].hash
                == batches[b].hash));
        } else if b < c {
            assert(!(batches[b].size_bytes == batches[c].size_bytes && batches[b].hash
                == batches[c].hash));
        }
        assert(batch.files[k] == plan[i]);
    }
}

proof fn lemma_distinct_permuted<A>(left: Seq<A>, right: Seq<A>)
    requires
        left.no_duplicates(),
        left.to_multiset() == right.to_multiset(),
    ensures
        right.no_duplicates(),
{
    broadcast use vstd::seq_lib::group_to_multiset_ensures;

    left.lemma_multiset_has_no_duplicates();
    right.lemma_multiset_has_no_duplicates_conv();
}

proof fn lemma_files_bound(plan: Seq<PhysicalView>, outcomes: Seq<OutcomeView>, b: int)
    requires
        0 <= b < duplicates::batched(
            order::sorted(
                duplicates::hashed(plan, outcomes, plan.len() as int),
                duplicates::hashed_order(),
            ),
        ).len(),
    ensures
        duplicates::batched(
            order::sorted(
                duplicates::hashed(plan, outcomes, plan.len() as int),
                duplicates::hashed_order(),
            ),
        )[b].files.len() <= plan.len(),
{
    let found = duplicates::hashed(plan, outcomes, plan.len() as int);
    order::lemma_sorted_len(found, duplicates::hashed_order());
    lemma_batches_bound(order::sorted(found, duplicates::hashed_order()), b);
    lemma_hashed_bound(plan, outcomes, plan.len() as int);
}

proof fn lemma_hashed_bound(plan: Seq<PhysicalView>, outcomes: Seq<OutcomeView>, count: int)
    requires
        count >= 0,
    ensures
        duplicates::hashed(plan, outcomes, count).len() <= count,
    decreases count,
{
    if count > 0 {
        lemma_hashed_bound(plan, outcomes, count - 1);
    }
}

proof fn lemma_batches_bound(files: Seq<HashedView>, b: int)
    requires
        0 <= b < duplicates::batched(files).len(),
    ensures
        duplicates::batched(files)[b].files.len() <= files.len(),
    decreases files.len(),
{
    if files.len() > 0 {
        let before = duplicates::batched(files.drop_last());
        if b < before.len() {
            lemma_batches_bound(files.drop_last(), b);
        }
    }
}

/// Whether two names are known to be of one physical file: by its identity, or
/// because they are the same path.
pub open spec fn is_one_file(left: ItemView, right: ItemView) -> bool {
    ||| left.file_identity is Some && left.file_identity == right.file_identity
    ||| left.file_identity is None && right.file_identity is None && left.path == right.path
}

/// Every name stands in a physical file, with those that are of one file with
/// it.
proof fn lemma_gathered_has(names: Seq<ItemView>, at: int) -> (found: (int, int))
    requires
        0 <= at < names.len(),
    ensures
        0 <= found.0 < duplicates::gathered(names).len(),
        0 <= found.1 < duplicates::gathered(names)[found.0].entries.len(),
        duplicates::gathered(names)[found.0].entries[found.1] == names[at],
    decreases names.len(),
{
    let front = names.drop_last();
    let before = duplicates::gathered(front);
    let after = duplicates::gathered(names);
    if at < front.len() {
        let found = lemma_gathered_has(front, at);
        assert(after[found.0].entries[found.1] == before[found.0].entries[found.1]);
        found
    } else {
        (after.len() - 1, after.last().entries.len() - 1)
    }
}

proof fn lemma_gathered_uniform(names: Seq<ItemView>, file: int, name: int)
    requires
        0 <= file < duplicates::gathered(names).len(),
        0 <= name < duplicates::gathered(names)[file].entries.len(),
    ensures
        ({
            let one = duplicates::gathered(names)[file];
            &&& is_one_file(one.entries[0], one.entries[name])
            &&& one.size_bytes == one.entries[name].size_bytes
        }),
    decreases names.len(),
{
    let front = names.drop_last();
    let before = duplicates::gathered(front);
    let after = duplicates::gathered(names);
    if file < before.len() {
        if name < before[file].entries.len() {
            lemma_gathered_uniform(front, file, name);
            assert(after[file].entries[name] == before[file].entries[name]);
        }
        if before[file].entries.len() > 0 {
            lemma_gathered_uniform(front, file, 0);
            assert(after[file].entries[0] == before[file].entries[0]);
        } else {
            lemma_gathered_nonempty(front, file);
        }
    }
}

proof fn lemma_gathered_nonempty(names: Seq<ItemView>, file: int)
    requires
        0 <= file < duplicates::gathered(names).len(),
    ensures
        duplicates::gathered(names)[file].entries.len() > 0,
    decreases names.len(),
{
    let front = names.drop_last();
    let before = duplicates::gathered(front);
    if file < before.len() {
        lemma_gathered_nonempty(front, file);
    }
}

proof fn lemma_candidates_have(items: Seq<ItemView>, minimum: u64, count: int, at: int)
    requires
        0 <= at < count <= items.len(),
        items[at].kind == ItemKind::File,
        items[at].size_bytes > 0,
        items[at].size_bytes >= minimum,
    ensures
        duplicates::candidates(items, minimum, count).contains(items[at]),
    decreases count,
{
    let before = duplicates::candidates(items, minimum, count - 1);
    let after = duplicates::candidates(items, minimum, count);
    if at == count - 1 {
        assert(after[after.len() - 1] == items[at]);
    } else {
        lemma_candidates_have(items, minimum, count - 1, at);
        let k = choose|k: int| 0 <= k < before.len() && before[k] == items[at];
        assert(after[k] == items[at]);
    }
}

/// The physical file among those of a scan that an item is a name of.
proof fn lemma_file_of(items: Seq<ItemView>, minimum: u64, at: int) -> (found: (int, int))
    requires
        0 <= at < items.len(),
        items[at].kind == ItemKind::File,
        items[at].size_bytes > 0,
        items[at].size_bytes >= minimum,
    ensures
        ({
            let files = duplicates::physical_files(items, minimum);
            &&& 0 <= found.0 < files.len()
            &&& 0 <= found.1 < files[found.0].entries.len()
            &&& files[found.0].entries[found.1] == items[at]
            &&& files[found.0].size_bytes == items[at].size_bytes
            &&& is_one_file(files[found.0].entries[0], items[at])
        }),
{
    let names = duplicates::candidates(items, minimum, items.len() as int);
    let le = duplicates::candidate_order();
    let sorted = order::sorted(names, le);
    duplicates::lemma_candidate_order();
    lemma_candidates_have(items, minimum, items.len() as int, at);
    order::lemma_sorted_contains(names, items[at], le);
    let k = choose|k: int| 0 <= k < sorted.len() && sorted[k] == items[at];
    let found = lemma_gathered_has(sorted, k);
    lemma_gathered_uniform(sorted, found.0, found.1);
    found
}

/// Every file of a scan that is not empty, is large enough and has the size of
/// another physical file is planned to be hashed.
pub proof fn law_every_rival_is_hashed(
    items: Seq<ItemView>,
    minimum: u64,
    first: int,
    second: int,
)
    requires
        0 <= first < items.len(),
        0 <= second < items.len(),
        items[first].kind == ItemKind::File,
        items[second].kind == ItemKind::File,
        items[first].size_bytes > 0,
        items[first].size_bytes >= minimum,
        items[second].size_bytes == items[first].size_bytes,
        !is_one_file(items[first], items[second]),
    ensures
        exists|place: int, name: int|
            {
                &&& 0 <= place < duplicates::planned(items, minimum).len()
                &&& 0 <= name < duplicates::planned(items, minimum)[place].entries.len()
                &&& #[trigger] duplicates::planned(items, minimum)[place].entries[name]
                    == items[first]
            },
{
    let files = duplicates::physical_files(items, minimum);
    let plan = duplicates::planned(items, minimum);
    let (f, n) = lemma_file_of(items, minimum, first);
    let (g, m) = lemma_file_of(items, minimum, second);
    assert(f != g);
    assert(files[g].size_bytes == files[f].size_bytes);
    assert(duplicates::has_rival(files, f));
    duplicates::lemma_contested_has(files, files.len() as int, f);
    let place = choose|place: int| 0 <= place < plan.len() && plan[place] == files[f];
    assert(plan[place].entries[n] == items[first]);
}

/// All names under which a file is planned are of that file and have its size,
/// and no file is planned twice.
pub proof fn law_names_of_one_file_are_planned_together(items: Seq<ItemView>, minimum: u64)
    ensures
        duplicates::planned(items, minimum).no_duplicates(),
        forall|place: int, name: int|
            0 <= place < duplicates::planned(items, minimum).len() && 0 <= name
                < duplicates::planned(items, minimum)[place].entries.len() ==> {
                let file = duplicates::planned(items, minimum)[place];
                &&& is_one_file(
                    file.entries[0],
                    #[trigger] duplicates::planned(items, minimum)[place].entries[name],
                )
                &&& file.entries[name].size_bytes == file.size_bytes
            },
{
    let plan = duplicates::planned(items, minimum);
    let files = duplicates::physical_files(items, minimum);
    let names = duplicates::candidates(items, minimum, items.len() as int);
    let sorted = order::sorted(names, duplicates::candidate_order());
    assert forall|i: int, j: int| 0 <= i < plan.len() && 0 <= j < plan.len() && i
        != j implies plan[i] != plan[j] by {
        if i < j {
            duplicates::law_no_physical_file_is_hashed_twice(items, minimum, i, j);
        } else {
            duplicates::law_no_physical_file_is_hashed_twice(items, minimum, j, i);
        }
    }
    assert forall|place: int, name: int|
        0 <= place < plan.len() && 0 <= name < plan[place].entries.len() implies ({
        &&& is_one_file(plan[place].entries[0], #[trigger] plan[place].entries[name])
        &&& plan[place].entries[name].size_bytes == plan[place].size_bytes
    }) by {
        duplicates::lemma_contested_source(files, files.len() as int, place);
        let at = choose|at: int|
            0 <= at < files.len() && duplicates::has_rival(files, at) && #[trigger] files[at]
                == plan[place];
        lemma_gathered_uniform(sorted, at, name);
    }
}

/// Two names of one physical file among the files of a scan that are planned
/// are planned under one file, which is hashed once.
pub proof fn law_hard_links_are_hashed_once(
    items: Seq<ItemView>,
    minimum: u64,
    left: int,
    right: int,
    one: int,
    other: int,
)
    requires
        0 <= left < duplicates::planned(items, minimum).len(),
        0 <= right < duplicates::planned(items, minimum).len(),
        0 <= one < duplicates::planned(items, minimum)[left].entries.len(),
        0 <= other < duplicates::planned(items, minimum)[right].entries.len(),
        is_one_file(
            duplicates::planned(items, minimum)[left].entries[one],
            duplicates::planned(items, minimum)[right].entries[other],
        ),
        duplicates::planned(items, minimum)[left].size_bytes == duplicates::planned(
            items,
            minimum,
        )[right].size_bytes,
    ensures
        left == right,
{
    let plan = duplicates::planned(items, minimum);
    law_names_of_one_file_are_planned_together(items, minimum);
    assert(is_one_file(plan[left].entries[0], plan[left].entries[one]));
    assert(is_one_file(plan[right].entries[0], plan[right].entries[other]));
    assert(is_one_file(plan[left].entries[0], plan[left].entries[0]));
    assert(is_one_file(plan[right].entries[0], plan[right].entries[0]));
    assert(plan[left].entries[0].size_bytes == plan[right].entries[0].size_bytes);
    if left < right {
        duplicates::law_no_physical_file_is_hashed_twice(items, minimum, left, right);
    } else if right < left {
        duplicates::law_no_physical_file_is_hashed_twice(items, minimum, right, left);
    }
}

} // verus!
