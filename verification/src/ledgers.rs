//! What is stored and listed: numbers that the database can and cannot hold, the
//! order of a review, the largest items of a scan, and the place of the database.

use vstd::prelude::*;

use crate::model::{FindingView, ItemKind, ItemView, RiskLevel, SuggestedAction};
use crate::naming::Named;
use crate::order;
use crate::path;
use crate::path::PartView;
use crate::policy::Platform;
use crate::report;
use crate::single;
use crate::storage;
use crate::storage::{DatabaseErrorView, NumberView, StoredNumberView};
use crate::text;

verus! {

/// Whether a number is more than the database can hold.
pub open spec fn is_too_large(number: NumberView) -> bool {
    number.value is Some && number.value->Some_0 >= 0x8000_0000_0000_0000
}

/// Whether a number that was stored is below zero.
pub open spec fn is_below_zero(number: StoredNumberView) -> bool {
    number.value is Some && number.value->Some_0 < 0
}

proof fn lemma_refused(numbers: Seq<NumberView>, from: int)
    requires
        0 <= from <= numbers.len(),
    ensures
        storage::first_too_large(numbers, from) is None ==> forall|i: int|
            from <= i < numbers.len() ==> !is_too_large(#[trigger] numbers[i]),
        storage::first_too_large(numbers, from) is Some ==> exists|i: int|
            {
                &&& from <= i < numbers.len()
                &&& #[trigger] numbers[i] == storage::first_too_large(numbers, from)->Some_0
                &&& is_too_large(numbers[i])
                &&& forall|k: int| from <= k < i ==> !is_too_large(#[trigger] numbers[k])
            },
    decreases numbers.len() - from,
{
    if from < numbers.len() && !is_too_large(numbers[from]) {
        lemma_refused(numbers, from + 1);
        if storage::first_too_large(numbers, from) is Some {
            let i = choose|i: int|
                {
                    &&& from + 1 <= i < numbers.len()
                    &&& #[trigger] numbers[i] == storage::first_too_large(
                        numbers,
                        from + 1,
                    )->Some_0
                    &&& is_too_large(numbers[i])
                    &&& forall|k: int| from + 1 <= k < i ==> !is_too_large(#[trigger] numbers[k])
                };
            assert(numbers[i] == storage::first_too_large(numbers, from)->Some_0);
        }
    }
}

/// Numbers are stored where none of them takes more than 63 bits; else they are
/// refused for the first that does, under the name of its column and with its value.
pub proof fn law_numbers_are_refused_for_the_first_too_large(numbers: Seq<NumberView>)
    ensures
        storage::refusal(numbers) is None <==> forall|i: int|
            0 <= i < numbers.len() ==> !is_too_large(#[trigger] numbers[i]),
        forall|i: int|
            {
                &&& 0 <= i < numbers.len()
                &&& is_too_large(#[trigger] numbers[i])
                &&& forall|k: int| 0 <= k < i ==> !is_too_large(#[trigger] numbers[k])
            } ==> storage::refusal(numbers) == Some(
                DatabaseErrorView::IntegerOutOfRange {
                    field: numbers[i].field,
                    value: numbers[i].value->Some_0,
                },
            ),
{
    lemma_refused(numbers, 0);
}

proof fn lemma_damaged(numbers: Seq<StoredNumberView>, from: int)
    requires
        0 <= from <= numbers.len(),
    ensures
        storage::first_negative(numbers, from) is None ==> forall|i: int|
            from <= i < numbers.len() ==> !is_below_zero(#[trigger] numbers[i]),
        storage::first_negative(numbers, from) is Some ==> exists|i: int|
            {
                &&& from <= i < numbers.len()
                &&& #[trigger] numbers[i] == storage::first_negative(numbers, from)->Some_0
                &&& is_below_zero(numbers[i])
                &&& forall|k: int| from <= k < i ==> !is_below_zero(#[trigger] numbers[k])
            },
    decreases numbers.len() - from,
{
    if from < numbers.len() && !is_below_zero(numbers[from]) {
        lemma_damaged(numbers, from + 1);
        if storage::first_negative(numbers, from) is Some {
            let i = choose|i: int|
                {
                    &&& from + 1 <= i < numbers.len()
                    &&& #[trigger] numbers[i] == storage::first_negative(
                        numbers,
                        from + 1,
                    )->Some_0
                    &&& is_below_zero(numbers[i])
                    &&& forall|k: int| from + 1 <= k < i ==> !is_below_zero(#[trigger] numbers[k])
                };
            assert(numbers[i] == storage::first_negative(numbers, from)->Some_0);
        }
    }
}

/// Stored numbers are read where none of them is negative; else they are damaged,
/// and the first that is negative is named with its column and its value.
pub proof fn law_stored_numbers_are_damaged_by_the_first_negative(numbers: Seq<StoredNumberView>)
    ensures
        storage::damage(numbers) is None <==> forall|i: int|
            0 <= i < numbers.len() ==> !is_below_zero(#[trigger] numbers[i]),
        forall|i: int|
            {
                &&& 0 <= i < numbers.len()
                &&& is_below_zero(#[trigger] numbers[i])
                &&& forall|k: int| 0 <= k < i ==> !is_below_zero(#[trigger] numbers[k])
            } ==> storage::damage(numbers) == Some(
                DatabaseErrorView::Conversion {
                    field: numbers[i].field,
                    value: numbers[i].value->Some_0,
                },
            ),
{
    lemma_damaged(numbers, 0);
}

/// A review lists every finding, as often as it was found. What may be deleted comes
/// before what may be archived; of these what is of low risk before medium and high;
/// of these the surest; of these what recovers the most; and then the first path.
pub proof fn law_reviews_begin_with_the_plainest(
    findings: Seq<FindingView>,
    first: int,
    second: int,
)
    requires
        0 <= first < second < findings.len(),
    ensures
        ({
            let listed = order::sorted(findings, storage::review_order());
            let one = listed[first];
            let other = listed[second];
            let alike = one.suggested_action == other.suggested_action;
            &&& listed.to_multiset() == findings.to_multiset()
            &&& listed.len() == findings.len()
            &&& other.suggested_action == SuggestedAction::ReviewForDeletion ==> alike
            &&& alike && other.risk == RiskLevel::Low ==> one.risk == RiskLevel::Low
            &&& alike && one.risk == RiskLevel::High ==> other.risk == RiskLevel::High
            &&& alike && one.risk == other.risk ==> single::total_rank(one.confidence.bits)
                >= single::total_rank(other.confidence.bits)
            &&& alike && one.risk == other.risk && one.confidence == other.confidence
                ==> one.potential_recovery_bytes >= other.potential_recovery_bytes
            &&& alike && one.risk == other.risk && one.confidence == other.confidence
                && one.potential_recovery_bytes == other.potential_recovery_bytes
                ==> path::at_most(one.path, other.path)
        }),
{
    let le = storage::review_order();
    storage::lemma_review_order();
    order::law_sorted_is_an_ordered_permutation(findings, le);
    order::lemma_sorted_len(findings, le);
    let listed = order::sorted(findings, le);
    assert(le(listed[first], listed[second]));
}

proof fn lemma_listed(items: Seq<ItemView>, root: Seq<PartView>, least: u64, item: ItemView)
    ensures
        report::listed(items, root, least).contains(item) <==> items.contains(item) && item.path
            != root && (item.kind == ItemKind::File || item.kind == ItemKind::Directory)
            && item.size_bytes >= least,
    decreases items.len(),
{
    if items.len() > 0 {
        let earlier = items.drop_last();
        lemma_listed(earlier, root, least, item);
        let before = report::listed(earlier, root, least);
        let after = report::listed(items, root, least);
        assert(items =~= earlier.push(items.last()));
        assert(items.contains(item) <==> earlier.contains(item) || items.last() == item) by {
            if earlier.contains(item) {
                let k = choose|k: int| 0 <= k < earlier.len() && earlier[k] == item;
                assert(items[k] == item);
            }
            if items.last() == item {
                assert(items[items.len() - 1] == item);
            }
            if items.contains(item) && items.last() != item {
                let k = choose|k: int| 0 <= k < items.len() && items[k] == item;
                assert(earlier[k] == item);
            }
        }
        if report::is_listed(items.last(), root, least) {
            assert(after =~= before.push(items.last()));
            if before.contains(item) {
                let k = choose|k: int| 0 <= k < before.len() && before[k] == item;
                assert(after[k] == item);
            }
            if items.last() == item {
                assert(after[after.len() - 1] == item);
            }
            if after.contains(item) && items.last() != item {
                let k = choose|k: int| 0 <= k < after.len() && after[k] == item;
                assert(before[k] == item);
            }
        }
    }
}

/// The largest items of a scan are the files and folders of at least some size, but
/// for the root of the scan, and no others.
pub proof fn law_files_and_folders_of_some_size_are_listed(
    items: Seq<ItemView>,
    root: Seq<PartView>,
    least: u64,
    item: ItemView,
)
    ensures
        report::largest(items, root, least).contains(item) <==> items.contains(item) && item.path
            != root && (item.kind == ItemKind::File || item.kind == ItemKind::Directory)
            && item.size_bytes >= least,
{
    report::lemma_size_order();
    lemma_listed(items, root, least, item);
    order::lemma_sorted_contains(
        report::listed(items, root, least),
        item,
        report::size_order(),
    );
}

/// The largest items of a scan come by their size, the largest first, and those of
/// one size by their path.
pub proof fn law_the_largest_items_come_first(
    items: Seq<ItemView>,
    root: Seq<PartView>,
    least: u64,
    first: int,
    second: int,
)
    requires
        0 <= first < second < report::largest(items, root, least).len(),
    ensures
        ({
            let one = report::largest(items, root, least)[first];
            let other = report::largest(items, root, least)[second];
            &&& one.size_bytes >= other.size_bytes
            &&& one.size_bytes == other.size_bytes ==> path::at_most(one.path, other.path)
        }),
{
    let le = report::size_order();
    report::lemma_size_order();
    order::law_sorted_is_an_ordered_permutation(report::listed(items, root, least), le);
    assert(le(
        report::largest(items, root, least)[first],
        report::largest(items, root, least)[second],
    ));
}

/// With an item behind the others there is one more among the largest where it is
/// a file or folder of the size wanted, and as many as before else.
pub proof fn law_one_item_more_is_listed_once(
    items: Seq<ItemView>,
    item: ItemView,
    root: Seq<PartView>,
    least: u64,
)
    ensures
        report::largest(items.push(item), root, least).to_multiset() == if item.path != root && (
        item.kind == ItemKind::File || item.kind == ItemKind::Directory) && item.size_bytes
            >= least {
            report::largest(items, root, least).to_multiset().insert(item)
        } else {
            report::largest(items, root, least).to_multiset()
        },
{
    broadcast use vstd::seq_lib::group_to_multiset_ensures;

    let le = report::size_order();
    report::lemma_size_order();
    assert(items.push(item).drop_last() =~= items);
    order::law_sorted_is_an_ordered_permutation(report::listed(items, root, least), le);
    order::law_sorted_is_an_ordered_permutation(report::listed(items.push(item), root, least), le);
}

/// The database is kept where it is asked for, whatever else the environment says;
/// where it is not asked for, on Windows in the local data of the user, and elsewhere
/// in the data home or else below the home directory. On Windows the two are never
/// looked at, elsewhere the local data is not; and where none is known there is no
/// place.
pub proof fn law_the_database_is_kept_where_it_is_asked_for(
    platform: Platform,
    asked: Seq<u8>,
    local: Option<Seq<u8>>,
    data: Option<Seq<u8>>,
    home: Option<Seq<u8>>,
    place: Seq<u8>,
)
    requires
        asked.len() > 0,
        place.len() > 0,
    ensures
        storage::database_path(platform, Some(asked), local, data, home) == Some(
            path::given_as(asked),
        ),
        storage::database_path(platform, Some(Seq::empty()), local, data, home)
            == storage::database_path(platform, None, local, data, home),
        storage::database_path(Platform::Windows, None, Some(place), data, home) == Some(
            path::resolved(
                path::given_as(place),
                path::given_as(text::bytes_of("SpaceMind/spacemind.db"@)),
            ),
        ),
        storage::database_path(Platform::Windows, None, None, data, home) is None,
        storage::database_path(Platform::Windows, None, Some(Seq::empty()), data, home) is None,
        platform != Platform::Windows ==> {
            &&& storage::database_path(platform, None, local, Some(place), home) == Some(
                path::resolved(
                    path::given_as(place),
                    path::given_as(text::bytes_of("spacemind/spacemind.db"@)),
                ),
            )
            &&& storage::database_path(platform, None, local, None, Some(place)) == Some(
                path::resolved(
                    path::given_as(place),
                    path::given_as(text::bytes_of(".local/share/spacemind/spacemind.db"@)),
                ),
            )
            &&& storage::database_path(platform, None, local, Some(Seq::empty()), home)
                == storage::database_path(platform, None, local, None, home)
            &&& storage::database_path(platform, None, local, None, None) is None
        },
{
}

/// Whether a stored number is the number that was to be stored.
pub open spec fn holds(kept: Option<i64>, value: Option<u64>) -> bool {
    match (kept, value) {
        (Some(number), Some(wanted)) => number == wanted,
        (None, None) => true,
        _ => false,
    }
}

/// An item is stored where all its numbers can be held, and then with each of them,
/// with its path as it is spelled, the name of its kind, and its extension.
pub proof fn law_items_are_stored_as_they_are(item: ItemView)
    ensures
        storage::refusal(storage::item_numbers(item)) is None <==> {
            &&& item.size_bytes < 0x8000_0000_0000_0000
            &&& item.file_identity matches Some(known) ==> known.volume_id
                < 0x8000_0000_0000_0000 && known.file_id < 0x8000_0000_0000_0000
            &&& item.allocated_size_bytes matches Some(number) ==> number < 0x8000_0000_0000_0000
            &&& item.hard_link_count matches Some(number) ==> number < 0x8000_0000_0000_0000
            &&& item.created_at_epoch_seconds matches Some(number) ==> number
                < 0x8000_0000_0000_0000
            &&& item.modified_at_epoch_seconds matches Some(number) ==> number
                < 0x8000_0000_0000_0000
            &&& item.modified_at_epoch_nanoseconds matches Some(number) ==> number
                < 0x8000_0000_0000_0000
            &&& item.accessed_at_epoch_seconds matches Some(number) ==> number
                < 0x8000_0000_0000_0000
        },
        storage::refusal(storage::item_numbers(item)) is None ==> {
            let row = storage::item_row(item);
            &&& row.path == item.spelling
            &&& row.kind == item.kind.spec_name()
            &&& row.extension == item.extension
            &&& row.size_bytes == item.size_bytes
            &&& holds(row.allocated_size_bytes, item.allocated_size_bytes)
            &&& holds(row.hard_link_count, item.hard_link_count)
            &&& holds(row.created_at, item.created_at_epoch_seconds)
            &&& holds(row.modified_at, item.modified_at_epoch_seconds)
            &&& holds(row.modified_at_nanoseconds, item.modified_at_epoch_nanoseconds)
            &&& holds(row.accessed_at, item.accessed_at_epoch_seconds)
            &&& item.file_identity is None ==> row.volume_id is None && row.file_id is None
            &&& item.file_identity matches Some(known) ==> holds(
                row.volume_id,
                Some(known.volume_id),
            ) && holds(row.file_id, Some(known.file_id))
        },
{
    let numbers = storage::item_numbers(item);
    law_numbers_are_refused_for_the_first_too_large(numbers);
    assert(numbers.len() == 9);
    assert(numbers[0].value == storage::volume_of(item.file_identity));
    assert(numbers[1].value == storage::file_of(item.file_identity));
    assert(numbers[2].value == Some(item.size_bytes));
    assert(numbers[3].value == item.allocated_size_bytes);
    assert(numbers[4].value == item.hard_link_count);
    assert(numbers[5].value == item.created_at_epoch_seconds);
    assert(numbers[6].value == item.modified_at_epoch_seconds);
    assert(numbers[7].value == item.modified_at_epoch_nanoseconds);
    assert(numbers[8].value == item.accessed_at_epoch_seconds);
}

} // verus!
