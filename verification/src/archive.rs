//! A whole analysis as it goes into history and comes out of it.

use crate::model::{
    AiExplanation, DuplicateEntry, DuplicateGroup, EntryView, ExplanationView, Finding,
    FindingView, GroupView, ItemView, Relationship, RelationshipView, ScannedItem,
};
use crate::order;
use crate::path;
use crate::path::{FilePath, GivenView};
use crate::storage;
use crate::storage::{
    Analysis, AnalysisView, DatabaseError, DatabaseErrorView, EntryRow, EntryRowView,
    ExplanationRow, ExplanationRowView, FindingRow, FindingRowView, GroupRow, GroupRowView,
    HistoryRow, HistoryRowView, ItemRow, ItemRowView, NumberView, RelationshipRow,
    RelationshipRowView, ScanRow, ScanRowView, StoredAnalysis, StoredAnalysisView, StoredWarning,
    WarningRow, WarningRowView,
};
use crate::tables;
use crate::tables::{Save, Tables};
use vstd::prelude::*;

verus! {

/// What is stored of a group of duplicates with its entries.
#[derive(Debug)]
pub struct GroupRows {
    pub group: GroupRow,
    pub entries: Vec<EntryRow>,
}

#[verifier::ext_equal]
pub struct GroupRowsView {
    pub group: GroupRowView,
    pub entries: Seq<EntryRowView>,
}

impl View for GroupRows {
    type V = GroupRowsView;

    open spec fn view(&self) -> GroupRowsView {
        GroupRowsView { group: self.group@, entries: order::views(self.entries@) }
    }
}

/// Everything that is stored of an analysis.
#[derive(Debug)]
pub struct AnalysisRows {
    pub scan: ScanRow,
    pub items: Vec<ItemRow>,
    pub findings: Vec<FindingRow>,
    pub groups: Vec<GroupRows>,
    pub relationships: Vec<RelationshipRow>,
    pub explanations: Vec<ExplanationRow>,
    pub warnings: Vec<WarningRow>,
    pub ignored_paths: Vec<Vec<u8>>,
}

#[verifier::ext_equal]
pub struct AnalysisRowsView {
    pub scan: ScanRowView,
    pub items: Seq<ItemRowView>,
    pub findings: Seq<FindingRowView>,
    pub groups: Seq<GroupRowsView>,
    pub relationships: Seq<RelationshipRowView>,
    pub explanations: Seq<ExplanationRowView>,
    pub warnings: Seq<WarningRowView>,
    pub ignored_paths: Seq<Seq<u8>>,
}

impl View for AnalysisRows {
    type V = AnalysisRowsView;

    open spec fn view(&self) -> AnalysisRowsView {
        AnalysisRowsView {
            scan: self.scan@,
            items: order::views(self.items@),
            findings: order::views(self.findings@),
            groups: order::views(self.groups@),
            relationships: order::views(self.relationships@),
            explanations: order::views(self.explanations@),
            warnings: order::views(self.warnings@),
            ignored_paths: order::views(self.ignored_paths@),
        }
    }
}

/// What history keeps of an analysis for its review.
#[derive(Debug)]
pub struct KeptRows {
    pub history: HistoryRow,
    pub findings: Vec<FindingRow>,
    pub groups: Vec<GroupRows>,
    pub relationships: Vec<RelationshipRow>,
    pub explanations: Vec<ExplanationRow>,
    pub warnings: Vec<WarningRow>,
}

#[verifier::ext_equal]
pub struct KeptRowsView {
    pub history: HistoryRowView,
    pub findings: Seq<FindingRowView>,
    pub groups: Seq<GroupRowsView>,
    pub relationships: Seq<RelationshipRowView>,
    pub explanations: Seq<ExplanationRowView>,
    pub warnings: Seq<WarningRowView>,
}

impl View for KeptRows {
    type V = KeptRowsView;

    open spec fn view(&self) -> KeptRowsView {
        KeptRowsView {
            history: self.history@,
            findings: order::views(self.findings@),
            groups: order::views(self.groups@),
            relationships: order::views(self.relationships@),
            explanations: order::views(self.explanations@),
            warnings: order::views(self.warnings@),
        }
    }
}

/// The numbers of the first `count` things, one after the other.
pub open spec fn flat<A>(
    things: Seq<A>,
    numbers: spec_fn(A) -> Seq<NumberView>,
    count: int,
) -> Seq<NumberView>
    decreases count,
{
    if count <= 0 {
        Seq::empty()
    } else {
        flat(things, numbers, count - 1) + numbers(things[count - 1])
    }
}

pub open spec fn item_numbering() -> spec_fn(ItemView) -> Seq<NumberView> {
    |item: ItemView| storage::item_numbers(item)
}

pub open spec fn finding_numbering() -> spec_fn(FindingView) -> Seq<NumberView> {
    |finding: FindingView| storage::finding_numbers(finding)
}

pub open spec fn entry_numbering() -> spec_fn(EntryView) -> Seq<NumberView> {
    |entry: EntryView| storage::entry_numbers(entry)
}

/// The numbers of a group: its own, then those of its entries.
pub open spec fn group_numbering() -> spec_fn(GroupView) -> Seq<NumberView> {
    |group: GroupView|
        storage::group_numbers(group) + flat(
            group.entries,
            entry_numbering(),
            group.entries.len() as int,
        )
}

/// All the numbers of an analysis, in the order they are looked at.
pub open spec fn analysis_numbers(analysis: AnalysisView) -> Seq<NumberView> {
    storage::leading_numbers(analysis.scan) + storage::scan_numbers(analysis) + flat(
        analysis.scan.items,
        item_numbering(),
        analysis.scan.items.len() as int,
    ) + flat(analysis.findings, finding_numbering(), analysis.findings.len() as int) + flat(
        analysis.duplicates.groups,
        group_numbering(),
        analysis.duplicates.groups.len() as int,
    )
}

pub open spec fn item_rows(items: Seq<ItemView>) -> Seq<ItemRowView> {
    Seq::new(items.len(), |i: int| storage::item_row(items[i]))
}

pub open spec fn finding_rows(findings: Seq<FindingView>) -> Seq<FindingRowView> {
    Seq::new(findings.len(), |i: int| storage::finding_row(findings[i]))
}

pub open spec fn entry_rows(entries: Seq<EntryView>) -> Seq<EntryRowView> {
    Seq::new(entries.len(), |i: int| storage::entry_row(entries[i]))
}

pub open spec fn group_rows(groups: Seq<GroupView>) -> Seq<GroupRowsView> {
    Seq::new(
        groups.len(),
        |i: int|
            GroupRowsView {
                group: storage::group_row(groups[i]),
                entries: entry_rows(groups[i].entries),
            },
    )
}

pub open spec fn relationship_rows(relationships: Seq<RelationshipView>) -> Seq<
    RelationshipRowView,
> {
    Seq::new(relationships.len(), |i: int| storage::relationship_row(relationships[i]))
}

pub open spec fn explanation_rows(explanations: Seq<ExplanationView>) -> Seq<ExplanationRowView> {
    Seq::new(explanations.len(), |i: int| storage::explanation_row(explanations[i]))
}

pub open spec fn path_rows(paths: Seq<GivenView>) -> Seq<Seq<u8>> {
    Seq::new(paths.len(), |i: int| paths[i].spelling)
}

/// Everything that is stored of an analysis.
pub open spec fn analysis_rows(analysis: AnalysisView) -> AnalysisRowsView {
    AnalysisRowsView {
        scan: storage::scan_row(analysis),
        items: item_rows(analysis.scan.items),
        findings: finding_rows(analysis.findings),
        groups: group_rows(analysis.duplicates.groups),
        relationships: relationship_rows(analysis.relationships.relationships),
        explanations: explanation_rows(analysis.ai.explanations),
        warnings: storage::warning_rows(analysis),
        ignored_paths: path_rows(analysis.scan.ignored_paths),
    }
}

/// What the first `count` rows hold, or the first thing wrong with them.
pub open spec fn all_read<R, T>(
    rows: Seq<R>,
    read: spec_fn(R) -> Result<T, DatabaseErrorView>,
    count: int,
) -> Result<Seq<T>, DatabaseErrorView>
    decreases count,
{
    if count <= 0 {
        Ok(Seq::empty())
    } else {
        match all_read(rows, read, count - 1) {
            Err(error) => Err(error),
            Ok(before) => match read(rows[count - 1]) {
                Err(error) => Err(error),
                Ok(value) => Ok(before.push(value)),
            },
        }
    }
}

pub open spec fn finding_reading() -> spec_fn(FindingRowView) -> Result<
    FindingView,
    DatabaseErrorView,
> {
    |row: FindingRowView| storage::finding_read(row)
}

pub open spec fn entry_reading() -> spec_fn(EntryRowView) -> Result<EntryView, DatabaseErrorView> {
    |row: EntryRowView|
        match storage::damage(storage::stored_entry_numbers(row)) {
            Some(error) => Err::<EntryView, DatabaseErrorView>(error),
            None => Ok(storage::entry_read(row)),
        }
}

/// A group is read after its entries.
pub open spec fn group_reading() -> spec_fn(GroupRowsView) -> Result<
    GroupView,
    DatabaseErrorView,
> {
    |rows: GroupRowsView|
        match all_read(rows.entries, entry_reading(), rows.entries.len() as int) {
            Err(error) => Err::<GroupView, DatabaseErrorView>(error),
            Ok(entries) => match storage::damage(storage::stored_group_numbers(rows.group)) {
                Some(error) => Err(error),
                None => Ok(storage::group_read(rows.group, entries)),
            },
        }
}

pub open spec fn relationship_reading() -> spec_fn(RelationshipRowView) -> Result<
    RelationshipView,
    DatabaseErrorView,
> {
    |row: RelationshipRowView| storage::relationship_read(row)
}

pub open spec fn explanation_reading() -> spec_fn(ExplanationRowView) -> Result<
    ExplanationView,
    DatabaseErrorView,
> {
    |row: ExplanationRowView| storage::explanation_read(row)
}

/// The analysis that history kept, or the first thing wrong with what it kept.
pub open spec fn restored(kept: KeptRowsView) -> Result<StoredAnalysisView, DatabaseErrorView> {
    match storage::damage(storage::history_numbers(kept.history)) {
        Some(error) => Err(error),
        None => match (
            all_read(kept.findings, finding_reading(), kept.findings.len() as int),
            all_read(kept.groups, group_reading(), kept.groups.len() as int),
            all_read(kept.relationships, relationship_reading(), kept.relationships.len() as int),
            all_read(kept.explanations, explanation_reading(), kept.explanations.len() as int),
        ) {
            (Err(error), _, _, _) => Err(error),
            (_, Err(error), _, _) => Err(error),
            (_, _, Err(error), _) => Err(error),
            (_, _, _, Err(error)) => Err(error),
            (Ok(findings), Ok(groups), Ok(relationships), Ok(explanations)) => Ok(
                StoredAnalysisView {
                    summary: storage::history_read(kept.history),
                    findings: order::sorted(findings, storage::review_order()),
                    duplicate_groups: groups,
                    relationships,
                    ai_explanations: explanations,
                    warnings: Seq::new(
                        kept.warnings.len(),
                        |i: int| storage::warning_read(kept.warnings[i]),
                    ),
                },
            ),
        },
    }
}

/// What history keeps of stored rows under a number.
pub open spec fn kept_rows(id: i64, rows: AnalysisRowsView) -> KeptRowsView {
    KeptRowsView {
        history: storage::history_row(id, rows.scan, rows.explanations.len() as i64),
        findings: rows.findings,
        groups: rows.groups,
        relationships: rows.relationships,
        explanations: rows.explanations,
        warnings: rows.warnings,
    }
}

/// An analysis as it is reviewed: its findings in the order of review, all
/// else as it was.
pub open spec fn reviewed(id: i64, analysis: AnalysisView) -> StoredAnalysisView {
    StoredAnalysisView {
        summary: storage::history_entry(id, analysis),
        findings: order::sorted(analysis.findings, storage::review_order()),
        duplicate_groups: analysis.duplicates.groups,
        relationships: analysis.relationships.relationships,
        ai_explanations: analysis.ai.explanations,
        warnings: storage::warnings_told(analysis),
    }
}

/// An order in which rows are handed back: the place of each among those that
/// were stored.
#[verifier::ext_equal]
pub struct RowOrder {
    pub findings: Seq<int>,
    pub groups: Seq<int>,
    /// The places of the entries of each group, in the new order of the groups.
    pub entries: Seq<Seq<int>>,
    pub relationships: Seq<int>,
    pub explanations: Seq<int>,
}

/// Whether an order hands back every row once.
pub open spec fn hands_back(places: RowOrder, kept: KeptRowsView) -> bool {
    &&& order::are_places(places.findings, kept.findings.len())
    &&& order::are_places(places.groups, kept.groups.len())
    &&& places.entries.len() == kept.groups.len()
    &&& forall|i: int|
        0 <= i < kept.groups.len() ==> order::are_places(
            #[trigger] places.entries[i],
            kept.groups[places.groups[i]].entries.len(),
        )
    &&& order::are_places(places.relationships, kept.relationships.len())
    &&& order::are_places(places.explanations, kept.explanations.len())
}

/// Kept rows in another order. Warnings stay in the order they were stored in.
pub open spec fn handed_back(kept: KeptRowsView, places: RowOrder) -> KeptRowsView {
    KeptRowsView {
        findings: order::reordered(kept.findings, places.findings),
        groups: Seq::new(
            places.groups.len(),
            |i: int|
                GroupRowsView {
                    entries: order::reordered(
                        kept.groups[places.groups[i]].entries,
                        places.entries[i],
                    ),
                    ..kept.groups[places.groups[i]]
                },
        ),
        relationships: order::reordered(kept.relationships, places.relationships),
        explanations: order::reordered(kept.explanations, places.explanations),
        ..kept
    }
}

/// Groups in another order, with their entries in another order.
pub open spec fn groups_reordered(groups: Seq<GroupView>, places: RowOrder) -> Seq<GroupView> {
    Seq::new(
        places.groups.len(),
        |i: int|
            GroupView {
                entries: order::reordered(groups[places.groups[i]].entries, places.entries[i]),
                ..groups[places.groups[i]]
            },
    )
}

/// Whether an analysis is another one with its lists in the order that rows
/// were handed back in, and the same findings in the order of review.
pub open spec fn is_same_review(
    again: StoredAnalysisView,
    stored: StoredAnalysisView,
    places: RowOrder,
) -> bool {
    &&& again.summary == stored.summary
    &&& again.findings.to_multiset() == stored.findings.to_multiset()
    &&& order::is_ordered(again.findings, storage::review_order())
    &&& again.duplicate_groups == groups_reordered(stored.duplicate_groups, places)
    &&& again.relationships == order::reordered(stored.relationships, places.relationships)
    &&& again.ai_explanations == order::reordered(stored.ai_explanations, places.explanations)
    &&& again.warnings == stored.warnings
}

/// Whether rows that are handed back in some order hold the same review.
pub open spec fn restores_review(
    kept: KeptRowsView,
    stored: StoredAnalysisView,
    places: RowOrder,
) -> bool {
    restored(handed_back(kept, places)) matches Ok(again) && is_same_review(again, stored, places)
}

/// Rows that were read together were read one by one.
proof fn lemma_all_read_one_by_one<R, T>(
    rows: Seq<R>,
    read: spec_fn(R) -> Result<T, DatabaseErrorView>,
    count: int,
)
    requires
        0 <= count <= rows.len(),
        all_read(rows, read, count) is Ok,
    ensures
        all_read(rows, read, count)->Ok_0.len() == count,
        forall|i: int|
            0 <= i < count ==> read(#[trigger] rows[i]) == Ok::<T, DatabaseErrorView>(
                all_read(rows, read, count)->Ok_0[i],
            ),
    decreases count,
{
    if count > 0 {
        lemma_all_read_one_by_one(rows, read, count - 1);
    }
}

/// Rows in another order hold the values in that order.
proof fn lemma_all_read_reordered<R, T>(
    rows: Seq<R>,
    read: spec_fn(R) -> Result<T, DatabaseErrorView>,
    values: Seq<T>,
    places: Seq<int>,
)
    requires
        order::are_places(places, rows.len()),
        all_read(rows, read, rows.len() as int) == Ok::<Seq<T>, DatabaseErrorView>(values),
    ensures
        values.len() == rows.len(),
        all_read(order::reordered(rows, places), read, rows.len() as int) == Ok::<
            Seq<T>,
            DatabaseErrorView,
        >(order::reordered(values, places)),
{
    lemma_all_read_one_by_one(rows, read, rows.len() as int);
    let new_rows = order::reordered(rows, places);
    let new_values = order::reordered(values, places);
    assert forall|i: int| 0 <= i < new_rows.len() implies read(#[trigger] new_rows[i]) == Ok::<
        T,
        DatabaseErrorView,
    >(new_values[i]) by {
        assert(new_rows[i] == rows[places[i]]);
    }
    lemma_all_read_back(new_rows, read, new_values, new_rows.len() as int);
    assert(new_values.take(new_rows.len() as int) =~= new_values);
}

/// Rows of an analysis read back in whatever order they are handed back: its
/// lists come in that order, and its findings in the order of review.
pub proof fn law_rows_read_back_in_any_order(
    kept: KeptRowsView,
    stored: StoredAnalysisView,
    places: RowOrder,
)
    requires
        restored(kept) == Ok::<StoredAnalysisView, DatabaseErrorView>(stored),
        hands_back(places, kept),
    ensures
        restores_review(kept, stored, places),
{
    let other = handed_back(kept, places);
    let found = all_read(kept.findings, finding_reading(), kept.findings.len() as int)->Ok_0;
    lemma_all_read_reordered(kept.findings, finding_reading(), found, places.findings);
    let links = stored.relationships;
    lemma_all_read_reordered(
        kept.relationships,
        relationship_reading(),
        links,
        places.relationships,
    );
    let told = stored.ai_explanations;
    lemma_all_read_reordered(kept.explanations, explanation_reading(), told, places.explanations);
    let groups = stored.duplicate_groups;
    lemma_all_read_one_by_one(kept.groups, group_reading(), kept.groups.len() as int);
    let new_groups = groups_reordered(groups, places);
    let read = group_reading();
    assert forall|i: int| 0 <= i < other.groups.len() implies read(#[trigger] other.groups[i])
        == Ok::<GroupView, DatabaseErrorView>(new_groups[i]) by {
        let rows = kept.groups[places.groups[i]];
        let entries = all_read(rows.entries, entry_reading(), rows.entries.len() as int)->Ok_0;
        assert(read(rows) == Ok::<GroupView, DatabaseErrorView>(groups[places.groups[i]]));
        assert(order::are_places(places.entries[i], rows.entries.len()));
        lemma_all_read_reordered(rows.entries, entry_reading(), entries, places.entries[i]);
        assert(groups[places.groups[i]] == storage::group_read(rows.group, entries));
    }
    lemma_all_read_back(other.groups, read, new_groups, other.groups.len() as int);
    assert(new_groups.take(other.groups.len() as int) =~= new_groups);
    storage::lemma_review_order();
    order::lemma_reordered(found, places.findings);
    order::law_sorted_is_an_ordered_permutation(found, storage::review_order());
    order::law_sorted_is_an_ordered_permutation(
        order::reordered(found, places.findings),
        storage::review_order(),
    );
    assert(restored(other) is Ok);
    let again = restored(other)->Ok_0;
    assert(again.warnings =~= stored.warnings);
    assert(is_same_review(again, stored, places));
}

/// The entries of a group come in the order of their rows: by the bytes of their
/// paths where the rows do.
pub proof fn law_entries_come_in_the_order_of_their_rows(rows: GroupRowsView, group: GroupView)
    requires
        group_reading()(rows) == Ok::<GroupView, DatabaseErrorView>(group),
        forall|i: int, j: int|
            0 <= i < j < rows.entries.len() ==> order::bytes_at_most(
                (#[trigger] rows.entries[i]).path,
                (#[trigger] rows.entries[j]).path,
            ),
    ensures
        group.entries.len() == rows.entries.len(),
        forall|i: int, j: int|
            0 <= i < j < group.entries.len() ==> order::bytes_at_most(
                (#[trigger] group.entries[i]).spelling,
                (#[trigger] group.entries[j]).spelling,
            ),
{
    lemma_all_read_one_by_one(rows.entries, entry_reading(), rows.entries.len() as int);
    let read = entry_reading();
    assert forall|i: int, j: int| 0 <= i < j < group.entries.len() implies order::bytes_at_most(
        (#[trigger] group.entries[i]).spelling,
        (#[trigger] group.entries[j]).spelling,
    ) by {
        assert(read(rows.entries[i]) is Ok && read(rows.entries[j]) is Ok);
    }
}

proof fn lemma_too_large_behind(first: Seq<NumberView>, second: Seq<NumberView>, from: int)
    requires
        0 <= from <= second.len(),
    ensures
        storage::first_too_large(first + second, first.len() + from) == storage::first_too_large(
            second,
            from,
        ),
    decreases second.len() - from,
{
    if from < second.len() {
        assert((first + second)[first.len() + from] == second[from]);
        lemma_too_large_behind(first, second, from + 1);
    }
}

proof fn lemma_too_large_of_two(first: Seq<NumberView>, second: Seq<NumberView>, from: int)
    requires
        0 <= from <= first.len(),
    ensures
        storage::first_too_large(first + second, from) == (if storage::first_too_large(
            first,
            from,
        ) is Some {
            storage::first_too_large(first, from)
        } else {
            storage::first_too_large(second, 0)
        }),
    decreases first.len() - from,
{
    if from < first.len() {
        assert((first + second)[from] == first[from]);
        lemma_too_large_of_two(first, second, from + 1);
    } else {
        lemma_too_large_behind(first, second, 0);
    }
}

/// Numbers behind others are refused where the others are not.
proof fn lemma_refusal_of_two(first: Seq<NumberView>, second: Seq<NumberView>)
    ensures
        storage::refusal(first + second) == (if storage::refusal(first) is Some {
            storage::refusal(first)
        } else {
            storage::refusal(second)
        }),
{
    lemma_too_large_of_two(first, second, 0);
}

/// What was refused among the first few stays refused among more.
proof fn lemma_flat_refused<A>(
    things: Seq<A>,
    numbers: spec_fn(A) -> Seq<NumberView>,
    few: int,
    more: int,
)
    requires
        few <= more,
        storage::refusal(flat(things, numbers, few)) is Some,
    ensures
        storage::refusal(flat(things, numbers, more)) == storage::refusal(
            flat(things, numbers, few),
        ),
    decreases more - few,
{
    if few < more && more > 0 {
        lemma_flat_refused(things, numbers, few, more - 1);
        lemma_refusal_of_two(flat(things, numbers, more - 1), numbers(things[more - 1]));
    }
}

proof fn lemma_flat_next<A>(things: Seq<A>, numbers: spec_fn(A) -> Seq<NumberView>, at: int)
    requires
        0 <= at < things.len(),
        storage::refusal(flat(things, numbers, at)) is None,
    ensures
        storage::refusal(flat(things, numbers, at + 1)) == storage::refusal(numbers(things[at])),
        storage::refusal(numbers(things[at])) is Some ==> storage::refusal(
            flat(things, numbers, things.len() as int),
        ) == storage::refusal(numbers(things[at])),
{
    lemma_refusal_of_two(flat(things, numbers, at), numbers(things[at]));
    if storage::refusal(numbers(things[at])) is Some {
        lemma_flat_refused(things, numbers, at + 1, things.len() as int);
    }
}

/// What is wrong with the first few rows stays wrong with more.
proof fn lemma_all_read_fails<R, T>(
    rows: Seq<R>,
    read: spec_fn(R) -> Result<T, DatabaseErrorView>,
    few: int,
    more: int,
)
    requires
        few <= more,
        all_read(rows, read, few) is Err,
    ensures
        all_read(rows, read, more) is Err,
        all_read(rows, read, more)->Err_0 == all_read(rows, read, few)->Err_0,
    decreases more - few,
{
    if few < more {
        lemma_all_read_fails(rows, read, few, more - 1);
    }
}

/// Rows of which each holds a value hold those values together.
proof fn lemma_all_read_back<R, T>(
    rows: Seq<R>,
    read: spec_fn(R) -> Result<T, DatabaseErrorView>,
    values: Seq<T>,
    count: int,
)
    requires
        0 <= count <= rows.len(),
        rows.len() == values.len(),
        forall|i: int|
            0 <= i < rows.len() ==> read(#[trigger] rows[i]) == Ok::<T, DatabaseErrorView>(
                values[i],
            ),
    ensures
        all_read(rows, read, count) == Ok::<Seq<T>, DatabaseErrorView>(values.take(count)),
    decreases count,
{
    if count > 0 {
        lemma_all_read_back(rows, read, values, count - 1);
        assert(read(rows[count - 1]) == Ok::<T, DatabaseErrorView>(values[count - 1]));
        assert(values.take(count) =~= values.take(count - 1).push(values[count - 1]));
    } else {
        assert(values.take(0) =~= Seq::<T>::empty());
    }
}

fn prepare_items(items: &Vec<ScannedItem>) -> (result: Result<Vec<ItemRow>, DatabaseError>)
    ensures
        ({
            let all = order::views(items@);
            let refused = storage::refusal(flat(all, item_numbering(), all.len() as int));
            match result {
                Ok(rows) => refused is None && order::views(rows@) == item_rows(all),
                Err(error) => refused == Some(error@),
            }
        }),
{
    let ghost all = order::views(items@);
    let mut rows: Vec<ItemRow> = Vec::new();
    let mut at: usize = 0;
    assert(order::views(rows@) =~= item_rows(all).take(0));
    while at < items.len()
        invariant
            at <= items@.len(),
            all == order::views(items@),
            storage::refusal(flat(all, item_numbering(), at as int)) is None,
            order::views(rows@) == item_rows(all).take(at as int),
        decreases items@.len() - at,
    {
        let item = &items[at];
        assert(all[at as int] == item@);
        proof {
            lemma_flat_next(all, item_numbering(), at as int);
        }
        match storage::store_item(item) {
            Ok(row) => {
                proof {
                    order::lemma_views_push(rows@, row);
                    let wanted = item_rows(all);
                    assert(wanted.take(at + 1) =~= wanted.take(at as int).push(wanted[at as int]));
                }
                rows.push(row);
            },
            Err(error) => {
                return Err(error);
            },
        }
        at = at + 1;
    }
    assert(item_rows(all).take(at as int) =~= item_rows(all));
    Ok(rows)
}

fn prepare_findings(findings: &[Finding]) -> (result: Result<Vec<FindingRow>, DatabaseError>)
    ensures
        ({
            let all = order::views(findings@);
            let refused = storage::refusal(flat(all, finding_numbering(), all.len() as int));
            match result {
                Ok(rows) => {
                    &&& refused is None
                    &&& order::views(rows@) == finding_rows(all)
                    &&& forall|i: int|
                        0 <= i < all.len() ==> storage::finding_read(
                            #[trigger] finding_rows(all)[i],
                        ) == Ok::<FindingView, DatabaseErrorView>(all[i])
                },
                Err(error) => refused == Some(error@),
            }
        }),
{
    let ghost all = order::views(findings@);
    let mut rows: Vec<FindingRow> = Vec::new();
    let mut at: usize = 0;
    assert(order::views(rows@) =~= finding_rows(all).take(0));
    while at < findings.len()
        invariant
            at <= findings@.len(),
            all == order::views(findings@),
            storage::refusal(flat(all, finding_numbering(), at as int)) is None,
            order::views(rows@) == finding_rows(all).take(at as int),
            forall|i: int|
                0 <= i < at ==> storage::finding_read(#[trigger] finding_rows(all)[i]) == Ok::<
                    FindingView,
                    DatabaseErrorView,
                >(all[i]),
        decreases findings@.len() - at,
    {
        let finding = &findings[at];
        assert(all[at as int] == finding@);
        proof {
            lemma_flat_next(all, finding_numbering(), at as int);
        }
        match storage::store_finding(finding) {
            Ok(row) => {
                proof {
                    order::lemma_views_push(rows@, row);
                    let wanted = finding_rows(all);
                    assert(wanted.take(at + 1) =~= wanted.take(at as int).push(wanted[at as int]));
                }
                rows.push(row);
            },
            Err(error) => {
                return Err(error);
            },
        }
        at = at + 1;
    }
    assert(finding_rows(all).take(at as int) =~= finding_rows(all));
    Ok(rows)
}

fn prepare_entries(entries: &Vec<DuplicateEntry>) -> (result: Result<Vec<EntryRow>, DatabaseError>)
    ensures
        ({
            let all = order::views(entries@);
            let refused = storage::refusal(flat(all, entry_numbering(), all.len() as int));
            match result {
                Ok(rows) => {
                    &&& refused is None
                    &&& order::views(rows@) == entry_rows(all)
                    &&& all_read(entry_rows(all), entry_reading(), all.len() as int) == Ok::<
                        Seq<EntryView>,
                        DatabaseErrorView,
                    >(all)
                },
                Err(error) => refused == Some(error@),
            }
        }),
{
    let ghost all = order::views(entries@);
    let ghost read = entry_reading();
    let mut rows: Vec<EntryRow> = Vec::new();
    let mut at: usize = 0;
    assert(order::views(rows@) =~= entry_rows(all).take(0));
    while at < entries.len()
        invariant
            at <= entries@.len(),
            all == order::views(entries@),
            read == entry_reading(),
            storage::refusal(flat(all, entry_numbering(), at as int)) is None,
            order::views(rows@) == entry_rows(all).take(at as int),
            forall|i: int|
                0 <= i < at ==> read(#[trigger] entry_rows(all)[i]) == Ok::<
                    EntryView,
                    DatabaseErrorView,
                >(all[i]),
        decreases entries@.len() - at,
    {
        let entry = &entries[at];
        assert(all[at as int] == entry@);
        proof {
            lemma_flat_next(all, entry_numbering(), at as int);
        }
        match storage::store_entry(entry) {
            Ok(row) => {
                proof {
                    order::lemma_views_push(rows@, row);
                    let wanted = entry_rows(all);
                    assert(wanted.take(at + 1) =~= wanted.take(at as int).push(wanted[at as int]));
                }
                rows.push(row);
            },
            Err(error) => {
                return Err(error);
            },
        }
        at = at + 1;
    }
    proof {
        assert(entry_rows(all).take(at as int) =~= entry_rows(all));
        lemma_all_read_back(entry_rows(all), read, all, all.len() as int);
        assert(all.take(all.len() as int) =~= all);
    }
    Ok(rows)
}

fn prepare_groups(groups: &Vec<DuplicateGroup>) -> (result: Result<Vec<GroupRows>, DatabaseError>)
    ensures
        ({
            let all = order::views(groups@);
            let refused = storage::refusal(flat(all, group_numbering(), all.len() as int));
            match result {
                Ok(rows) => {
                    &&& refused is None
                    &&& order::views(rows@) == group_rows(all)
                    &&& all_read(group_rows(all), group_reading(), all.len() as int) == Ok::<
                        Seq<GroupView>,
                        DatabaseErrorView,
                    >(all)
                },
                Err(error) => refused == Some(error@),
            }
        }),
{
    let ghost all = order::views(groups@);
    let ghost read = group_reading();
    let mut rows: Vec<GroupRows> = Vec::new();
    let mut at: usize = 0;
    assert(order::views(rows@) =~= group_rows(all).take(0));
    while at < groups.len()
        invariant
            at <= groups@.len(),
            all == order::views(groups@),
            read == group_reading(),
            storage::refusal(flat(all, group_numbering(), at as int)) is None,
            order::views(rows@) == group_rows(all).take(at as int),
            forall|i: int|
                0 <= i < at ==> read(#[trigger] group_rows(all)[i]) == Ok::<
                    GroupView,
                    DatabaseErrorView,
                >(all[i]),
        decreases groups@.len() - at,
    {
        let group = &groups[at];
        assert(all[at as int] == group@);
        proof {
            lemma_flat_next(all, group_numbering(), at as int);
            lemma_refusal_of_two(
                storage::group_numbers(group@),
                flat(group@.entries, entry_numbering(), group@.entries.len() as int),
            );
        }
        let row = match storage::store_group(group) {
            Ok(row) => row,
            Err(error) => {
                return Err(error);
            },
        };
        let entries = match prepare_entries(&group.entries) {
            Ok(entries) => entries,
            Err(error) => {
                return Err(error);
            },
        };
        let together = GroupRows { group: row, entries };
        proof {
            order::lemma_views_push(rows@, together);
            let wanted = group_rows(all);
            assert(together@ =~= wanted[at as int]);
            assert(wanted.take(at + 1) =~= wanted.take(at as int).push(wanted[at as int]));
        }
        rows.push(together);
        at = at + 1;
    }
    proof {
        assert(group_rows(all).take(at as int) =~= group_rows(all));
        lemma_all_read_back(group_rows(all), read, all, all.len() as int);
        assert(all.take(all.len() as int) =~= all);
    }
    Ok(rows)
}

fn prepare_relationships(relationships: &Vec<Relationship>) -> (result: Vec<RelationshipRow>)
    ensures
        ({
            let all = order::views(relationships@);
            &&& order::views(result@) == relationship_rows(all)
            &&& forall|i: int|
                0 <= i < all.len() ==> storage::relationship_read(
                    #[trigger] relationship_rows(all)[i],
                ) == Ok::<RelationshipView, DatabaseErrorView>(all[i])
        }),
{
    let ghost all = order::views(relationships@);
    let mut rows: Vec<RelationshipRow> = Vec::new();
    let mut at: usize = 0;
    assert(order::views(rows@) =~= relationship_rows(all).take(0));
    while at < relationships.len()
        invariant
            at <= relationships@.len(),
            all == order::views(relationships@),
            order::views(rows@) == relationship_rows(all).take(at as int),
            forall|i: int|
                0 <= i < at ==> storage::relationship_read(#[trigger] relationship_rows(all)[i])
                    == Ok::<RelationshipView, DatabaseErrorView>(all[i]),
        decreases relationships@.len() - at,
    {
        assert(all[at as int] == relationships@[at as int]@);
        let row = storage::store_relationship(&relationships[at]);
        proof {
            order::lemma_views_push(rows@, row);
            let wanted = relationship_rows(all);
            assert(wanted.take(at + 1) =~= wanted.take(at as int).push(wanted[at as int]));
        }
        rows.push(row);
        at = at + 1;
    }
    assert(relationship_rows(all).take(at as int) =~= relationship_rows(all));
    rows
}

fn prepare_explanations(explanations: &Vec<AiExplanation>) -> (result: Vec<ExplanationRow>)
    ensures
        ({
            let all = order::views(explanations@);
            &&& order::views(result@) == explanation_rows(all)
            &&& forall|i: int|
                0 <= i < all.len() ==> storage::explanation_read(
                    #[trigger] explanation_rows(all)[i],
                ) == Ok::<ExplanationView, DatabaseErrorView>(all[i])
        }),
{
    let ghost all = order::views(explanations@);
    let mut rows: Vec<ExplanationRow> = Vec::new();
    let mut at: usize = 0;
    assert(order::views(rows@) =~= explanation_rows(all).take(0));
    while at < explanations.len()
        invariant
            at <= explanations@.len(),
            all == order::views(explanations@),
            order::views(rows@) == explanation_rows(all).take(at as int),
            forall|i: int|
                0 <= i < at ==> storage::explanation_read(#[trigger] explanation_rows(all)[i])
                    == Ok::<ExplanationView, DatabaseErrorView>(all[i]),
        decreases explanations@.len() - at,
    {
        assert(all[at as int] == explanations@[at as int]@);
        let row = storage::store_explanation(&explanations[at]);
        proof {
            order::lemma_views_push(rows@, row);
            let wanted = explanation_rows(all);
            assert(wanted.take(at + 1) =~= wanted.take(at as int).push(wanted[at as int]));
        }
        rows.push(row);
        at = at + 1;
    }
    assert(explanation_rows(all).take(at as int) =~= explanation_rows(all));
    rows
}

fn prepare_paths(paths: &Vec<FilePath>) -> (result: Vec<Vec<u8>>)
    ensures
        order::views(result@) == path_rows(path::givens(paths@)),
{
    let ghost all = path::givens(paths@);
    let mut rows: Vec<Vec<u8>> = Vec::new();
    let mut at: usize = 0;
    assert(order::views(rows@) =~= path_rows(all).take(0));
    while at < paths.len()
        invariant
            at <= paths@.len(),
            all == path::givens(paths@),
            order::views(rows@) == path_rows(all).take(at as int),
        decreases paths@.len() - at,
    {
        assert(all[at as int] == paths@[at as int].as_given());
        let row = paths[at].to_bytes();
        proof {
            order::lemma_views_push(rows@, row);
            let wanted = path_rows(all);
            assert(wanted.take(at + 1) =~= wanted.take(at as int).push(wanted[at as int]));
        }
        rows.push(row);
        at = at + 1;
    }
    assert(path_rows(all).take(at as int) =~= path_rows(all));
    rows
}

/// Prepares everything that is stored of an analysis, before any of it is
/// written. What is stored reads back as the analysis was, its findings in the
/// order of review, and its other lists in the order in which the rows come. It
/// does so under whatever new number it is saved, and however much is saved
/// before and after it.
pub fn prepare_analysis(analysis: Analysis<'_>) -> (result: Result<AnalysisRows, DatabaseError>)
    ensures
        match result {
            Ok(rows) => {
                &&& storage::refusal(analysis_numbers(analysis@)) is None
                &&& rows@ == analysis_rows(analysis@)
                &&& analysis@.scan.warnings.len() + analysis@.duplicates.warnings.len()
                    <= i64::MAX && analysis@.ai.explanations.len() <= i64::MAX ==> forall|id: i64|
                    #[trigger] restored(kept_rows(id, rows@)) == Ok::<
                        StoredAnalysisView,
                        DatabaseErrorView,
                    >(reviewed(id, analysis@))
                &&& analysis@.scan.warnings.len() + analysis@.duplicates.warnings.len()
                    <= i64::MAX && analysis@.ai.explanations.len() <= i64::MAX ==> forall|
                    id: i64,
                    places: RowOrder,
                |
                    hands_back(places, kept_rows(id, rows@)) ==> #[trigger] restores_review(
                        kept_rows(id, rows@),
                        reviewed(id, analysis@),
                        places,
                    )
                &&& analysis@.scan.warnings.len() + analysis@.duplicates.warnings.len()
                    <= i64::MAX && analysis@.ai.explanations.len() <= i64::MAX ==> forall|
                    before: Tables,
                    save: Save,
                    later: Seq<Save>,
                |
                    save.rows == rows@ ==> #[trigger] tables::stays_saved(
                        before,
                        save,
                        later,
                        reviewed(save.number, analysis@),
                    )
            },
            Err(error) => storage::refusal(analysis_numbers(analysis@)) == Some(error@),
        },
{
    let ghost view = analysis@;
    let ghost leading = storage::leading_numbers(view.scan);
    let ghost whole = storage::scan_numbers(view);
    let ghost item_list = flat(view.scan.items, item_numbering(), view.scan.items.len() as int);
    let ghost finding_list = flat(view.findings, finding_numbering(), view.findings.len() as int);
    let ghost group_list = flat(
        view.duplicates.groups,
        group_numbering(),
        view.duplicates.groups.len() as int,
    );
    proof {
        lemma_refusal_of_two(leading, whole);
        lemma_refusal_of_two(leading + whole, item_list);
        lemma_refusal_of_two(leading + whole + item_list, finding_list);
        lemma_refusal_of_two(leading + whole + item_list + finding_list, group_list);
    }
    match storage::validate_analysis_numbers(analysis) {
        Ok(_) => {},
        Err(error) => {
            return Err(error);
        },
    }
    let scan = match storage::store_scan(analysis) {
        Ok(scan) => scan,
        Err(error) => {
            return Err(error);
        },
    };
    let items = match prepare_items(&analysis.scan.items) {
        Ok(items) => items,
        Err(error) => {
            return Err(error);
        },
    };
    let findings = match prepare_findings(analysis.findings) {
        Ok(findings) => findings,
        Err(error) => {
            return Err(error);
        },
    };
    let groups = match prepare_groups(&analysis.duplicates.groups) {
        Ok(groups) => groups,
        Err(error) => {
            return Err(error);
        },
    };
    let relationships = prepare_relationships(&analysis.relationships.relationships);
    let explanations = prepare_explanations(&analysis.ai.explanations);
    let warnings = storage::store_warnings(analysis);
    let ignored_paths = prepare_paths(&analysis.scan.ignored_paths);
    let rows = AnalysisRows {
        scan,
        items,
        findings,
        groups,
        relationships,
        explanations,
        warnings,
        ignored_paths,
    };
    proof {
        assert(rows@ =~= analysis_rows(view));
        assert(findings.len() == view.findings.len());
        assert(groups.len() == view.duplicates.groups.len());
        assert(relationships.len() == view.relationships.relationships.len());
        let finding_count = view.findings.len() as int;
        lemma_all_read_back(
            finding_rows(view.findings),
            finding_reading(),
            view.findings,
            finding_count,
        );
        assert(view.findings.take(finding_count) =~= view.findings);
        let links = view.relationships.relationships;
        lemma_all_read_back(
            relationship_rows(links),
            relationship_reading(),
            links,
            links.len() as int,
        );
        assert(links.take(links.len() as int) =~= links);
        let told = view.ai.explanations;
        lemma_all_read_back(
            explanation_rows(told),
            explanation_reading(),
            told,
            told.len() as int,
        );
        assert(told.take(told.len() as int) =~= told);
        if view.scan.warnings.len() + view.duplicates.warnings.len() <= i64::MAX
            && view.ai.explanations.len() <= i64::MAX {
            assert forall|id: i64| #[trigger] restored(kept_rows(id, rows@)) == Ok::<
                StoredAnalysisView,
                DatabaseErrorView,
            >(reviewed(id, view)) by {
                storage::law_history_tells_what_was_stored(id, view);
            }
            assert forall|id: i64, places: RowOrder|
                hands_back(places, kept_rows(id, rows@)) implies #[trigger] restores_review(
                kept_rows(id, rows@),
                reviewed(id, view),
                places,
            ) by {
                law_rows_read_back_in_any_order(
                    kept_rows(id, rows@),
                    reviewed(id, view),
                    places,
                );
            }
            assert forall|before: Tables, save: Save, later: Seq<Save>|
                save.rows == rows@ implies #[trigger] tables::stays_saved(
                before,
                save,
                later,
                reviewed(save.number, view),
            ) by {
                assert(restored(kept_rows(save.number, rows@)) is Ok);
                tables::law_what_was_saved_reads_back(
                    before,
                    save,
                    later,
                    reviewed(save.number, view),
                );
            }
        }
    }
    Ok(rows)
}

fn read_findings(rows: &Vec<FindingRow>) -> (result: Result<Vec<Finding>, DatabaseError>)
    ensures
        ({
            let all = order::views(rows@);
            let read = all_read(all, finding_reading(), all.len() as int);
            match result {
                Ok(values) => read == Ok::<Seq<FindingView>, DatabaseErrorView>(order::views(values@)),
                Err(error) => read == Err::<Seq<FindingView>, DatabaseErrorView>(error@),
            }
        }),
{
    let ghost all = order::views(rows@);
    let mut values: Vec<Finding> = Vec::new();
    let mut at: usize = 0;
    assert(order::views(values@) =~= Seq::<FindingView>::empty());
    while at < rows.len()
        invariant
            at <= rows@.len(),
            all == order::views(rows@),
            all_read(all, finding_reading(), at as int) == Ok::<Seq<FindingView>, DatabaseErrorView>(
                order::views(values@),
            ),
        decreases rows@.len() - at,
    {
        assert(all[at as int] == rows@[at as int]@);
        match storage::read_finding(&rows[at]) {
            Ok(value) => {
                proof {
                    order::lemma_views_push(values@, value);
                }
                values.push(value);
            },
            Err(error) => {
                proof {
                    lemma_all_read_fails(all, finding_reading(), at + 1, all.len() as int);
                }
                return Err(error);
            },
        }
        at = at + 1;
    }
    Ok(values)
}

fn read_entries(rows: &Vec<EntryRow>) -> (result: Result<Vec<DuplicateEntry>, DatabaseError>)
    ensures
        ({
            let all = order::views(rows@);
            let read = all_read(all, entry_reading(), all.len() as int);
            match result {
                Ok(values) => read == Ok::<Seq<EntryView>, DatabaseErrorView>(order::views(values@)),
                Err(error) => read == Err::<Seq<EntryView>, DatabaseErrorView>(error@),
            }
        }),
{
    let ghost all = order::views(rows@);
    let mut values: Vec<DuplicateEntry> = Vec::new();
    let mut at: usize = 0;
    assert(order::views(values@) =~= Seq::<EntryView>::empty());
    while at < rows.len()
        invariant
            at <= rows@.len(),
            all == order::views(rows@),
            all_read(all, entry_reading(), at as int) == Ok::<Seq<EntryView>, DatabaseErrorView>(
                order::views(values@),
            ),
        decreases rows@.len() - at,
    {
        assert(all[at as int] == rows@[at as int]@);
        match storage::read_entry(&rows[at]) {
            Ok(value) => {
                proof {
                    order::lemma_views_push(values@, value);
                }
                values.push(value);
            },
            Err(error) => {
                proof {
                    lemma_all_read_fails(all, entry_reading(), at + 1, all.len() as int);
                }
                return Err(error);
            },
        }
        at = at + 1;
    }
    Ok(values)
}

fn read_group(rows: &GroupRows) -> (result: Result<DuplicateGroup, DatabaseError>)
    ensures
        match result {
            Ok(group) => group_reading()(rows@) == Ok::<GroupView, DatabaseErrorView>(group@),
            Err(error) => group_reading()(rows@) == Err::<GroupView, DatabaseErrorView>(error@),
        },
{
    match read_entries(&rows.entries) {
        Ok(entries) => storage::read_group(&rows.group, entries),
        Err(error) => Err(error),
    }
}

fn read_groups(rows: &Vec<GroupRows>) -> (result: Result<Vec<DuplicateGroup>, DatabaseError>)
    ensures
        ({
            let all = order::views(rows@);
            let read = all_read(all, group_reading(), all.len() as int);
            match result {
                Ok(values) => read == Ok::<Seq<GroupView>, DatabaseErrorView>(order::views(values@)),
                Err(error) => read == Err::<Seq<GroupView>, DatabaseErrorView>(error@),
            }
        }),
{
    let ghost all = order::views(rows@);
    let mut values: Vec<DuplicateGroup> = Vec::new();
    let mut at: usize = 0;
    assert(order::views(values@) =~= Seq::<GroupView>::empty());
    while at < rows.len()
        invariant
            at <= rows@.len(),
            all == order::views(rows@),
            all_read(all, group_reading(), at as int) == Ok::<Seq<GroupView>, DatabaseErrorView>(
                order::views(values@),
            ),
        decreases rows@.len() - at,
    {
        assert(all[at as int] == rows@[at as int]@);
        match read_group(&rows[at]) {
            Ok(value) => {
                proof {
                    order::lemma_views_push(values@, value);
                }
                values.push(value);
            },
            Err(error) => {
                proof {
                    lemma_all_read_fails(all, group_reading(), at + 1, all.len() as int);
                }
                return Err(error);
            },
        }
        at = at + 1;
    }
    Ok(values)
}

fn read_relationships(rows: &Vec<RelationshipRow>) -> (result: Result<Vec<Relationship>, DatabaseError>)
    ensures
        ({
            let all = order::views(rows@);
            let read = all_read(all, relationship_reading(), all.len() as int);
            match result {
                Ok(values) => read == Ok::<Seq<RelationshipView>, DatabaseErrorView>(order::views(values@)),
                Err(error) => read == Err::<Seq<RelationshipView>, DatabaseErrorView>(error@),
            }
        }),
{
    let ghost all = order::views(rows@);
    let mut values: Vec<Relationship> = Vec::new();
    let mut at: usize = 0;
    assert(order::views(values@) =~= Seq::<RelationshipView>::empty());
    while at < rows.len()
        invariant
            at <= rows@.len(),
            all == order::views(rows@),
            all_read(all, relationship_reading(), at as int) == Ok::<Seq<RelationshipView>, DatabaseErrorView>(
                order::views(values@),
            ),
        decreases rows@.len() - at,
    {
        assert(all[at as int] == rows@[at as int]@);
        match storage::read_relationship(&rows[at]) {
            Ok(value) => {
                proof {
                    order::lemma_views_push(values@, value);
                }
                values.push(value);
            },
            Err(error) => {
                proof {
                    lemma_all_read_fails(all, relationship_reading(), at + 1, all.len() as int);
                }
                return Err(error);
            },
        }
        at = at + 1;
    }
    Ok(values)
}

fn read_explanations(rows: &Vec<ExplanationRow>) -> (result: Result<Vec<AiExplanation>, DatabaseError>)
    ensures
        ({
            let all = order::views(rows@);
            let read = all_read(all, explanation_reading(), all.len() as int);
            match result {
                Ok(values) => read == Ok::<Seq<ExplanationView>, DatabaseErrorView>(order::views(values@)),
                Err(error) => read == Err::<Seq<ExplanationView>, DatabaseErrorView>(error@),
            }
        }),
{
    let ghost all = order::views(rows@);
    let mut values: Vec<AiExplanation> = Vec::new();
    let mut at: usize = 0;
    assert(order::views(values@) =~= Seq::<ExplanationView>::empty());
    while at < rows.len()
        invariant
            at <= rows@.len(),
            all == order::views(rows@),
            all_read(all, explanation_reading(), at as int) == Ok::<Seq<ExplanationView>, DatabaseErrorView>(
                order::views(values@),
            ),
        decreases rows@.len() - at,
    {
        assert(all[at as int] == rows@[at as int]@);
        match storage::read_explanation(&rows[at]) {
            Ok(value) => {
                proof {
                    order::lemma_views_push(values@, value);
                }
                values.push(value);
            },
            Err(error) => {
                proof {
                    lemma_all_read_fails(all, explanation_reading(), at + 1, all.len() as int);
                }
                return Err(error);
            },
        }
        at = at + 1;
    }
    Ok(values)
}

fn read_warnings(rows: &Vec<WarningRow>) -> (result: Vec<StoredWarning>)
    ensures
        order::views(result@) == Seq::new(
            rows@.len(),
            |i: int| storage::warning_read(order::views(rows@)[i]),
        ),
{
    let ghost all = order::views(rows@);
    let mut values: Vec<StoredWarning> = Vec::new();
    let mut at: usize = 0;
    while at < rows.len()
        invariant
            at <= rows@.len(),
            all == order::views(rows@),
            order::views(values@) == Seq::new(
                at as nat,
                |i: int| storage::warning_read(all[i]),
            ),
        decreases rows@.len() - at,
    {
        assert(all[at as int] == rows@[at as int]@);
        let value = storage::read_warning(&rows[at]);
        proof {
            order::lemma_views_push(values@, value);
        }
        values.push(value);
        at = at + 1;
    }
    values
}

/// The analysis that history kept.
pub fn restore_analysis(kept: &KeptRows) -> (result: Result<StoredAnalysis, DatabaseError>)
    ensures
        match result {
            Ok(analysis) => restored(kept@) == Ok::<StoredAnalysisView, DatabaseErrorView>(
                analysis@,
            ),
            Err(error) => restored(kept@) == Err::<StoredAnalysisView, DatabaseErrorView>(error@),
        },
{
    let summary = match storage::read_history_row(&kept.history) {
        Ok(summary) => summary,
        Err(error) => {
            return Err(error);
        },
    };
    let findings = match read_findings(&kept.findings) {
        Ok(findings) => findings,
        Err(error) => {
            return Err(error);
        },
    };
    let duplicate_groups = match read_groups(&kept.groups) {
        Ok(groups) => groups,
        Err(error) => {
            return Err(error);
        },
    };
    let relationships = match read_relationships(&kept.relationships) {
        Ok(relationships) => relationships,
        Err(error) => {
            return Err(error);
        },
    };
    let ai_explanations = match read_explanations(&kept.explanations) {
        Ok(explanations) => explanations,
        Err(error) => {
            return Err(error);
        },
    };
    let warnings = read_warnings(&kept.warnings);
    Ok(
        StoredAnalysis {
            summary,
            findings: storage::order_findings(findings),
            duplicate_groups,
            relationships,
            ai_explanations,
            warnings,
        },
    )
}

/// The analysis of which history kept something; there is none where it kept
/// nothing.
pub fn restore_found(kept: Option<&KeptRows>) -> (result: Result<
    Option<StoredAnalysis>,
    DatabaseError,
>)
    ensures
        match (kept, result) {
            (None, Ok(None)) => true,
            (Some(rows), Ok(Some(analysis))) => restored(rows@) == Ok::<
                StoredAnalysisView,
                DatabaseErrorView,
            >(analysis@),
            (Some(rows), Err(error)) => restored(rows@) == Err::<
                StoredAnalysisView,
                DatabaseErrorView,
            >(error@),
            _ => false,
        },
{
    match kept {
        None => Ok(None),
        Some(rows) => match restore_analysis(rows) {
            Ok(analysis) => Ok(Some(analysis)),
            Err(error) => Err(error),
        },
    }
}

} // verus!
