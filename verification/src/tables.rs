//! What the tables of local history hold, and what is found in them under the
//! number of a scan.

use crate::archive;
use crate::archive::{AnalysisRowsView, GroupRowsView, KeptRowsView, RowOrder};
use crate::storage;
use crate::storage::{
    DatabaseErrorView, EntryRowView, ExplanationRowView, FindingRowView, GroupRowView, ItemRowView,
    RelationshipRowView, ScanRowView, StoredAnalysisView, WarningRowView,
};
use vstd::prelude::*;

verus! {

/// A group of duplicates with its own number and that of its scan.
#[verifier::ext_equal]
pub struct NumberedGroup {
    pub number: i64,
    pub scan: i64,
    pub group: GroupRowView,
}

/// The tables of local history. A row of most tables bears the number of its
/// scan, and an entry the number of its group.
#[verifier::ext_equal]
pub struct Tables {
    pub scans: Map<i64, ScanRowView>,
    pub items: Seq<(i64, ItemRowView)>,
    pub findings: Seq<(i64, FindingRowView)>,
    pub groups: Seq<NumberedGroup>,
    pub entries: Seq<(i64, EntryRowView)>,
    pub relationships: Seq<(i64, RelationshipRowView)>,
    pub explanations: Seq<(i64, ExplanationRowView)>,
    pub warnings: Seq<(i64, WarningRowView)>,
    pub ignored_paths: Seq<(i64, Seq<u8>)>,
}

/// The tables of a new database.
pub open spec fn no_tables() -> Tables {
    Tables {
        scans: Map::empty(),
        items: Seq::empty(),
        findings: Seq::empty(),
        groups: Seq::empty(),
        entries: Seq::empty(),
        relationships: Seq::empty(),
        explanations: Seq::empty(),
        warnings: Seq::empty(),
        ignored_paths: Seq::empty(),
    }
}

/// Some rows, each with a number.
pub open spec fn numbered<R>(number: i64, rows: Seq<R>) -> Seq<(i64, R)> {
    Seq::new(rows.len(), |i: int| (number, rows[i]))
}

/// The rows that bear a number.
pub open spec fn under<R>(rows: Seq<(i64, R)>, number: i64) -> Seq<R>
    decreases rows.len(),
{
    if rows.len() == 0 {
        Seq::empty()
    } else if rows.last().0 == number {
        under(rows.drop_last(), number).push(rows.last().1)
    } else {
        under(rows.drop_last(), number)
    }
}

/// The groups of a scan with their entries.
pub open spec fn groups_under(
    groups: Seq<NumberedGroup>,
    entries: Seq<(i64, EntryRowView)>,
    number: i64,
) -> Seq<GroupRowsView>
    decreases groups.len(),
{
    if groups.len() == 0 {
        Seq::empty()
    } else {
        let before = groups_under(groups.drop_last(), entries, number);
        let last = groups.last();
        if last.scan == number {
            before.push(GroupRowsView { group: last.group, entries: under(entries, last.number) })
        } else {
            before
        }
    }
}

/// The entries of the first `count` groups, each with the number of its group.
pub open spec fn numbered_entries(
    numbers: Seq<i64>,
    groups: Seq<GroupRowsView>,
    count: int,
) -> Seq<(i64, EntryRowView)>
    decreases count,
{
    if count <= 0 {
        Seq::empty()
    } else {
        numbered_entries(numbers, groups, count - 1) + numbered(
            numbers[count - 1],
            groups[count - 1].entries,
        )
    }
}

pub open spec fn numbered_groups(
    number: i64,
    numbers: Seq<i64>,
    groups: Seq<GroupRowsView>,
) -> Seq<NumberedGroup> {
    Seq::new(
        groups.len(),
        |i: int| NumberedGroup { number: numbers[i], scan: number, group: groups[i].group },
    )
}

/// One analysis that is saved: the number of its scan, those of its groups, and
/// its rows.
#[verifier::ext_equal]
pub struct Save {
    pub number: i64,
    pub group_numbers: Seq<i64>,
    pub rows: AnalysisRowsView,
}

/// The tables with the rows of an analysis.
pub open spec fn saved(tables: Tables, save: Save) -> Tables {
    let number = save.number;
    let rows = save.rows;
    Tables {
        scans: tables.scans.insert(number, rows.scan),
        items: tables.items + numbered(number, rows.items),
        findings: tables.findings + numbered(number, rows.findings),
        groups: tables.groups + numbered_groups(number, save.group_numbers, rows.groups),
        entries: tables.entries + numbered_entries(
            save.group_numbers,
            rows.groups,
            rows.groups.len() as int,
        ),
        relationships: tables.relationships + numbered(number, rows.relationships),
        explanations: tables.explanations + numbered(number, rows.explanations),
        warnings: tables.warnings + numbered(number, rows.warnings),
        ignored_paths: tables.ignored_paths + numbered(number, rows.ignored_paths),
    }
}

/// The tables after some further analyses were saved.
pub open spec fn all_saved(tables: Tables, saves: Seq<Save>) -> Tables
    decreases saves.len(),
{
    if saves.len() == 0 {
        tables
    } else {
        saved(all_saved(tables, saves.drop_last()), saves.last())
    }
}

/// Whether no row bears a number.
pub open spec fn is_unused<R>(rows: Seq<(i64, R)>, number: i64) -> bool {
    forall|i: int| 0 <= i < rows.len() ==> (#[trigger] rows[i]).0 != number
}

/// Whether the numbers of a save are new to the tables: that of the scan, and
/// one for each group.
pub open spec fn is_new(tables: Tables, save: Save) -> bool {
    &&& !tables.scans.contains_key(save.number)
    &&& is_unused(tables.findings, save.number)
    &&& is_unused(tables.relationships, save.number)
    &&& is_unused(tables.explanations, save.number)
    &&& is_unused(tables.warnings, save.number)
    &&& forall|i: int|
        0 <= i < tables.groups.len() ==> (#[trigger] tables.groups[i]).scan != save.number
    &&& save.group_numbers.len() == save.rows.groups.len()
    &&& save.group_numbers.no_duplicates()
    &&& forall|i: int, k: int|
        0 <= i < tables.groups.len() && 0 <= k < save.group_numbers.len() ==> (
        #[trigger] tables.groups[i]).number != #[trigger] save.group_numbers[k]
    &&& forall|k: int|
        0 <= k < save.group_numbers.len() ==> is_unused(
            tables.entries,
            #[trigger] save.group_numbers[k],
        )
}

/// Whether the numbers of each of some saves are new to the tables then.
pub open spec fn are_new(tables: Tables, saves: Seq<Save>) -> bool {
    forall|k: int|
        0 <= k < saves.len() ==> is_new(all_saved(tables, saves.take(k)), #[trigger] saves[k])
}

/// What is found under the number of a scan.
pub open spec fn found(tables: Tables, number: i64) -> Option<KeptRowsView> {
    if tables.scans.contains_key(number) {
        let explanations = under(tables.explanations, number);
        Some(
            KeptRowsView {
                history: storage::history_row(
                    number,
                    tables.scans[number],
                    explanations.len() as i64,
                ),
                findings: under(tables.findings, number),
                groups: groups_under(tables.groups, tables.entries, number),
                relationships: under(tables.relationships, number),
                explanations,
                warnings: under(tables.warnings, number),
            },
        )
    } else {
        None
    }
}

/// Whether a review is what is read under a number, in whatever order the rows
/// are handed back.
pub open spec fn reads_back(tables: Tables, number: i64, stored: StoredAnalysisView) -> bool {
    match found(tables, number) {
        Some(kept) => {
            &&& archive::restored(kept) == Ok::<StoredAnalysisView, DatabaseErrorView>(stored)
            &&& forall|places: RowOrder|
                archive::hands_back(places, kept) ==> #[trigger] archive::restores_review(
                    kept,
                    stored,
                    places,
                )
        },
        None => false,
    }
}

/// Whether a review is what is read under the number that it was saved under,
/// however much was saved before and after it.
pub open spec fn stays_saved(
    tables: Tables,
    save: Save,
    later: Seq<Save>,
    stored: StoredAnalysisView,
) -> bool {
    is_new(tables, save) && are_new(saved(tables, save), later) ==> reads_back(
        all_saved(saved(tables, save), later),
        save.number,
        stored,
    )
}

proof fn lemma_under_both<R>(first: Seq<(i64, R)>, second: Seq<(i64, R)>, number: i64)
    ensures
        under(first + second, number) == under(first, number) + under(second, number),
    decreases second.len(),
{
    let whole = first + second;
    if second.len() == 0 {
        assert(whole =~= first);
        assert(under(first, number) + under(second, number) =~= under(first, number));
    } else {
        assert(whole.drop_last() =~= first + second.drop_last());
        lemma_under_both(first, second.drop_last(), number);
        assert(under(whole, number) =~= under(first, number) + under(second, number));
    }
}

proof fn lemma_under_unused<R>(rows: Seq<(i64, R)>, number: i64)
    requires
        is_unused(rows, number),
    ensures
        under(rows, number) == Seq::<R>::empty(),
    decreases rows.len(),
{
    if rows.len() > 0 {
        let shorter = rows.drop_last();
        assert forall|i: int| 0 <= i < shorter.len() implies (#[trigger] shorter[i]).0
            != number by {
            assert(shorter[i] == rows[i]);
        }
        lemma_under_unused(shorter, number);
        assert(rows[rows.len() - 1].0 != number);
    }
}

proof fn lemma_under_numbered<R>(number: i64, rows: Seq<R>, wanted: i64)
    ensures
        under(numbered(number, rows), wanted) == if number == wanted {
            rows
        } else {
            Seq::<R>::empty()
        },
    decreases rows.len(),
{
    if rows.len() == 0 {
        assert(under(numbered(number, rows), wanted) =~= rows);
        assert(rows =~= Seq::<R>::empty());
    } else {
        assert(numbered(number, rows).drop_last() =~= numbered(number, rows.drop_last()));
        lemma_under_numbered(number, rows.drop_last(), wanted);
        assert(rows.drop_last().push(rows.last()) =~= rows);
    }
}

/// Rows behind others are found under their number, and under no other.
proof fn lemma_under_saved<R>(before: Seq<(i64, R)>, number: i64, rows: Seq<R>, wanted: i64)
    requires
        is_unused(before, number),
    ensures
        under(before + numbered(number, rows), wanted) == if number == wanted {
            rows
        } else {
            under(before, wanted)
        },
{
    lemma_under_both(before, numbered(number, rows), wanted);
    lemma_under_numbered(number, rows, wanted);
    if number == wanted {
        lemma_under_unused(before, number);
        assert(Seq::<R>::empty() + rows =~= rows);
    } else {
        assert(under(before, wanted) + Seq::<R>::empty() =~= under(before, wanted));
    }
}

proof fn lemma_entries_under(
    numbers: Seq<i64>,
    groups: Seq<GroupRowsView>,
    count: int,
    wanted: i64,
)
    requires
        count <= groups.len() == numbers.len(),
        numbers.no_duplicates(),
    ensures
        !numbers.contains(wanted) ==> under(numbered_entries(numbers, groups, count), wanted)
            == Seq::<EntryRowView>::empty(),
        forall|k: int|
            0 <= k < numbers.len() && #[trigger] numbers[k] == wanted ==> under(
                numbered_entries(numbers, groups, count),
                wanted,
            ) == if k < count {
                groups[k].entries
            } else {
                Seq::<EntryRowView>::empty()
            },
    decreases count,
{
    if count > 0 {
        let before = numbered_entries(numbers, groups, count - 1);
        let last = numbers[count - 1];
        let entries = groups[count - 1].entries;
        lemma_entries_under(numbers, groups, count - 1, wanted);
        lemma_under_both(before, numbered(last, entries), wanted);
        lemma_under_numbered(last, entries, wanted);
        let none = Seq::<EntryRowView>::empty();
        assert(none + entries =~= entries);
        assert(under(before, wanted) + none =~= under(before, wanted));
        assert(numbers.contains(last));
    }
}

proof fn lemma_groups_both(
    first: Seq<NumberedGroup>,
    second: Seq<NumberedGroup>,
    entries: Seq<(i64, EntryRowView)>,
    number: i64,
)
    ensures
        groups_under(first + second, entries, number) == groups_under(first, entries, number)
            + groups_under(second, entries, number),
    decreases second.len(),
{
    let whole = first + second;
    if second.len() == 0 {
        assert(whole =~= first);
        assert(groups_under(first, entries, number) + groups_under(second, entries, number)
            =~= groups_under(first, entries, number));
    } else {
        assert(whole.drop_last() =~= first + second.drop_last());
        lemma_groups_both(first, second.drop_last(), entries, number);
        assert(groups_under(whole, entries, number) =~= groups_under(first, entries, number)
            + groups_under(second, entries, number));
    }
}

proof fn lemma_groups_unchanged(
    groups: Seq<NumberedGroup>,
    entries: Seq<(i64, EntryRowView)>,
    more: Seq<(i64, EntryRowView)>,
    number: i64,
)
    requires
        forall|i: int|
            0 <= i < groups.len() ==> under(more, (#[trigger] groups[i]).number) == Seq::<
                EntryRowView,
            >::empty(),
    ensures
        groups_under(groups, entries + more, number) == groups_under(groups, entries, number),
    decreases groups.len(),
{
    if groups.len() > 0 {
        let shorter = groups.drop_last();
        let last = groups.last();
        assert forall|i: int| 0 <= i < shorter.len() implies under(
            more,
            (#[trigger] shorter[i]).number,
        ) == Seq::<EntryRowView>::empty() by {
            assert(shorter[i] == groups[i]);
        }
        lemma_groups_unchanged(shorter, entries, more, number);
        assert(groups[groups.len() - 1] == last);
        lemma_under_both(entries, more, last.number);
        assert(under(entries, last.number) + Seq::<EntryRowView>::empty() =~= under(
            entries,
            last.number,
        ));
    }
}

proof fn lemma_groups_elsewhere(
    groups: Seq<NumberedGroup>,
    entries: Seq<(i64, EntryRowView)>,
    number: i64,
)
    requires
        forall|i: int| 0 <= i < groups.len() ==> (#[trigger] groups[i]).scan != number,
    ensures
        groups_under(groups, entries, number) == Seq::<GroupRowsView>::empty(),
    decreases groups.len(),
{
    if groups.len() > 0 {
        let shorter = groups.drop_last();
        assert forall|i: int| 0 <= i < shorter.len() implies (#[trigger] shorter[i]).scan
            != number by {
            assert(shorter[i] == groups[i]);
        }
        lemma_groups_elsewhere(shorter, entries, number);
        assert(groups[groups.len() - 1].scan != number);
    }
}

proof fn lemma_groups_found(
    number: i64,
    numbers: Seq<i64>,
    groups: Seq<GroupRowsView>,
    entries: Seq<(i64, EntryRowView)>,
    count: int,
)
    requires
        0 <= count <= groups.len() == numbers.len(),
        forall|k: int|
            0 <= k < groups.len() ==> under(entries, #[trigger] numbers[k]) == groups[k].entries,
    ensures
        groups_under(numbered_groups(number, numbers, groups).take(count), entries, number)
            == groups.take(count),
    decreases count,
{
    let all = numbered_groups(number, numbers, groups);
    if count > 0 {
        lemma_groups_found(number, numbers, groups, entries, count - 1);
        assert(all.take(count).drop_last() =~= all.take(count - 1));
        assert(under(entries, numbers[count - 1]) == groups[count - 1].entries);
        assert(groups.take(count) =~= groups.take(count - 1).push(groups[count - 1]));
    } else {
        assert(groups.take(0) =~= Seq::<GroupRowsView>::empty());
        assert(all.take(0).len() == 0);
    }
}

proof fn lemma_groups_saved(tables: Tables, save: Save, wanted: i64)
    requires
        is_new(tables, save),
    ensures
        ({
            let after = saved(tables, save);
            groups_under(after.groups, after.entries, wanted) == if wanted == save.number {
                save.rows.groups
            } else {
                groups_under(tables.groups, tables.entries, wanted)
            }
        }),
{
    let numbers = save.group_numbers;
    let groups = save.rows.groups;
    let more = numbered_entries(numbers, groups, groups.len() as int);
    let new_groups = numbered_groups(save.number, numbers, groups);
    let entries = tables.entries + more;
    lemma_groups_both(tables.groups, new_groups, entries, wanted);
    assert forall|i: int| 0 <= i < tables.groups.len() implies under(
        more,
        (#[trigger] tables.groups[i]).number,
    ) == Seq::<EntryRowView>::empty() by {
        let other = tables.groups[i].number;
        if numbers.contains(other) {
            let k = choose|k: int| 0 <= k < numbers.len() && numbers[k] == other;
            assert(tables.groups[i].number != numbers[k]);
        }
        lemma_entries_under(numbers, groups, groups.len() as int, other);
    }
    lemma_groups_unchanged(tables.groups, tables.entries, more, wanted);
    if wanted == save.number {
        assert forall|k: int| 0 <= k < groups.len() implies under(entries, #[trigger] numbers[k])
            == groups[k].entries by {
            lemma_entries_under(numbers, groups, groups.len() as int, numbers[k]);
            lemma_under_both(tables.entries, more, numbers[k]);
            assert(is_unused(tables.entries, numbers[k]));
            lemma_under_unused(tables.entries, numbers[k]);
            assert(Seq::<EntryRowView>::empty() + groups[k].entries =~= groups[k].entries);
        }
        lemma_groups_found(save.number, numbers, groups, entries, groups.len() as int);
        assert(new_groups.take(groups.len() as int) =~= new_groups);
        assert(groups.take(groups.len() as int) =~= groups);
        lemma_groups_elsewhere(tables.groups, tables.entries, wanted);
        assert(Seq::<GroupRowsView>::empty() + groups =~= groups);
    } else {
        assert forall|i: int| 0 <= i < new_groups.len() implies (#[trigger] new_groups[i]).scan
            != wanted by {}
        lemma_groups_elsewhere(new_groups, entries, wanted);
        let before = groups_under(tables.groups, tables.entries, wanted);
        assert(before + Seq::<GroupRowsView>::empty() =~= before);
    }
}

/// What was saved under a number is found under it, and what was found under
/// any other stays.
pub proof fn law_saved_rows_are_found_under_their_number(tables: Tables, save: Save, wanted: i64)
    requires
        is_new(tables, save),
    ensures
        found(saved(tables, save), wanted) == if wanted == save.number {
            Some(archive::kept_rows(wanted, save.rows))
        } else {
            found(tables, wanted)
        },
{
    let rows = save.rows;
    lemma_under_saved(tables.findings, save.number, rows.findings, wanted);
    lemma_under_saved(tables.relationships, save.number, rows.relationships, wanted);
    lemma_under_saved(tables.explanations, save.number, rows.explanations, wanted);
    lemma_under_saved(tables.warnings, save.number, rows.warnings, wanted);
    lemma_groups_saved(tables, save, wanted);
}

/// Saves under other numbers leave what is found under one as it was.
pub proof fn law_later_saves_leave_what_was_saved(tables: Tables, later: Seq<Save>, number: i64)
    requires
        are_new(tables, later),
        tables.scans.contains_key(number),
    ensures
        found(all_saved(tables, later), number) == found(tables, number),
        all_saved(tables, later).scans.contains_key(number),
    decreases later.len(),
{
    if later.len() > 0 {
        let shorter = later.drop_last();
        assert forall|k: int| 0 <= k < shorter.len() implies is_new(
            all_saved(tables, shorter.take(k)),
            #[trigger] shorter[k],
        ) by {
            assert(shorter.take(k) =~= later.take(k));
            assert(later[k] == shorter[k]);
        }
        law_later_saves_leave_what_was_saved(tables, shorter, number);
        let k = later.len() - 1;
        assert(later.take(k) =~= shorter);
        assert(is_new(all_saved(tables, later.take(k)), later[k]));
        law_saved_rows_are_found_under_their_number(
            all_saved(tables, shorter),
            later.last(),
            number,
        );
    }
}

/// What was saved under a number reads back under it, in whatever order the
/// rows are handed back, and however much was saved before and after it.
pub proof fn law_what_was_saved_reads_back(
    tables: Tables,
    save: Save,
    later: Seq<Save>,
    stored: StoredAnalysisView,
)
    requires
        archive::restored(archive::kept_rows(save.number, save.rows)) == Ok::<
            StoredAnalysisView,
            DatabaseErrorView,
        >(stored),
    ensures
        stays_saved(tables, save, later, stored),
{
    if is_new(tables, save) && are_new(saved(tables, save), later) {
        let after = saved(tables, save);
        let kept = archive::kept_rows(save.number, save.rows);
        law_saved_rows_are_found_under_their_number(tables, save, save.number);
        law_later_saves_leave_what_was_saved(after, later, save.number);
        assert(found(all_saved(after, later), save.number) == Some(kept));
        assert forall|places: RowOrder|
            archive::hands_back(places, kept) implies #[trigger] archive::restores_review(
            kept,
            stored,
            places,
        ) by {
            archive::law_rows_read_back_in_any_order(kept, stored, places);
        }
    }
}

/// Nothing is found under a number that nothing was saved under.
pub proof fn law_nothing_is_found_under_an_unused_number(saves: Seq<Save>, number: i64)
    requires
        forall|k: int| 0 <= k < saves.len() ==> (#[trigger] saves[k]).number != number,
    ensures
        found(all_saved(no_tables(), saves), number) is None,
    decreases saves.len(),
{
    if saves.len() > 0 {
        let shorter = saves.drop_last();
        assert forall|k: int| 0 <= k < shorter.len() implies (#[trigger] shorter[k]).number
            != number by {
            assert(shorter[k] == saves[k]);
        }
        law_nothing_is_found_under_an_unused_number(shorter, number);
        assert(saves[saves.len() - 1].number != number);
    }
}

} // verus!
