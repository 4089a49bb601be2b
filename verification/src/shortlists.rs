//! What a model is asked about.

use crate::ai;
use crate::ai::{CandidateView, RankedView};
use crate::index;
use crate::model::{
    FindingCategory, FindingView, GroupView, ItemView, RelationshipView, ScanView,
};
use crate::order;
use crate::path;
use crate::path::PartView;
use crate::scanner;
use crate::single;
use crate::text;
use crate::verdicts;
use vstd::prelude::*;

verus! {

/// Findings that stand in the order of their paths fall into groups of one
/// path each.
proof fn lemma_groups(findings: Seq<FindingView>)
    requires
        order::is_ordered(findings, ai::finding_path_order()),
    ensures
        forall|g: int| 0 <= g < ai::by_path(findings).len() ==> (#[trigger] ai::by_path(findings)[g]).len() > 0,
        forall|g: int, k: int|
            0 <= g < ai::by_path(findings).len() && 0 <= k < ai::by_path(findings)[g].len()
                ==> findings.contains(#[trigger] ai::by_path(findings)[g][k]) && ai::by_path(
                findings,
            )[g][k].path == ai::by_path(findings)[g][0].path,
        forall|g: int, h: int|
            0 <= g < h < ai::by_path(findings).len() ==> (#[trigger] ai::by_path(
                findings,
            )[g])[0].path != (#[trigger] ai::by_path(findings)[h])[0].path,
        findings.len() > 0 ==> ai::by_path(findings).len() > 0 && ai::by_path(
            findings,
        ).last()[0].path == findings.last().path,
    decreases findings.len(),
{
    if findings.len() > 0 {
        let le = ai::finding_path_order();
        let front = findings.drop_last();
        let last = findings.last();
        assert forall|i: int, j: int| 0 <= i < j < front.len() implies #[trigger] le(
            front[i],
            front[j],
        ) by {
            assert(le(findings[i], findings[j]));
        }
        lemma_groups(front);
        let before = ai::by_path(front);
        let after = ai::by_path(findings);
        assert(findings[findings.len() - 1] == last);
        assert forall|g: int, k: int|
            0 <= g < after.len() && 0 <= k < after[g].len() implies findings.contains(
            #[trigger] after[g][k],
        ) && after[g][k].path == after[g][0].path by {
            if g < before.len() && k < before[g].len() {
                assert(before[g][k] == after[g][k]);
                assert(front.contains(before[g][k]));
                let i = choose|i: int| 0 <= i < front.len() && front[i] == before[g][k];
                assert(findings[i] == after[g][k]);
            }
            if g < before.len() {
                assert(before[g].len() > 0);
                assert(before[g][0] == after[g][0]);
            }
        }
        assert forall|g: int, h: int| 0 <= g < h < after.len() implies (
        #[trigger] after[g])[0].path != (#[trigger] after[h])[0].path by {
            if h < before.len() {
                assert(before[g].len() > 0 && before[h].len() > 0);
                assert(before[g][0].path != before[h][0].path);
            } else {
                assert(before[g].len() > 0);
                assert(front.contains(before[g][0]));
                let i = choose|i: int| 0 <= i < front.len() && front[i] == before[g][0];
                if before[g][0].path == last.path {
                    let end = front.len() - 1;
                    assert(le(findings[end], findings[findings.len() - 1]));
                    if i < end {
                        assert(le(findings[i], findings[end]));
                    }
                    path::law_paths_are_totally_ordered(front.last().path, last.path);
                    assert(before.last()[0].path == last.path);
                }
            }
        }
        assert forall|g: int| 0 <= g < after.len() implies (#[trigger] after[g]).len() > 0 by {
            if g < before.len() {
                assert(before[g].len() > 0);
            }
        }
    }
}

proof fn lemma_group_has(findings: Seq<FindingView>, at: int) -> (found: (int, int))
    requires
        0 <= at < findings.len(),
    ensures
        0 <= found.0 < ai::by_path(findings).len(),
        0 <= found.1 < ai::by_path(findings)[found.0].len(),
        ai::by_path(findings)[found.0][found.1] == findings[at],
    decreases findings.len(),
{
    let before = ai::by_path(findings.drop_last());
    let after = ai::by_path(findings);
    if at < findings.len() - 1 {
        let found = lemma_group_has(findings.drop_last(), at);
        assert(after[found.0][found.1] == before[found.0][found.1]);
        found
    } else {
        (after.len() - 1, after.last().len() - 1)
    }
}

/// Whether some findings are all of those with a path.
spec fn are_all_at(
    group: Seq<FindingView>,
    findings: Seq<FindingView>,
    given: Seq<PartView>,
) -> bool {
    &&& group.len() > 0
    &&& group[0].path == given
    &&& forall|one: FindingView| #[trigger]
        group.contains(one) <==> findings.contains(one) && one.path == given
}

proof fn lemma_group_is_all(findings: Seq<FindingView>, g: int)
    requires
        0 <= g < ai::by_path(order::sorted(findings, ai::finding_path_order())).len(),
    ensures
        ({
            let group = ai::by_path(order::sorted(findings, ai::finding_path_order()))[g];
            are_all_at(group, findings, group[0].path)
        }),
{
    let le = ai::finding_path_order();
    let sorted = order::sorted(findings, le);
    let gathered = ai::by_path(sorted);
    let group = gathered[g];
    scanner::lemma_path_ranking(|one: FindingView| one.path, le);
    order::law_sorted_is_an_ordered_permutation(findings, le);
    lemma_groups(sorted);
    assert(gathered[g].len() > 0);
    assert forall|one: FindingView| #[trigger] group.contains(one) <==> findings.contains(one)
        && one.path == group[0].path by {
        order::lemma_sorted_contains(findings, one, le);
        if group.contains(one) {
            let k = choose|k: int| 0 <= k < group.len() && group[k] == one;
            assert(sorted.contains(gathered[g][k]));
        }
        if findings.contains(one) && one.path == group[0].path {
            let i = choose|i: int| 0 <= i < sorted.len() && sorted[i] == one;
            let (h, k) = lemma_group_has(sorted, i);
            assert(gathered[h][k].path == gathered[h][0].path);
            if h < g {
                assert(gathered[h][0].path != gathered[g][0].path);
            } else if g < h {
                assert(gathered[g][0].path != gathered[h][0].path);
            }
            assert(group[k] == one);
        }
    }
}

/// The candidates before they are numbered and cut off.
spec fn whole_list(
    scan: ScanView,
    findings: Seq<FindingView>,
    groups: Seq<GroupView>,
    relationships: Seq<RelationshipView>,
) -> Seq<RankedView> {
    let gathered = ai::by_path(order::sorted(findings, ai::finding_path_order()));
    order::sorted(
        ai::ranked(scan, gathered, groups, relationships, gathered.len() as int),
        ai::ranked_order(),
    )
}

proof fn lemma_ranked_source(
    scan: ScanView,
    gathered: Seq<Seq<FindingView>>,
    groups: Seq<GroupView>,
    relationships: Seq<RelationshipView>,
    count: int,
    one: RankedView,
) -> (g: int)
    requires
        0 <= count <= gathered.len(),
        ai::ranked(scan, gathered, groups, relationships, count).contains(one),
    ensures
        0 <= g < count,
        ai::candidate_of(scan, gathered[g], groups, relationships) == Some(one),
    decreases count,
{
    let all = ai::ranked(scan, gathered, groups, relationships, count);
    let k = choose|k: int| 0 <= k < all.len() && all[k] == one;
    if count <= 0 {
        0
    } else {
        let before = ai::ranked(scan, gathered, groups, relationships, count - 1);
        if k < before.len() {
            assert(before[k] == one);
            lemma_ranked_source(scan, gathered, groups, relationships, count - 1, one)
        } else {
            count - 1
        }
    }
}

proof fn lemma_ranked_has(
    scan: ScanView,
    gathered: Seq<Seq<FindingView>>,
    groups: Seq<GroupView>,
    relationships: Seq<RelationshipView>,
    count: int,
    g: int,
)
    requires
        0 <= g < count <= gathered.len(),
        ai::candidate_of(scan, gathered[g], groups, relationships) is Some,
    ensures
        ai::ranked(scan, gathered, groups, relationships, count).contains(
            ai::candidate_of(scan, gathered[g], groups, relationships)->Some_0,
        ),
    decreases count,
{
    let wanted = ai::candidate_of(scan, gathered[g], groups, relationships)->Some_0;
    let before = ai::ranked(scan, gathered, groups, relationships, count - 1);
    let after = ai::ranked(scan, gathered, groups, relationships, count);
    if g == count - 1 {
        assert(after[after.len() - 1] == wanted);
    } else {
        lemma_ranked_has(scan, gathered, groups, relationships, count - 1, g);
        let k = choose|k: int| 0 <= k < before.len() && before[k] == wanted;
        assert(after[k] == wanted);
    }
}

/// The findings that a shortlisted candidate was made of.
proof fn lemma_made_of(
    scan: ScanView,
    findings: Seq<FindingView>,
    groups: Seq<GroupView>,
    relationships: Seq<RelationshipView>,
    place: int,
) -> (group: Seq<FindingView>)
    requires
        0 <= place < whole_list(scan, findings, groups, relationships).len(),
    ensures
        are_all_at(
            group,
            findings,
            whole_list(scan, findings, groups, relationships)[place].candidate.path,
        ),
        ai::candidate_of(scan, group, groups, relationships) == Some(
            whole_list(scan, findings, groups, relationships)[place],
        ),
{
    let gathered = ai::by_path(order::sorted(findings, ai::finding_path_order()));
    let found = ai::ranked(scan, gathered, groups, relationships, gathered.len() as int);
    let all = whole_list(scan, findings, groups, relationships);
    ai::lemma_ranked_order();
    assert(all.contains(all[place]));
    order::lemma_sorted_contains(found, all[place], ai::ranked_order());
    let g = lemma_ranked_source(
        scan,
        gathered,
        groups,
        relationships,
        gathered.len() as int,
        all[place],
    );
    lemma_group_is_all(findings, g);
    gathered[g]
}

/// Whether a finding is one of some at a path.
pub open spec fn is_at(
    finding: FindingView,
    findings: Seq<FindingView>,
    given: Seq<PartView>,
) -> bool {
    findings.contains(finding) && finding.path == given
}

/// Whether a path is worth a question: a finding calls it large, one is less
/// certain than 95 percent, or it is an end of a relationship.
pub open spec fn is_worth_asking(
    findings: Seq<FindingView>,
    relationships: Seq<RelationshipView>,
    given: Seq<PartView>,
) -> bool {
    ||| exists|finding: FindingView| #[trigger]
        is_at(finding, findings, given) && finding.category == FindingCategory::LargeItem
    ||| exists|finding: FindingView| #[trigger]
        is_at(finding, findings, given) && single::is_less(finding.confidence.bits, 0x3F73_3333)
    ||| exists|r: int|
        0 <= r < relationships.len() && ((#[trigger] relationships[r]).source_path == given
            || relationships[r].target_path == given)
}

proof fn lemma_lowest(group: Seq<FindingView>, limit: u32)
    requires
        limit == 0x3F73_3333,
    ensures
        single::is_less(ai::lowest_confidence(group), limit) <==> exists|k: int|
            0 <= k < group.len() && single::is_less((#[trigger] group[k]).confidence.bits, limit),
    decreases group.len(),
{
    if group.len() > 0 {
        let front = group.drop_last();
        lemma_lowest(front, limit);
        assert(group[group.len() - 1] == group.last());
        assert forall|k: int| 0 <= k < front.len() implies front[k] == #[trigger] group[k] by {}
        if exists|k: int|
            0 <= k < front.len() && single::is_less((#[trigger] front[k]).confidence.bits, limit) {
            let k = choose|k: int|
                0 <= k < front.len() && single::is_less(
                    (#[trigger] front[k]).confidence.bits,
                    limit,
                );
            assert(single::is_less(group[k].confidence.bits, limit));
        }
        if exists|k: int|
            0 <= k < group.len() && single::is_less((#[trigger] group[k]).confidence.bits, limit) {
            let k = choose|k: int|
                0 <= k < group.len() && single::is_less(
                    (#[trigger] group[k]).confidence.bits,
                    limit,
                );
            if k < front.len() {
                assert(single::is_less(front[k].confidence.bits, limit));
            }
        }
        lemma_lowest_number(front);
    }
}

proof fn lemma_lowest_number(group: Seq<FindingView>)
    ensures
        !single::is_nan(ai::lowest_confidence(group)),
    decreases group.len(),
{
    if group.len() > 0 {
        lemma_lowest_number(group.drop_last());
    }
}

proof fn lemma_worth(
    group: Seq<FindingView>,
    findings: Seq<FindingView>,
    relationships: Seq<RelationshipView>,
    given: Seq<PartView>,
)
    requires
        are_all_at(group, findings, given),
    ensures
        is_worth_asking(findings, relationships, given) <==> ai::any_large(group)
            || single::is_less(ai::lowest_confidence(group), 0x3F73_3333) || ai::any_related(
            relationships,
            given,
        ),
{
    lemma_lowest(group, 0x3F73_3333);
    assert forall|k: int| 0 <= k < group.len() implies is_at(
        #[trigger] group[k],
        findings,
        given,
    ) by {
        assert(group.contains(group[k]));
    }
    assert forall|finding: FindingView| #[trigger]
        is_at(finding, findings, given) implies exists|k: int|
        0 <= k < group.len() && #[trigger] group[k] == finding by {
        assert(group.contains(finding));
    }
    if ai::any_large(group) {
        let k = choose|k: int|
            0 <= k < group.len() && (#[trigger] group[k]).category == FindingCategory::LargeItem;
        assert(is_at(group[k], findings, given));
    }
    if single::is_less(ai::lowest_confidence(group), 0x3F73_3333) {
        let k = choose|k: int|
            0 <= k < group.len() && single::is_less(
                (#[trigger] group[k]).confidence.bits,
                0x3F73_3333,
            );
        assert(is_at(group[k], findings, given));
    }
    if ai::any_related(relationships, given) {
        let r = choose|r: int|
            0 <= r < relationships.len() && crate::relationships::other_end(
                #[trigger] relationships[r],
                given,
            ) is Some;
        assert(relationships[r].source_path == given || relationships[r].target_path == given);
    }
    if exists|r: int|
        0 <= r < relationships.len() && ((#[trigger] relationships[r]).source_path == given
            || relationships[r].target_path == given) {
        let r = choose|r: int|
            0 <= r < relationships.len() && ((#[trigger] relationships[r]).source_path == given
                || relationships[r].target_path == given);
        assert(crate::relationships::other_end(relationships[r], given) is Some);
    }
}

/// Whether an item is the last of a scan with a path.
pub open spec fn is_last_at(items: Seq<ItemView>, at: int, given: Seq<PartView>) -> bool {
    &&& 0 <= at < items.len()
    &&& items[at].path == given
    &&& forall|later: int| at < later < items.len() ==> (#[trigger] items[later]).path != given
}

proof fn lemma_item_at(items: Seq<ItemView>, given: Seq<PartView>, count: int) -> (at: int)
    requires
        0 <= count <= items.len(),
    ensures
        index::item_at(items, given, count) is Some ==> 0 <= at < count && items[at].path == given
            && index::item_at(items, given, count) == Some(items[at]) && forall|later: int|
            at < later < count ==> (#[trigger] items[later]).path != given,
        index::item_at(items, given, count) is None ==> forall|i: int|
            0 <= i < count ==> (#[trigger] items[i]).path != given,
    decreases count,
{
    if count <= 0 {
        0
    } else if items[count - 1].path == given {
        count - 1
    } else {
        lemma_item_at(items, given, count - 1)
    }
}

/// Whether a candidate tells of an item what was scanned of it, with the days
/// between its last modification and the end of the scan.
pub open spec fn tells_item(candidate: CandidateView, item: ItemView, scan: ScanView) -> bool {
    &&& candidate.path == item.path
    &&& candidate.size_bytes == item.size_bytes
    &&& candidate.allocated_size_bytes == item.allocated_size_bytes
    &&& candidate.modified_days_ago is Some == item.modified_at_epoch_seconds is Some
    &&& item.modified_at_epoch_seconds matches Some(modified) ==> {
        let seconds = scan.completed_at_epoch_seconds - modified;
        candidate.modified_days_ago->Some_0 == if seconds > 0 {
            seconds / 86400
        } else {
            0
        }
    }
}

/// Every candidate is an item of the scan that a finding is about and that is
/// worth a question.
pub proof fn law_only_items_worth_asking_are_shortlisted(
    scan: ScanView,
    findings: Seq<FindingView>,
    groups: Seq<GroupView>,
    relationships: Seq<RelationshipView>,
    maximum: nat,
    place: int,
)
    requires
        0 <= place < ai::shortlist(scan, findings, groups, relationships, maximum).len(),
    ensures
        ({
            let candidate = ai::shortlist(scan, findings, groups, relationships, maximum)[place];
            &&& is_worth_asking(findings, relationships, candidate.path)
            &&& exists|finding: FindingView| #[trigger]
                is_at(finding, findings, candidate.path) && finding.spelling == candidate.spelling
            &&& exists|at: int| #[trigger]
                is_last_at(scan.items, at, candidate.path) && tells_item(
                    candidate,
                    scan.items[at],
                    scan,
                )
            &&& !candidate.protected
        }),
{
    let all = whole_list(scan, findings, groups, relationships);
    let candidate = ai::shortlist(scan, findings, groups, relationships, maximum)[place];
    let group = lemma_made_of(scan, findings, groups, relationships, place);
    lemma_worth(group, findings, relationships, candidate.path);
    assert(group.contains(group[0]));
    assert(is_at(group[0], findings, candidate.path));
    let at = lemma_item_at(scan.items, candidate.path, scan.items.len() as int);
    assert(is_last_at(scan.items, at, candidate.path));
}

/// Where there is room left on the shortlist, every item of the scan that a
/// finding is about and that is worth a question is on it.
pub proof fn law_all_items_worth_asking_are_shortlisted(
    scan: ScanView,
    findings: Seq<FindingView>,
    groups: Seq<GroupView>,
    relationships: Seq<RelationshipView>,
    maximum: nat,
    finding: FindingView,
)
    requires
        findings.contains(finding),
        is_worth_asking(findings, relationships, finding.path),
        exists|i: int| 0 <= i < scan.items.len() && (#[trigger] scan.items[i]).path == finding.path,
        ai::shortlist(scan, findings, groups, relationships, maximum).len() < maximum,
    ensures
        exists|place: int|
            0 <= place < ai::shortlist(scan, findings, groups, relationships, maximum).len() && (
            #[trigger] ai::shortlist(
                scan,
                findings,
                groups,
                relationships,
                maximum,
            )[place]).path == finding.path,
{
    let le = ai::finding_path_order();
    let sorted = order::sorted(findings, le);
    let gathered = ai::by_path(sorted);
    let all = whole_list(scan, findings, groups, relationships);
    let list = ai::shortlist(scan, findings, groups, relationships, maximum);
    scanner::lemma_path_ranking(|one: FindingView| one.path, le);
    order::lemma_sorted_contains(findings, finding, le);
    let i = choose|i: int| 0 <= i < sorted.len() && sorted[i] == finding;
    let (g, k) = lemma_group_has(sorted, i);
    lemma_group_is_all(findings, g);
    order::law_sorted_is_an_ordered_permutation(findings, le);
    lemma_groups(sorted);
    assert(gathered[g][k].path == gathered[g][0].path);
    lemma_worth(gathered[g], findings, relationships, finding.path);
    let at = lemma_item_at(scan.items, finding.path, scan.items.len() as int);
    assert(ai::candidate_of(scan, gathered[g], groups, relationships) is Some);
    let one = ai::candidate_of(scan, gathered[g], groups, relationships)->Some_0;
    lemma_ranked_has(scan, gathered, groups, relationships, gathered.len() as int, g);
    ai::lemma_ranked_order();
    order::lemma_sorted_contains(
        ai::ranked(scan, gathered, groups, relationships, gathered.len() as int),
        one,
        ai::ranked_order(),
    );
    let place = choose|place: int| 0 <= place < all.len() && all[place] == one;
    assert(list[place].path == finding.path);
}

/// A shorter shortlist is the beginning of a longer one: what is left out
/// comes behind what is kept.
pub proof fn law_a_shortlist_is_cut_off_behind(
    scan: ScanView,
    findings: Seq<FindingView>,
    groups: Seq<GroupView>,
    relationships: Seq<RelationshipView>,
    fewer: nat,
    more: nat,
)
    requires
        fewer <= more,
    ensures
        ({
            let short = ai::shortlist(scan, findings, groups, relationships, fewer);
            let long = ai::shortlist(scan, findings, groups, relationships, more);
            &&& short.is_prefix_of(long)
            &&& short.len() == fewer || short.len() == long.len()
        }),
{
    let short = ai::shortlist(scan, findings, groups, relationships, fewer);
    let long = ai::shortlist(scan, findings, groups, relationships, more);
    assert(short =~= long.subrange(0, short.len() as int));
}

proof fn lemma_largest(group: Seq<FindingView>)
    ensures
        forall|k: int|
            0 <= k < group.len() ==> (#[trigger] group[k]).potential_recovery_bytes
                <= ai::largest_recovery(group),
        group.len() > 0 ==> exists|k: int|
            0 <= k < group.len() && (#[trigger] group[k]).potential_recovery_bytes
                == ai::largest_recovery(group),
    decreases group.len(),
{
    if group.len() > 0 {
        let front = group.drop_last();
        lemma_largest(front);
        assert(group[group.len() - 1] == group.last());
        assert forall|k: int| 0 <= k < group.len() implies (
        #[trigger] group[k]).potential_recovery_bytes <= ai::largest_recovery(group) by {
            if k < front.len() {
                assert(front[k] == group[k]);
            }
        }
        if group.last().potential_recovery_bytes <= ai::largest_recovery(front) {
            if front.len() > 0 {
                let k = choose|k: int|
                    0 <= k < front.len() && (#[trigger] front[k]).potential_recovery_bytes
                        == ai::largest_recovery(front);
                assert(group[k].potential_recovery_bytes == ai::largest_recovery(group));
            } else {
                assert(group[group.len() - 1].potential_recovery_bytes == ai::largest_recovery(
                    group,
                ));
            }
        }
    }
}

/// Candidates come by the most that a finding says they recover, the most
/// first, and then in the order of their paths.
pub proof fn law_the_best_candidates_come_first(
    scan: ScanView,
    findings: Seq<FindingView>,
    groups: Seq<GroupView>,
    relationships: Seq<RelationshipView>,
    maximum: nat,
    first: int,
    second: int,
)
    requires
        0 <= first < second < ai::shortlist(
            scan,
            findings,
            groups,
            relationships,
            maximum,
        ).len(),
    ensures
        ({
            let list = ai::shortlist(scan, findings, groups, relationships, maximum);
            exists|best: FindingView|
                {
                    &&& #[trigger] is_at(best, findings, list[first].path)
                    &&& forall|other: FindingView| #[trigger]
                        is_at(other, findings, list[second].path)
                            ==> other.potential_recovery_bytes <= best.potential_recovery_bytes
                    &&& (exists|other: FindingView| #[trigger]
                        is_at(other, findings, list[second].path)
                            && other.potential_recovery_bytes == best.potential_recovery_bytes)
                        ==> path::at_most(list[first].path, list[second].path)
                }
        }),
{
    let all = whole_list(scan, findings, groups, relationships);
    let list = ai::shortlist(scan, findings, groups, relationships, maximum);
    let gathered = ai::by_path(order::sorted(findings, ai::finding_path_order()));
    let found = ai::ranked(scan, gathered, groups, relationships, gathered.len() as int);
    let le = ai::ranked_order();
    ai::lemma_ranked_order();
    order::law_sorted_is_an_ordered_permutation(found, le);
    assert(le(all[first], all[second]));
    let one = lemma_made_of(scan, findings, groups, relationships, first);
    let other = lemma_made_of(scan, findings, groups, relationships, second);
    lemma_largest(one);
    lemma_largest(other);
    let k = choose|k: int|
        0 <= k < one.len() && (#[trigger] one[k]).potential_recovery_bytes == ai::largest_recovery(
            one,
        );
    let best = one[k];
    assert(one.contains(best));
    assert(is_at(best, findings, list[first].path));
    assert forall|each: FindingView| #[trigger]
        is_at(each, findings, list[second].path) implies each.potential_recovery_bytes
        <= best.potential_recovery_bytes by {
        assert(other.contains(each));
        let j = choose|j: int| 0 <= j < other.len() && other[j] == each;
        assert(other[j].potential_recovery_bytes <= ai::largest_recovery(other));
    }
    if exists|each: FindingView| #[trigger]
        is_at(each, findings, list[second].path) && each.potential_recovery_bytes
            == best.potential_recovery_bytes {
        let each = choose|each: FindingView| #[trigger]
            is_at(each, findings, list[second].path) && each.potential_recovery_bytes
                == best.potential_recovery_bytes;
        assert(other.contains(each));
        let j = choose|j: int| 0 <= j < other.len() && other[j] == each;
        assert(other[j].potential_recovery_bytes <= ai::largest_recovery(other));
    }
}

proof fn lemma_highest(group: Seq<FindingView>)
    requires
        group.len() > 0,
    ensures
        forall|k: int|
            0 <= k < group.len() ==> ai::risk_rank((#[trigger] group[k]).risk) <= ai::risk_rank(
                ai::highest_risk(group),
            ),
        exists|k: int| 0 <= k < group.len() && (#[trigger] group[k]).risk == ai::highest_risk(group),
    decreases group.len(),
{
    assert(group[group.len() - 1] == group.last());
    if group.len() == 1 {
        assert(group[0].risk == ai::highest_risk(group));
    } else {
        let front = group.drop_last();
        lemma_highest(front);
        assert forall|k: int| 0 <= k < group.len() implies ai::risk_rank(
            (#[trigger] group[k]).risk,
        ) <= ai::risk_rank(ai::highest_risk(group)) by {
            if k < front.len() {
                assert(front[k] == group[k]);
            }
        }
        let k = choose|k: int|
            0 <= k < front.len() && (#[trigger] front[k]).risk == ai::highest_risk(front);
        assert(group[k].risk == ai::highest_risk(front));
    }
}

proof fn lemma_distinct(categories: Seq<FindingCategory>)
    requires
        order::is_ordered(categories, ai::category_order()),
    ensures
        forall|one: FindingCategory| #[trigger]
            ai::distinct(categories).contains(one) <==> categories.contains(one),
        forall|i: int, j: int|
            0 <= i < j < ai::distinct(categories).len() ==> verdicts::place_among(
                #[trigger] ai::distinct(categories)[i],
            ) < verdicts::place_among(#[trigger] ai::distinct(categories)[j]),
        categories.len() > 0 ==> ai::distinct(categories).len() > 0 && ai::distinct(
            categories,
        ).last() == categories.last(),
    decreases categories.len(),
{
    let all = ai::distinct(categories);
    if categories.len() == 0 {
        assert(all =~= Seq::<FindingCategory>::empty());
    } else {
        let le = ai::category_order();
        let front = categories.drop_last();
        let last = categories.last();
        assert forall|i: int, j: int| 0 <= i < j < front.len() implies #[trigger] le(
            front[i],
            front[j],
        ) by {
            assert(le(categories[i], categories[j]));
        }
        lemma_distinct(front);
        let before = ai::distinct(front);
        assert(categories[categories.len() - 1] == last);
        assert forall|one: FindingCategory| #[trigger]
            all.contains(one) <==> categories.contains(one) by {
            if categories.contains(one) {
                let k = choose|k: int| 0 <= k < categories.len() && categories[k] == one;
                if k < front.len() {
                    assert(front[k] == one);
                    assert(before.contains(one));
                    let j = choose|j: int| 0 <= j < before.len() && before[j] == one;
                    assert(all[j] == one);
                } else {
                    assert(all[all.len() - 1] == one);
                }
            }
            if all.contains(one) {
                let j = choose|j: int| 0 <= j < all.len() && all[j] == one;
                if j < before.len() {
                    assert(before[j] == one);
                    assert(before.contains(one));
                    let k = choose|k: int| 0 <= k < front.len() && front[k] == one;
                    assert(categories[k] == one);
                }
            }
        }
        if front.len() > 0 {
            assert(le(categories[front.len() - 1], categories[categories.len() - 1]));
        }
    }
}

proof fn lemma_deduplicated(lines: Seq<Seq<char>>)
    requires
        order::is_ordered(lines, text::text_order()),
    ensures
        forall|one: Seq<char>| #[trigger]
            text::deduplicated(lines).contains(one) <==> lines.contains(one),
        forall|i: int, j: int|
            0 <= i < j < text::deduplicated(lines).len() ==> text::text_at_most(
                #[trigger] text::deduplicated(lines)[i],
                #[trigger] text::deduplicated(lines)[j],
            ) && text::deduplicated(lines)[i] != text::deduplicated(lines)[j],
        lines.len() > 0 ==> text::deduplicated(lines).len() > 0 && text::deduplicated(lines).last()
            == lines.last(),
    decreases lines.len(),
{
    let all = text::deduplicated(lines);
    if lines.len() == 0 {
        assert(all =~= Seq::<Seq<char>>::empty());
    } else {
        let le = text::text_order();
        let front = lines.drop_last();
        let last = lines.last();
        assert forall|i: int, j: int| 0 <= i < j < front.len() implies #[trigger] le(
            front[i],
            front[j],
        ) by {
            assert(le(lines[i], lines[j]));
        }
        lemma_deduplicated(front);
        let before = text::deduplicated(front);
        assert(lines[lines.len() - 1] == last);
        assert forall|one: Seq<char>| #[trigger] all.contains(one) <==> lines.contains(one) by {
            if lines.contains(one) {
                let k = choose|k: int| 0 <= k < lines.len() && lines[k] == one;
                if k < front.len() {
                    assert(front[k] == one);
                    assert(before.contains(one));
                    let j = choose|j: int| 0 <= j < before.len() && before[j] == one;
                    assert(all[j] == one);
                } else {
                    assert(all[all.len() - 1] == one);
                }
            }
            if all.contains(one) {
                let j = choose|j: int| 0 <= j < all.len() && all[j] == one;
                if j < before.len() {
                    assert(before[j] == one);
                    assert(before.contains(one));
                    let k = choose|k: int| 0 <= k < front.len() && front[k] == one;
                    assert(lines[k] == one);
                }
            }
        }
        assert forall|i: int, j: int| 0 <= i < j < all.len() implies text::text_at_most(
            #[trigger] all[i],
            #[trigger] all[j],
        ) && all[i] != all[j] by {
            if j < before.len() {
                assert(all[i] == before[i] && all[j] == before[j]);
            } else {
                assert(all[i] == before[i]);
                assert(le(lines[front.len() - 1], lines[lines.len() - 1]));
                assert(le(before.last(), last));
                text::lemma_text_order();
                if i < before.len() - 1 {
                    assert(text::text_at_most(before[i], before[before.len() - 1]));
                    assert(le(before[i], before.last()));
                    if before[i] == last {
                        lemma_text_same(before.last(), last);
                    }
                }
            }
        }
    }
}

proof fn lemma_text_same(left: Seq<char>, right: Seq<char>)
    requires
        text::text_at_most(left, right),
        text::text_at_most(right, left),
    ensures
        left == right,
{
    path::lemma_byte_order();
    order::lemma_lexicographic_total(
        text::bytes_of(left),
        text::bytes_of(right),
        order::byte_order(),
    );
    vstd::utf8::encode_utf8_decode_utf8(left);
    vstd::utf8::encode_utf8_decode_utf8(right);
}

proof fn lemma_evidence(group: Seq<FindingView>, line: Seq<char>)
    ensures
        ai::evidence_of(group).contains(line) <==> exists|k: int|
            0 <= k < group.len() && (#[trigger] group[k]).evidence.contains(line),
    decreases group.len(),
{
    let all = ai::evidence_of(group);
    if group.len() > 0 {
        let front = group.drop_last();
        lemma_evidence(front, line);
        let before = ai::evidence_of(front);
        let last = group.last();
        assert(group[group.len() - 1] == last);
        if all.contains(line) {
            let i = choose|i: int| 0 <= i < all.len() && all[i] == line;
            if i < before.len() {
                assert(before[i] == line);
                let k = choose|k: int|
                    0 <= k < front.len() && (#[trigger] front[k]).evidence.contains(line);
                assert(group[k].evidence.contains(line));
            } else {
                assert(last.evidence[i - before.len()] == line);
                assert(group[group.len() - 1].evidence.contains(line));
            }
        }
        if exists|k: int|
            0 <= k < group.len() && (#[trigger] group[k]).evidence.contains(line) {
            let k = choose|k: int|
                0 <= k < group.len() && (#[trigger] group[k]).evidence.contains(line);
            if k < front.len() {
                assert(front[k].evidence.contains(line));
                let i = choose|i: int| 0 <= i < before.len() && before[i] == line;
                assert(all[i] == line);
            } else {
                let i = choose|i: int| 0 <= i < last.evidence.len() && last.evidence[i] == line;
                assert(all[before.len() + i] == line);
            }
        }
    }
}

/// A candidate tells what all findings at its path say: the highest risk,
/// every category once in the order of the categories, and every line of
/// evidence once in the order of the texts.
#[verifier::spinoff_prover]
pub proof fn law_a_candidate_tells_what_its_findings_say(
    scan: ScanView,
    findings: Seq<FindingView>,
    groups: Seq<GroupView>,
    relationships: Seq<RelationshipView>,
    maximum: nat,
    place: int,
    category: FindingCategory,
    line: Seq<char>,
)
    requires
        0 <= place < ai::shortlist(scan, findings, groups, relationships, maximum).len(),
    ensures
        ({
            let candidate = ai::shortlist(scan, findings, groups, relationships, maximum)[place];
            let risk = candidate.deterministic_risk;
            let categories = candidate.deterministic_categories;
            let evidence = candidate.deterministic_evidence;
            &&& forall|finding: FindingView| #[trigger]
                is_at(finding, findings, candidate.path) ==> (finding.risk is High ==> risk is High)
                    && (finding.risk is Medium ==> !(risk is Low))
            &&& exists|finding: FindingView| #[trigger]
                is_at(finding, findings, candidate.path) && finding.risk == risk
            &&& categories.contains(category) <==> exists|finding: FindingView| #[trigger]
                is_at(finding, findings, candidate.path) && finding.category == category
            &&& forall|i: int, j: int|
                0 <= i < j < categories.len() ==> verdicts::place_among(#[trigger] categories[i])
                    < verdicts::place_among(#[trigger] categories[j])
            &&& evidence.contains(line) <==> exists|finding: FindingView| #[trigger]
                is_at(finding, findings, candidate.path) && finding.evidence.contains(line)
            &&& forall|i: int, j: int|
                0 <= i < j < evidence.len() ==> text::text_at_most(
                    #[trigger] evidence[i],
                    #[trigger] evidence[j],
                ) && evidence[i] != evidence[j]
        }),
{
    let candidate = ai::shortlist(scan, findings, groups, relationships, maximum)[place];
    let group = lemma_made_of(scan, findings, groups, relationships, place);
    let given = candidate.path;
    assert forall|k: int| 0 <= k < group.len() implies is_at(
        #[trigger] group[k],
        findings,
        given,
    ) by {
        assert(group.contains(group[k]));
    }
    assert forall|finding: FindingView| #[trigger]
        is_at(finding, findings, given) implies exists|k: int|
        0 <= k < group.len() && #[trigger] group[k] == finding by {
        assert(group.contains(finding));
    }
    lemma_highest(group);
    let top = choose|k: int|
        0 <= k < group.len() && (#[trigger] group[k]).risk == ai::highest_risk(group);
    assert(is_at(group[top], findings, given));
    let plain = ai::categories_of(group);
    assert(order::is_ranking(ai::category_order()));
    order::law_sorted_is_an_ordered_permutation(plain, ai::category_order());
    order::lemma_sorted_contains(plain, category, ai::category_order());
    lemma_distinct(order::sorted(plain, ai::category_order()));
    if plain.contains(category) {
        let k = choose|k: int| 0 <= k < plain.len() && plain[k] == category;
        assert(is_at(group[k], findings, given));
    }
    if exists|finding: FindingView| #[trigger]
        is_at(finding, findings, given) && finding.category == category {
        let finding = choose|finding: FindingView| #[trigger]
            is_at(finding, findings, given) && finding.category == category;
        let k = choose|k: int| 0 <= k < group.len() && #[trigger] group[k] == finding;
        assert(plain[k] == category);
    }
    let lines = ai::evidence_of(group);
    text::lemma_text_order();
    order::law_sorted_is_an_ordered_permutation(lines, text::text_order());
    order::lemma_sorted_contains(lines, line, text::text_order());
    lemma_deduplicated(order::sorted(lines, text::text_order()));
    lemma_evidence(group, line);
    if lines.contains(line) {
        let k = choose|k: int|
            0 <= k < group.len() && (#[trigger] group[k]).evidence.contains(line);
        assert(is_at(group[k], findings, given));
    }
    if exists|finding: FindingView| #[trigger]
        is_at(finding, findings, given) && finding.evidence.contains(line) {
        let finding = choose|finding: FindingView| #[trigger]
            is_at(finding, findings, given) && finding.evidence.contains(line);
        let k = choose|k: int| 0 <= k < group.len() && #[trigger] group[k] == finding;
        assert(group[k].evidence.contains(line));
    }
}

proof fn lemma_copies(groups: Seq<GroupView>, given: Seq<PartView>, from: int, at: int)
    requires
        0 <= from <= at < groups.len(),
        ai::group_holds(groups[at], given),
        forall|i: int| from <= i < at ==> !ai::group_holds(#[trigger] groups[i], given),
    ensures
        ai::duplicate_count(groups, given, from) == if groups[at].unique_file_count > 0 {
            groups[at].unique_file_count - 1
        } else {
            0
        },
    decreases at - from,
{
    if from < at {
        assert(!ai::group_holds(groups[from], given));
        lemma_copies(groups, given, from + 1, at);
    }
}

proof fn lemma_no_copies(groups: Seq<GroupView>, given: Seq<PartView>, from: int)
    requires
        0 <= from <= groups.len(),
        forall|i: int| from <= i < groups.len() ==> !ai::group_holds(#[trigger] groups[i], given),
    ensures
        ai::duplicate_count(groups, given, from) == 0,
    decreases groups.len() - from,
{
    if from < groups.len() {
        lemma_no_copies(groups, given, from + 1);
    }
}

/// Whether a group of duplicates has an entry with a path.
pub open spec fn has_entry(group: GroupView, given: Seq<PartView>) -> bool {
    exists|e: int| 0 <= e < group.entries.len() && (#[trigger] group.entries[e]).path == given
}

/// A candidate counts the further copies in the first group of duplicates that
/// it is in, and none where it is in no group.
pub proof fn law_a_candidate_counts_its_copies(
    scan: ScanView,
    findings: Seq<FindingView>,
    groups: Seq<GroupView>,
    relationships: Seq<RelationshipView>,
    maximum: nat,
    place: int,
    at: int,
)
    requires
        0 <= place < ai::shortlist(scan, findings, groups, relationships, maximum).len(),
        ({
            let given = ai::shortlist(scan, findings, groups, relationships, maximum)[place].path;
            forall|i: int| 0 <= i < at ==> !has_entry(#[trigger] groups[i], given)
        }),
        0 <= at <= groups.len(),
    ensures
        ({
            let candidate = ai::shortlist(scan, findings, groups, relationships, maximum)[place];
            &&& at == groups.len() ==> candidate.exact_duplicate_count == 0
            &&& at < groups.len() && has_entry(groups[at], candidate.path)
                && groups[at].unique_file_count > 0 ==> candidate.exact_duplicate_count
                == groups[at].unique_file_count - 1
        }),
{
    let candidate = ai::shortlist(scan, findings, groups, relationships, maximum)[place];
    let group = lemma_made_of(scan, findings, groups, relationships, place);
    assert forall|i: int| 0 <= i < groups.len() implies ai::group_holds(
        #[trigger] groups[i],
        candidate.path,
    ) == has_entry(groups[i], candidate.path) by {}
    if at == groups.len() {
        lemma_no_copies(groups, candidate.path, 0);
    } else if has_entry(groups[at], candidate.path) {
        lemma_copies(groups, candidate.path, 0, at);
    }
}

proof fn lemma_related(
    relationships: Seq<RelationshipView>,
    given: Seq<PartView>,
    count: int,
    r: int,
)
    requires
        0 <= r < count <= relationships.len(),
        relationships[r].source_path == given || relationships[r].target_path == given,
    ensures
        exists|k: int|
            {
                &&& 0 <= k < ai::related_items(relationships, given, count).len()
                &&& (#[trigger] ai::related_items(relationships, given, count)[k]).kind
                    == relationships[r].kind
                &&& ai::related_items(relationships, given, count)[k].path == if relationships[r].source_path
                    == given {
                    relationships[r].target_path
                } else {
                    relationships[r].source_path
                }
            },
    decreases count,
{
    let before = ai::related_items(relationships, given, count - 1);
    let after = ai::related_items(relationships, given, count);
    if r == count - 1 {
        assert(after[after.len() - 1].kind == relationships[r].kind);
    } else {
        lemma_related(relationships, given, count - 1, r);
        let k = choose|k: int|
            {
                &&& 0 <= k < before.len()
                &&& (#[trigger] before[k]).kind == relationships[r].kind
                &&& before[k].path == if relationships[r].source_path == given {
                    relationships[r].target_path
                } else {
                    relationships[r].source_path
                }
            };
        assert(after[k].kind == relationships[r].kind);
    }
}

/// A candidate lists the other end of every relationship that it is an end of.
pub proof fn law_a_candidate_lists_what_it_is_related_to(
    scan: ScanView,
    findings: Seq<FindingView>,
    groups: Seq<GroupView>,
    relationships: Seq<RelationshipView>,
    maximum: nat,
    place: int,
    r: int,
)
    requires
        0 <= place < ai::shortlist(scan, findings, groups, relationships, maximum).len(),
        0 <= r < relationships.len(),
        ({
            let given = ai::shortlist(scan, findings, groups, relationships, maximum)[place].path;
            relationships[r].source_path == given || relationships[r].target_path == given
        }),
    ensures
        ({
            let candidate = ai::shortlist(scan, findings, groups, relationships, maximum)[place];
            exists|k: int|
                {
                    &&& 0 <= k < candidate.related_items.len()
                    &&& (#[trigger] candidate.related_items[k]).kind == relationships[r].kind
                    &&& candidate.related_items[k].path == if relationships[r].source_path
                        == candidate.path {
                        relationships[r].target_path
                    } else {
                        relationships[r].source_path
                    }
                }
        }),
{
    let candidate = ai::shortlist(scan, findings, groups, relationships, maximum)[place];
    let group = lemma_made_of(scan, findings, groups, relationships, place);
    lemma_related(relationships, candidate.path, relationships.len() as int, r);
    let all = candidate.related_items;
    assert(all == ai::related_items(relationships, candidate.path, relationships.len() as int));
    let k = choose|k: int|
        {
            &&& 0 <= k < all.len()
            &&& (#[trigger] all[k]).kind == relationships[r].kind
            &&& all[k].path == if relationships[r].source_path == candidate.path {
                relationships[r].target_path
            } else {
                relationships[r].source_path
            }
        };
    assert(candidate.related_items[k].kind == relationships[r].kind);
}

proof fn lemma_ranked_distinct(
    scan: ScanView,
    gathered: Seq<Seq<FindingView>>,
    groups: Seq<GroupView>,
    relationships: Seq<RelationshipView>,
    count: int,
)
    requires
        0 <= count <= gathered.len(),
        forall|g: int, h: int|
            0 <= g < h < gathered.len() ==> (#[trigger] gathered[g])[0].path != (
            #[trigger] gathered[h])[0].path,
    ensures
        ai::ranked(scan, gathered, groups, relationships, count).no_duplicates(),
    decreases count,
{
    if count > 0 {
        lemma_ranked_distinct(scan, gathered, groups, relationships, count - 1);
        let before = ai::ranked(scan, gathered, groups, relationships, count - 1);
        let after = ai::ranked(scan, gathered, groups, relationships, count);
        if after.len() > before.len() {
            assert forall|k: int| 0 <= k < before.len() implies before[k] != after.last() by {
                assert(before.contains(before[k]));
                let g = lemma_ranked_source(
                    scan,
                    gathered,
                    groups,
                    relationships,
                    count - 1,
                    before[k],
                );
                assert(gathered[g][0].path != gathered[count - 1][0].path);
            }
        }
    }
}

/// No item is asked about twice: the paths of the candidates differ.
pub proof fn law_no_item_is_asked_about_twice(
    scan: ScanView,
    findings: Seq<FindingView>,
    groups: Seq<GroupView>,
    relationships: Seq<RelationshipView>,
    maximum: nat,
    first: int,
    second: int,
)
    requires
        0 <= first < second < ai::shortlist(
            scan,
            findings,
            groups,
            relationships,
            maximum,
        ).len(),
    ensures
        ai::shortlist(scan, findings, groups, relationships, maximum)[first].path
            != ai::shortlist(scan, findings, groups, relationships, maximum)[second].path,
{
    broadcast use vstd::seq_lib::group_to_multiset_ensures;

    let path_order = ai::finding_path_order();
    let sorted = order::sorted(findings, path_order);
    let gathered = ai::by_path(sorted);
    let count = gathered.len() as int;
    let found = ai::ranked(scan, gathered, groups, relationships, count);
    let all = whole_list(scan, findings, groups, relationships);
    scanner::lemma_path_ranking(|one: FindingView| one.path, path_order);
    order::law_sorted_is_an_ordered_permutation(findings, path_order);
    lemma_groups(sorted);
    lemma_ranked_distinct(scan, gathered, groups, relationships, count);
    ai::lemma_ranked_order();
    order::law_sorted_is_an_ordered_permutation(found, ai::ranked_order());
    found.lemma_multiset_has_no_duplicates();
    all.lemma_multiset_has_no_duplicates_conv();
    assert(all[first] != all[second]);
    assert(all.contains(all[first]) && all.contains(all[second]));
    order::lemma_sorted_contains(found, all[first], ai::ranked_order());
    order::lemma_sorted_contains(found, all[second], ai::ranked_order());
    let g = lemma_ranked_source(scan, gathered, groups, relationships, count, all[first]);
    let h = lemma_ranked_source(scan, gathered, groups, relationships, count, all[second]);
    if g < h {
        assert(gathered[g][0].path != gathered[h][0].path);
    } else if h < g {
        assert(gathered[h][0].path != gathered[g][0].path);
    }
}

} // verus!
