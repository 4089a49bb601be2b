//! Explanations by a local model: which items to ask about, and what of the
//! answer to keep.

use crate::endpoint;
use crate::index;
use crate::index::PathIndex;
use crate::model;
use crate::model::{
    AiCategory, AiExplanation, AiReport, AiReportView, AiStatus, AiStatusView, AiSuggestedAction,
    CERTAINTY_100, CERTAINTY_95, Confidence, DuplicateGroup, DuplicateReport, ExplanationView,
    Finding, FindingCategory, FindingView, GroupView, Relationship, RelationshipKind,
    RelationshipReport, RelationshipView, RiskLevel, ScanResult, ScanView,
};
use crate::order;
use crate::order::Ranking;
use crate::path;
use crate::path::{FilePath, GivenView, PartView};
use crate::policy;
use crate::progress::{AnalysisPhase, EventView, ProgressEvent};
use crate::relationships;
use crate::rules;
use crate::scanner;
use crate::single;
use crate::text;
use vstd::prelude::*;

verus! {

/// The most candidates that one request asks about.
pub const MAX_CANDIDATES_PER_REQUEST: usize = 32;

/// The longest explanation that is kept, in characters.
pub const MAX_REASON_CHARACTERS: usize = 600;

#[derive(Debug)]
pub struct OllamaOptions {
    pub endpoint: String,
    pub model: String,
    pub maximum_candidates: usize,
    pub timeout_seconds: u64,
}

impl Default for OllamaOptions {
    fn default() -> (result: Self)
        ensures
            result.endpoint@ == "http://127.0.0.1:11434"@,
            result.model@ == "qwen3:4b"@,
            result.maximum_candidates == 8,
            result.timeout_seconds == 90,
    {
        OllamaOptions {
            endpoint: "http://127.0.0.1:11434".to_owned(),
            model: "qwen3:4b".to_owned(),
            maximum_candidates: 8,
            timeout_seconds: 90,
        }
    }
}

#[derive(Debug, PartialEq, Eq)]
pub struct RelatedItemContext {
    pub kind: RelationshipKind,
    pub path: FilePath,
    pub confidence_percent: u8,
}

#[verifier::ext_equal]
pub struct RelatedView {
    pub kind: RelationshipKind,
    pub path: Seq<PartView>,
    pub spelling: Seq<u8>,
    pub confidence_percent: u8,
}

impl View for RelatedItemContext {
    type V = RelatedView;

    open spec fn view(&self) -> RelatedView {
        RelatedView {
            kind: self.kind,
            path: self.path@,
            spelling: self.path.spelling(),
            confidence_percent: self.confidence_percent,
        }
    }
}

/// What a model is told of an item: metadata, never contents.
#[derive(Debug, PartialEq, Eq)]
pub struct AiCandidateContext {
    pub candidate_id: u64,
    pub path: FilePath,
    pub size_bytes: u64,
    pub allocated_size_bytes: Option<u64>,
    pub modified_days_ago: Option<u64>,
    pub deterministic_categories: Vec<FindingCategory>,
    pub deterministic_risk: RiskLevel,
    pub deterministic_confidence_percent: u8,
    pub deterministic_evidence: Vec<String>,
    pub related_items: Vec<RelatedItemContext>,
    pub exact_duplicate_count: u64,
    pub protected: bool,
}

#[verifier::ext_equal]
pub struct CandidateView {
    pub candidate_id: u64,
    pub path: Seq<PartView>,
    pub spelling: Seq<u8>,
    pub size_bytes: u64,
    pub allocated_size_bytes: Option<u64>,
    pub modified_days_ago: Option<u64>,
    pub deterministic_categories: Seq<FindingCategory>,
    pub deterministic_risk: RiskLevel,
    pub deterministic_confidence_percent: u8,
    pub deterministic_evidence: Seq<Seq<char>>,
    pub related_items: Seq<RelatedView>,
    pub exact_duplicate_count: u64,
    pub protected: bool,
}

impl View for AiCandidateContext {
    type V = CandidateView;

    open spec fn view(&self) -> CandidateView {
        CandidateView {
            candidate_id: self.candidate_id,
            path: self.path@,
            spelling: self.path.spelling(),
            size_bytes: self.size_bytes,
            allocated_size_bytes: self.allocated_size_bytes,
            modified_days_ago: self.modified_days_ago,
            deterministic_categories: self.deterministic_categories@,
            deterministic_risk: self.deterministic_risk,
            deterministic_confidence_percent: self.deterministic_confidence_percent,
            deterministic_evidence: order::views(self.deterministic_evidence@),
            related_items: order::views(self.related_items@),
            exact_duplicate_count: self.exact_duplicate_count,
            protected: self.protected,
        }
    }
}

pub open spec fn finding_path_order() -> spec_fn(FindingView, FindingView) -> bool {
    |left: FindingView, right: FindingView| path::at_most(left.path, right.path)
}

/// Findings sorted by path, gathered by path.
pub open spec fn by_path(findings: Seq<FindingView>) -> Seq<Seq<FindingView>>
    decreases findings.len(),
{
    if findings.len() == 0 {
        Seq::empty()
    } else {
        let before = by_path(findings.drop_last());
        let finding = findings.last();
        if before.len() > 0 && before.last()[0].path == finding.path {
            before.update(before.len() - 1, before.last().push(finding))
        } else {
            before.push(seq![finding])
        }
    }
}

pub open spec fn any_large(findings: Seq<FindingView>) -> bool {
    exists|i: int|
        0 <= i < findings.len() && (#[trigger] findings[i]).category == FindingCategory::LargeItem
}

/// The least of full confidence and that of the findings, in bits. What is no
/// number does not count.
pub open spec fn lowest_confidence(findings: Seq<FindingView>) -> u32
    decreases findings.len(),
{
    if findings.len() == 0 {
        CERTAINTY_100
    } else {
        let before = lowest_confidence(findings.drop_last());
        if single::is_less(findings.last().confidence.bits, before) {
            findings.last().confidence.bits
        } else {
            before
        }
    }
}

pub open spec fn any_related(relationships: Seq<RelationshipView>, given: Seq<PartView>) -> bool {
    exists|i: int|
        0 <= i < relationships.len() && relationships::other_end(
            #[trigger] relationships[i],
            given,
        ) is Some
}

pub open spec fn risk_rank(risk: RiskLevel) -> int {
    match risk {
        RiskLevel::Low => 0,
        RiskLevel::Medium => 1,
        RiskLevel::High => 2,
    }
}

/// The highest risk of some findings; without any it is high.
pub open spec fn highest_risk(findings: Seq<FindingView>) -> RiskLevel
    decreases findings.len(),
{
    if findings.len() == 0 {
        RiskLevel::High
    } else if findings.len() == 1 {
        findings[0].risk
    } else {
        let before = highest_risk(findings.drop_last());
        if risk_rank(findings.last().risk) >= risk_rank(before) {
            findings.last().risk
        } else {
            before
        }
    }
}

pub open spec fn categories_of(findings: Seq<FindingView>) -> Seq<FindingCategory> {
    Seq::new(findings.len(), |i: int| findings[i].category)
}

pub open spec fn category_order() -> spec_fn(FindingCategory, FindingCategory) -> bool {
    |left: FindingCategory, right: FindingCategory|
        rules::category_rank(left) <= rules::category_rank(right)
}

/// A list without the categories that repeat the one in front of them.
pub open spec fn distinct(categories: Seq<FindingCategory>) -> Seq<FindingCategory>
    decreases categories.len(),
{
    if categories.len() == 0 {
        Seq::empty()
    } else {
        let kept = distinct(categories.drop_last());
        if kept.len() > 0 && kept.last() == categories.last() {
            kept
        } else {
            kept.push(categories.last())
        }
    }
}

pub open spec fn evidence_of(findings: Seq<FindingView>) -> Seq<Seq<char>>
    decreases findings.len(),
{
    if findings.len() == 0 {
        Seq::empty()
    } else {
        evidence_of(findings.drop_last()) + findings.last().evidence
    }
}

/// What the first relationships connect an item to.
pub open spec fn related_items(
    relationships: Seq<RelationshipView>,
    given: Seq<PartView>,
    count: int,
) -> Seq<RelatedView>
    decreases count,
{
    if count <= 0 {
        Seq::empty()
    } else {
        let before = related_items(relationships, given, count - 1);
        let relationship = relationships[count - 1];
        match relationships::other_end(relationship, given) {
            Some(other) => before.push(
                RelatedView {
                    kind: relationship.kind,
                    path: other.path,
                    spelling: other.spelling,
                    confidence_percent: relationship.confidence.spec_rounded_percent() as u8,
                },
            ),
            None => before,
        }
    }
}

/// Whether a group holds a name.
pub open spec fn group_holds(group: GroupView, given: Seq<PartView>) -> bool {
    exists|i: int| 0 <= i < group.entries.len() && (#[trigger] group.entries[i]).path == given
}

/// How many further copies the first group that holds a name has.
pub open spec fn duplicate_count(groups: Seq<GroupView>, given: Seq<PartView>, from: int) -> u64
    decreases groups.len() - from,
{
    if from < 0 || from >= groups.len() {
        0
    } else if group_holds(groups[from], given) {
        if groups[from].unique_file_count > 0 {
            (groups[from].unique_file_count - 1) as u64
        } else {
            0
        }
    } else {
        duplicate_count(groups, given, from + 1)
    }
}

pub open spec fn largest_recovery(findings: Seq<FindingView>) -> u64
    decreases findings.len(),
{
    if findings.len() == 0 {
        0
    } else {
        let before = largest_recovery(findings.drop_last());
        if findings.last().potential_recovery_bytes > before {
            findings.last().potential_recovery_bytes
        } else {
            before
        }
    }
}

pub open spec fn days_before(completed: u64, modified: Option<u64>) -> Option<u64> {
    match modified {
        Some(time) => Some(
            (if completed >= time {
                (completed - time) as u64
            } else {
                0u64
            }) / 86_400,
        ),
        None => None,
    }
}

/// A candidate with what it may recover.
#[verifier::ext_equal]
pub struct RankedView {
    pub recovery: u64,
    pub candidate: CandidateView,
}

/// The findings of one path as a candidate: those that are clear by
/// themselves, and those of items that were not scanned, are none.
pub open spec fn candidate_of(
    scan: ScanView,
    findings: Seq<FindingView>,
    groups: Seq<GroupView>,
    relationships: Seq<RelationshipView>,
) -> Option<RankedView> {
    let given = findings[0].path;
    if !any_large(findings) && !single::is_less(
        lowest_confidence(findings),
        CERTAINTY_95,
    ) && !any_related(relationships, given) {
        None
    } else {
        match index::item_at(scan.items, given, scan.items.len() as int) {
            None => None,
            Some(item) => Some(
                RankedView {
                    recovery: largest_recovery(findings),
                    candidate: CandidateView {
                        candidate_id: 0,
                        path: given,
                        spelling: findings[0].spelling,
                        size_bytes: item.size_bytes,
                        allocated_size_bytes: item.allocated_size_bytes,
                        modified_days_ago: days_before(
                            scan.completed_at_epoch_seconds,
                            item.modified_at_epoch_seconds,
                        ),
                        deterministic_categories: distinct(
                            order::sorted(categories_of(findings), category_order()),
                        ),
                        deterministic_risk: highest_risk(findings),
                        deterministic_confidence_percent: (Confidence {
                            bits: lowest_confidence(findings),
                        }).spec_rounded_percent() as u8,
                        deterministic_evidence: text::deduplicated(
                            order::sorted(evidence_of(findings), text::text_order()),
                        ),
                        related_items: related_items(
                            relationships,
                            given,
                            relationships.len() as int,
                        ),
                        exact_duplicate_count: duplicate_count(groups, given, 0),
                        protected: false,
                    },
                },
            ),
        }
    }
}

/// The candidates among the first gathered findings.
pub open spec fn ranked(
    scan: ScanView,
    gathered: Seq<Seq<FindingView>>,
    groups: Seq<GroupView>,
    relationships: Seq<RelationshipView>,
    count: int,
) -> Seq<RankedView>
    decreases count,
{
    if count <= 0 {
        Seq::empty()
    } else {
        let before = ranked(scan, gathered, groups, relationships, count - 1);
        match candidate_of(scan, gathered[count - 1], groups, relationships) {
            Some(candidate) => before.push(candidate),
            None => before,
        }
    }
}

/// Candidates by what they may recover, the most first, then by path.
pub open spec fn ranked_at_most(left: RankedView, right: RankedView) -> bool {
    if left.recovery != right.recovery {
        left.recovery > right.recovery
    } else {
        path::at_most(left.candidate.path, right.candidate.path)
    }
}

pub open spec fn ranked_order() -> spec_fn(RankedView, RankedView) -> bool {
    |left: RankedView, right: RankedView| ranked_at_most(left, right)
}

/// The candidates to ask about, the largest recovery first, numbered from one.
pub open spec fn shortlist(
    scan: ScanView,
    findings: Seq<FindingView>,
    groups: Seq<GroupView>,
    relationships: Seq<RelationshipView>,
    maximum: nat,
) -> Seq<CandidateView> {
    let gathered = by_path(order::sorted(findings, finding_path_order()));
    let all = order::sorted(
        ranked(scan, gathered, groups, relationships, gathered.len() as int),
        ranked_order(),
    );
    let count = if all.len() < maximum {
        all.len()
    } else {
        maximum
    };
    Seq::new(count, |i: int| CandidateView { candidate_id: (i + 1) as u64, ..all[i].candidate })
}

struct FindingPathOrder;

impl<'a> Ranking<&'a Finding> for FindingPathOrder {
    closed spec fn at_most(&self, left: FindingView, right: FindingView) -> bool {
        path::at_most(left.path, right.path)
    }

    proof fn ranks(&self) {
        scanner::lemma_path_ranking(
            |one: FindingView| one.path,
            |left: FindingView, right: FindingView| Ranking::<&'a Finding>::at_most(
                self,
                left,
                right,
            ),
        );
    }

    fn not_after(&self, left: &&'a Finding, right: &&'a Finding) -> (result: bool) {
        left.path.not_after(&right.path)
    }
}

struct PathFindings<'a> {
    list: Vec<&'a Finding>,
}

impl<'a> View for PathFindings<'a> {
    type V = Seq<FindingView>;

    closed spec fn view(&self) -> Seq<FindingView> {
        order::views(self.list@)
    }
}

proof fn lemma_by_path_filled(findings: Seq<FindingView>)
    ensures
        forall|i: int| 0 <= i < by_path(findings).len() ==> (#[trigger] by_path(findings)[i]).len() > 0,
    decreases findings.len(),
{
    if findings.len() > 0 {
        lemma_by_path_filled(findings.drop_last());
        let before = by_path(findings.drop_last());
        let after = by_path(findings);
        assert forall|i: int| 0 <= i < after.len() implies (#[trigger] after[i]).len() > 0 by {
            if i < before.len() {
                assert(before[i].len() > 0);
            }
        }
    }
}

fn gather_by_path<'a>(sorted: Vec<&'a Finding>) -> (result: Vec<PathFindings<'a>>)
    ensures
        order::views(result@) == by_path(order::views(sorted@)),
{
    let ghost all = order::views(sorted@);
    let ghost source = sorted@;
    let mut gathered: Vec<PathFindings<'a>> = Vec::new();
    assert(order::views(gathered@) =~= by_path(all.take(0)));
    for finding in it: sorted
        invariant
            it.seq() == source,
            all == order::views(source),
            order::views(gathered@) == by_path(all.take(it.index())),
    {
        let ghost before = order::views(gathered@);
        proof {
            assert(all.take(it.index() + 1).drop_last() =~= all.take(it.index()));
            assert(all[it.index()] == finding@);
            lemma_by_path_filled(all.take(it.index()));
        }
        let joins = if gathered.len() > 0 {
            let last = &gathered[gathered.len() - 1];
            assert(last@ == before.last());
            assert(last@.len() > 0);
            last.list[0].path.same(&finding.path)
        } else {
            false
        };
        if joins {
            match gathered.pop() {
                Some(mut group) => {
                    proof {
                        order::lemma_views_push(group.list@, finding);
                    }
                    group.list.push(finding);
                    proof {
                        order::lemma_views_push(gathered@, group);
                        assert(order::views(gathered@) =~= before.drop_last());
                        assert(before.drop_last().push(group@) =~= before.update(
                            before.len() - 1,
                            group@,
                        ));
                    }
                    gathered.push(group);
                },
                None => {},
            }
        } else {
            let mut list: Vec<&'a Finding> = Vec::new();
            list.push(finding);
            let group = PathFindings { list };
            assert(group@ =~= seq![finding@]);
            proof {
                order::lemma_views_push(gathered@, group);
            }
            gathered.push(group);
        }
    }
    assert(all.take(all.len() as int) =~= all);
    gathered
}

/// What the findings of one path say together.
struct Digest {
    large: bool,
    confidence: u32,
    risk: RiskLevel,
    recovery: u64,
    categories: Vec<FindingCategory>,
    evidence: Vec<String>,
}

struct CategoryOrder;

impl Ranking<FindingCategory> for CategoryOrder {
    closed spec fn at_most(&self, left: FindingCategory, right: FindingCategory) -> bool {
        rules::category_rank(left) <= rules::category_rank(right)
    }

    proof fn ranks(&self) {
    }

    fn not_after(&self, left: &FindingCategory, right: &FindingCategory) -> (result: bool) {
        rules::rank_of_category(*left) <= rules::rank_of_category(*right)
    }
}

impl View for FindingCategory {
    type V = FindingCategory;

    open spec fn view(&self) -> FindingCategory {
        *self
    }
}

fn rank_of_risk(risk: RiskLevel) -> (result: u8)
    ensures
        result == risk_rank(risk),
{
    match risk {
        RiskLevel::Low => 0,
        RiskLevel::Medium => 1,
        RiskLevel::High => 2,
    }
}

fn distinct_categories(categories: Vec<FindingCategory>) -> (result: Vec<FindingCategory>)
    ensures
        result@ == distinct(categories@),
{
    let mut kept: Vec<FindingCategory> = Vec::new();
    let mut at: usize = 0;
    assert(kept@ =~= distinct(categories@.take(0)));
    while at < categories.len()
        invariant
            at <= categories@.len(),
            kept@ == distinct(categories@.take(at as int)),
        decreases categories@.len() - at,
    {
        assert(categories@.take(at + 1).drop_last() =~= categories@.take(at as int));
        let category = categories[at];
        let repeats = kept.len() > 0 && kept[kept.len() - 1] == category;
        if !repeats {
            kept.push(category);
        }
        at = at + 1;
    }
    assert(categories@.take(at as int) =~= categories@);
    kept
}

fn digest(findings: &Vec<&Finding>) -> (result: Digest)
    ensures
        ({
            let all = order::views(findings@);
            &&& result.large == any_large(all)
            &&& result.confidence == lowest_confidence(all)
            &&& result.risk == highest_risk(all)
            &&& result.recovery == largest_recovery(all)
            &&& result.categories@ == distinct(
                order::sorted(categories_of(all), category_order()),
            )
            &&& order::views(result.evidence@) == text::deduplicated(
                order::sorted(evidence_of(all), text::text_order()),
            )
        }),
{
    let ghost all = order::views(findings@);
    let mut large = false;
    let mut confidence: u32 = CERTAINTY_100;
    let mut risk = RiskLevel::High;
    let mut recovery: u64 = 0;
    let mut categories: Vec<FindingCategory> = Vec::new();
    let mut evidence: Vec<String> = Vec::new();
    let mut at: usize = 0;
    proof {
        assert(order::views(evidence@) =~= evidence_of(all.take(0)));
        assert(categories@ =~= categories_of(all.take(0)));
    }
    while at < findings.len()
        invariant
            at <= findings@.len(),
            all == order::views(findings@),
            large == any_large(all.take(at as int)),
            confidence == lowest_confidence(all.take(at as int)),
            risk == highest_risk(all.take(at as int)),
            recovery == largest_recovery(all.take(at as int)),
            categories@ == categories_of(all.take(at as int)),
            order::views(evidence@) == evidence_of(all.take(at as int)),
        decreases findings@.len() - at,
    {
        let finding = findings[at];
        let ghost before = all.take(at as int);
        let ghost after = all.take(at + 1);
        proof {
            assert(after.drop_last() =~= before);
            assert(after.last() == finding@);
            if any_large(before) {
                let i = choose|i: int|
                    0 <= i < before.len() && (#[trigger] before[i]).category
                        == FindingCategory::LargeItem;
                assert(after[i].category == FindingCategory::LargeItem);
            }
            if finding@.category == FindingCategory::LargeItem {
                assert(after[at as int].category == FindingCategory::LargeItem);
            }
            if any_large(after) {
                let i = choose|i: int|
                    0 <= i < after.len() && (#[trigger] after[i]).category
                        == FindingCategory::LargeItem;
                if i < at {
                    assert(before[i].category == FindingCategory::LargeItem);
                }
            }
        }
        if finding.category == FindingCategory::LargeItem {
            large = true;
        }
        if single::less(finding.confidence.bits, confidence) {
            confidence = finding.confidence.bits;
        }
        if at == 0 || rank_of_risk(finding.risk) >= rank_of_risk(risk) {
            risk = finding.risk;
        }
        if finding.potential_recovery_bytes > recovery {
            recovery = finding.potential_recovery_bytes;
        }
        categories.push(finding.category);
        assert(categories@ =~= categories_of(after));
        let ghost lines = order::views(evidence@);
        let mut more = text::copy_lines(finding.evidence.as_slice());
        let ghost old_lines = evidence@;
        let ghost new_lines = more@;
        evidence.append(&mut more);
        assert(order::views(evidence@) =~= order::views(old_lines) + order::views(new_lines));
        at = at + 1;
    }
    assert(all.take(at as int) =~= all);
    proof {
        assert(order::relation::<FindingCategory, CategoryOrder>(CategoryOrder)
            =~= category_order());
        assert(order::relation::<String, text::TextOrder>(text::TextOrder) =~= text::text_order());
        assert(order::views(categories@) =~= categories@);
    }
    let sorted = order::sort_by_ranking(categories, &CategoryOrder);
    assert(order::views(sorted@) =~= sorted@);
    let categories = distinct_categories(sorted);
    let sorted_lines = order::sort_by_ranking(evidence, &text::TextOrder);
    let evidence = text::deduplicate(sorted_lines);
    Digest { large, confidence, risk, recovery, categories, evidence }
}

fn collect_related(list: &Vec<Relationship>, given: &FilePath) -> (result: Vec<RelatedItemContext>)
    ensures
        order::views(result@) == related_items(order::views(list@), given@, list@.len() as int),
        (result@.len() > 0) == any_related(order::views(list@), given@),
{
    let ghost all = order::views(list@);
    let mut related: Vec<RelatedItemContext> = Vec::new();
    let mut at: usize = 0;
    assert(order::views(related@) =~= related_items(all, given@, 0));
    while at < list.len()
        invariant
            at <= list@.len(),
            all == order::views(list@),
            order::views(related@) == related_items(all, given@, at as int),
            related@.len() > 0 <==> exists|i: int|
                0 <= i < at && relationships::other_end(#[trigger] all[i], given@) is Some,
        decreases list@.len() - at,
    {
        let relationship = &list[at];
        assert(all[at as int] == relationship@);
        let other = if relationship.source_path.same(given) {
            Some(&relationship.target_path)
        } else if relationship.target_path.same(given) {
            Some(&relationship.source_path)
        } else {
            None
        };
        if let Some(path) = other {
            let context = RelatedItemContext {
                kind: relationship.kind,
                path: path.clone(),
                confidence_percent: relationship.confidence.rounded_percent(),
            };
            proof {
                order::lemma_views_push(related@, context);
                assert(relationships::other_end(all[at as int], given@) is Some);
            }
            related.push(context);
        }
        at = at + 1;
    }
    related
}

fn count_duplicates(groups: &Vec<DuplicateGroup>, given: &FilePath) -> (result: u64)
    ensures
        result == duplicate_count(order::views(groups@), given@, 0),
{
    let ghost all = order::views(groups@);
    let mut at: usize = 0;
    while at < groups.len()
        invariant
            at <= groups@.len(),
            all == order::views(groups@),
            duplicate_count(all, given@, 0) == duplicate_count(all, given@, at as int),
        decreases groups@.len() - at,
    {
        let group = &groups[at];
        assert(all[at as int] == group@);
        if holds(group, given) {
            return group.unique_file_count.saturating_sub(1);
        }
        at = at + 1;
    }
    0
}

fn holds(group: &DuplicateGroup, given: &FilePath) -> (result: bool)
    ensures
        result == group_holds(group@, given@),
{
    let ghost all = group@.entries;
    let mut at: usize = 0;
    while at < group.entries.len()
        invariant
            at <= group.entries@.len(),
            all == order::views(group.entries@),
            forall|i: int| 0 <= i < at ==> (#[trigger] all[i]).path != given@,
        decreases group.entries@.len() - at,
    {
        assert(all[at as int] == group.entries@[at as int]@);
        if group.entries[at].path.same(given) {
            return true;
        }
        at = at + 1;
    }
    false
}

struct Ranked {
    recovery: u64,
    candidate: AiCandidateContext,
}

impl View for Ranked {
    type V = RankedView;

    closed spec fn view(&self) -> RankedView {
        RankedView { recovery: self.recovery, candidate: self.candidate@ }
    }
}

struct RankedOrder;

pub proof fn lemma_ranked_order()
    ensures
        order::is_ranking(ranked_order()),
{
    let le = ranked_order();
    assert forall|a: RankedView, b: RankedView| #[trigger] le(a, b) || le(b, a) by {
        path::law_paths_are_totally_ordered(a.candidate.path, b.candidate.path);
    }
    assert forall|a: RankedView, b: RankedView, c: RankedView| #[trigger] le(a, b) && #[trigger] le(
        b,
        c,
    ) implies le(a, c) by {
        if path::at_most(a.candidate.path, b.candidate.path) && path::at_most(
            b.candidate.path,
            c.candidate.path,
        ) {
            path::lemma_at_most_transitive(
                a.candidate.path,
                b.candidate.path,
                c.candidate.path,
            );
        }
    }
}

impl Ranking<Ranked> for RankedOrder {
    closed spec fn at_most(&self, left: RankedView, right: RankedView) -> bool {
        ranked_at_most(left, right)
    }

    proof fn ranks(&self) {
        lemma_ranked_order();
        assert(ranked_order() =~= |left: RankedView, right: RankedView| self.at_most(left, right));
    }

    fn not_after(&self, left: &Ranked, right: &Ranked) -> (result: bool) {
        if left.recovery != right.recovery {
            left.recovery > right.recovery
        } else {
            left.candidate.path.not_after(&right.candidate.path)
        }
    }
}

fn make_candidate(
    scan: &ScanResult,
    index: &PathIndex,
    findings: &Vec<&Finding>,
    duplicates: &DuplicateReport,
    connections: &RelationshipReport,
) -> (result: Option<Ranked>)
    requires
        findings@.len() > 0,
        index.all() == scan@.items,
    ensures
        model::optional(result) == candidate_of(
            scan@,
            order::views(findings@),
            duplicates@.groups,
            connections@.relationships,
        ),
{
    let ghost all = order::views(findings@);
    let given = &findings[0].path;
    assert(given@ == all[0].path);
    let summary = digest(findings);
    let related = collect_related(&connections.relationships, given);
    if !summary.large && !single::less(summary.confidence, CERTAINTY_95) && related.len() == 0 {
        return None;
    }
    match index.find(given) {
        None => None,
        Some(item) => {
            let modified_days_ago = match item.modified_at_epoch_seconds {
                Some(modified) => Some(
                    scan.completed_at_epoch_seconds.saturating_sub(modified) / 86_400,
                ),
                None => None,
            };
            Some(
                Ranked {
                    recovery: summary.recovery,
                    candidate: AiCandidateContext {
                        candidate_id: 0,
                        path: given.clone(),
                        size_bytes: item.size_bytes,
                        allocated_size_bytes: item.allocated_size_bytes,
                        modified_days_ago,
                        deterministic_categories: summary.categories,
                        deterministic_risk: summary.risk,
                        deterministic_confidence_percent: Confidence {
                            bits: summary.confidence,
                        }.rounded_percent(),
                        deterministic_evidence: summary.evidence,
                        related_items: related,
                        exact_duplicate_count: count_duplicates(&duplicates.groups, given),
                        protected: false,
                    },
                },
            )
        },
    }
}

/// Selects the candidates that a model is asked about.
pub fn shortlist_candidates(
    scan: &ScanResult,
    findings: &[Finding],
    duplicates: &DuplicateReport,
    connections: &RelationshipReport,
    maximum_candidates: usize,
) -> (result: Vec<AiCandidateContext>)
    ensures
        order::views(result@) == shortlist(
            scan@,
            order::views(findings@),
            duplicates@.groups,
            connections@.relationships,
            maximum_candidates as nat,
        ),
{
    let ghost all = order::views(findings@);
    let mut references: Vec<&Finding> = Vec::new();
    let mut at: usize = 0;
    assert(order::views(references@) =~= all.take(0));
    while at < findings.len()
        invariant
            at <= findings@.len(),
            all == order::views(findings@),
            order::views(references@) == all.take(at as int),
        decreases findings@.len() - at,
    {
        let finding = &findings[at];
        proof {
            order::lemma_views_push(references@, finding);
            assert(all.take(at + 1) =~= all.take(at as int).push(all[at as int]));
        }
        references.push(finding);
        at = at + 1;
    }
    assert(all.take(at as int) =~= all);
    proof {
        assert(order::relation::<&Finding, FindingPathOrder>(FindingPathOrder)
            =~= finding_path_order());
        assert(order::relation::<Ranked, RankedOrder>(RankedOrder) =~= ranked_order());
    }
    let sorted = order::sort_by_ranking(references, &FindingPathOrder);
    let gathered = gather_by_path(sorted);
    let ghost groups = order::views(gathered@);
    proof {
        lemma_by_path_filled(order::sorted(all, finding_path_order()));
    }
    let index = PathIndex::new(&scan.items);
    let mut list: Vec<Ranked> = Vec::new();
    let mut next: usize = 0;
    assert(order::views(list@) =~= ranked(
        scan@,
        groups,
        duplicates@.groups,
        connections@.relationships,
        0,
    ));
    while next < gathered.len()
        invariant
            next <= gathered@.len(),
            groups == order::views(gathered@),
            index.all() == scan@.items,
            forall|i: int| 0 <= i < groups.len() ==> (#[trigger] groups[i]).len() > 0,
            order::views(list@) == ranked(
                scan@,
                groups,
                duplicates@.groups,
                connections@.relationships,
                next as int,
            ),
        decreases gathered@.len() - next,
    {
        assert(groups[next as int] == gathered@[next as int]@);
        assert(groups[next as int].len() > 0);
        if let Some(candidate) = make_candidate(
            scan,
            &index,
            &gathered[next].list,
            duplicates,
            connections,
        ) {
            proof {
                order::lemma_views_push(list@, candidate);
            }
            list.push(candidate);
        }
        next = next + 1;
    }
    let sorted_list = order::sort_by_ranking(list, &RankedOrder);
    number_candidates(sorted_list, maximum_candidates)
}

fn number_candidates(list: Vec<Ranked>, maximum: usize) -> (result: Vec<AiCandidateContext>)
    ensures
        order::views(result@) == Seq::new(
            if list@.len() < maximum {
                list@.len()
            } else {
                maximum as nat
            },
            |i: int|
                CandidateView {
                    candidate_id: (i + 1) as u64,
                    ..order::views(list@)[i].candidate
                },
        ),
{
    let ghost all = order::views(list@);
    let ghost source = list@;
    let total: usize = list.len();
    let count: usize = if total < maximum {
        total
    } else {
        maximum
    };
    let ghost whole = Seq::new(
        count as nat,
        |i: int| CandidateView { candidate_id: (i + 1) as u64, ..all[i].candidate },
    );
    let mut result: Vec<AiCandidateContext> = Vec::new();
    let mut at: usize = 0;
    assert(order::views(result@) =~= whole.take(0));
    for ranked in it: list
        invariant
            it.seq() == source,
            total == source.len(),
            all == order::views(source),
            at == it.index(),
            count <= total,
            whole == Seq::new(
                count as nat,
                |i: int| CandidateView { candidate_id: (i + 1) as u64, ..all[i].candidate },
            ),
            order::views(result@) == whole.take(
                if at < count {
                    at as int
                } else {
                    count as int
                },
            ),
    {
        assert(all[at as int] == ranked@);
        if at < count {
            let mut candidate = ranked.candidate;
            candidate.candidate_id = at as u64 + 1;
            proof {
                order::lemma_views_push(result@, candidate);
                assert(candidate@ == whole[at as int]);
                assert(whole.take(at + 1) =~= whole.take(at as int).push(whole[at as int]));
            }
            result.push(candidate);
        }
        at = at + 1;
    }
    assert(whole.take(count as int) =~= whole);
    result
}

/// What a model said of one candidate.
#[derive(Debug, PartialEq, Eq)]
pub struct ModelExplanation {
    pub candidate_id: u64,
    pub category: AiCategory,
    pub risk: RiskLevel,
    pub confidence: Confidence,
    pub reason: String,
    pub suggested_action: AiSuggestedAction,
}

#[verifier::ext_equal]
pub struct ModelExplanationView {
    pub candidate_id: u64,
    pub category: AiCategory,
    pub risk: RiskLevel,
    pub confidence: Confidence,
    pub reason: Seq<char>,
    pub suggested_action: AiSuggestedAction,
}

impl View for ModelExplanation {
    type V = ModelExplanationView;

    open spec fn view(&self) -> ModelExplanationView {
        ModelExplanationView {
            candidate_id: self.candidate_id,
            category: self.category,
            risk: self.risk,
            confidence: self.confidence,
            reason: self.reason@,
            suggested_action: self.suggested_action,
        }
    }
}

/// The path of the last candidate with a number among the first `count`.
pub open spec fn path_of(candidates: Seq<CandidateView>, id: u64, count: int) -> Option<GivenView>
    decreases count,
{
    if count <= 0 {
        None
    } else if candidates[count - 1].candidate_id == id {
        Some(
            GivenView {
                path: candidates[count - 1].path,
                spelling: candidates[count - 1].spelling,
            },
        )
    } else {
        path_of(candidates, id, count - 1)
    }
}

pub open spec fn any_control(characters: Seq<char>) -> bool {
    exists|i: int| 0 <= i < characters.len() && text::is_control(#[trigger] characters[i])
}

/// Whether an explanation can be shown: some text, not too long and without
/// control characters, and a confidence that is one.
pub open spec fn is_presentable(explanation: ModelExplanationView) -> bool {
    let reason = text::trimmed(explanation.reason);
    &&& 0 < reason.len() <= MAX_REASON_CHARACTERS
    &&& !any_control(reason)
    &&& explanation.confidence.is_share()
}

/// What has been made of a model's answer so far.
#[verifier::ext_equal]
pub struct AnswerState {
    pub seen: Seq<u64>,
    pub explanations: Seq<ExplanationView>,
    pub warnings: Seq<Seq<char>>,
}

/// What becomes of the state with one explanation.
pub open spec fn with_explanation(
    candidates: Seq<CandidateView>,
    state: AnswerState,
    explanation: ModelExplanationView,
) -> AnswerState {
    let id = explanation.candidate_id;
    let number = text::decimal(id as nat);
    match path_of(candidates, id, candidates.len() as int) {
        None => AnswerState {
            warnings: state.warnings.push("model returned unknown candidate_id "@ + number),
            ..state
        },
        Some(given) => if state.seen.contains(id) {
            AnswerState {
                warnings: state.warnings.push(
                    "model returned candidate_id "@ + number + " more than once"@,
                ),
                ..state
            }
        } else if !is_presentable(explanation) {
            AnswerState {
                seen: state.seen.push(id),
                warnings: state.warnings.push(
                    "model returned invalid fields for candidate_id "@ + number,
                ),
                ..state
            }
        } else {
            AnswerState {
                seen: state.seen.push(id),
                explanations: state.explanations.push(
                    ExplanationView {
                        path: given.path,
                        spelling: given.spelling,
                        category: explanation.category,
                        risk: explanation.risk,
                        confidence: explanation.confidence,
                        reason: text::trimmed(explanation.reason),
                        suggested_action: explanation.suggested_action,
                    },
                ),
                ..state
            }
        },
    }
}

/// What becomes of the first explanations.
pub open spec fn answered(
    candidates: Seq<CandidateView>,
    explanations: Seq<ModelExplanationView>,
    warnings: Seq<Seq<char>>,
    count: int,
) -> AnswerState
    decreases count,
{
    if count <= 0 {
        AnswerState { seen: Seq::empty(), explanations: Seq::empty(), warnings }
    } else {
        with_explanation(
            candidates,
            answered(candidates, explanations, warnings, count - 1),
            explanations[count - 1],
        )
    }
}

/// The warnings with one for each of the first candidates that was left out.
pub open spec fn with_omissions(
    candidates: Seq<CandidateView>,
    seen: Seq<u64>,
    warnings: Seq<Seq<char>>,
    count: int,
) -> Seq<Seq<char>>
    decreases count,
{
    if count <= 0 {
        warnings
    } else {
        let before = with_omissions(candidates, seen, warnings, count - 1);
        let id = candidates[count - 1].candidate_id;
        if seen.contains(id) {
            before
        } else {
            before.push("model omitted candidate_id "@ + text::decimal(id as nat))
        }
    }
}

pub open spec fn explanation_order() -> spec_fn(ExplanationView, ExplanationView) -> bool {
    |left: ExplanationView, right: ExplanationView| path::at_most(left.path, right.path)
}

/// The warnings of an answer before it is read.
pub open spec fn early_warnings(done: bool) -> Seq<Seq<char>> {
    if done {
        Seq::empty()
    } else {
        seq!["Ollama did not mark the response as complete"@]
    }
}

/// The explanations that are kept of an answer.
pub open spec fn kept_explanations(
    candidates: Seq<CandidateView>,
    explanations: Seq<ModelExplanationView>,
) -> Seq<ExplanationView> {
    let state = answered(candidates, explanations, Seq::empty(), explanations.len() as int);
    order::sorted(state.explanations, explanation_order())
}

/// What an answer is warned of.
pub open spec fn answer_warnings(
    done: bool,
    candidates: Seq<CandidateView>,
    explanations: Seq<ModelExplanationView>,
) -> Seq<Seq<char>> {
    let state = answered(candidates, explanations, early_warnings(done), explanations.len() as int);
    with_omissions(candidates, state.seen, state.warnings, candidates.len() as int)
}

struct ExplanationOrder;

impl Ranking<AiExplanation> for ExplanationOrder {
    closed spec fn at_most(&self, left: ExplanationView, right: ExplanationView) -> bool {
        path::at_most(left.path, right.path)
    }

    proof fn ranks(&self) {
        scanner::lemma_path_ranking(
            |one: ExplanationView| one.path,
            |left: ExplanationView, right: ExplanationView| self.at_most(left, right),
        );
    }

    fn not_after(&self, left: &AiExplanation, right: &AiExplanation) -> (result: bool) {
        left.path.not_after(&right.path)
    }
}

fn candidate_path<'a>(candidates: &'a Vec<AiCandidateContext>, id: u64) -> (result: Option<
    &'a FilePath,
>)
    ensures
        match result {
            Some(given) => path_of(order::views(candidates@), id, candidates@.len() as int) == Some(
                given.as_given(),
            ),
            None => path_of(order::views(candidates@), id, candidates@.len() as int) is None,
        },
{
    let ghost all = order::views(candidates@);
    let mut left: usize = candidates.len();
    while left > 0
        invariant
            left <= candidates@.len(),
            all == order::views(candidates@),
            path_of(all, id, all.len() as int) == path_of(all, id, left as int),
        decreases left,
    {
        assert(all[left - 1] == candidates@[left - 1]@);
        if candidates[left - 1].candidate_id == id {
            return Some(&candidates[left - 1].path);
        }
        left = left - 1;
    }
    None
}

fn has_control(value: &str) -> (result: bool)
    ensures
        result == any_control(value@),
{
    let characters = text::chars_of(value);
    let mut at: usize = 0;
    while at < characters.len()
        invariant
            at <= characters@.len(),
            characters@ == value@,
            forall|i: int| 0 <= i < at ==> !text::is_control(#[trigger] characters@[i]),
        decreases characters@.len() - at,
    {
        if text::control(characters[at]) {
            return true;
        }
        at = at + 1;
    }
    false
}

fn contains_number(numbers: &Vec<u64>, wanted: u64) -> (result: bool)
    ensures
        result == numbers@.contains(wanted),
{
    let mut at: usize = 0;
    while at < numbers.len()
        invariant
            at <= numbers@.len(),
            forall|i: int| 0 <= i < at ==> numbers@[i] != wanted,
        decreases numbers@.len() - at,
    {
        if numbers[at] == wanted {
            return true;
        }
        at = at + 1;
    }
    false
}

proof fn lemma_warnings_apart(
    candidates: Seq<CandidateView>,
    explanations: Seq<ModelExplanationView>,
    left: Seq<Seq<char>>,
    right: Seq<Seq<char>>,
    count: int,
)
    requires
        0 <= count <= explanations.len(),
    ensures
        answered(candidates, explanations, left, count).explanations == answered(
            candidates,
            explanations,
            right,
            count,
        ).explanations,
        answered(candidates, explanations, left, count).seen == answered(
            candidates,
            explanations,
            right,
            count,
        ).seen,
    decreases count,
{
    if count > 0 {
        lemma_warnings_apart(candidates, explanations, left, right, count - 1);
    }
}

fn push_line(lines: &mut Vec<String>, line: String)
    ensures
        order::views(final(lines)@) == order::views(old(lines)@).push(line@),
{
    proof {
        order::lemma_views_push(lines@, line);
    }
    lines.push(line);
}

/// Keeps of a model's answer what can be shown of the candidates it was asked
/// about, and says what is wrong with the rest.
pub fn validate_output(
    done: bool,
    parsed: Result<Vec<ModelExplanation>, String>,
    candidates: &Vec<AiCandidateContext>,
) -> (result: (Vec<AiExplanation>, Vec<String>))
    ensures
        match parsed {
            Ok(explanations) => {
                &&& order::views(result.0@) == kept_explanations(
                    order::views(candidates@),
                    order::views(explanations@),
                )
                &&& order::views(result.1@) == answer_warnings(
                    done,
                    order::views(candidates@),
                    order::views(explanations@),
                )
            },
            Err(reason) => {
                &&& result.0@.len() == 0
                &&& order::views(result.1@) == early_warnings(done).push(
                    "invalid structured response: "@ + reason@,
                )
            },
        },
{
    let mut warnings: Vec<String> = Vec::new();
    assert(order::views(warnings@) =~= Seq::<Seq<char>>::empty());
    if !done {
        push_line(&mut warnings, "Ollama did not mark the response as complete".to_owned());
    }
    assert(order::views(warnings@) =~= early_warnings(done));
    let output = match parsed {
        Ok(output) => output,
        Err(reason) => {
            push_line(
                &mut warnings,
                text::cat2("invalid structured response: ", reason.as_str()),
            );
            return (Vec::new(), warnings);
        },
    };
    let ghost asked = order::views(candidates@);
    let ghost given = order::views(output@);
    let ghost source = output@;
    let ghost early = early_warnings(done);
    let mut seen: Vec<u64> = Vec::new();
    let mut explanations: Vec<AiExplanation> = Vec::new();
    proof {
        assert(seen@ =~= Seq::<u64>::empty());
        assert(order::views(explanations@) =~= Seq::<ExplanationView>::empty());
    }
    for explanation in it: output
        invariant
            it.seq() == source,
            given == order::views(source),
            asked == order::views(candidates@),
            answered(asked, given, early, it.index()) == (AnswerState {
                seen: seen@,
                explanations: order::views(explanations@),
                warnings: order::views(warnings@),
            }),
    {
        assert(given[it.index()] == explanation@);
        let id: u64 = explanation.candidate_id;
        let number = text::decimal_of(id);
        match candidate_path(candidates, id) {
            None => {
                push_line(
                    &mut warnings,
                    text::cat2("model returned unknown candidate_id ", number.as_str()),
                );
            },
            Some(place) => {
                if contains_number(&seen, id) {
                    push_line(
                        &mut warnings,
                        text::cat3(
                            "model returned candidate_id ",
                            number.as_str(),
                            " more than once",
                        ),
                    );
                } else {
                    seen.push(id);
                    let reason = text::trim(explanation.reason.as_str());
                    let length: usize = text::chars_of(reason.as_str()).len();
                    let confidence = explanation.confidence;
                    let shown = if length == 0 || length > MAX_REASON_CHARACTERS || has_control(
                        reason.as_str(),
                    ) || !confidence.is_between_none_and_full() {
                        None
                    } else {
                        Some(confidence)
                    };
                    match shown {
                        None => {
                            push_line(
                                &mut warnings,
                                text::cat2(
                                    "model returned invalid fields for candidate_id ",
                                    number.as_str(),
                                ),
                            );
                        },
                        Some(confidence) => {
                            let kept = AiExplanation {
                                path: place.clone(),
                                category: explanation.category,
                                risk: explanation.risk,
                                confidence,
                                reason,
                                suggested_action: explanation.suggested_action,
                            };
                            proof {
                                order::lemma_views_push(explanations@, kept);
                            }
                            explanations.push(kept);
                        },
                    }
                }
            },
        }
    }
    let ghost state = answered(asked, given, early, given.len() as int);
    let mut at: usize = 0;
    while at < candidates.len()
        invariant
            at <= candidates@.len(),
            asked == order::views(candidates@),
            seen@ == state.seen,
            order::views(warnings@) == with_omissions(asked, state.seen, state.warnings, at as int),
        decreases candidates@.len() - at,
    {
        assert(asked[at as int] == candidates@[at as int]@);
        let id: u64 = candidates[at].candidate_id;
        if !contains_number(&seen, id) {
            push_line(
                &mut warnings,
                text::cat2("model omitted candidate_id ", text::decimal_of(id).as_str()),
            );
        }
        at = at + 1;
    }
    proof {
        lemma_warnings_apart(asked, given, early, Seq::empty(), given.len() as int);
        assert(order::relation::<AiExplanation, ExplanationOrder>(ExplanationOrder)
            =~= explanation_order());
    }
    let explanations = order::sort_by_ranking(explanations, &ExplanationOrder);
    (explanations, warnings)
}

proof fn lemma_answered_kept(
    candidates: Seq<CandidateView>,
    explanations: Seq<ModelExplanationView>,
    warnings: Seq<Seq<char>>,
    count: int,
)
    requires
        0 <= count <= explanations.len(),
    ensures
        forall|k: int|
            0 <= k < answered(candidates, explanations, warnings, count).explanations.len() ==> {
                let kept = #[trigger] answered(
                    candidates,
                    explanations,
                    warnings,
                    count,
                ).explanations[k];
                &&& !any_control(kept.reason)
                &&& 0 < kept.reason.len() <= MAX_REASON_CHARACTERS
                &&& kept.confidence.is_share()
                &&& exists|c: int|
                    0 <= c < candidates.len() && (#[trigger] candidates[c]).path == kept.path
            },
    decreases count,
{
    if count > 0 {
        lemma_answered_kept(candidates, explanations, warnings, count - 1);
        let before = answered(candidates, explanations, warnings, count - 1);
        let after = answered(candidates, explanations, warnings, count);
        let id = explanations[count - 1].candidate_id;
        lemma_path_of(candidates, id, candidates.len() as int);
        assert forall|k: int| 0 <= k < after.explanations.len() implies ({
            let kept = #[trigger] after.explanations[k];
            &&& !any_control(kept.reason)
            &&& 0 < kept.reason.len() <= MAX_REASON_CHARACTERS
            &&& kept.confidence.is_share()
            &&& exists|c: int|
                0 <= c < candidates.len() && (#[trigger] candidates[c]).path == kept.path
        }) by {
            if k < before.explanations.len() {
                assert(after.explanations[k] == before.explanations[k]);
            }
        }
    }
}

proof fn lemma_path_of(candidates: Seq<CandidateView>, id: u64, count: int)
    requires
        0 <= count <= candidates.len(),
    ensures
        path_of(candidates, id, count) matches Some(given) ==> exists|c: int|
            0 <= c < candidates.len() && (#[trigger] candidates[c]).path == given.path,
    decreases count,
{
    if count > 0 {
        if candidates[count - 1].candidate_id != id {
            lemma_path_of(candidates, id, count - 1);
        }
    }
}

/// Every explanation that is kept is of a candidate that was asked about, and
/// holds no control characters, whatever the model said.
pub proof fn law_kept_explanations_are_presentable(
    candidates: Seq<CandidateView>,
    explanations: Seq<ModelExplanationView>,
    kept: ExplanationView,
)
    requires
        kept_explanations(candidates, explanations).contains(kept),
    ensures
        !any_control(kept.reason),
        0 < kept.reason.len() <= MAX_REASON_CHARACTERS,
        kept.confidence.is_share(),
        exists|c: int| 0 <= c < candidates.len() && (#[trigger] candidates[c]).path == kept.path,
{
    let count = explanations.len() as int;
    let all = answered(candidates, explanations, Seq::empty(), count).explanations;
    lemma_answered_kept(candidates, explanations, Seq::empty(), count);
    scanner::lemma_path_ranking(|one: ExplanationView| one.path, explanation_order());
    order::lemma_sorted_contains(all, kept, explanation_order());
    let k = choose|k: int| 0 <= k < all.len() && all[k] == kept;
    assert(all[k] == kept);
}

/// A model that the service offers.
#[derive(Debug)]
pub struct ModelSummary {
    pub name: String,
    pub model: String,
    pub remote_model: Option<String>,
    pub remote_host: Option<String>,
}

#[verifier::ext_equal]
pub struct ModelSummaryView {
    pub name: Seq<char>,
    pub model: Seq<char>,
    pub remote_model: Option<Seq<char>>,
    pub remote_host: Option<Seq<char>>,
}

impl View for ModelSummary {
    type V = ModelSummaryView;

    open spec fn view(&self) -> ModelSummaryView {
        ModelSummaryView {
            name: self.name@,
            model: self.model@,
            remote_model: model::optional(self.remote_model),
            remote_host: model::optional(self.remote_host),
        }
    }
}

pub open spec fn is_filled(value: Option<Seq<char>>) -> bool {
    match value {
        Some(inner) => inner.len() > 0,
        None => false,
    }
}

pub open spec fn is_remote(summary: ModelSummaryView) -> bool {
    is_filled(summary.remote_model) || is_filled(summary.remote_host)
}

/// The first model with a name, from a position on.
pub open spec fn model_named(models: Seq<ModelSummaryView>, name: Seq<char>, from: int) -> Option<
    ModelSummaryView,
>
    decreases models.len() - from,
{
    if from < 0 || from >= models.len() {
        None
    } else if models[from].name == name || models[from].model == name {
        Some(models[from])
    } else {
        model_named(models, name, from + 1)
    }
}

/// Why a model cannot be asked, where it cannot.
pub open spec fn model_refusal(models: Seq<ModelSummaryView>, name: Seq<char>) -> Option<
    Seq<char>,
> {
    match model_named(models, name, 0) {
        None => Some(
            "model "@ + policy::quoted(name) + " is not installed; run `ollama pull "@ + name
                + "`"@,
        ),
        Some(summary) => if is_remote(summary) {
            Some(
                "model "@ + policy::quoted(name)
                    + " is backed by a remote Ollama service; SpaceMind only allows local models"@,
            )
        } else {
            None
        },
    }
}

/// The report of an analysis that could not be made.
pub open spec fn unavailable(candidate_count: u64, reason: Seq<char>) -> AiReportView {
    AiReportView {
        status: AiStatusView::Unavailable { reason },
        candidates_considered: candidate_count,
        explanations: Seq::empty(),
        warnings: Seq::empty(),
    }
}

fn make_unavailable(candidate_count: u64, reason: String) -> (result: AiReport)
    ensures
        result@ == unavailable(candidate_count, reason@),
{
    let report = AiReport {
        status: AiStatus::Unavailable { reason },
        candidates_considered: candidate_count,
        explanations: Vec::new(),
        warnings: Vec::new(),
    };
    assert(report@ =~= unavailable(candidate_count, reason@));
    report
}

fn filled(value: &Option<String>) -> (result: bool)
    ensures
        result == is_filled(model::optional(*value)),
{
    match value {
        Some(inner) => !inner.as_str().is_empty(),
        None => false,
    }
}

/// Refuses an installed model that is missing or not local; nothing is asked
/// of it then.
pub fn check_models(
    listing: Result<Vec<ModelSummary>, String>,
    endpoint: &str,
    name: &str,
    candidate_count: u64,
) -> (result: Option<AiReport>)
    ensures
        model::optional(result) == match listing {
            Err(reason) => Some(
                unavailable(
                    candidate_count,
                    "Ollama is not available at "@ + endpoint@ + ": "@ + reason@,
                ),
            ),
            Ok(models) => match model_refusal(order::views(models@), name@) {
                Some(reason) => Some(unavailable(candidate_count, reason)),
                None => None,
            },
        },
{
    let models = match listing {
        Ok(models) => models,
        Err(reason) => {
            return Some(
                make_unavailable(
                    candidate_count,
                    text::cat4("Ollama is not available at ", endpoint, ": ", reason.as_str()),
                ),
            );
        },
    };
    let ghost all = order::views(models@);
    let mut at: usize = 0;
    while at < models.len()
        invariant
            at <= models@.len(),
            listing == Ok::<Vec<ModelSummary>, String>(models),
            all == order::views(models@),
            model_named(all, name@, 0) == model_named(all, name@, at as int),
        decreases models@.len() - at,
    {
        let summary = &models[at];
        assert(all[at as int] == summary@);
        if text::same_text(summary.name.as_str(), name) || text::same_text(
            summary.model.as_str(),
            name,
        ) {
            if filled(&summary.remote_model) || filled(&summary.remote_host) {
                return Some(
                    make_unavailable(
                        candidate_count,
                        text::cat3(
                            "model ",
                            policy::quote(name).as_str(),
                            " is backed by a remote Ollama service; SpaceMind only allows local models",
                        ),
                    ),
                );
            }
            return None;
        }
        at = at + 1;
    }
    Some(
        make_unavailable(
            candidate_count,
            text::cat5(
                "model ",
                policy::quote(name).as_str(),
                " is not installed; run `ollama pull ",
                name,
                "`",
            ),
        ),
    )
}

/// The status of an analysis by what was kept and warned of.
pub open spec fn final_status(
    name: Seq<char>,
    explanations: Seq<ExplanationView>,
    warnings: Seq<Seq<char>>,
) -> AiStatusView {
    if warnings.len() == 0 {
        AiStatusView::Complete { model: name }
    } else if explanations.len() == 0 {
        AiStatusView::Unavailable { reason: "the local model returned no valid explanations"@ }
    } else {
        AiStatusView::Partial { model: name }
    }
}

/// What a model answered.
#[derive(Debug)]
pub struct GenerateResponse {
    pub done: bool,
    /// The explanations in the answer, or why they cannot be read.
    pub explanations: Result<Vec<ModelExplanation>, String>,
}

/// The report on a model's answer.
pub open spec fn conclusion(
    name: Seq<char>,
    candidates: Seq<CandidateView>,
    response: Result<GenerateResponse, String>,
) -> AiReportView {
    let count = candidates.len() as u64;
    match response {
        Err(reason) => unavailable(
            count,
            "Ollama could not explain the candidates: "@ + reason@,
        ),
        Ok(answer) => {
            let explanations = match answer.explanations {
                Ok(given) => kept_explanations(candidates, order::views(given@)),
                Err(_) => Seq::empty(),
            };
            let warnings = match answer.explanations {
                Ok(given) => answer_warnings(answer.done, candidates, order::views(given@)),
                Err(reason) => early_warnings(answer.done).push(
                    "invalid structured response: "@ + reason@,
                ),
            };
            AiReportView {
                status: final_status(name, explanations, warnings),
                candidates_considered: count,
                explanations,
                warnings,
            }
        },
    }
}

/// Makes the report on a model's answer.
pub fn conclude(
    name: &str,
    candidates: &Vec<AiCandidateContext>,
    response: Result<GenerateResponse, String>,
) -> (result: AiReport)
    ensures
        result@ == conclusion(name@, order::views(candidates@), response),
{
    let count: u64 = candidates.len() as u64;
    let answer = match response {
        Ok(answer) => answer,
        Err(reason) => {
            return make_unavailable(
                count,
                text::cat2("Ollama could not explain the candidates: ", reason.as_str()),
            );
        },
    };
    let (explanations, warnings) = validate_output(answer.done, answer.explanations, candidates);
    proof {
        if explanations@.len() == 0 {
            assert(order::views(explanations@) =~= Seq::<ExplanationView>::empty());
        }
    }
    let status = if warnings.len() == 0 {
        AiStatus::Complete { model: name.to_owned() }
    } else if explanations.len() == 0 {
        AiStatus::Unavailable {
            reason: "the local model returned no valid explanations".to_owned(),
        }
    } else {
        AiStatus::Partial { model: name.to_owned() }
    };
    let report = AiReport { status, candidates_considered: count, explanations, warnings };
    assert(report@ =~= conclusion(name@, order::views(candidates@), response));
    report
}

#[derive(Debug, Clone, Copy, PartialEq, Eq, Structural)]
pub enum AiError {
    Cancelled,
}

impl AiError {
    /// The error as a sentence.
    pub fn describe(&self) -> (result: String)
        ensures
            result@ == "local AI analysis cancelled"@,
    {
        "local AI analysis cancelled".to_owned()
    }
}

/// Goes on unless the analysis was cancelled.
pub fn proceed_unless(cancelled: bool) -> (result: Result<(), AiError>)
    ensures
        result == if cancelled {
            Err::<(), AiError>(AiError::Cancelled)
        } else {
            Ok::<(), AiError>(())
        },
{
    if cancelled {
        Err(AiError::Cancelled)
    } else {
        Ok(())
    }
}

/// How an analysis starts.
#[derive(Debug)]
pub enum AnalysisStart {
    /// Nothing is asked; this is the report.
    Settled(AiReport),
    /// The candidates are put to the model at the endpoint.
    Ask { endpoint: String, candidates: Vec<AiCandidateContext> },
}

#[verifier::ext_equal]
pub enum StartView {
    Settled(AiReportView),
    Ask { endpoint: Seq<char>, candidates: Seq<CandidateView> },
}

impl View for AnalysisStart {
    type V = StartView;

    open spec fn view(&self) -> StartView {
        match self {
            AnalysisStart::Settled(report) => StartView::Settled(report@),
            AnalysisStart::Ask { endpoint, candidates } => StartView::Ask {
                endpoint: endpoint@,
                candidates: order::views(candidates@),
            },
        }
    }
}

/// How an analysis of a shortlist starts at an endpoint.
pub open spec fn start_of(candidates: Seq<CandidateView>, address: Seq<char>) -> StartView {
    if candidates.len() == 0 {
        StartView::Settled(
            AiReportView {
                status: AiStatusView::NoCandidates,
                candidates_considered: 0,
                explanations: Seq::empty(),
                warnings: Seq::empty(),
            },
        )
    } else {
        match endpoint::local_endpoint(address) {
            Ok(plain) => StartView::Ask { endpoint: plain, candidates },
            Err(reason) => StartView::Settled(unavailable(candidates.len() as u64, reason)),
        }
    }
}

/// Selects the candidates and checks the endpoint, before anything is asked.
pub fn begin_analysis(
    scan: &ScanResult,
    findings: &[Finding],
    duplicates: &DuplicateReport,
    connections: &RelationshipReport,
    options: &OllamaOptions,
) -> (result: AnalysisStart)
    ensures
        result@ == start_of(
            shortlist(
                scan@,
                order::views(findings@),
                duplicates@.groups,
                connections@.relationships,
                if options.maximum_candidates < MAX_CANDIDATES_PER_REQUEST {
                    options.maximum_candidates as nat
                } else {
                    MAX_CANDIDATES_PER_REQUEST as nat
                },
            ),
            options.endpoint@,
        ),
{
    let maximum: usize = if options.maximum_candidates < MAX_CANDIDATES_PER_REQUEST {
        options.maximum_candidates
    } else {
        MAX_CANDIDATES_PER_REQUEST
    };
    let candidates = shortlist_candidates(scan, findings, duplicates, connections, maximum);
    if candidates.len() == 0 {
        let report = AiReport {
            status: AiStatus::NoCandidates,
            candidates_considered: 0,
            explanations: Vec::new(),
            warnings: Vec::new(),
        };
        proof {
            assert(order::views(report.explanations@) =~= Seq::<ExplanationView>::empty());
            assert(order::views(report.warnings@) =~= Seq::<Seq<char>>::empty());
        }
        return AnalysisStart::Settled(report);
    }
    match endpoint::validate_local_endpoint(options.endpoint.as_str()) {
        Ok(endpoint) => AnalysisStart::Ask { endpoint, candidates },
        Err(reason) => AnalysisStart::Settled(
            make_unavailable(candidates.len() as u64, reason),
        ),
    }
}

/// The progress event of explaining candidates.
pub open spec fn explaining_event(processed: u64, total: u64) -> EventView {
    EventView {
        phase: AnalysisPhase::ExplainingCandidates,
        items_processed: processed,
        bytes_processed: 0,
        total_items: Some(total),
        total_bytes: None,
        current_path: None,
    }
}

pub fn make_explaining_event(processed: u64, total: u64) -> (result: ProgressEvent)
    ensures
        result@ == explaining_event(processed, total),
{
    ProgressEvent {
        phase: AnalysisPhase::ExplainingCandidates,
        items_processed: processed,
        bytes_processed: 0,
        total_items: Some(total),
        total_bytes: None,
        current_path: None,
    }
}

/// The most bytes that are read of a reply.
pub const MAX_HTTP_RESPONSE_BYTES: u64 = 1_048_576;

/// Refuses a reply that is longer than what is read of one.
pub fn check_reply_size(length: u64) -> (result: Result<(), String>)
    ensures
        result is Err <==> length > MAX_HTTP_RESPONSE_BYTES,
        match result {
            Ok(_) => true,
            Err(reason) => reason@ == "Ollama response exceeded the 1 MiB safety limit"@,
        },
{
    if length > MAX_HTTP_RESPONSE_BYTES {
        Err("Ollama response exceeded the 1 MiB safety limit".to_owned())
    } else {
        Ok(())
    }
}

/// What is told of a reply that is only a status.
pub fn describe_status(status: u16) -> (result: String)
    ensures
        result@ == "HTTP status "@ + text::decimal(status as nat),
{
    text::cat2("HTTP status ", text::decimal_of(status as u64).as_str())
}

/// How a model is told to answer.
pub open spec fn system_text() -> Seq<char> {
    "You are SpaceMind's local explanation layer. Be concise, conservative, and explicit about uncertainty. Never claim a file is safe to delete. Never request or infer file contents."@
}

pub fn system_prompt() -> (result: &'static str)
    ensures
        result@ == system_text(),
{
    "You are SpaceMind's local explanation layer. Be concise, conservative, and explicit about uncertainty. Never claim a file is safe to delete. Never request or infer file contents."
}

/// What a model is asked, around the schema of its answer and the candidates.
pub open spec fn question(schema: Seq<char>, context: Seq<char>) -> Seq<char> {
    "Explain why each shortlisted filesystem item may exist and whether it is replaceable. Use only the supplied metadata and relationships. Do not infer file contents. Do not authorize deletion. Return exactly one explanation for every candidate_id.\n\nJSON schema:\n"@
        + schema + "\n\nCandidate context:\n"@ + context
}

pub fn prompt(schema: &str, context: &str) -> (result: String)
    ensures
        result@ == question(schema@, context@),
{
    text::cat4(
        "Explain why each shortlisted filesystem item may exist and whether it is replaceable. Use only the supplied metadata and relationships. Do not infer file contents. Do not authorize deletion. Return exactly one explanation for every candidate_id.\n\nJSON schema:\n",
        schema,
        "\n\nCandidate context:\n",
        context,
    )
}

/// A shortlist is no longer than asked for, and its candidates are numbered
/// from one in their order.
pub proof fn law_a_shortlist_is_bounded_and_numbered(
    scan: ScanView,
    findings: Seq<FindingView>,
    groups: Seq<GroupView>,
    relationships: Seq<RelationshipView>,
    maximum: nat,
    place: int,
)
    requires
        0 <= place < shortlist(scan, findings, groups, relationships, maximum).len(),
        maximum <= u64::MAX,
    ensures
        shortlist(scan, findings, groups, relationships, maximum).len() <= maximum,
        shortlist(scan, findings, groups, relationships, maximum)[place].candidate_id == place + 1,
{
}

} // verus!
