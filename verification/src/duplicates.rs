//! Exact duplicates: which files to hash, and what their hashes say.

use crate::hashing;
use crate::model;
use crate::model::{
    DuplicateEntry, DuplicateGroup, DuplicateReport, DuplicateWarning, DuplicateWarningView,
    DuplicatesView, EntryView, FileIdentity, GroupView, ItemKind, ItemView, ScanResult,
    ScannedItem,
};
use crate::order;
use crate::order::Ranking;
use crate::path;
use crate::path::{FilePath, GivenView, PartView};
use crate::policy;
use crate::policy::{
    PathMatcher, PathRule, PathRuleError, PolicyView, RuleErrorView, RuleSetView,
};
use crate::progress::{EventView, ProgressEvent};
use crate::scanner;
use crate::text;
use vstd::prelude::*;

verus! {

#[derive(Debug)]
pub struct DuplicateOptions {
    pub minimum_size_bytes: u64,
    /// Copies that are evidence only.
    pub protected_rules: Vec<PathRule>,
    /// Whether rules match whatever the case of letters.
    pub ignore_case: bool,
}

impl DuplicateOptions {
    pub open spec fn rule_set(&self) -> RuleSetView {
        policy::rule_set(order::views(self.protected_rules@), self.ignore_case)
    }
}

impl Default for DuplicateOptions {
    fn default() -> (result: Self)
        ensures
            result.minimum_size_bytes == 1,
            result.protected_rules@.len() == 0,
            !result.ignore_case,
    {
        DuplicateOptions { minimum_size_bytes: 1, protected_rules: Vec::new(), ignore_case: false }
    }
}

/// Whether a file is large enough to be compared; empty files never are.
pub open spec fn is_candidate(item: ItemView, minimum: u64) -> bool {
    item.kind == ItemKind::File && item.size_bytes > 0 && item.size_bytes >= minimum
}

/// The files among the first `count` items that are large enough.
pub open spec fn candidates(items: Seq<ItemView>, minimum: u64, count: int) -> Seq<ItemView>
    decreases count,
{
    if count <= 0 {
        Seq::empty()
    } else if is_candidate(items[count - 1], minimum) {
        candidates(items, minimum, count - 1).push(items[count - 1])
    } else {
        candidates(items, minimum, count - 1)
    }
}

pub open spec fn identity_at_most(left: FileIdentity, right: FileIdentity) -> bool {
    if left.volume_id != right.volume_id {
        left.volume_id < right.volume_id
    } else {
        left.file_id <= right.file_id
    }
}

/// Files by what is known of their place on disk: those with an identity by
/// it, then the others by path.
pub open spec fn place_at_most(left: ItemView, right: ItemView) -> bool {
    match (left.file_identity, right.file_identity) {
        (Some(a), Some(b)) => identity_at_most(a, b),
        (Some(_), None) => true,
        (None, Some(_)) => false,
        (None, None) => path::at_most(left.path, right.path),
    }
}

/// Whether two names are of one physical file.
pub open spec fn same_place(left: ItemView, right: ItemView) -> bool {
    match (left.file_identity, right.file_identity) {
        (Some(a), Some(b)) => a == b,
        (None, None) => left.path == right.path,
        _ => false,
    }
}

/// Files by size, then by their place on disk.
pub open spec fn candidate_at_most(left: ItemView, right: ItemView) -> bool {
    if left.size_bytes != right.size_bytes {
        left.size_bytes < right.size_bytes
    } else {
        place_at_most(left, right)
    }
}

pub open spec fn candidate_order() -> spec_fn(ItemView, ItemView) -> bool {
    |left: ItemView, right: ItemView| candidate_at_most(left, right)
}

pub proof fn lemma_candidate_order()
    ensures
        order::is_ranking(candidate_order()),
{
    let le = candidate_order();
    assert forall|a: ItemView, b: ItemView| #[trigger] le(a, b) || le(b, a) by {
        path::law_paths_are_totally_ordered(a.path, b.path);
    }
    assert forall|a: ItemView, b: ItemView, c: ItemView| #[trigger] le(a, b) && #[trigger] le(
        b,
        c,
    ) implies le(a, c) by {
        if path::at_most(a.path, b.path) && path::at_most(b.path, c.path) {
            path::lemma_at_most_transitive(a.path, b.path, c.path);
        }
    }
}

/// One physical file with all its names.
#[verifier::ext_equal]
pub struct PhysicalView {
    pub size_bytes: u64,
    pub entries: Seq<ItemView>,
}

/// Sorted names gathered into physical files.
pub open spec fn gathered(names: Seq<ItemView>) -> Seq<PhysicalView>
    decreases names.len(),
{
    if names.len() == 0 {
        Seq::empty()
    } else {
        let before = gathered(names.drop_last());
        let name = names.last();
        if before.len() > 0 && before.last().size_bytes == name.size_bytes && same_place(
            before.last().entries[0],
            name,
        ) {
            before.update(
                before.len() - 1,
                PhysicalView {
                    size_bytes: name.size_bytes,
                    entries: before.last().entries.push(name),
                },
            )
        } else {
            before.push(PhysicalView { size_bytes: name.size_bytes, entries: seq![name] })
        }
    }
}

/// Whether another physical file has the same size.
pub open spec fn has_rival(files: Seq<PhysicalView>, at: int) -> bool {
    exists|other: int|
        0 <= other < files.len() && other != at && (#[trigger] files[other]).size_bytes
            == files[at].size_bytes
}

/// The first `count` physical files that share their size with another.
pub open spec fn contested(files: Seq<PhysicalView>, count: int) -> Seq<PhysicalView>
    decreases count,
{
    if count <= 0 {
        Seq::empty()
    } else if has_rival(files, count - 1) {
        contested(files, count - 1).push(files[count - 1])
    } else {
        contested(files, count - 1)
    }
}

/// The physical files of a scan, by size and place.
pub open spec fn physical_files(items: Seq<ItemView>, minimum: u64) -> Seq<PhysicalView> {
    gathered(order::sorted(candidates(items, minimum, items.len() as int), candidate_order()))
}

/// The physical files to hash: those that share their size with another.
pub open spec fn planned(items: Seq<ItemView>, minimum: u64) -> Seq<PhysicalView> {
    let files = physical_files(items, minimum);
    contested(files, files.len() as int)
}

/// One physical file with all its names.
#[derive(Debug)]
pub struct PhysicalCandidate<'a> {
    pub size_bytes: u64,
    pub entries: Vec<&'a ScannedItem>,
}

impl<'a> View for PhysicalCandidate<'a> {
    type V = PhysicalView;

    open spec fn view(&self) -> PhysicalView {
        PhysicalView { size_bytes: self.size_bytes, entries: order::views(self.entries@) }
    }
}

impl<'a> PhysicalCandidate<'a> {
    /// The name by which the file is hashed.
    pub fn representative(&self) -> (result: &'a ScannedItem)
        requires
            self.entries@.len() > 0,
        ensures
            result@ == self@.entries[0],
    {
        self.entries[0]
    }
}

/// The bytes of the first files of a plan.
pub open spec fn plan_bytes(plan: Seq<PhysicalView>, count: int) -> nat
    decreases count,
{
    if count <= 0 {
        0
    } else {
        plan_bytes(plan, count - 1) + plan[count - 1].size_bytes as nat
    }
}

/// How far the hashing of a plan has come.
#[derive(Debug, Clone, Copy, PartialEq, Eq, Structural)]
pub struct HashTally {
    pub files: u64,
    pub bytes: u64,
    pub total_files: u64,
    pub total_bytes: u64,
}

/// How far the hashing of a plan has come after its first files.
pub open spec fn tally_after(plan: Seq<PhysicalView>, count: int) -> HashTally {
    HashTally {
        files: scanner::saturated(count as nat),
        bytes: scanner::saturated(plan_bytes(plan, count)),
        total_files: scanner::saturated(plan.len()),
        total_bytes: scanner::saturated(plan_bytes(plan, plan.len() as int)),
    }
}

impl HashTally {
    /// The event that tells how far the hashing has come.
    pub open spec fn event_at(self, current: Option<GivenView>) -> EventView {
        hashing::hashing_event(
            self.files,
            self.bytes,
            self.total_files,
            self.total_bytes,
            current,
        )
    }

    /// Before the first file of a plan.
    pub fn new(plan: &Vec<PhysicalCandidate<'_>>) -> (result: Self)
        ensures
            result == tally_after(order::views(plan@), 0),
    {
        let ghost all = order::views(plan@);
        let mut total_bytes: u64 = 0;
        let mut at: usize = 0;
        while at < plan.len()
            invariant
                at <= plan@.len(),
                all == order::views(plan@),
                total_bytes == scanner::saturated(plan_bytes(all, at as int)),
            decreases plan@.len() - at,
        {
            assert(all[at as int] == plan@[at as int]@);
            total_bytes = total_bytes.saturating_add(plan[at].size_bytes);
            at = at + 1;
        }
        HashTally { files: 0, bytes: 0, total_files: plan.len() as u64, total_bytes }
    }

    /// The event with which hashing begins.
    pub fn start(&self) -> (result: ProgressEvent)
        ensures
            result@ == self.event_at(None),
    {
        hashing::make_hashing_event(
            self.files,
            self.bytes,
            self.total_files,
            self.total_bytes,
            None,
        )
    }

    /// Counts a file that has been dealt with, and tells so.
    pub fn record(&mut self, candidate: &PhysicalCandidate<'_>) -> (result: ProgressEvent)
        requires
            candidate.entries@.len() > 0,
        ensures
            result@ == final(self).event_at(Some(candidate@.entries[0].given())),
            forall|plan: Seq<PhysicalView>, count: int|
                0 <= count < plan.len() && plan[count] == candidate@ && *old(self)
                    == #[trigger] tally_after(plan, count) ==> *final(self) == tally_after(
                    plan,
                    count + 1,
                ),
            *final(self) == (HashTally {
                files: scanner::saturated(old(self).files as nat + 1),
                bytes: scanner::saturated(old(self).bytes as nat + candidate@.size_bytes as nat),
                ..*old(self)
            }),
    {
        self.files = self.files.saturating_add(1);
        self.bytes = self.bytes.saturating_add(candidate.size_bytes);
        let item = candidate.representative();
        hashing::make_hashing_event(
            self.files,
            self.bytes,
            self.total_files,
            self.total_bytes,
            Some(item.path.clone()),
        )
    }
}

struct CandidateOrder;

impl<'a> Ranking<&'a ScannedItem> for CandidateOrder {
    closed spec fn at_most(&self, left: ItemView, right: ItemView) -> bool {
        candidate_at_most(left, right)
    }

    proof fn ranks(&self) {
        lemma_candidate_order();
        assert(candidate_order() =~= |left: ItemView, right: ItemView|
            Ranking::<&'a ScannedItem>::at_most(self, left, right));
    }

    fn not_after(&self, left: &&'a ScannedItem, right: &&'a ScannedItem) -> (result: bool) {
        if left.size_bytes != right.size_bytes {
            return left.size_bytes < right.size_bytes;
        }
        match (left.file_identity, right.file_identity) {
            (Some(a), Some(b)) => if a.volume_id != b.volume_id {
                a.volume_id < b.volume_id
            } else {
                a.file_id <= b.file_id
            },
            (Some(_), None) => true,
            (None, Some(_)) => false,
            (None, None) => left.path.not_after(&right.path),
        }
    }
}

fn one_place(left: &ScannedItem, right: &ScannedItem) -> (result: bool)
    ensures
        result == same_place(left@, right@),
{
    match (left.file_identity, right.file_identity) {
        (Some(a), Some(b)) => a == b,
        (None, None) => left.path.same(&right.path),
        _ => false,
    }
}

proof fn lemma_gathered_filled(names: Seq<ItemView>)
    ensures
        forall|i: int|
            0 <= i < gathered(names).len() ==> (#[trigger] gathered(names)[i]).entries.len() > 0,
    decreases names.len(),
{
    if names.len() > 0 {
        lemma_gathered_filled(names.drop_last());
        let before = gathered(names.drop_last());
        let after = gathered(names);
        assert forall|i: int| 0 <= i < after.len() implies (#[trigger] after[i]).entries.len()
            > 0 by {
            if i < before.len() - 1 {
                assert(before[i].entries.len() > 0);
            } else if i < before.len() {
                assert(before[i].entries.len() > 0);
            }
        }
    }
}

fn gather_files<'a>(names: Vec<&'a ScannedItem>) -> (result: Vec<PhysicalCandidate<'a>>)
    ensures
        order::views(result@) == gathered(order::views(names@)),
{
    let ghost all = order::views(names@);
    let ghost source = names@;
    let mut files: Vec<PhysicalCandidate<'a>> = Vec::new();
    assert(order::views(files@) =~= gathered(all.take(0)));
    for name in it: names
        invariant
            it.seq() == source,
            all == order::views(source),
            order::views(files@) == gathered(all.take(it.index())),
    {
        let ghost before = order::views(files@);
        proof {
            assert(all.take(it.index() + 1).drop_last() =~= all.take(it.index()));
            assert(all[it.index()] == name@);
            lemma_gathered_filled(all.take(it.index()));
        }
        let joins = if files.len() > 0 {
            let last = &files[files.len() - 1];
            assert(last@ == before.last());
            last.size_bytes == name.size_bytes && one_place(last.entries[0], name)
        } else {
            false
        };
        if joins {
            match files.pop() {
                Some(mut file) => {
                    proof {
                        order::lemma_views_push(file.entries@, name);
                    }
                    file.entries.push(name);
                    proof {
                        order::lemma_views_push(files@, file);
                        assert(order::views(files@) =~= before.drop_last());
                        assert(before.drop_last().push(file@) =~= before.update(
                            before.len() - 1,
                            file@,
                        ));
                    }
                    files.push(file);
                },
                None => {},
            }
        } else {
            let mut entries: Vec<&'a ScannedItem> = Vec::new();
            entries.push(name);
            assert(order::views(entries@) =~= seq![name@]);
            let file = PhysicalCandidate { size_bytes: name.size_bytes, entries };
            proof {
                order::lemma_views_push(files@, file);
            }
            files.push(file);
        }
    }
    assert(all.take(all.len() as int) =~= all);
    files
}

proof fn lemma_gathered_sizes(names: Seq<ItemView>)
    requires
        order::is_ordered(names, candidate_order()),
    ensures
        forall|i: int, j: int|
            0 <= i < j < gathered(names).len() ==> (#[trigger] gathered(names)[i]).size_bytes <= (
            #[trigger] gathered(names)[j]).size_bytes,
        names.len() > 0 ==> gathered(names).len() > 0 && gathered(names).last().size_bytes
            == names.last().size_bytes,
    decreases names.len(),
{
    if names.len() > 0 {
        let shorter = names.drop_last();
        let le = candidate_order();
        assert forall|i: int, j: int| 0 <= i < j < shorter.len() implies #[trigger] le(
            shorter[i],
            shorter[j],
        ) by {
            assert(le(names[i], names[j]));
        }
        lemma_gathered_sizes(shorter);
        if shorter.len() > 0 {
            assert(le(names[names.len() - 2], names[names.len() - 1]));
        }
        let before = gathered(shorter);
        let after = gathered(names);
        assert forall|i: int, j: int| 0 <= i < j < after.len() implies (
        #[trigger] after[i]).size_bytes <= (#[trigger] after[j]).size_bytes by {
            if j < before.len() {
                assert(before[i].size_bytes <= before[j].size_bytes);
            } else if i < before.len() - 1 {
                assert(before[i].size_bytes <= before[before.len() - 1].size_bytes);
            }
        }
    }
}

fn keep_contested<'a>(files: Vec<PhysicalCandidate<'a>>) -> (result: Vec<PhysicalCandidate<'a>>)
    requires
        forall|i: int, j: int|
            0 <= i < j < files@.len() ==> (#[trigger] files@[i]).size_bytes <= (
            #[trigger] files@[j]).size_bytes,
    ensures
        order::views(result@) == contested(order::views(files@), files@.len() as int),
{
    let ghost all = order::views(files@);
    let ghost source = files@;
    let mut rivals: Vec<bool> = Vec::new();
    let mut at: usize = 0;
    while at < files.len()
        invariant
            at <= files@.len(),
            source == files@,
            all == order::views(source),
            rivals@.len() == at,
            forall|i: int, j: int|
                0 <= i < j < source.len() ==> (#[trigger] source[i]).size_bytes <= (
                #[trigger] source[j]).size_bytes,
            forall|i: int| 0 <= i < at ==> #[trigger] rivals@[i] == has_rival(all, i),
        decreases files@.len() - at,
    {
        let size: u64 = files[at].size_bytes;
        let before = at > 0 && files[at - 1].size_bytes == size;
        let after = at + 1 < files.len() && files[at + 1].size_bytes == size;
        proof {
            assert(all[at as int].size_bytes == size);
            if before {
                assert(all[at - 1].size_bytes == size);
            }
            if after {
                assert(all[at + 1].size_bytes == size);
            }
            if has_rival(all, at as int) {
                let other = choose|other: int|
                    0 <= other < all.len() && other != at && (#[trigger] all[other]).size_bytes
                        == all[at as int].size_bytes;
                assert(source[other].size_bytes == size);
                if other < at {
                    assert(source[at - 1].size_bytes <= source[at as int].size_bytes);
                    if other < at - 1 {
                        assert(source[other].size_bytes <= source[at - 1].size_bytes);
                    }
                } else {
                    assert(source[at as int].size_bytes <= source[at + 1].size_bytes);
                    if other > at + 1 {
                        assert(source[at + 1].size_bytes <= source[other].size_bytes);
                    }
                }
            }
        }
        rivals.push(before || after);
        at = at + 1;
    }
    let mut kept: Vec<PhysicalCandidate<'a>> = Vec::new();
    let mut next: usize = 0;
    let total: usize = files.len();
    assert(order::views(kept@) =~= contested(all, 0));
    for file in it: files
        invariant
            it.seq() == source,
            total == source.len(),
            all == order::views(source),
            next == it.index(),
            rivals@.len() == source.len(),
            forall|i: int| 0 <= i < source.len() ==> #[trigger] rivals@[i] == has_rival(all, i),
            order::views(kept@) == contested(all, next as int),
    {
        assert(all[next as int] == file@);
        if rivals[next] {
            proof {
                order::lemma_views_push(kept@, file);
            }
            kept.push(file);
        }
        next = next + 1;
    }
    kept
}

/// The physical files to hash, those of one size together and the smallest
/// first: files whose size no other has are left out.
pub fn plan_hashing<'a>(scan: &'a ScanResult, options: &DuplicateOptions) -> (result: Vec<
    PhysicalCandidate<'a>,
>)
    ensures
        order::views(result@) == planned(scan@.items, options.minimum_size_bytes),
        forall|i: int| 0 <= i < result@.len() ==> (#[trigger] result@[i]).entries@.len() > 0,
{
    let ghost items = scan@.items;
    let minimum: u64 = options.minimum_size_bytes;
    let mut names: Vec<&'a ScannedItem> = Vec::new();
    let mut at: usize = 0;
    assert(order::views(names@) =~= candidates(items, minimum, 0));
    while at < scan.items.len()
        invariant
            at <= scan.items@.len(),
            items == order::views(scan.items@),
            order::views(names@) == candidates(items, minimum, at as int),
        decreases scan.items@.len() - at,
    {
        let item = &scan.items[at];
        assert(items[at as int] == item@);
        if item.kind == ItemKind::File && item.size_bytes > 0 && item.size_bytes >= minimum {
            proof {
                order::lemma_views_push(names@, item);
            }
            names.push(item);
        }
        at = at + 1;
    }
    let ghost unsorted = order::views(names@);
    proof {
        assert(order::relation::<&'a ScannedItem, CandidateOrder>(CandidateOrder)
            =~= candidate_order());
        lemma_candidate_order();
        order::law_sorted_is_an_ordered_permutation(unsorted, candidate_order());
        lemma_gathered_sizes(order::sorted(unsorted, candidate_order()));
        lemma_gathered_filled(order::sorted(unsorted, candidate_order()));
    }
    let sorted = order::sort_by_ranking(names, &CandidateOrder);
    let files = gather_files(sorted);
    proof {
        let all = order::views(files@);
        assert forall|i: int, j: int| 0 <= i < j < files@.len() implies (
        #[trigger] files@[i]).size_bytes <= (#[trigger] files@[j]).size_bytes by {
            assert(all[i].size_bytes <= all[j].size_bytes);
        }
    }
    let ghost all = order::views(files@);
    let kept = keep_contested(files);
    proof {
        lemma_contested_filled(all, all.len() as int);
        assert forall|i: int| 0 <= i < kept@.len() implies (
        #[trigger] kept@[i]).entries@.len() > 0 by {
            assert(order::views(kept@)[i].entries.len() > 0);
        }
    }
    kept
}

proof fn lemma_contested_filled(files: Seq<PhysicalView>, count: int)
    requires
        0 <= count <= files.len(),
        forall|i: int| 0 <= i < files.len() ==> (#[trigger] files[i]).entries.len() > 0,
    ensures
        forall|i: int|
            0 <= i < contested(files, count).len() ==> (
            #[trigger] contested(files, count)[i]).entries.len() > 0,
    decreases count,
{
    if count > 0 {
        lemma_contested_filled(files, count - 1);
        let before = contested(files, count - 1);
        let after = contested(files, count);
        assert forall|i: int| 0 <= i < after.len() implies (#[trigger] after[i]).entries.len()
            > 0 by {
            if i < before.len() {
                assert(before[i].entries.len() > 0);
            } else {
                assert(files[count - 1].entries.len() > 0);
            }
        }
    }
}

/// What became of hashing one physical file.
#[derive(Debug)]
pub enum HashOutcome {
    Hashed(String),
    Failed(DuplicateWarning),
}

#[verifier::ext_equal]
pub enum OutcomeView {
    Hashed(Seq<char>),
    Failed(DuplicateWarningView),
}

impl View for HashOutcome {
    type V = OutcomeView;

    open spec fn view(&self) -> OutcomeView {
        match self {
            HashOutcome::Hashed(hash) => OutcomeView::Hashed(hash@),
            HashOutcome::Failed(warning) => OutcomeView::Failed(warning@),
        }
    }
}

#[verifier::ext_equal]
pub struct HashedView {
    pub file: PhysicalView,
    pub hash: Seq<char>,
}

/// The first physical files that were hashed, with their hashes.
pub open spec fn hashed(
    plan: Seq<PhysicalView>,
    outcomes: Seq<OutcomeView>,
    count: int,
) -> Seq<HashedView>
    decreases count,
{
    if count <= 0 {
        Seq::empty()
    } else {
        let before = hashed(plan, outcomes, count - 1);
        match outcomes[count - 1] {
            OutcomeView::Hashed(hash) => before.push(HashedView { file: plan[count - 1], hash }),
            OutcomeView::Failed(_) => before,
        }
    }
}

/// The warnings of the first files that could not be hashed.
pub open spec fn failures(outcomes: Seq<OutcomeView>, count: int) -> Seq<DuplicateWarningView>
    decreases count,
{
    if count <= 0 {
        Seq::empty()
    } else {
        let before = failures(outcomes, count - 1);
        match outcomes[count - 1] {
            OutcomeView::Hashed(_) => before,
            OutcomeView::Failed(warning) => before.push(warning),
        }
    }
}

/// The bytes of some hashed files.
pub open spec fn hashed_bytes(files: Seq<HashedView>) -> nat
    decreases files.len(),
{
    if files.len() == 0 {
        0
    } else {
        hashed_bytes(files.drop_last()) + files.last().file.size_bytes as nat
    }
}

/// Hashed files by size, then by hash.
pub open spec fn hashed_at_most(left: HashedView, right: HashedView) -> bool {
    if left.file.size_bytes != right.file.size_bytes {
        left.file.size_bytes < right.file.size_bytes
    } else {
        order::bytes_at_most(text::bytes_of(left.hash), text::bytes_of(right.hash))
    }
}

pub open spec fn hashed_order() -> spec_fn(HashedView, HashedView) -> bool {
    |left: HashedView, right: HashedView| hashed_at_most(left, right)
}

/// Physical files with the same contents.
#[verifier::ext_equal]
pub struct BatchView {
    pub size_bytes: u64,
    pub hash: Seq<char>,
    pub files: Seq<PhysicalView>,
}

/// Sorted files gathered by size and hash.
pub open spec fn batched(files: Seq<HashedView>) -> Seq<BatchView>
    decreases files.len(),
{
    if files.len() == 0 {
        Seq::empty()
    } else {
        let before = batched(files.drop_last());
        let next = files.last();
        if before.len() > 0 && before.last().size_bytes == next.file.size_bytes
            && before.last().hash == next.hash {
            before.update(
                before.len() - 1,
                BatchView {
                    size_bytes: next.file.size_bytes,
                    hash: next.hash,
                    files: before.last().files.push(next.file),
                },
            )
        } else {
            before.push(
                BatchView {
                    size_bytes: next.file.size_bytes,
                    hash: next.hash,
                    files: seq![next.file],
                },
            )
        }
    }
}

pub open spec fn entry_of(item: ItemView, protected: PolicyView) -> EntryView {
    EntryView {
        path: item.path,
        spelling: item.spelling,
        file_identity: item.file_identity,
        allocated_size_bytes: item.allocated_size_bytes,
        hard_link_count: item.hard_link_count,
        protected: protected.matches(item.path),
    }
}

/// The entries of all names of some physical files.
pub open spec fn entries_of(files: Seq<PhysicalView>, protected: PolicyView) -> Seq<EntryView>
    decreases files.len(),
{
    if files.len() == 0 {
        Seq::empty()
    } else {
        entries_of(files.drop_last(), protected) + Seq::new(
            files.last().entries.len(),
            |i: int| entry_of(files.last().entries[i], protected),
        )
    }
}

pub open spec fn entry_order() -> spec_fn(EntryView, EntryView) -> bool {
    |left: EntryView, right: EntryView| path::at_most(left.path, right.path)
}

/// Whether any name of a physical file is protected.
pub open spec fn is_protected(file: PhysicalView, protected: PolicyView) -> bool {
    exists|i: int|
        0 <= i < file.entries.len() && protected.matches((#[trigger] file.entries[i]).path)
}

pub open spec fn protected_count(files: Seq<PhysicalView>, protected: PolicyView) -> nat
    decreases files.len(),
{
    if files.len() == 0 {
        0
    } else {
        protected_count(files.drop_last(), protected) + if is_protected(files.last(), protected) {
            1nat
        } else {
            0
        }
    }
}

/// What the unprotected files take up on disk, where it is known of every file.
pub open spec fn open_allocation(files: Seq<PhysicalView>, protected: PolicyView) -> Option<nat>
    decreases files.len(),
{
    if files.len() == 0 {
        Some(0)
    } else {
        match (
            open_allocation(files.drop_last(), protected),
            files.last().entries[0].allocated_size_bytes,
        ) {
            (Some(before), Some(bytes)) => Some(
                before + if is_protected(files.last(), protected) {
                    0
                } else {
                    bytes as nat
                },
            ),
            _ => None,
        }
    }
}

/// The largest known allocation among some files.
pub open spec fn largest_allocation(files: Seq<PhysicalView>) -> u64
    decreases files.len(),
{
    if files.len() == 0 {
        0
    } else {
        let before = largest_allocation(files.drop_last());
        match files.last().entries[0].allocated_size_bytes {
            Some(bytes) => if bytes > before {
                bytes
            } else {
                before
            },
            None => before,
        }
    }
}

/// What can be recovered when one copy stays: a protected one where there is
/// one, and otherwise the largest.
pub open spec fn recovery_of(files: Seq<PhysicalView>, protected: PolicyView) -> Option<u64> {
    match open_allocation(files, protected) {
        None => None,
        Some(bytes) => {
            let total = scanner::saturated(bytes);
            let kept = if protected_count(files, protected) > 0 {
                0u64
            } else {
                largest_allocation(files)
            };
            Some(
                if total >= kept {
                    (total - kept) as u64
                } else {
                    0u64
                },
            )
        },
    }
}

pub open spec fn group_of(batch: BatchView, protected: PolicyView) -> GroupView {
    GroupView {
        blake3_hash: batch.hash,
        size_bytes_per_file: batch.size_bytes,
        entries: order::sorted(entries_of(batch.files, protected), entry_order()),
        unique_file_count: batch.files.len() as u64,
        protected_file_count: protected_count(batch.files, protected) as u64,
        logical_duplicate_bytes: scanner::saturated(
            batch.size_bytes as nat * (batch.files.len() - 1) as nat,
        ),
        potential_recovery_allocated_bytes: recovery_of(batch.files, protected),
    }
}

/// The groups of the batches that hold more than one file.
pub open spec fn groups_of(batches: Seq<BatchView>, protected: PolicyView) -> Seq<GroupView>
    decreases batches.len(),
{
    if batches.len() == 0 {
        Seq::empty()
    } else if batches.last().files.len() >= 2 {
        groups_of(batches.drop_last(), protected).push(group_of(batches.last(), protected))
    } else {
        groups_of(batches.drop_last(), protected)
    }
}

/// Whether one recovery is at least another; an unknown one is the least.
pub open spec fn recovers_at_least(left: Option<u64>, right: Option<u64>) -> bool {
    match (left, right) {
        (Some(a), Some(b)) => a >= b,
        (None, Some(_)) => false,
        (_, None) => true,
    }
}

pub open spec fn first_path(group: GroupView) -> Seq<PartView> {
    if group.entries.len() > 0 {
        group.entries[0].path
    } else {
        Seq::empty()
    }
}

/// Groups by what they may recover, then by size, the most first; then by path.
pub open spec fn group_at_most(left: GroupView, right: GroupView) -> bool {
    if left.potential_recovery_allocated_bytes != right.potential_recovery_allocated_bytes {
        recovers_at_least(
            left.potential_recovery_allocated_bytes,
            right.potential_recovery_allocated_bytes,
        )
    } else if left.size_bytes_per_file != right.size_bytes_per_file {
        left.size_bytes_per_file > right.size_bytes_per_file
    } else {
        path::at_most(first_path(left), first_path(right))
    }
}

pub open spec fn group_order() -> spec_fn(GroupView, GroupView) -> bool {
    |left: GroupView, right: GroupView| group_at_most(left, right)
}

/// Warnings by path, then by message.
pub open spec fn failure_at_most(left: DuplicateWarningView, right: DuplicateWarningView) -> bool {
    if left.path != right.path {
        path::at_most(left.path, right.path)
    } else {
        order::bytes_at_most(text::bytes_of(left.message), text::bytes_of(right.message))
    }
}

pub open spec fn failure_order() -> spec_fn(DuplicateWarningView, DuplicateWarningView) -> bool {
    |left: DuplicateWarningView, right: DuplicateWarningView| failure_at_most(left, right)
}

pub open spec fn logical_total(groups: Seq<GroupView>) -> nat
    decreases groups.len(),
{
    if groups.len() == 0 {
        0
    } else {
        logical_total(groups.drop_last()) + groups.last().logical_duplicate_bytes as nat
    }
}

/// What all groups may recover, where it is known of each.
pub open spec fn recovery_total(groups: Seq<GroupView>) -> Option<nat>
    decreases groups.len(),
{
    if groups.len() == 0 {
        Some(0)
    } else {
        match (
            recovery_total(groups.drop_last()),
            groups.last().potential_recovery_allocated_bytes,
        ) {
            (Some(before), Some(bytes)) => Some(before + bytes as nat),
            _ => None,
        }
    }
}

/// The report that the outcomes of a plan amount to.
pub open spec fn report_of(
    plan: Seq<PhysicalView>,
    outcomes: Seq<OutcomeView>,
    protected: PolicyView,
) -> DuplicatesView {
    let files = hashed(plan, outcomes, plan.len() as int);
    let groups = order::sorted(
        groups_of(batched(order::sorted(files, hashed_order())), protected),
        group_order(),
    );
    DuplicatesView {
        groups,
        warnings: order::sorted(failures(outcomes, plan.len() as int), failure_order()),
        files_hashed: scanner::saturated(files.len()),
        bytes_hashed: scanner::saturated(hashed_bytes(files)),
        logical_duplicate_bytes: scanner::saturated(logical_total(groups)),
        potential_recovery_allocated_bytes: match recovery_total(groups) {
            Some(bytes) => Some(scanner::saturated(bytes)),
            None => None,
        },
    }
}

struct Hashed<'a> {
    file: PhysicalCandidate<'a>,
    hash: String,
}

impl<'a> View for Hashed<'a> {
    type V = HashedView;

    closed spec fn view(&self) -> HashedView {
        HashedView { file: self.file@, hash: self.hash@ }
    }
}

struct HashedOrder;

proof fn lemma_bytes_order(left: Seq<u8>, middle: Seq<u8>, right: Seq<u8>)
    ensures
        order::bytes_at_most(left, right) || order::bytes_at_most(right, left),
        order::bytes_at_most(left, middle) && order::bytes_at_most(middle, right)
            ==> order::bytes_at_most(left, right),
{
    path::lemma_byte_order();
    order::lemma_lexicographic_total(left, right, order::byte_order());
    if order::bytes_at_most(left, middle) && order::bytes_at_most(middle, right) {
        order::lemma_lexicographic_transitive(left, middle, right, order::byte_order());
    }
}

pub proof fn lemma_hashed_order()
    ensures
        order::is_ranking(hashed_order()),
{
    let le = hashed_order();
    assert forall|a: HashedView, b: HashedView| #[trigger] le(a, b) || le(b, a) by {
        lemma_bytes_order(text::bytes_of(a.hash), text::bytes_of(a.hash), text::bytes_of(b.hash));
    }
    assert forall|a: HashedView, b: HashedView, c: HashedView| #[trigger] le(a, b) && #[trigger] le(
        b,
        c,
    ) implies le(a, c) by {
        lemma_bytes_order(text::bytes_of(a.hash), text::bytes_of(b.hash), text::bytes_of(c.hash));
    }
}

impl<'a> Ranking<Hashed<'a>> for HashedOrder {
    closed spec fn at_most(&self, left: HashedView, right: HashedView) -> bool {
        hashed_at_most(left, right)
    }

    proof fn ranks(&self) {
        lemma_hashed_order();
        assert(hashed_order() =~= |left: HashedView, right: HashedView|
            Ranking::<Hashed<'a>>::at_most(self, left, right));
    }

    fn not_after(&self, left: &Hashed<'a>, right: &Hashed<'a>) -> (result: bool) {
        if left.file.size_bytes != right.file.size_bytes {
            left.file.size_bytes < right.file.size_bytes
        } else {
            order::bytes_not_after(left.hash.as_str().as_bytes(), right.hash.as_str().as_bytes())
        }
    }
}

struct EntryOrder;

impl Ranking<DuplicateEntry> for EntryOrder {
    closed spec fn at_most(&self, left: EntryView, right: EntryView) -> bool {
        path::at_most(left.path, right.path)
    }

    proof fn ranks(&self) {
        scanner::lemma_path_ranking(
            |one: EntryView| one.path,
            |left: EntryView, right: EntryView| self.at_most(left, right),
        );
    }

    fn not_after(&self, left: &DuplicateEntry, right: &DuplicateEntry) -> (result: bool) {
        left.path.not_after(&right.path)
    }
}

struct GroupOrder;

pub proof fn lemma_group_order()
    ensures
        order::is_ranking(group_order()),
{
    let le = group_order();
    assert forall|a: GroupView, b: GroupView| #[trigger] le(a, b) || le(b, a) by {
        path::law_paths_are_totally_ordered(first_path(a), first_path(b));
    }
    assert forall|a: GroupView, b: GroupView, c: GroupView| #[trigger] le(a, b) && #[trigger] le(
        b,
        c,
    ) implies le(a, c) by {
        if path::at_most(first_path(a), first_path(b)) && path::at_most(
            first_path(b),
            first_path(c),
        ) {
            path::lemma_at_most_transitive(first_path(a), first_path(b), first_path(c));
        }
    }
}

fn first_entry_path(group: &DuplicateGroup) -> (result: FilePath)
    ensures
        result@ == first_path(group@),
{
    if group.entries.len() > 0 {
        group.entries[0].path.clone()
    } else {
        FilePath::empty()
    }
}

impl Ranking<DuplicateGroup> for GroupOrder {
    closed spec fn at_most(&self, left: GroupView, right: GroupView) -> bool {
        group_at_most(left, right)
    }

    proof fn ranks(&self) {
        lemma_group_order();
        assert(group_order() =~= |left: GroupView, right: GroupView| self.at_most(left, right));
    }

    fn not_after(&self, left: &DuplicateGroup, right: &DuplicateGroup) -> (result: bool) {
        match (
            left.potential_recovery_allocated_bytes,
            right.potential_recovery_allocated_bytes,
        ) {
            (Some(a), Some(b)) => if a != b {
                return a > b;
            },
            (None, Some(_)) => {
                return false;
            },
            (Some(_), None) => {
                return true;
            },
            (None, None) => {},
        }
        if left.size_bytes_per_file != right.size_bytes_per_file {
            left.size_bytes_per_file > right.size_bytes_per_file
        } else {
            first_entry_path(left).not_after(&first_entry_path(right))
        }
    }
}

struct FailureOrder;

pub proof fn lemma_failure_order()
    ensures
        order::is_ranking(failure_order()),
{
    let le = failure_order();
    assert forall|a: DuplicateWarningView, b: DuplicateWarningView| #[trigger] le(a, b) || le(
        b,
        a,
    ) by {
        path::law_paths_are_totally_ordered(a.path, b.path);
        lemma_bytes_order(
            text::bytes_of(a.message),
            text::bytes_of(a.message),
            text::bytes_of(b.message),
        );
    }
    assert forall|
        a: DuplicateWarningView,
        b: DuplicateWarningView,
        c: DuplicateWarningView,
    | #[trigger] le(a, b) && #[trigger] le(b, c) implies le(a, c) by {
        path::law_paths_are_totally_ordered(a.path, b.path);
        path::law_paths_are_totally_ordered(b.path, c.path);
        path::law_paths_are_totally_ordered(a.path, c.path);
        if path::at_most(a.path, b.path) && path::at_most(b.path, c.path) {
            path::lemma_at_most_transitive(a.path, b.path, c.path);
        }
        lemma_bytes_order(
            text::bytes_of(a.message),
            text::bytes_of(b.message),
            text::bytes_of(c.message),
        );
    }
}

impl Ranking<DuplicateWarning> for FailureOrder {
    closed spec fn at_most(&self, left: DuplicateWarningView, right: DuplicateWarningView) -> bool {
        failure_at_most(left, right)
    }

    proof fn ranks(&self) {
        lemma_failure_order();
        assert(failure_order() =~= |left: DuplicateWarningView, right: DuplicateWarningView|
            self.at_most(left, right));
    }

    fn not_after(&self, left: &DuplicateWarning, right: &DuplicateWarning) -> (result: bool) {
        if !left.path.same(&right.path) {
            left.path.not_after(&right.path)
        } else {
            order::bytes_not_after(
                left.message.as_str().as_bytes(),
                right.message.as_str().as_bytes(),
            )
        }
    }
}

struct Batch<'a> {
    size_bytes: u64,
    hash: String,
    files: Vec<PhysicalCandidate<'a>>,
}

impl<'a> View for Batch<'a> {
    type V = BatchView;

    closed spec fn view(&self) -> BatchView {
        BatchView {
            size_bytes: self.size_bytes,
            hash: self.hash@,
            files: order::views(self.files@),
        }
    }
}

fn batch_files<'a>(files: Vec<Hashed<'a>>) -> (result: Vec<Batch<'a>>)
    ensures
        order::views(result@) == batched(order::views(files@)),
{
    let ghost all = order::views(files@);
    let ghost source = files@;
    let mut batches: Vec<Batch<'a>> = Vec::new();
    assert(order::views(batches@) =~= batched(all.take(0)));
    for next in it: files
        invariant
            it.seq() == source,
            all == order::views(source),
            order::views(batches@) == batched(all.take(it.index())),
    {
        let ghost before = order::views(batches@);
        proof {
            assert(all.take(it.index() + 1).drop_last() =~= all.take(it.index()));
            assert(all[it.index()] == next@);
        }
        let size: u64 = next.file.size_bytes;
        let joins = if batches.len() > 0 {
            let last = &batches[batches.len() - 1];
            assert(last@ == before.last());
            last.size_bytes == size && text::same_text(last.hash.as_str(), next.hash.as_str())
        } else {
            false
        };
        if joins {
            match batches.pop() {
                Some(mut batch) => {
                    let file = next.file;
                    proof {
                        order::lemma_views_push(batch.files@, file);
                    }
                    batch.files.push(file);
                    proof {
                        order::lemma_views_push(batches@, batch);
                        assert(order::views(batches@) =~= before.drop_last());
                        assert(before.drop_last().push(batch@) =~= before.update(
                            before.len() - 1,
                            batch@,
                        ));
                    }
                    batches.push(batch);
                },
                None => {},
            }
        } else {
            let mut same: Vec<PhysicalCandidate<'a>> = Vec::new();
            let hash = next.hash;
            let file = next.file;
            same.push(file);
            assert(order::views(same@) =~= seq![file@]);
            let batch = Batch { size_bytes: size, hash, files: same };
            proof {
                order::lemma_views_push(batches@, batch);
            }
            batches.push(batch);
        }
    }
    assert(all.take(all.len() as int) =~= all);
    batches
}

fn file_is_protected(file: &PhysicalCandidate, protected: &PathMatcher) -> (result: bool)
    ensures
        result == is_protected(file@, protected@),
{
    let ghost all = file@.entries;
    let mut at: usize = 0;
    while at < file.entries.len()
        invariant
            at <= file.entries@.len(),
            all == order::views(file.entries@),
            forall|i: int| 0 <= i < at ==> !protected@.matches((#[trigger] all[i]).path),
        decreases file.entries@.len() - at,
    {
        assert(all[at as int] == file.entries@[at as int]@);
        if protected.is_match(&file.entries[at].path) {
            return true;
        }
        at = at + 1;
    }
    false
}

fn add_entries(entries: &mut Vec<DuplicateEntry>, file: &PhysicalCandidate, protected: &PathMatcher)
    ensures
        order::views(final(entries)@) == order::views(old(entries)@) + Seq::new(
            file@.entries.len(),
            |i: int| entry_of(file@.entries[i], protected@),
        ),
{
    let ghost before = order::views(entries@);
    let ghost all = file@.entries;
    let ghost added = Seq::new(all.len(), |i: int| entry_of(all[i], protected@));
    let mut at: usize = 0;
    assert(before + added.take(0) =~= before);
    while at < file.entries.len()
        invariant
            at <= file.entries@.len(),
            all == order::views(file.entries@),
            added == Seq::new(all.len(), |i: int| entry_of(all[i], protected@)),
            order::views(entries@) == before + added.take(at as int),
        decreases file.entries@.len() - at,
    {
        let item = file.entries[at];
        assert(all[at as int] == item@);
        let entry = DuplicateEntry {
            path: item.path.clone(),
            file_identity: item.file_identity,
            allocated_size_bytes: item.allocated_size_bytes,
            hard_link_count: item.hard_link_count,
            protected: protected.is_match(&item.path),
        };
        proof {
            order::lemma_views_push(entries@, entry);
            assert((before + added.take(at as int)).push(entry@) =~= before + added.take(at + 1));
        }
        entries.push(entry);
        at = at + 1;
    }
    assert(added.take(at as int) =~= added);
}

fn build_group(batch: Batch, protected: &PathMatcher) -> (result: DuplicateGroup)
    requires
        batch.files@.len() > 0,
        forall|i: int| 0 <= i < batch.files@.len() ==> (#[trigger] batch.files@[i]).entries@.len() > 0,
    ensures
        result@ == group_of(batch@, protected@),
{
    let ghost view = batch@;
    let ghost all = view.files;
    let count: usize = batch.files.len();
    let mut entries: Vec<DuplicateEntry> = Vec::new();
    let mut total: u64 = 0;
    let mut known = true;
    let mut largest: u64 = 0;
    let mut protected_files: u64 = 0;
    let mut logical: u64 = 0;
    let mut at: usize = 0;
    assert(order::views(entries@) =~= entries_of(all.take(0), protected@));
    while at < batch.files.len()
        invariant
            at <= batch.files@.len(),
            count == batch.files@.len(),
            view == batch@,
            all == order::views(batch.files@),
            forall|i: int|
                0 <= i < batch.files@.len() ==> (#[trigger] batch.files@[i]).entries@.len() > 0,
            order::views(entries@) == entries_of(all.take(at as int), protected@),
            known <==> open_allocation(all.take(at as int), protected@) is Some,
            known ==> total == scanner::saturated(
                open_allocation(all.take(at as int), protected@)->Some_0,
            ),
            largest == largest_allocation(all.take(at as int)),
            protected_files <= at,
            protected_files == protected_count(all.take(at as int), protected@),
            at == 0 ==> logical == 0,
            at > 0 ==> logical == scanner::saturated(view.size_bytes as nat * (at - 1) as nat),
        decreases batch.files@.len() - at,
    {
        let file = &batch.files[at];
        let ghost here = all.take(at + 1);
        assert(here.drop_last() =~= all.take(at as int));
        assert(here.last() == file@);
        assert(file.entries@.len() > 0);
        add_entries(&mut entries, file, protected);
        let shielded = file_is_protected(file, protected);
        if shielded {
            protected_files = protected_files + 1;
        }
        let allocation = file.representative().allocated_size_bytes;
        match allocation {
            Some(bytes) => {
                if bytes > largest {
                    largest = bytes;
                }
                if !shielded {
                    total = total.saturating_add(bytes);
                }
            },
            None => {
                known = false;
            },
        }
        if at > 0 {
            logical = logical.saturating_add(batch.size_bytes);
            assert(view.size_bytes as nat * at as nat == view.size_bytes as nat * (at - 1) as nat
                + view.size_bytes as nat) by (nonlinear_arith)
                requires
                    at > 0,
            ;
        } else {
            assert(view.size_bytes as nat * 0nat == 0) by (nonlinear_arith);
        }
        at = at + 1;
    }
    assert(all.take(at as int) =~= all);
    proof {
        assert(order::relation::<DuplicateEntry, EntryOrder>(EntryOrder) =~= entry_order());
    }
    let entries = order::sort_by_ranking(entries, &EntryOrder);
    let recovery = if known {
        let kept: u64 = if protected_files > 0 {
            0
        } else {
            largest
        };
        Some(total.saturating_sub(kept))
    } else {
        None
    };
    DuplicateGroup {
        blake3_hash: batch.hash,
        size_bytes_per_file: batch.size_bytes,
        entries,
        unique_file_count: count as u64,
        protected_file_count: protected_files,
        logical_duplicate_bytes: logical,
        potential_recovery_allocated_bytes: recovery,
    }
}

spec fn all_filled(files: Seq<PhysicalView>) -> bool {
    forall|i: int| 0 <= i < files.len() ==> (#[trigger] files[i]).entries.len() > 0
}

proof fn lemma_batched_filled(files: Seq<HashedView>)
    requires
        forall|i: int| 0 <= i < files.len() ==> (#[trigger] files[i]).file.entries.len() > 0,
    ensures
        forall|b: int| 0 <= b < batched(files).len() ==> all_filled((#[trigger] batched(files)[b]).files),
    decreases files.len(),
{
    if files.len() > 0 {
        let shorter = files.drop_last();
        assert(forall|i: int| 0 <= i < shorter.len() ==> shorter[i] == files[i]);
        lemma_batched_filled(shorter);
        let before = batched(shorter);
        let after = batched(files);
        assert(files[files.len() - 1].file.entries.len() > 0);
        assert forall|b: int| 0 <= b < after.len() implies all_filled(
            (#[trigger] after[b]).files,
        ) by {
            if b < before.len() {
                assert(all_filled(before[b].files));
            }
        }
    }
}

fn build_groups(batches: Vec<Batch>, protected: &PathMatcher) -> (result: Vec<DuplicateGroup>)
    requires
        forall|b: int|
            0 <= b < batches@.len() ==> all_filled(order::views((#[trigger] batches@[b]).files@)),
    ensures
        order::views(result@) == groups_of(order::views(batches@), protected@),
{
    let ghost all = order::views(batches@);
    let ghost source = batches@;
    let mut groups: Vec<DuplicateGroup> = Vec::new();
    assert(order::views(groups@) =~= groups_of(all.take(0), protected@));
    for batch in it: batches
        invariant
            it.seq() == source,
            all == order::views(source),
            forall|b: int|
                0 <= b < source.len() ==> all_filled(order::views((#[trigger] source[b]).files@)),
            order::views(groups@) == groups_of(all.take(it.index()), protected@),
    {
        proof {
            assert(all.take(it.index() + 1).drop_last() =~= all.take(it.index()));
            assert(all[it.index()] == batch@);
            assert(all_filled(order::views(source[it.index()].files@)));
            assert forall|i: int| 0 <= i < batch.files@.len() implies (
            #[trigger] batch.files@[i]).entries@.len() > 0 by {
                assert(order::views(batch.files@)[i].entries.len() > 0);
            }
        }
        if batch.files.len() >= 2 {
            let group = build_group(batch, protected);
            proof {
                order::lemma_views_push(groups@, group);
            }
            groups.push(group);
        }
    }
    assert(all.take(all.len() as int) =~= all);
    groups
}

fn total_logical(groups: &Vec<DuplicateGroup>) -> (result: u64)
    ensures
        result == scanner::saturated(logical_total(order::views(groups@))),
{
    let ghost all = order::views(groups@);
    let mut total: u64 = 0;
    let mut at: usize = 0;
    while at < groups.len()
        invariant
            at <= groups@.len(),
            all == order::views(groups@),
            total == scanner::saturated(logical_total(all.take(at as int))),
        decreases groups@.len() - at,
    {
        assert(all.take(at + 1).drop_last() =~= all.take(at as int));
        total = total.saturating_add(groups[at].logical_duplicate_bytes);
        at = at + 1;
    }
    assert(all.take(at as int) =~= all);
    total
}

fn total_recovery(groups: &Vec<DuplicateGroup>) -> (result: Option<u64>)
    ensures
        result == match recovery_total(order::views(groups@)) {
            Some(bytes) => Some(scanner::saturated(bytes)),
            None => None,
        },
{
    let ghost all = order::views(groups@);
    let mut total: u64 = 0;
    let mut known = true;
    let mut at: usize = 0;
    while at < groups.len()
        invariant
            at <= groups@.len(),
            all == order::views(groups@),
            known <==> recovery_total(all.take(at as int)) is Some,
            known ==> total == scanner::saturated(recovery_total(all.take(at as int))->Some_0),
        decreases groups@.len() - at,
    {
        assert(all.take(at + 1).drop_last() =~= all.take(at as int));
        match groups[at].potential_recovery_allocated_bytes {
            Some(bytes) => {
                total = total.saturating_add(bytes);
            },
            None => {
                known = false;
            },
        }
        at = at + 1;
    }
    assert(all.take(at as int) =~= all);
    if known {
        Some(total)
    } else {
        None
    }
}

struct Sifted<'a> {
    files: Vec<Hashed<'a>>,
    warnings: Vec<DuplicateWarning>,
    files_hashed: u64,
    bytes_hashed: u64,
}

fn sift<'a>(plan: Vec<PhysicalCandidate<'a>>, outcomes: Vec<HashOutcome>) -> (result: Sifted<'a>)
    requires
        plan@.len() == outcomes@.len(),
    ensures
        ({
            let files = hashed(
                order::views(plan@),
                order::views(outcomes@),
                plan@.len() as int,
            );
            &&& order::views(result.files@) == files
            &&& order::views(result.warnings@) == failures(
                order::views(outcomes@),
                plan@.len() as int,
            )
            &&& result.files_hashed == scanner::saturated(files.len())
            &&& result.bytes_hashed == scanner::saturated(hashed_bytes(files))
        }),
{
    let ghost planned = order::views(plan@);
    let ghost given = order::views(outcomes@);
    let ghost source = plan@;
    let ghost results = outcomes@;
    let mut files: Vec<Hashed<'a>> = Vec::new();
    let mut warnings: Vec<DuplicateWarning> = Vec::new();
    let mut files_hashed: u64 = 0;
    let mut bytes_hashed: u64 = 0;
    let mut remaining = order::reversed(plan);
    assert(order::views(files@) =~= hashed(planned, given, 0));
    assert(order::views(warnings@) =~= failures(given, 0));
    for outcome in it: outcomes
        invariant
            it.seq() == results,
            given == order::views(results),
            planned == order::views(source),
            source.len() == results.len(),
            remaining@ == source.skip(it.index()).reverse(),
            order::views(files@) == hashed(planned, given, it.index()),
            order::views(warnings@) == failures(given, it.index()),
            files_hashed == scanner::saturated(hashed(planned, given, it.index()).len()),
            bytes_hashed == scanner::saturated(
                hashed_bytes(hashed(planned, given, it.index())),
            ),
    {
        proof {
            assert(given[it.index()] == outcome@);
            assert(source.skip(it.index()).reverse().last() == source[it.index()]);
            assert(source.skip(it.index()).reverse().drop_last() =~= source.skip(
                it.index() + 1,
            ).reverse());
        }
        match remaining.pop() {
            Some(file) => match outcome {
                HashOutcome::Hashed(hash) => {
                    files_hashed = files_hashed.saturating_add(1);
                    bytes_hashed = bytes_hashed.saturating_add(file.size_bytes);
                    let next = Hashed { file, hash };
                    proof {
                        assert(next@ == (HashedView { file: planned[it.index()], hash: hash@ }));
                        order::lemma_views_push(files@, next);
                        let before = hashed(planned, given, it.index());
                        assert(before.push(next@).drop_last() =~= before);
                    }
                    files.push(next);
                },
                HashOutcome::Failed(warning) => {
                    proof {
                        order::lemma_views_push(warnings@, warning);
                    }
                    warnings.push(warning);
                },
            },
            None => {},
        }
    }
    Sifted { files, warnings, files_hashed, bytes_hashed }
}

proof fn lemma_hashed_filled(plan: Seq<PhysicalView>, outcomes: Seq<OutcomeView>, count: int)
    requires
        0 <= count <= plan.len(),
        all_filled(plan),
    ensures
        forall|i: int|
            0 <= i < hashed(plan, outcomes, count).len() ==> (
            #[trigger] hashed(plan, outcomes, count)[i]).file.entries.len() > 0,
    decreases count,
{
    if count > 0 {
        lemma_hashed_filled(plan, outcomes, count - 1);
        let before = hashed(plan, outcomes, count - 1);
        let after = hashed(plan, outcomes, count);
        assert(plan[count - 1].entries.len() > 0);
        assert forall|i: int| 0 <= i < after.len() implies (
        #[trigger] after[i]).file.entries.len() > 0 by {
            if i < before.len() {
                assert(before[i].file.entries.len() > 0);
            }
        }
    }
}

/// The report on a scan whose planned files were hashed with the given
/// outcomes, one for each in the order of the plan.
pub fn detect_duplicates(
    scan: &ScanResult,
    options: &DuplicateOptions,
    outcomes: Vec<HashOutcome>,
) -> (result: Result<DuplicateReport, PathRuleError>)
    requires
        outcomes@.len() == planned(scan@.items, options.minimum_size_bytes).len(),
    ensures
        match result {
            Ok(report) => policy::compiled(scan@.root, options.rule_set())
                matches Ok(protected) && report@ == report_of(
                planned(scan@.items, options.minimum_size_bytes),
                order::views(outcomes@),
                protected,
            ),
            Err(error) => policy::compiled(scan@.root, options.rule_set())
                == Err::<PolicyView, RuleErrorView>(error@),
        },
{
    let protected = match PathMatcher::with_case(
        &scan.root,
        options.protected_rules.as_slice(),
        options.ignore_case,
    ) {
        Ok(protected) => protected,
        Err(error) => {
            return Err(error);
        },
    };
    let plan = plan_hashing(scan, options);
    let ghost planned = order::views(plan@);
    let ghost given = order::views(outcomes@);
    proof {
        assert forall|i: int| 0 <= i < planned.len() implies (
        #[trigger] planned[i]).entries.len() > 0 by {
            assert(plan@[i].entries@.len() > 0);
        }
        lemma_hashed_filled(planned, given, planned.len() as int);
    }
    let sifted = sift(plan, outcomes);
    let files_hashed: u64 = sifted.files_hashed;
    let bytes_hashed: u64 = sifted.bytes_hashed;
    let ghost files = hashed(planned, given, planned.len() as int);
    let ghost sorted_files = order::sorted(files, hashed_order());
    proof {
        assert(order::relation::<Hashed, HashedOrder>(HashedOrder) =~= hashed_order());
        lemma_hashed_order();
        order::lemma_sorted_len(files, hashed_order());
        assert forall|i: int| 0 <= i < sorted_files.len() implies (
        #[trigger] sorted_files[i]).file.entries.len() > 0 by {
            order::lemma_sorted_contains(files, sorted_files[i], hashed_order());
            assert(sorted_files.contains(sorted_files[i]));
            let k = choose|k: int| 0 <= k < files.len() && files[k] == sorted_files[i];
            assert(files[k].file.entries.len() > 0);
        }
        lemma_batched_filled(sorted_files);
    }
    let sorted = order::sort_by_ranking(sifted.files, &HashedOrder);
    let batches = batch_files(sorted);
    proof {
        assert forall|b: int| 0 <= b < batches@.len() implies all_filled(
            order::views((#[trigger] batches@[b]).files@),
        ) by {
            assert(order::views(batches@)[b] == batches@[b]@);
            assert(all_filled(batched(sorted_files)[b].files));
        }
    }
    let groups = build_groups(batches, &protected);
    proof {
        assert(order::relation::<DuplicateGroup, GroupOrder>(GroupOrder) =~= group_order());
        assert(order::relation::<DuplicateWarning, FailureOrder>(FailureOrder)
            =~= failure_order());
    }
    let groups = order::sort_by_ranking(groups, &GroupOrder);
    let warnings = order::sort_by_ranking(sifted.warnings, &FailureOrder);
    let logical_duplicate_bytes = total_logical(&groups);
    let potential_recovery_allocated_bytes = total_recovery(&groups);
    Ok(
        DuplicateReport {
            groups,
            warnings,
            files_hashed,
            bytes_hashed,
            logical_duplicate_bytes,
            potential_recovery_allocated_bytes,
        },
    )
}

/// Whether two names have one size and are of one physical file.
pub open spec fn same_file(left: ItemView, right: ItemView) -> bool {
    left.size_bytes == right.size_bytes && same_place(left, right)
}

pub proof fn lemma_gathered_distinct(names: Seq<ItemView>)
    requires
        order::is_ordered(names, candidate_order()),
    ensures
        forall|i: int, j: int|
            0 <= i < j < gathered(names).len() ==> !same_file(
                (#[trigger] gathered(names)[i]).entries[0],
                (#[trigger] gathered(names)[j]).entries[0],
            ),
        forall|i: int|
            0 <= i < gathered(names).len() ==> (#[trigger] gathered(names)[i]).entries.len() > 0
                && gathered(names)[i].size_bytes == gathered(names)[i].entries[0].size_bytes
                && names.contains(gathered(names)[i].entries[0]),
        names.len() > 0 ==> gathered(names).len() > 0 && same_file(
            gathered(names).last().entries[0],
            names.last(),
        ),
    decreases names.len(),
{
    if names.len() > 0 {
        let shorter = names.drop_last();
        let last = names.last();
        let le = candidate_order();
        assert forall|i: int, j: int| 0 <= i < j < shorter.len() implies #[trigger] le(
            shorter[i],
            shorter[j],
        ) by {
            assert(le(names[i], names[j]));
        }
        lemma_gathered_distinct(shorter);
        let before = gathered(shorter);
        let after = gathered(names);
        assert forall|i: int| 0 <= i < before.len() implies names.contains(
            (#[trigger] before[i]).entries[0],
        ) by {
            assert(shorter.contains(before[i].entries[0]));
            let k = choose|k: int| 0 <= k < shorter.len() && shorter[k] == before[i].entries[0];
            assert(names[k] == before[i].entries[0]);
        }
        assert(names[names.len() - 1] == last);
        if after.len() == before.len() + 1 {
            assert forall|i: int| 0 <= i < before.len() implies !same_file(
                (#[trigger] before[i]).entries[0],
                last,
            ) by {
                let first = before[i].entries[0];
                if same_file(first, last) {
                    assert(shorter.len() > 0);
                    let latest = before.last().entries[0];
                    assert(shorter.contains(first));
                    let k = choose|k: int| 0 <= k < shorter.len() && shorter[k] == first;
                    if k < shorter.len() - 1 {
                        assert(le(names[k], names[names.len() - 2]));
                    }
                    assert(le(names[names.len() - 2], names[names.len() - 1]));
                    path::law_paths_are_totally_ordered(first.path, shorter.last().path);
                    path::law_paths_are_totally_ordered(shorter.last().path, last.path);
                    assert(same_file(shorter.last(), last));
                    assert(same_file(latest, last));
                }
            }
        }
        assert forall|i: int, j: int| 0 <= i < j < after.len() implies !same_file(
            (#[trigger] after[i]).entries[0],
            (#[trigger] after[j]).entries[0],
        ) by {
            if j < before.len() {
                assert(after[i].entries[0] == before[i].entries[0]);
                assert(after[j].entries[0] == before[j].entries[0]);
            } else {
                assert(after[i] == before[i]);
            }
        }
    }
}

proof fn lemma_contested_distinct(files: Seq<PhysicalView>, count: int)
    requires
        0 <= count <= files.len(),
        forall|i: int, j: int|
            0 <= i < j < files.len() ==> !same_file(
                (#[trigger] files[i]).entries[0],
                (#[trigger] files[j]).entries[0],
            ),
    ensures
        forall|i: int|
            0 <= i < contested(files, count).len() ==> files.take(count).contains(
                #[trigger] contested(files, count)[i],
            ),
        forall|i: int, j: int|
            0 <= i < j < contested(files, count).len() ==> !same_file(
                (#[trigger] contested(files, count)[i]).entries[0],
                (#[trigger] contested(files, count)[j]).entries[0],
            ),
    decreases count,
{
    if count > 0 {
        lemma_contested_distinct(files, count - 1);
        let before = contested(files, count - 1);
        let after = contested(files, count);
        assert forall|i: int| 0 <= i < after.len() implies files.take(count).contains(
            #[trigger] after[i],
        ) by {
            if i < before.len() {
                assert(files.take(count - 1).contains(before[i]));
                let earlier = files.take(count - 1);
                let k = choose|k: int| 0 <= k < earlier.len() && earlier[k] == before[i];
                assert(files.take(count)[k] == before[i]);
            } else {
                assert(files.take(count)[count - 1] == files[count - 1]);
            }
        }
        assert forall|i: int, j: int| 0 <= i < j < after.len() implies !same_file(
            (#[trigger] after[i]).entries[0],
            (#[trigger] after[j]).entries[0],
        ) by {
            if j < before.len() {
                assert(after[i] == before[i] && after[j] == before[j]);
            } else {
                assert(after[i] == before[i]);
                assert(files.take(count - 1).contains(before[i]));
                let earlier = files.take(count - 1);
                let k = choose|k: int| 0 <= k < earlier.len() && earlier[k] == before[i];
                assert(files[k] == before[i]);
            }
        }
    }
}

/// No physical file is hashed twice: hard-linked names of one file are planned
/// together, under the first of them.
pub proof fn law_no_physical_file_is_hashed_twice(
    items: Seq<ItemView>,
    minimum: u64,
    left: int,
    right: int,
)
    requires
        0 <= left < right < planned(items, minimum).len(),
    ensures
        !same_file(
            planned(items, minimum)[left].entries[0],
            planned(items, minimum)[right].entries[0],
        ),
{
    let names = candidates(items, minimum, items.len() as int);
    lemma_candidate_order();
    order::law_sorted_is_an_ordered_permutation(names, candidate_order());
    let files = physical_files(items, minimum);
    lemma_gathered_distinct(order::sorted(names, candidate_order()));
    lemma_contested_distinct(files, files.len() as int);
}

pub proof fn lemma_group_has_a_batch(
    batches: Seq<BatchView>,
    protected: PolicyView,
    group: GroupView,
) -> (found: int)
    requires
        groups_of(batches, protected).contains(group),
    ensures
        0 <= found < batches.len(),
        batches[found].files.len() >= 2,
        group == group_of(batches[found], protected),
    decreases batches.len(),
{
    let shorter = batches.drop_last();
    let before = groups_of(shorter, protected);
    let after = groups_of(batches, protected);
    let at = choose|at: int| 0 <= at < after.len() && after[at] == group;
    if at < before.len() {
        assert(before[at] == group);
        lemma_group_has_a_batch(shorter, protected, group)
    } else {
        batches.len() - 1
    }
}

/// The batch of files of one size and hash that some sorted files come to.
pub proof fn lemma_batches_are_uniform(files: Seq<HashedView>)
    ensures
        forall|b: int, k: int|
            0 <= b < batched(files).len() && 0 <= k < batched(files)[b].files.len()
                ==> files.contains(
                HashedView {
                    file: #[trigger] batched(files)[b].files[k],
                    hash: batched(files)[b].hash,
                },
            ) && batched(files)[b].files[k].size_bytes == batched(files)[b].size_bytes,
    decreases files.len(),
{
    if files.len() > 0 {
        let shorter = files.drop_last();
        let next = files.last();
        lemma_batches_are_uniform(shorter);
        let before = batched(shorter);
        let after = batched(files);
        assert(files[files.len() - 1] == next);
        assert forall|b: int, k: int| 0 <= b < after.len() && 0 <= k < after[b].files.len() implies
            files.contains(
            HashedView { file: #[trigger] after[b].files[k], hash: after[b].hash },
        ) && after[b].files[k].size_bytes == after[b].size_bytes by {
            let wanted = HashedView { file: after[b].files[k], hash: after[b].hash };
            if b < before.len() && k < before[b].files.len() {
                assert(after[b].files[k] == before[b].files[k]);
                assert(before[b].hash == after[b].hash);
                assert(shorter.contains(
                    HashedView { file: before[b].files[k], hash: before[b].hash },
                ));
                let at = choose|at: int| 0 <= at < shorter.len() && shorter[at] == wanted;
                assert(files[at] == wanted);
            } else {
                assert(wanted == next);
            }
        }
    }
}

pub proof fn lemma_hashed_comes_from_plan(
    plan: Seq<PhysicalView>,
    outcomes: Seq<OutcomeView>,
    count: int,
    found: HashedView,
)
    requires
        0 <= count <= plan.len(),
        hashed(plan, outcomes, count).contains(found),
    ensures
        exists|i: int|
            0 <= i < count && #[trigger] plan[i] == found.file && outcomes[i]
                == OutcomeView::Hashed(found.hash),
    decreases count,
{
    if count > 0 {
        let before = hashed(plan, outcomes, count - 1);
        let after = hashed(plan, outcomes, count);
        let at = choose|at: int| 0 <= at < after.len() && after[at] == found;
        if at < before.len() {
            assert(before[at] == found);
            lemma_hashed_comes_from_plan(plan, outcomes, count - 1, found);
        } else {
            assert(plan[count - 1] == found.file);
        }
    }
}

pub proof fn lemma_entry_has_a_file(files: Seq<PhysicalView>, protected: PolicyView, entry: EntryView)
    requires
        entries_of(files, protected).contains(entry),
    ensures
        exists|f: int, n: int|
            0 <= f < files.len() && 0 <= n < files[f].entries.len() && entry_of(
                #[trigger] files[f].entries[n],
                protected,
            ) == entry,
    decreases files.len(),
{
    if files.len() > 0 {
        let shorter = files.drop_last();
        let before = entries_of(shorter, protected);
        let all = entries_of(files, protected);
        let at = choose|at: int| 0 <= at < all.len() && all[at] == entry;
        if at < before.len() {
            assert(before[at] == entry);
            lemma_entry_has_a_file(shorter, protected, entry);
            let (f, n) = choose|f: int, n: int|
                0 <= f < shorter.len() && 0 <= n < shorter[f].entries.len() && entry_of(
                    #[trigger] shorter[f].entries[n],
                    protected,
                ) == entry;
            assert(files[f].entries[n] == shorter[f].entries[n]);
        } else {
            let n = at - before.len();
            assert(entry_of(files[files.len() - 1].entries[n], protected) == entry);
        }
    }
}

pub proof fn lemma_entry_order()
    ensures
        order::is_ranking(entry_order()),
{
    let le = entry_order();
    assert forall|a: EntryView, b: EntryView| #[trigger] le(a, b) || le(b, a) by {
        path::law_paths_are_totally_ordered(a.path, b.path);
    }
    assert forall|a: EntryView, b: EntryView, c: EntryView| #[trigger] le(a, b) && #[trigger] le(
        b,
        c,
    ) implies le(a, c) by {
        path::lemma_at_most_transitive(a.path, b.path, c.path);
    }
}

/// Whether a physical file was planned and hashed to a hash.
pub open spec fn was_hashed_to(
    plan: Seq<PhysicalView>,
    outcomes: Seq<OutcomeView>,
    file: PhysicalView,
    hash: Seq<char>,
) -> bool {
    exists|i: int|
        0 <= i < plan.len() && #[trigger] plan[i] == file && outcomes[i] == OutcomeView::Hashed(
            hash,
        )
}

/// Every reported group is of at least two planned physical files, all of its
/// size and hashed to its hash, and what it may recover is worked out from
/// them.
pub proof fn law_groups_hold_separate_copies(
    plan: Seq<PhysicalView>,
    outcomes: Seq<OutcomeView>,
    protected: PolicyView,
    group: GroupView,
)
    requires
        report_of(plan, outcomes, protected).groups.contains(group),
    ensures
        exists|batch: BatchView|
            {
                &&& batch.files.len() >= 2
                &&& #[trigger] group_of(batch, protected) == group
                &&& group.potential_recovery_allocated_bytes == recovery_of(batch.files, protected)
                &&& forall|f: int|
                    0 <= f < batch.files.len() ==> (#[trigger] batch.files[f]).size_bytes
                        == group.size_bytes_per_file && was_hashed_to(
                        plan,
                        outcomes,
                        batch.files[f],
                        group.blake3_hash,
                    )
            },
{
    let files = hashed(plan, outcomes, plan.len() as int);
    let ranked = order::sorted(files, hashed_order());
    let batches = batched(ranked);
    let groups = groups_of(batches, protected);
    lemma_group_order();
    lemma_hashed_order();
    order::lemma_sorted_contains(groups, group, group_order());
    let b = lemma_group_has_a_batch(batches, protected, group);
    let batch = batches[b];
    lemma_batches_are_uniform(ranked);
    assert forall|f: int| 0 <= f < batch.files.len() implies (
    #[trigger] batch.files[f]).size_bytes == group.size_bytes_per_file && was_hashed_to(
        plan,
        outcomes,
        batch.files[f],
        group.blake3_hash,
    ) by {
        let found = HashedView { file: batches[b].files[f], hash: batches[b].hash };
        assert(ranked.contains(found));
        order::lemma_sorted_contains(files, found, hashed_order());
        lemma_hashed_comes_from_plan(plan, outcomes, plan.len() as int, found);
    }
    assert(group_of(batch, protected) == group);
}

/// Every name in a group is of a planned file that has the size of the group
/// and was hashed to the hash of the group.
pub proof fn law_members_of_a_group_have_its_hash(
    plan: Seq<PhysicalView>,
    outcomes: Seq<OutcomeView>,
    protected: PolicyView,
    group: GroupView,
    entry: EntryView,
)
    requires
        report_of(plan, outcomes, protected).groups.contains(group),
        group.entries.contains(entry),
    ensures
        exists|i: int, n: int|
            {
                &&& 0 <= i < plan.len()
                &&& 0 <= n < plan[i].entries.len()
                &&& entry_of(#[trigger] plan[i].entries[n], protected) == entry
                &&& outcomes[i] == OutcomeView::Hashed(group.blake3_hash)
                &&& plan[i].size_bytes == group.size_bytes_per_file
            },
{
    let files = hashed(plan, outcomes, plan.len() as int);
    let sorted_files = order::sorted(files, hashed_order());
    let batches = batched(sorted_files);
    let groups = groups_of(batches, protected);
    lemma_group_order();
    lemma_hashed_order();
    lemma_entry_order();
    order::lemma_sorted_contains(groups, group, group_order());
    let b = lemma_group_has_a_batch(batches, protected, group);
    let batch = batches[b];
    order::lemma_sorted_contains(entries_of(batch.files, protected), entry, entry_order());
    lemma_entry_has_a_file(batch.files, protected, entry);
    let (f, n) = choose|f: int, n: int|
        0 <= f < batch.files.len() && 0 <= n < batch.files[f].entries.len() && entry_of(
            #[trigger] batch.files[f].entries[n],
            protected,
        ) == entry;
    lemma_batches_are_uniform(sorted_files);
    let found = HashedView { file: batch.files[f], hash: batch.hash };
    assert(sorted_files.contains(HashedView { file: batches[b].files[f], hash: batches[b].hash }));
    order::lemma_sorted_contains(files, found, hashed_order());
    lemma_hashed_comes_from_plan(plan, outcomes, plan.len() as int, found);
    let i = choose|i: int|
        0 <= i < plan.len() && #[trigger] plan[i] == found.file && outcomes[i]
            == OutcomeView::Hashed(found.hash);
    assert(entry_of(plan[i].entries[n], protected) == entry);
}

/// What some files take up on disk beside one of them.
pub open spec fn allocation_beside(files: Seq<PhysicalView>, kept: int) -> nat
    decreases files.len(),
{
    if files.len() == 0 {
        0
    } else {
        allocation_beside(files.drop_last(), kept) + if kept == files.len() - 1 {
            0
        } else {
            match files.last().entries[0].allocated_size_bytes {
                Some(bytes) => bytes as nat,
                None => 0,
            }
        }
    }
}

proof fn lemma_open_beside_protected(files: Seq<PhysicalView>, protected: PolicyView, kept: int)
    requires
        0 <= kept < files.len() ==> is_protected(files[kept], protected),
        open_allocation(files, protected) is Some,
    ensures
        open_allocation(files, protected)->Some_0 <= allocation_beside(files, kept),
    decreases files.len(),
{
    if files.len() > 0 {
        let shorter = files.drop_last();
        if 0 <= kept < shorter.len() {
            assert(shorter[kept] == files[kept]);
        }
        lemma_open_beside_protected(shorter, protected, kept);
    }
}

proof fn lemma_some_protected(files: Seq<PhysicalView>, protected: PolicyView) -> (kept: int)
    requires
        protected_count(files, protected) > 0,
    ensures
        0 <= kept < files.len(),
        is_protected(files[kept], protected),
    decreases files.len(),
{
    if is_protected(files.last(), protected) {
        files.len() - 1
    } else {
        let kept = lemma_some_protected(files.drop_last(), protected);
        assert(files.drop_last()[kept] == files[kept]);
        kept
    }
}

/// The place of a file that takes up the most.
pub proof fn lemma_largest(files: Seq<PhysicalView>) -> (kept: int)
    requires
        files.len() > 0,
        forall|i: int|
            0 <= i < files.len() ==> (#[trigger] files[i]).entries[0].allocated_size_bytes is Some,
    ensures
        0 <= kept < files.len(),
        files[kept].entries[0].allocated_size_bytes == Some(largest_allocation(files)),
    decreases files.len(),
{
    reveal_with_fuel(largest_allocation, 2);
    assert(files[files.len() - 1].entries[0].allocated_size_bytes is Some);
    if files.len() == 1 {
        0
    } else {
        let shorter = files.drop_last();
        assert forall|i: int| 0 <= i < shorter.len() implies (
        #[trigger] shorter[i]).entries[0].allocated_size_bytes is Some by {
            assert(shorter[i] == files[i]);
        }
        let before = lemma_largest(shorter);
        assert(shorter[before] == files[before]);
        if files.last().entries[0].allocated_size_bytes->Some_0 > largest_allocation(shorter) {
            files.len() - 1
        } else {
            before
        }
    }
}

pub proof fn lemma_open_known(files: Seq<PhysicalView>, protected: PolicyView)
    requires
        open_allocation(files, protected) is Some,
    ensures
        forall|i: int|
            0 <= i < files.len() ==> (#[trigger] files[i]).entries[0].allocated_size_bytes is Some,
    decreases files.len(),
{
    if files.len() > 0 {
        let shorter = files.drop_last();
        lemma_open_known(shorter, protected);
        assert forall|i: int| 0 <= i < files.len() implies (
        #[trigger] files[i]).entries[0].allocated_size_bytes is Some by {
            if i < shorter.len() {
                assert(shorter[i] == files[i]);
            }
        }
    }
}

proof fn lemma_open_beside(files: Seq<PhysicalView>, protected: PolicyView, kept: int)
    requires
        0 <= kept < files.len(),
        protected_count(files, protected) == 0,
        open_allocation(files, protected) is Some,
        files[kept].entries[0].allocated_size_bytes is Some,
    ensures
        open_allocation(files, protected)->Some_0 == allocation_beside(files, kept)
            + files[kept].entries[0].allocated_size_bytes->Some_0,
    decreases files.len(),
{
    let shorter = files.drop_last();
    if kept == files.len() - 1 {
        lemma_open_all(shorter, protected, kept);
    } else {
        assert(shorter[kept] == files[kept]);
        lemma_open_beside(shorter, protected, kept);
    }
}

proof fn lemma_open_all(files: Seq<PhysicalView>, protected: PolicyView, kept: int)
    requires
        kept >= files.len(),
        protected_count(files, protected) == 0,
        open_allocation(files, protected) is Some,
    ensures
        open_allocation(files, protected)->Some_0 == allocation_beside(files, kept),
    decreases files.len(),
{
    if files.len() > 0 {
        lemma_open_all(files.drop_last(), protected, kept);
    }
}

/// What a group may recover never takes in all its files: it is no more than
/// what the others take up beside one that stays. Nor does it take in what is
/// protected.
pub proof fn law_recovery_leaves_a_copy(files: Seq<PhysicalView>, protected: PolicyView)
    requires
        files.len() > 0,
        recovery_of(files, protected) is Some,
    ensures
        exists|kept: int|
            0 <= kept < files.len() && recovery_of(files, protected)->Some_0
                <= #[trigger] allocation_beside(files, kept),
        recovery_of(files, protected)->Some_0 <= open_allocation(files, protected)->Some_0,
{
    lemma_open_known(files, protected);
    if protected_count(files, protected) > 0 {
        let kept = lemma_some_protected(files, protected);
        lemma_open_beside_protected(files, protected, kept);
        assert(recovery_of(files, protected)->Some_0 <= allocation_beside(files, kept));
    } else {
        let kept = lemma_largest(files);
        lemma_open_beside(files, protected, kept);
        assert(recovery_of(files, protected)->Some_0 <= allocation_beside(files, kept));
    }
}

pub proof fn lemma_contested_has(files: Seq<PhysicalView>, count: int, at: int)
    requires
        0 <= at < count <= files.len(),
        has_rival(files, at),
    ensures
        contested(files, count).contains(files[at]),
    decreases count,
{
    let before = contested(files, count - 1);
    let after = contested(files, count);
    if at == count - 1 {
        assert(after[after.len() - 1] == files[at]);
    } else {
        lemma_contested_has(files, count - 1, at);
        let k = choose|k: int| 0 <= k < before.len() && before[k] == files[at];
        assert(after[k] == files[at]);
    }
}

/// A file is hashed only where another physical file of its size is hashed
/// too.
pub proof fn law_only_rivals_are_hashed(items: Seq<ItemView>, minimum: u64, place: int)
    requires
        0 <= place < planned(items, minimum).len(),
    ensures
        exists|other: int|
            {
                &&& 0 <= other < planned(items, minimum).len()
                &&& other != place
                &&& (#[trigger] planned(items, minimum)[other]).size_bytes == planned(
                    items,
                    minimum,
                )[place].size_bytes
            },
{
    let files = physical_files(items, minimum);
    let plan = planned(items, minimum);
    lemma_contested_source(files, files.len() as int, place);
    let at = choose|at: int|
        0 <= at < files.len() && has_rival(files, at) && #[trigger] files[at] == plan[place];
    let rival = choose|other: int|
        0 <= other < files.len() && other != at && (#[trigger] files[other]).size_bytes
            == files[at].size_bytes;
    assert(has_rival(files, rival)) by {
        assert(files[at].size_bytes == files[rival].size_bytes);
    }
    lemma_contested_has(files, files.len() as int, rival);
    let other = choose|other: int| 0 <= other < plan.len() && plan[other] == files[rival];
    if other == place {
        let names = candidates(items, minimum, items.len() as int);
        lemma_candidate_order();
        order::law_sorted_is_an_ordered_permutation(names, candidate_order());
        lemma_gathered_distinct(order::sorted(names, candidate_order()));
        assert(same_file(files[at].entries[0], files[rival].entries[0]));
        assert(false);
    }
}

pub proof fn lemma_contested_source(files: Seq<PhysicalView>, count: int, place: int)
    requires
        0 <= count <= files.len(),
        0 <= place < contested(files, count).len(),
    ensures
        exists|at: int|
            0 <= at < count && has_rival(files, at) && #[trigger] files[at] == contested(
                files,
                count,
            )[place],
    decreases count,
{
    let before = contested(files, count - 1);
    if count > 0 {
        if place < before.len() {
            lemma_contested_source(files, count - 1, place);
            let at = choose|at: int|
                0 <= at < count - 1 && has_rival(files, at) && #[trigger] files[at] == before[place];
            assert(files[at] == contested(files, count)[place]);
        } else {
            assert(files[count - 1] == contested(files, count)[place]);
        }
    }
}

/// Two hashed files that rank alike have one size and one hash.
proof fn lemma_hashed_alike(left: HashedView, right: HashedView)
    requires
        hashed_at_most(left, right),
        hashed_at_most(right, left),
    ensures
        left.file.size_bytes == right.file.size_bytes,
        left.hash == right.hash,
{
    if left.file.size_bytes == right.file.size_bytes {
        path::lemma_byte_order();
        order::lemma_lexicographic_total(
            text::bytes_of(left.hash),
            text::bytes_of(right.hash),
            order::byte_order(),
        );
        vstd::utf8::encode_utf8_decode_utf8(left.hash);
        vstd::utf8::encode_utf8_decode_utf8(right.hash);
    }
}

/// The first file of a batch with the hash of the batch.
pub open spec fn batch_head(batch: BatchView) -> HashedView {
    HashedView { file: batch.files[0], hash: batch.hash }
}

/// Sorted files fall into batches of which no two have one size and hash, and
/// the last file stands in the last batch.
pub proof fn lemma_batches_differ(files: Seq<HashedView>)
    requires
        order::is_ordered(files, hashed_order()),
    ensures
        forall|b: int|
            0 <= b < batched(files).len() ==> (#[trigger] batched(files)[b]).files.len() > 0
                && batched(files)[b].files[0].size_bytes == batched(files)[b].size_bytes,
        forall|b: int, c: int|
            0 <= b < c < batched(files).len() ==> hashed_at_most(
                batch_head(#[trigger] batched(files)[b]),
                batch_head(#[trigger] batched(files)[c]),
            ) && !(batched(files)[b].size_bytes == batched(files)[c].size_bytes
                && batched(files)[b].hash == batched(files)[c].hash),
        files.len() > 0 ==> batched(files).len() > 0 && batched(files).last().size_bytes
            == files.last().file.size_bytes && batched(files).last().hash == files.last().hash,
    decreases files.len(),
{
    if files.len() > 0 {
        let le = hashed_order();
        let shorter = files.drop_last();
        let next = files.last();
        assert forall|i: int, j: int| 0 <= i < j < shorter.len() implies #[trigger] le(
            shorter[i],
            shorter[j],
        ) by {
            assert(le(files[i], files[j]));
        }
        lemma_batches_differ(shorter);
        let before = batched(shorter);
        let after = batched(files);
        if before.len() > 0 {
            assert(le(files[files.len() - 2], files[files.len() - 1]));
            let last = before[before.len() - 1];
            assert(hashed_at_most(batch_head(last), next));
        }
        assert forall|b: int, c: int| 0 <= b < c < after.len() implies hashed_at_most(
            batch_head(#[trigger] after[b]),
            batch_head(#[trigger] after[c]),
        ) && !(after[b].size_bytes == after[c].size_bytes && after[b].hash == after[c].hash) by {
            if c < before.len() {
                assert(hashed_at_most(batch_head(before[b]), batch_head(before[c])));
                assert(batch_head(after[b]) == batch_head(before[b]));
                assert(batch_head(after[c]) == batch_head(before[c]));
            } else {
                let last = before[before.len() - 1];
                assert(after[c].files =~= seq![next.file]);
                assert(batch_head(after[c]) == next);
                lemma_hashed_order();
                if b < before.len() - 1 {
                    assert(hashed_at_most(batch_head(before[b]), batch_head(last)));
                    assert(le(batch_head(before[b]), batch_head(last)) && le(
                        batch_head(last),
                        next,
                    ));
                    assert(le(batch_head(before[b]), next));
                    if after[b].size_bytes == after[c].size_bytes && after[b].hash
                        == after[c].hash {
                        assert(hashed_at_most(next, batch_head(last)));
                        lemma_hashed_alike(next, batch_head(last));
                    }
                }
            }
        }
    }
}

/// Every one of some files stands in a batch of its size and hash.
pub proof fn lemma_file_has_a_batch(files: Seq<HashedView>, at: int) -> (found: (int, int))
    requires
        0 <= at < files.len(),
    ensures
        0 <= found.0 < batched(files).len(),
        0 <= found.1 < batched(files)[found.0].files.len(),
        batched(files)[found.0].files[found.1] == files[at].file,
        batched(files)[found.0].hash == files[at].hash,
        batched(files)[found.0].size_bytes == files[at].file.size_bytes,
    decreases files.len(),
{
    let before = batched(files.drop_last());
    let after = batched(files);
    if at < files.len() - 1 {
        let found = lemma_file_has_a_batch(files.drop_last(), at);
        assert(after[found.0].files[found.1] == before[found.0].files[found.1]);
        found
    } else {
        (after.len() - 1, after.last().files.len() - 1)
    }
}

pub proof fn lemma_hashed_has(
    plan: Seq<PhysicalView>,
    outcomes: Seq<OutcomeView>,
    count: int,
    at: int,
    hash: Seq<char>,
)
    requires
        0 <= at < count <= plan.len(),
        outcomes[at] == OutcomeView::Hashed(hash),
    ensures
        hashed(plan, outcomes, count).contains(HashedView { file: plan[at], hash }),
    decreases count,
{
    let wanted = HashedView { file: plan[at], hash };
    let before = hashed(plan, outcomes, count - 1);
    let after = hashed(plan, outcomes, count);
    if at == count - 1 {
        assert(after[after.len() - 1] == wanted);
    } else {
        lemma_hashed_has(plan, outcomes, count - 1, at, hash);
        let k = choose|k: int| 0 <= k < before.len() && before[k] == wanted;
        assert(after[k] == wanted);
    }
}

proof fn lemma_groups_have(batches: Seq<BatchView>, protected: PolicyView, at: int)
    requires
        0 <= at < batches.len(),
        batches[at].files.len() >= 2,
    ensures
        groups_of(batches, protected).contains(group_of(batches[at], protected)),
    decreases batches.len(),
{
    let shorter = batches.drop_last();
    let before = groups_of(shorter, protected);
    let after = groups_of(batches, protected);
    if at == batches.len() - 1 {
        assert(after[after.len() - 1] == group_of(batches[at], protected));
    } else {
        lemma_groups_have(shorter, protected, at);
        let k = choose|k: int| 0 <= k < before.len() && before[k] == group_of(
            batches[at],
            protected,
        );
        assert(after[k] == before[k]);
    }
}

pub proof fn lemma_entries_have(
    files: Seq<PhysicalView>,
    protected: PolicyView,
    file: int,
    name: int,
)
    requires
        0 <= file < files.len(),
        0 <= name < files[file].entries.len(),
    ensures
        entries_of(files, protected).contains(entry_of(files[file].entries[name], protected)),
    decreases files.len(),
{
    let shorter = files.drop_last();
    let before = entries_of(shorter, protected);
    let all = entries_of(files, protected);
    let wanted = entry_of(files[file].entries[name], protected);
    if file == files.len() - 1 {
        assert(all[before.len() + name] == wanted);
    } else {
        lemma_entries_have(shorter, protected, file, name);
        let k = choose|k: int| 0 <= k < before.len() && before[k] == wanted;
        assert(all[k] == wanted);
    }
}

/// Two physical files of one size that were hashed to one hash stand together
/// in a group, with all their names.
pub proof fn law_matching_hashes_form_a_group(
    plan: Seq<PhysicalView>,
    outcomes: Seq<OutcomeView>,
    protected: PolicyView,
    hash: Seq<char>,
    first: int,
    second: int,
)
    requires
        0 <= first < plan.len(),
        0 <= second < plan.len(),
        plan[first] != plan[second],
        plan[first].size_bytes == plan[second].size_bytes,
        outcomes[first] == OutcomeView::Hashed(hash),
        outcomes[second] == OutcomeView::Hashed(hash),
    ensures
        exists|group: GroupView|
            {
                &&& #[trigger] report_of(plan, outcomes, protected).groups.contains(group)
                &&& group.blake3_hash == hash
                &&& group.size_bytes_per_file == plan[first].size_bytes
                &&& forall|n: int|
                    0 <= n < plan[first].entries.len() ==> group.entries.contains(
                        entry_of(#[trigger] plan[first].entries[n], protected),
                    )
                &&& forall|n: int|
                    0 <= n < plan[second].entries.len() ==> group.entries.contains(
                        entry_of(#[trigger] plan[second].entries[n], protected),
                    )
            },
{
    let files = hashed(plan, outcomes, plan.len() as int);
    let ranked = order::sorted(files, hashed_order());
    let batches = batched(ranked);
    lemma_hashed_order();
    lemma_group_order();
    lemma_entry_order();
    order::law_sorted_is_an_ordered_permutation(files, hashed_order());
    let one = HashedView { file: plan[first], hash };
    let other = HashedView { file: plan[second], hash };
    lemma_hashed_has(plan, outcomes, plan.len() as int, first, hash);
    lemma_hashed_has(plan, outcomes, plan.len() as int, second, hash);
    order::lemma_sorted_contains(files, one, hashed_order());
    order::lemma_sorted_contains(files, other, hashed_order());
    let p = choose|p: int| 0 <= p < ranked.len() && ranked[p] == one;
    let q = choose|q: int| 0 <= q < ranked.len() && ranked[q] == other;
    let (b, k) = lemma_file_has_a_batch(ranked, p);
    let (c, l) = lemma_file_has_a_batch(ranked, q);
    lemma_batches_differ(ranked);
    assert(b == c) by {
        if b < c {
            assert(!(batches[b].size_bytes == batches[c].size_bytes && batches[b].hash
                == batches[c].hash));
        } else if c < b {
            assert(!(batches[c].size_bytes == batches[b].size_bytes && batches[c].hash
                == batches[b].hash));
        }
    }
    assert(k != l);
    let batch = batches[b];
    let group = group_of(batch, protected);
    lemma_groups_have(batches, protected, b);
    order::lemma_sorted_contains(groups_of(batches, protected), group, group_order());
    assert forall|n: int| 0 <= n < plan[first].entries.len() implies group.entries.contains(
        entry_of(#[trigger] plan[first].entries[n], protected),
    ) by {
        lemma_entries_have(batch.files, protected, k, n);
        order::lemma_sorted_contains(
            entries_of(batch.files, protected),
            entry_of(plan[first].entries[n], protected),
            entry_order(),
        );
    }
    assert forall|n: int| 0 <= n < plan[second].entries.len() implies group.entries.contains(
        entry_of(#[trigger] plan[second].entries[n], protected),
    ) by {
        lemma_entries_have(batch.files, protected, l, n);
        order::lemma_sorted_contains(
            entries_of(batch.files, protected),
            entry_of(plan[second].entries[n], protected),
            entry_order(),
        );
    }
    assert(report_of(plan, outcomes, protected).groups.contains(group));
}

/// A file that could not be hashed is warned of.
pub proof fn law_failed_files_are_warned_of(
    plan: Seq<PhysicalView>,
    outcomes: Seq<OutcomeView>,
    protected: PolicyView,
    at: int,
)
    requires
        0 <= at < plan.len(),
        outcomes[at] is Failed,
    ensures
        report_of(plan, outcomes, protected).warnings.contains(outcomes[at]->Failed_0),
{
    lemma_failure_order();
    lemma_failures_have(outcomes, plan.len() as int, at);
    order::lemma_sorted_contains(
        failures(outcomes, plan.len() as int),
        outcomes[at]->Failed_0,
        failure_order(),
    );
}

proof fn lemma_failures_have(outcomes: Seq<OutcomeView>, count: int, at: int)
    requires
        0 <= at < count,
        outcomes[at] is Failed,
    ensures
        failures(outcomes, count).contains(outcomes[at]->Failed_0),
    decreases count,
{
    let before = failures(outcomes, count - 1);
    let after = failures(outcomes, count);
    if at == count - 1 {
        assert(after[after.len() - 1] == outcomes[at]->Failed_0);
    } else {
        lemma_failures_have(outcomes, count - 1, at);
        let k = choose|k: int| 0 <= k < before.len() && before[k] == outcomes[at]->Failed_0;
        assert(after[k] == before[k]);
    }
}

proof fn lemma_candidates_scanned(items: Seq<ItemView>, minimum: u64, count: int, name: ItemView)
    requires
        0 <= count <= items.len(),
        candidates(items, minimum, count).contains(name),
    ensures
        items.contains(name),
        is_candidate(name, minimum),
    decreases count,
{
    if count > 0 {
        let before = candidates(items, minimum, count - 1);
        let after = candidates(items, minimum, count);
        let k = choose|k: int| 0 <= k < after.len() && after[k] == name;
        if k < before.len() {
            assert(before[k] == name);
            lemma_candidates_scanned(items, minimum, count - 1, name);
        } else {
            assert(items[count - 1] == name);
        }
    }
}

proof fn lemma_gathered_names(names: Seq<ItemView>, file: int, name: int)
    requires
        0 <= file < gathered(names).len(),
        0 <= name < gathered(names)[file].entries.len(),
    ensures
        names.contains(gathered(names)[file].entries[name]),
    decreases names.len(),
{
    let shorter = names.drop_last();
    let before = gathered(shorter);
    let after = gathered(names);
    let wanted = after[file].entries[name];
    if file < before.len() && name < before[file].entries.len() {
        assert(before[file].entries[name] == wanted);
        lemma_gathered_names(shorter, file, name);
        let k = choose|k: int| 0 <= k < shorter.len() && shorter[k] == wanted;
        assert(names[k] == wanted);
    } else {
        assert(names[names.len() - 1] == wanted);
    }
}

/// Only files of the scan are hashed: those that are not empty and are large
/// enough.
pub proof fn law_only_scanned_files_are_hashed(
    items: Seq<ItemView>,
    minimum: u64,
    place: int,
    name: int,
)
    requires
        0 <= place < planned(items, minimum).len(),
        0 <= name < planned(items, minimum)[place].entries.len(),
    ensures
        items.contains(planned(items, minimum)[place].entries[name]),
        is_candidate(planned(items, minimum)[place].entries[name], minimum),
{
    let files = physical_files(items, minimum);
    let names = candidates(items, minimum, items.len() as int);
    lemma_contested_source(files, files.len() as int, place);
    let at = choose|at: int|
        0 <= at < files.len() && has_rival(files, at) && #[trigger] files[at] == planned(
            items,
            minimum,
        )[place];
    let wanted = files[at].entries[name];
    lemma_candidate_order();
    lemma_gathered_names(order::sorted(names, candidate_order()), at, name);
    order::lemma_sorted_contains(names, wanted, candidate_order());
    lemma_candidates_scanned(items, minimum, items.len() as int, wanted);
}

} // verus!
