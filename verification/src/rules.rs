//! Deterministic recommendation rules.

use crate::clock;
use crate::index;
use crate::index::{Condition, ItemIndex};
use crate::model::{
    CERTAINTY_100, CERTAINTY_82, CERTAINTY_88, CERTAINTY_90, Confidence, Finding, FindingCategory,
    FindingView, ItemKind, ItemView, RiskLevel, ScanResult, ScannedItem, SuggestedAction,
};
use crate::names;
use crate::order;
use crate::order::Ranking;
use crate::path;
use crate::path::{FilePath, PartView};
use crate::policy;
use crate::policy::{PathMatcher, PathRule, PathRuleError, PolicyView, RuleErrorView};
use crate::progress;
use crate::progress::{
    AnalysisPhase, CancellationToken, EventView, NeverStops, ProgressEvent, ProgressLog,
    ProgressSink, StopSignal, TokenSignal,
};
use crate::relationships;
use crate::scanner;
use crate::text;
use vstd::prelude::*;

verus! {

pub const DAY_SECONDS: u64 = 86_400;

/// How many items lie between two progress reports.
pub const PROGRESS_INTERVAL_ITEMS: u64 = 128;

#[derive(Debug)]
pub enum RuleError {
    InvalidProtectedRule(PathRuleError),
    Cancelled { items_processed: u64 },
}

impl RuleError {
    /// The error as a sentence.
    pub open spec fn described(self) -> Seq<char> {
        match self {
            RuleError::InvalidProtectedRule(error) => "invalid protected-path rule: "@ + (
            "invalid path pattern "@ + policy::quoted(error@.pattern) + ": "@ + error@.message),
            RuleError::Cancelled { items_processed } =>
            "recommendation building cancelled after processing "@ + text::decimal(
                items_processed as nat,
            ) + " items"@,
        }
    }

    pub fn describe(&self) -> (result: String)
        ensures
            result@ == self.described(),
    {
        match self {
            RuleError::InvalidProtectedRule(error) => text::cat2(
                "invalid protected-path rule: ",
                error.describe().as_str(),
            ),
            RuleError::Cancelled { items_processed } => text::cat3(
                "recommendation building cancelled after processing ",
                text::decimal_of(*items_processed).as_str(),
                " items",
            ),
        }
    }
}

#[derive(Debug)]
pub struct RuleOptions {
    pub large_item_threshold_bytes: u64,
    pub old_item_threshold_days: u64,
    pub now_epoch_seconds: u64,
    pub protected_rules: Vec<PathRule>,
    /// Whether rules match whatever the case of letters.
    pub ignore_case: bool,
}

#[verifier::ext_equal]
pub struct RuleOptionsView {
    pub large_item_threshold_bytes: u64,
    pub old_item_threshold_days: u64,
    pub now_epoch_seconds: u64,
    pub protected_rules: Seq<policy::RuleView>,
    pub ignore_case: bool,
}

impl RuleOptionsView {
    pub open spec fn rule_set(self) -> policy::RuleSetView {
        policy::rule_set(self.protected_rules, self.ignore_case)
    }
}

impl View for RuleOptions {
    type V = RuleOptionsView;

    open spec fn view(&self) -> RuleOptionsView {
        RuleOptionsView {
            large_item_threshold_bytes: self.large_item_threshold_bytes,
            old_item_threshold_days: self.old_item_threshold_days,
            now_epoch_seconds: self.now_epoch_seconds,
            protected_rules: order::views(self.protected_rules@),
            ignore_case: self.ignore_case,
        }
    }
}

impl RuleOptions {
    /// The usual thresholds at a given time.
    pub fn at(now_epoch_seconds: u64) -> (result: Self)
        ensures
            result.large_item_threshold_bytes == 1_073_741_824,
            result.old_item_threshold_days == 180,
            result.now_epoch_seconds == now_epoch_seconds,
            result.protected_rules@.len() == 0,
            !result.ignore_case,
    {
        RuleOptions {
            large_item_threshold_bytes: 1_073_741_824,
            old_item_threshold_days: 180,
            now_epoch_seconds,
            protected_rules: Vec::new(),
            ignore_case: false,
        }
    }
}

impl Default for RuleOptions {
    /// The usual thresholds at the time of the call.
    fn default() -> (result: Self)
        ensures
            result.large_item_threshold_bytes == 1_073_741_824,
            result.old_item_threshold_days == 180,
            clock::is_now(result.now_epoch_seconds),
            result.protected_rules@.len() == 0,
            !result.ignore_case,
    {
        RuleOptions::at(clock::now_epoch_seconds())
    }
}

/// The whole days since an item was modified.
pub open spec fn age_days(item: ItemView, options: RuleOptionsView) -> Option<u64> {
    match item.modified_at_epoch_seconds {
        Some(modified) => Some(
            (if options.now_epoch_seconds >= modified {
                (options.now_epoch_seconds - modified) as u64
            } else {
                0u64
            }) / DAY_SECONDS,
        ),
        None => None,
    }
}

pub open spec fn is_old(item: ItemView, options: RuleOptionsView) -> bool {
    match age_days(item, options) {
        Some(days) => days >= options.old_item_threshold_days,
        None => false,
    }
}

pub open spec fn installer_suffixes() -> Seq<Seq<char>> {
    seq![".deb"@, ".rpm"@, ".exe"@, ".msi"@, ".dmg"@, ".appimage"@, ".apk"@]
}

fn installer_suffix_list() -> (result: Vec<&'static str>)
    ensures
        order::views(result@) == installer_suffixes(),
{
    let list = vec![".deb", ".rpm", ".exe", ".msi", ".dmg", ".appimage", ".apk"];
    assert(order::views(list@) =~= installer_suffixes());
    list
}

pub open spec fn archive_suffixes() -> Seq<Seq<char>> {
    seq![
        ".zip"@,
        ".7z"@,
        ".rar"@,
        ".tar"@,
        ".tar.gz"@,
        ".tgz"@,
        ".tar.bz2"@,
        ".tbz2"@,
        ".tar.xz"@,
        ".txz"@,
        ".gz"@,
    ]
}

fn archive_suffix_list() -> (result: Vec<&'static str>)
    ensures
        order::views(result@) == archive_suffixes(),
{
    let list = vec![
        ".zip",
        ".7z",
        ".rar",
        ".tar",
        ".tar.gz",
        ".tgz",
        ".tar.bz2",
        ".tbz2",
        ".tar.xz",
        ".txz",
        ".gz",
    ];
    assert(order::views(list@) =~= archive_suffixes());
    list
}

pub open spec fn image_suffixes() -> Seq<Seq<char>> {
    seq![".iso"@]
}

fn image_suffix_list() -> (result: Vec<&'static str>)
    ensures
        order::views(result@) == image_suffixes(),
{
    let list = vec![".iso"];
    assert(order::views(list@) =~= image_suffixes());
    list
}

/// What an old file is taken for, and why.
pub open spec fn old_file_kind(name: Seq<char>) -> Option<(FindingCategory, Seq<char>)> {
    if names::has_suffix(name, image_suffixes()) {
        Some((FindingCategory::IsoImage, "Recognized as an installer or disk image"@))
    } else if names::has_suffix(name, installer_suffixes()) {
        Some((FindingCategory::OldInstaller, "Recognized as an installer or disk image"@))
    } else if names::has_suffix(name, archive_suffixes()) {
        Some((FindingCategory::OldArchive, "Recognized as an archive"@))
    } else {
        None
    }
}

fn classify_old_file(name: &str) -> (result: Option<(FindingCategory, &'static str)>)
    ensures
        match result {
            Some((category, evidence)) => old_file_kind(name@) == Some((category, evidence@)),
            None => old_file_kind(name@) is None,
        },
{
    if names::any_suffix(name, &image_suffix_list()) {
        Some((FindingCategory::IsoImage, "Recognized as an installer or disk image"))
    } else if names::any_suffix(name, &installer_suffix_list()) {
        Some((FindingCategory::OldInstaller, "Recognized as an installer or disk image"))
    } else if names::any_suffix(name, &archive_suffix_list()) {
        Some((FindingCategory::OldArchive, "Recognized as an archive"))
    } else {
        None
    }
}

/// Whether a file is the disk or the package of a virtual machine.
pub open spec fn is_machine_file(name: Seq<char>) -> bool {
    names::has_suffix(name, relationships::virtual_disk_suffixes()) || names::has_suffix(
        name,
        relationships::package_suffixes(),
    )
}

/// Whether the names at the end of a path are those of a list, small letters
/// for capitals.
pub open spec fn ends_with_names(given: Seq<PartView>, wanted: Seq<Seq<char>>) -> bool
    decreases wanted.len(),
{
    if wanted.len() == 0 {
        true
    } else {
        names::strict_lower_name(given) == wanted.last() && given.len() > 0 && ends_with_names(
            given.drop_last(),
            wanted.drop_last(),
        )
    }
}

/// Whether a directory is a cache of the operating system.
pub open spec fn is_system_cache(given: Seq<PartView>) -> bool {
    ||| given.len() == 3 && given[0] is Root && ends_with_names(given, seq!["var"@, "cache"@])
    ||| ends_with_names(given, seq!["windows"@, "softwaredistribution"@, "download"@])
    ||| ends_with_names(given, seq!["windows"@, "prefetch"@])
}

/// Whether a directory is a Gradle cache or holds downloaded distributions.
pub open spec fn is_gradle_cache(given: Seq<PartView>) -> bool {
    ||| ends_with_names(given, seq![".gradle"@, "caches"@])
    ||| ends_with_names(given, seq![".gradle"@, "wrapper"@, "dists"@])
}

/// Whether any scanned item stands in a directory.
pub open spec fn has_contents(items: Seq<ItemView>, directory: Seq<PartView>) -> bool {
    exists|i: int| 0 <= i < items.len() && index::is_child(#[trigger] items[i], directory)
}

/// Whether a file of some name stands beside an item.
pub open spec fn has_sibling(items: Seq<ItemView>, given: Seq<PartView>, name: Seq<char>) -> bool {
    match path::parent(given) {
        Some(parent) => exists|i: int|
            0 <= i < items.len() && relationships::child_named(parent, name, ItemKind::File)(
                #[trigger] items[i],
            ),
        None => false,
    }
}

/// How a directory is judged.
#[verifier::ext_equal]
pub struct DirectoryKind {
    pub category: FindingCategory,
    pub risk: RiskLevel,
    pub bits: u32,
    pub evidence: Seq<char>,
    pub action: SuggestedAction,
}

pub open spec fn directory_kind(items: Seq<ItemView>, given: Seq<PartView>) -> Option<
    DirectoryKind,
> {
    let name = names::strict_lower_name(given);
    let cache = |category: FindingCategory, evidence: Seq<char>|
        Some(
            DirectoryKind {
                category,
                risk: RiskLevel::Low,
                bits: CERTAINTY_90,
                evidence,
                action: SuggestedAction::ReviewForDeletion,
            },
        );
    let state = |category: FindingCategory, evidence: Seq<char>|
        Some(
            DirectoryKind {
                category,
                risk: RiskLevel::High,
                bits: CERTAINTY_90,
                evidence,
                action: SuggestedAction::ReviewForArchive,
            },
        );
    let generated = |category: FindingCategory|
        Some(
            DirectoryKind {
                category,
                risk: RiskLevel::Medium,
                bits: CERTAINTY_88,
                evidence: "Recognized as a generated dependency or build directory"@,
                action: SuggestedAction::ReviewForDeletion,
            },
        );
    if is_system_cache(given) {
        cache(
            FindingCategory::OperatingSystemCache,
            "Recognized as a known operating-system cache"@,
        )
    } else if name == ".cache"@ {
        cache(FindingCategory::CacheDirectory, "Recognized as a common cache directory"@)
    } else if is_gradle_cache(given) {
        cache(
            FindingCategory::GradleCache,
            "Recognized as a Gradle cache or downloaded distribution"@,
        )
    } else if text::ends(name, ".avd"@) {
        state(
            FindingCategory::AndroidEmulator,
            "Recognized as an Android Virtual Device directory"@,
        )
    } else if text::ends(name, ".vmwarevm"@) {
        state(FindingCategory::VirtualMachine, "Recognized as a virtual-machine bundle"@)
    } else if name == "node_modules"@ {
        generated(
            if has_contents(items, given) {
                FindingCategory::NodeModules
            } else {
                FindingCategory::GeneratedDirectory
            },
        )
    } else if name == "target"@ {
        generated(
            if has_sibling(items, given, "Cargo.toml"@) {
                FindingCategory::RustBuildArtifacts
            } else {
                FindingCategory::GeneratedDirectory
            },
        )
    } else if name == "build"@ || name == "dist"@ {
        generated(FindingCategory::GeneratedDirectory)
    } else {
        None
    }
}

pub open spec fn large_item_finding(item: ItemView, threshold: u64) -> FindingView {
    FindingView {
        category: FindingCategory::LargeItem,
        path: item.path,
        spelling: item.spelling,
        potential_recovery_bytes: item.size_bytes,
        confidence: Confidence { bits: CERTAINTY_100 },
        risk: RiskLevel::High,
        evidence: seq![
            "Item is at least "@ + text::decimal(threshold as nat)
                + " bytes, the configured large-item threshold"@,
        ],
        suggested_action: SuggestedAction::ReviewForArchive,
    }
}

pub open spec fn old_file_finding(
    item: ItemView,
    options: RuleOptionsView,
    category: FindingCategory,
    evidence: Seq<char>,
) -> FindingView {
    let days = match age_days(item, options) {
        Some(days) => days,
        None => options.old_item_threshold_days,
    };
    FindingView {
        category,
        path: item.path,
        spelling: item.spelling,
        potential_recovery_bytes: item.size_bytes,
        confidence: Confidence { bits: CERTAINTY_82 },
        risk: RiskLevel::Medium,
        evidence: seq![evidence, "Not modified in "@ + text::decimal(days as nat) + " days"@],
        suggested_action: SuggestedAction::ReviewForDeletion,
    }
}

pub open spec fn machine_finding(item: ItemView) -> FindingView {
    FindingView {
        category: FindingCategory::VirtualMachine,
        path: item.path,
        spelling: item.spelling,
        potential_recovery_bytes: item.size_bytes,
        confidence: Confidence { bits: CERTAINTY_90 },
        risk: RiskLevel::High,
        evidence: seq!["Recognized as a virtual-machine disk or package"@],
        suggested_action: SuggestedAction::ReviewForArchive,
    }
}

pub open spec fn directory_finding(item: ItemView, kind: DirectoryKind) -> FindingView {
    FindingView {
        category: kind.category,
        path: item.path,
        spelling: item.spelling,
        potential_recovery_bytes: item.size_bytes,
        confidence: Confidence { bits: kind.bits },
        risk: kind.risk,
        evidence: seq![
            kind.evidence,
            "Directory occupies "@ + text::decimal(item.size_bytes as nat) + " bytes"@,
        ],
        suggested_action: kind.action,
    }
}

/// What the rules find in one item.
pub open spec fn item_findings(
    items: Seq<ItemView>,
    item: ItemView,
    options: RuleOptionsView,
) -> Seq<FindingView> {
    let name = names::strict_lower_name(item.path);
    let large = if item.size_bytes >= options.large_item_threshold_bytes {
        seq![large_item_finding(item, options.large_item_threshold_bytes)]
    } else {
        Seq::empty()
    };
    let old = match old_file_kind(name) {
        Some((category, evidence)) => if item.kind == ItemKind::File && is_old(item, options) {
            seq![old_file_finding(item, options, category, evidence)]
        } else {
            Seq::empty()
        },
        None => Seq::empty(),
    };
    let machine = if item.kind == ItemKind::File && is_machine_file(name) {
        seq![machine_finding(item)]
    } else {
        Seq::empty()
    };
    let directory = match directory_kind(items, item.path) {
        Some(kind) => if item.kind == ItemKind::Directory {
            seq![directory_finding(item, kind)]
        } else {
            Seq::empty()
        },
        None => Seq::empty(),
    };
    large + old + machine + directory
}

/// Whether the rules look at an item at all.
pub open spec fn is_considered(root: Seq<PartView>, item: ItemView) -> bool {
    item.path != root && (item.kind == ItemKind::File || item.kind == ItemKind::Directory)
}

/// What the rules have made of some items.
#[verifier::ext_equal]
pub struct RuleState {
    pub findings: Seq<FindingView>,
    pub protected_items: u64,
    pub suppressed_findings: u64,
}

/// What the rules make of the first `count` items: nothing is recommended of
/// what is protected.
pub open spec fn evaluated(
    root: Seq<PartView>,
    items: Seq<ItemView>,
    options: RuleOptionsView,
    protected: PolicyView,
    count: int,
) -> RuleState
    decreases count,
{
    if count <= 0 {
        RuleState { findings: Seq::empty(), protected_items: 0, suppressed_findings: 0 }
    } else {
        let before = evaluated(root, items, options, protected, count - 1);
        let item = items[count - 1];
        let found = item_findings(items, item, options);
        if !is_considered(root, item) {
            before
        } else if protected.matches(item.path) {
            RuleState {
                findings: before.findings,
                protected_items: scanner::saturated(before.protected_items as nat + 1),
                suppressed_findings: scanner::saturated(
                    before.suppressed_findings as nat + found.len(),
                ),
            }
        } else {
            RuleState { findings: before.findings + found, ..before }
        }
    }
}

/// The place of a category among the findings of one item.
pub open spec fn category_rank(category: FindingCategory) -> int {
    match category {
        FindingCategory::LargeItem => 0,
        FindingCategory::OldArchive => 1,
        FindingCategory::OldInstaller => 2,
        FindingCategory::NodeModules => 3,
        FindingCategory::RustBuildArtifacts => 4,
        FindingCategory::GradleCache => 5,
        FindingCategory::AndroidEmulator => 6,
        FindingCategory::VirtualMachine => 7,
        FindingCategory::IsoImage => 8,
        FindingCategory::OperatingSystemCache => 9,
        FindingCategory::GeneratedDirectory => 10,
        FindingCategory::CacheDirectory => 11,
    }
}

pub(crate) fn rank_of_category(category: FindingCategory) -> (result: u8)
    ensures
        result == category_rank(category),
{
    match category {
        FindingCategory::LargeItem => 0,
        FindingCategory::OldArchive => 1,
        FindingCategory::OldInstaller => 2,
        FindingCategory::NodeModules => 3,
        FindingCategory::RustBuildArtifacts => 4,
        FindingCategory::GradleCache => 5,
        FindingCategory::AndroidEmulator => 6,
        FindingCategory::VirtualMachine => 7,
        FindingCategory::IsoImage => 8,
        FindingCategory::OperatingSystemCache => 9,
        FindingCategory::GeneratedDirectory => 10,
        FindingCategory::CacheDirectory => 11,
    }
}

/// Findings by what they may recover, the most first, then by path and category.
pub open spec fn finding_at_most(left: FindingView, right: FindingView) -> bool {
    if left.potential_recovery_bytes != right.potential_recovery_bytes {
        left.potential_recovery_bytes > right.potential_recovery_bytes
    } else if left.path != right.path {
        path::at_most(left.path, right.path)
    } else {
        category_rank(left.category) <= category_rank(right.category)
    }
}

pub open spec fn finding_order() -> spec_fn(FindingView, FindingView) -> bool {
    |left: FindingView, right: FindingView| finding_at_most(left, right)
}

pub proof fn lemma_finding_order()
    ensures
        order::is_ranking(finding_order()),
{
    let le = finding_order();
    assert forall|a: FindingView, b: FindingView| #[trigger] le(a, b) || le(b, a) by {
        path::law_paths_are_totally_ordered(a.path, b.path);
    }
    assert forall|a: FindingView, b: FindingView, c: FindingView| #[trigger] le(a, b)
        && #[trigger] le(b, c) implies le(a, c) by {
        path::law_paths_are_totally_ordered(a.path, b.path);
        path::law_paths_are_totally_ordered(b.path, c.path);
        path::law_paths_are_totally_ordered(a.path, c.path);
        if path::at_most(a.path, b.path) && path::at_most(b.path, c.path) {
            path::lemma_at_most_transitive(a.path, b.path, c.path);
        }
    }
}

struct FindingOrder;

impl Ranking<Finding> for FindingOrder {
    closed spec fn at_most(&self, left: FindingView, right: FindingView) -> bool {
        finding_at_most(left, right)
    }

    proof fn ranks(&self) {
        lemma_finding_order();
        assert(finding_order() =~= |left: FindingView, right: FindingView|
            self.at_most(left, right));
    }

    fn not_after(&self, left: &Finding, right: &Finding) -> (result: bool) {
        if left.potential_recovery_bytes != right.potential_recovery_bytes {
            left.potential_recovery_bytes > right.potential_recovery_bytes
        } else if !left.path.same(&right.path) {
            left.path.not_after(&right.path)
        } else {
            rank_of_category(left.category) <= rank_of_category(right.category)
        }
    }
}

#[derive(Debug)]
pub struct RuleEvaluation {
    pub findings: Vec<Finding>,
    pub protected_items: u64,
    pub suppressed_findings: u64,
}

impl View for RuleEvaluation {
    type V = RuleState;

    open spec fn view(&self) -> RuleState {
        RuleState {
            findings: order::views(self.findings@),
            protected_items: self.protected_items,
            suppressed_findings: self.suppressed_findings,
        }
    }
}

/// What the rules make of a scan under a policy of protection.
pub open spec fn evaluation_of(
    root: Seq<PartView>,
    items: Seq<ItemView>,
    options: RuleOptionsView,
    protected: PolicyView,
) -> RuleState {
    let end = evaluated(root, items, options, protected, items.len() as int);
    RuleState { findings: order::sorted(end.findings, finding_order()), ..end }
}

pub open spec fn report_due(processed: u64, complete: bool) -> bool {
    complete || processed == 0 || processed % PROGRESS_INTERVAL_ITEMS == 0
}

pub open spec fn progress_event(processed: u64, total: u64) -> EventView {
    EventView {
        phase: AnalysisPhase::BuildingRecommendations,
        items_processed: processed,
        bytes_processed: 0,
        total_items: Some(total),
        total_bytes: None,
        current_path: None,
    }
}

/// What is reported in the course of the first items.
pub open spec fn reports(total: u64, steps: int) -> Seq<EventView>
    decreases steps,
{
    if steps <= 0 {
        seq![progress_event(0, total)]
    } else if report_due(steps as u64, false) {
        reports(total, steps - 1).push(progress_event(steps as u64, total))
    } else {
        reports(total, steps - 1)
    }
}

fn report_rule_progress<P: ProgressSink>(sink: &mut P, processed: u64, total: u64, complete: bool)
    ensures
        final(sink).received() == if report_due(processed, complete) {
            old(sink).received().push(progress_event(processed, total))
        } else {
            old(sink).received()
        },
{
    if complete || processed == 0 || processed % PROGRESS_INTERVAL_ITEMS == 0 {
        sink.report(
            &ProgressEvent {
                phase: AnalysisPhase::BuildingRecommendations,
                items_processed: processed,
                bytes_processed: 0,
                total_items: Some(total),
                total_bytes: None,
                current_path: None,
            },
        );
    }
}

fn age_of(item: &ScannedItem, options: &RuleOptions) -> (result: Option<u64>)
    ensures
        result == age_days(item@, options@),
{
    match item.modified_at_epoch_seconds {
        Some(modified) => Some(
            options.now_epoch_seconds.saturating_sub(modified) / DAY_SECONDS,
        ),
        None => None,
    }
}

struct Anything;

impl Condition for Anything {
    closed spec fn holds(&self, item: ItemView) -> bool {
        true
    }

    fn check(&self, item: &ScannedItem) -> (result: bool) {
        true
    }
}

fn directory_has_contents(index: &ItemIndex, directory: &FilePath) -> (result: bool)
    ensures
        result == has_contents(index.all(), directory@),
{
    let condition = Anything;
    let ghost wanted = index::children_where(directory@, condition);
    let ghost items = index.all();
    match index.earliest_child(directory, &condition) {
        Some(item) => {
            proof {
                let at = choose|at: int| index::is_first(items, wanted, at);
                assert(index::is_child(items[at], directory@));
            }
            true
        },
        None => {
            proof {
                assert forall|i: int| 0 <= i < items.len() implies !index::is_child(
                    #[trigger] items[i],
                    directory@,
                ) by {
                    if index::is_child(items[i], directory@) {
                        index::lemma_some_first(items, wanted, i);
                    }
                }
            }
            false
        },
    }
}

fn file_stands_beside(index: &ItemIndex, given: &FilePath, name: &str) -> (result: bool)
    ensures
        result == has_sibling(index.all(), given@, name@),
{
    let ghost items = index.all();
    match given.parent() {
        Some(parent) => {
            let ghost wanted = relationships::child_named(parent@, name@, ItemKind::File);
            match relationships::find_named(index, &parent, name, ItemKind::File) {
                Some(item) => {
                    proof {
                        let at = choose|at: int| index::is_first(items, wanted, at);
                        assert(wanted(items[at]));
                    }
                    true
                },
                None => {
                    proof {
                        assert forall|i: int| 0 <= i < items.len() implies !wanted(
                            #[trigger] items[i],
                        ) by {
                            if wanted(items[i]) {
                                index::lemma_some_first(items, wanted, i);
                            }
                        }
                    }
                    false
                },
            }
        },
        None => false,
    }
}

fn path_ends_with(given: &FilePath, wanted: &Vec<&'static str>) -> (result: bool)
    ensures
        result == ends_with_names(given@, order::views(wanted@)),
{
    let ghost all = order::views(wanted@);
    let mut rest = given.clone();
    let mut left: usize = wanted.len();
    assert(all.take(left as int) =~= all);
    while left > 0
        invariant
            left <= wanted.len(),
            all == order::views(wanted@),
            ends_with_names(given@, all) == ends_with_names(rest@, all.take(left as int)),
        decreases left,
    {
        let ghost here = all.take(left as int);
        assert(here.last() == wanted@[left - 1]@);
        assert(here.drop_last() =~= all.take(left - 1));
        if rest.len() == 0 || !text::same_text(
            names::strict_lowercase_name(&rest).as_str(),
            wanted[left - 1],
        ) {
            return false;
        }
        let length: usize = rest.len() - 1;
        let shorter = rest.prefix(length);
        assert(shorter@ =~= rest@.drop_last());
        rest = shorter;
        left = left - 1;
    }
    true
}

fn system_cache(given: &FilePath) -> (result: bool)
    ensures
        result == is_system_cache(given@),
{
    let linux = vec!["var", "cache"];
    assert(order::views(linux@) =~= seq!["var"@, "cache"@]);
    let updates = vec!["windows", "softwaredistribution", "download"];
    assert(order::views(updates@) =~= seq!["windows"@, "softwaredistribution"@, "download"@]);
    let prefetch = vec!["windows", "prefetch"];
    assert(order::views(prefetch@) =~= seq!["windows"@, "prefetch"@]);
    (given.len() == 3 && given.is_absolute() && path_ends_with(given, &linux)) || path_ends_with(
        given,
        &updates,
    ) || path_ends_with(given, &prefetch)
}

fn gradle_cache(given: &FilePath) -> (result: bool)
    ensures
        result == is_gradle_cache(given@),
{
    let caches = vec![".gradle", "caches"];
    assert(order::views(caches@) =~= seq![".gradle"@, "caches"@]);
    let distributions = vec![".gradle", "wrapper", "dists"];
    assert(order::views(distributions@) =~= seq![".gradle"@, "wrapper"@, "dists"@]);
    path_ends_with(given, &caches) || path_ends_with(given, &distributions)
}

struct Judged {
    category: FindingCategory,
    risk: RiskLevel,
    bits: u32,
    evidence: &'static str,
    action: SuggestedAction,
}

impl View for Judged {
    type V = DirectoryKind;

    closed spec fn view(&self) -> DirectoryKind {
        DirectoryKind {
            category: self.category,
            risk: self.risk,
            bits: self.bits,
            evidence: self.evidence@,
            action: self.action,
        }
    }
}

fn judge_directory(index: &ItemIndex, given: &FilePath) -> (result: Option<Judged>)
    ensures
        crate::model::optional(result) == directory_kind(index.all(), given@),
{
    let name = names::strict_lowercase_name(given);
    let characters = text::chars_of(name.as_str());
    let emulator = text::chars_of(".avd");
    let bundle = text::chars_of(".vmwarevm");
    if system_cache(given) {
        Some(
            Judged {
                category: FindingCategory::OperatingSystemCache,
                risk: RiskLevel::Low,
                bits: CERTAINTY_90,
                evidence: "Recognized as a known operating-system cache",
                action: SuggestedAction::ReviewForDeletion,
            },
        )
    } else if text::same_text(name.as_str(), ".cache") {
        Some(
            Judged {
                category: FindingCategory::CacheDirectory,
                risk: RiskLevel::Low,
                bits: CERTAINTY_90,
                evidence: "Recognized as a common cache directory",
                action: SuggestedAction::ReviewForDeletion,
            },
        )
    } else if gradle_cache(given) {
        Some(
            Judged {
                category: FindingCategory::GradleCache,
                risk: RiskLevel::Low,
                bits: CERTAINTY_90,
                evidence: "Recognized as a Gradle cache or downloaded distribution",
                action: SuggestedAction::ReviewForDeletion,
            },
        )
    } else if text::chars_end_with(characters.as_slice(), emulator.as_slice()) {
        Some(
            Judged {
                category: FindingCategory::AndroidEmulator,
                risk: RiskLevel::High,
                bits: CERTAINTY_90,
                evidence: "Recognized as an Android Virtual Device directory",
                action: SuggestedAction::ReviewForArchive,
            },
        )
    } else if text::chars_end_with(characters.as_slice(), bundle.as_slice()) {
        Some(
            Judged {
                category: FindingCategory::VirtualMachine,
                risk: RiskLevel::High,
                bits: CERTAINTY_90,
                evidence: "Recognized as a virtual-machine bundle",
                action: SuggestedAction::ReviewForArchive,
            },
        )
    } else {
        let category = if text::same_text(name.as_str(), "node_modules") {
            if directory_has_contents(index, given) {
                FindingCategory::NodeModules
            } else {
                FindingCategory::GeneratedDirectory
            }
        } else if text::same_text(name.as_str(), "target") {
            if file_stands_beside(index, given, "Cargo.toml") {
                FindingCategory::RustBuildArtifacts
            } else {
                FindingCategory::GeneratedDirectory
            }
        } else if text::same_text(name.as_str(), "build") || text::same_text(
            name.as_str(),
            "dist",
        ) {
            FindingCategory::GeneratedDirectory
        } else {
            return None;
        };
        Some(
            Judged {
                category,
                risk: RiskLevel::Medium,
                bits: CERTAINTY_88,
                evidence: "Recognized as a generated dependency or build directory",
                action: SuggestedAction::ReviewForDeletion,
            },
        )
    }
}

fn one_line(line: String) -> (result: Vec<String>)
    ensures
        order::views(result@) == seq![line@],
{
    let mut lines: Vec<String> = Vec::new();
    lines.push(line);
    assert(order::views(lines@) =~= seq![line@]);
    lines
}

fn two_lines(first: String, second: String) -> (result: Vec<String>)
    ensures
        order::views(result@) == seq![first@, second@],
{
    let mut lines: Vec<String> = Vec::new();
    lines.push(first);
    lines.push(second);
    assert(order::views(lines@) =~= seq![first@, second@]);
    lines
}

fn make_large(item: &ScannedItem, threshold: u64) -> (result: Finding)
    ensures
        result@ == large_item_finding(item@, threshold),
{
    Finding {
        category: FindingCategory::LargeItem,
        path: item.path.clone(),
        potential_recovery_bytes: item.size_bytes,
        confidence: Confidence { bits: CERTAINTY_100 },
        risk: RiskLevel::High,
        evidence: one_line(
            text::cat3(
                "Item is at least ",
                text::decimal_of(threshold).as_str(),
                " bytes, the configured large-item threshold",
            ),
        ),
        suggested_action: SuggestedAction::ReviewForArchive,
    }
}

fn make_old(
    item: &ScannedItem,
    options: &RuleOptions,
    category: FindingCategory,
    evidence: &str,
) -> (result: Finding)
    ensures
        result@ == old_file_finding(item@, options@, category, evidence@),
{
    let days: u64 = match age_of(item, options) {
        Some(days) => days,
        None => options.old_item_threshold_days,
    };
    Finding {
        category,
        path: item.path.clone(),
        potential_recovery_bytes: item.size_bytes,
        confidence: Confidence { bits: CERTAINTY_82 },
        risk: RiskLevel::Medium,
        evidence: two_lines(
            evidence.to_owned(),
            text::cat3("Not modified in ", text::decimal_of(days).as_str(), " days"),
        ),
        suggested_action: SuggestedAction::ReviewForDeletion,
    }
}

fn make_machine(item: &ScannedItem) -> (result: Finding)
    ensures
        result@ == machine_finding(item@),
{
    Finding {
        category: FindingCategory::VirtualMachine,
        path: item.path.clone(),
        potential_recovery_bytes: item.size_bytes,
        confidence: Confidence { bits: CERTAINTY_90 },
        risk: RiskLevel::High,
        evidence: one_line("Recognized as a virtual-machine disk or package".to_owned()),
        suggested_action: SuggestedAction::ReviewForArchive,
    }
}

fn make_directory(item: &ScannedItem, kind: Judged) -> (result: Finding)
    ensures
        result@ == directory_finding(item@, kind@),
{
    Finding {
        category: kind.category,
        path: item.path.clone(),
        potential_recovery_bytes: item.size_bytes,
        confidence: Confidence { bits: kind.bits },
        risk: kind.risk,
        evidence: two_lines(
            kind.evidence.to_owned(),
            text::cat3("Directory occupies ", text::decimal_of(item.size_bytes).as_str(), " bytes"),
        ),
        suggested_action: kind.action,
    }
}

fn add_finding(findings: &mut Vec<Finding>, finding: Finding)
    ensures
        order::views(final(findings)@) == order::views(old(findings)@) + seq![finding@],
{
    let ghost before = order::views(findings@);
    proof {
        order::lemma_views_push(findings@, finding);
    }
    findings.push(finding);
    assert(order::views(findings@) =~= before + seq![finding@]);
}

fn judge_item(index: &ItemIndex, item: &ScannedItem, options: &RuleOptions) -> (result: Vec<
    Finding,
>)
    ensures
        order::views(result@) == item_findings(index.all(), item@, options@),
{
    let ghost items = index.all();
    let name = names::strict_lowercase_name(&item.path);
    let mut findings: Vec<Finding> = Vec::new();
    assert(order::views(findings@) =~= Seq::<FindingView>::empty());
    if item.size_bytes >= options.large_item_threshold_bytes {
        add_finding(&mut findings, make_large(item, options.large_item_threshold_bytes));
    }
    let ghost large = order::views(findings@);
    if item.kind == ItemKind::File {
        let old = match age_of(item, options) {
            Some(days) => days >= options.old_item_threshold_days,
            None => false,
        };
        if old {
            if let Some((category, evidence)) = classify_old_file(name.as_str()) {
                add_finding(&mut findings, make_old(item, options, category, evidence));
            }
        }
        if names::any_suffix(name.as_str(), &relationships::virtual_disk_suffix_list())
            || names::any_suffix(name.as_str(), &relationships::package_suffix_list()) {
            add_finding(&mut findings, make_machine(item));
        }
    }
    if item.kind == ItemKind::Directory {
        if let Some(kind) = judge_directory(index, &item.path) {
            add_finding(&mut findings, make_directory(item, kind));
        }
    }
    assert(order::views(findings@) =~= item_findings(items, item@, options@));
    findings
}

/// What is said of an evaluation, which asks before each item and at the end
/// whether to stop: it is complete where no answer asked for a stop, it ends
/// with the items before the first one that did, and where the rules cannot be
/// compiled it asks nothing.
pub open spec fn is_outcome(
    root: Seq<PartView>,
    items: Seq<ItemView>,
    options: RuleOptionsView,
    result: Result<RuleEvaluation, RuleError>,
    answers: Seq<bool>,
    reported: Seq<EventView>,
) -> bool {
    match result {
        Ok(evaluation) => {
            &&& progress::goes_on(answers, items.len() + 1)
            &&& policy::compiled(root, options.rule_set()) matches Ok(protected)
            &&& evaluation@ == evaluation_of(root, items, options, protected)
            &&& reported == reports(items.len() as u64, items.len() as int).push(
                progress_event(items.len() as u64, items.len() as u64),
            )
        },
        Err(RuleError::InvalidProtectedRule(error)) => {
            &&& policy::compiled(root, options.rule_set()) == Err::<PolicyView, RuleErrorView>(
                error@,
            )
            &&& answers == Seq::<bool>::empty()
            &&& reported == Seq::<EventView>::empty()
        },
        Err(RuleError::Cancelled { items_processed }) => {
            &&& policy::compiled(root, options.rule_set()) is Ok
            &&& items_processed <= items.len()
            &&& progress::stops_at(answers, items_processed as int)
            &&& reported == reports(items.len() as u64, items_processed as int)
        },
    }
}

/// Applies the rules to a scan, with progress reported on the way. Before each
/// item, and at the end, the signal says whether to stop.
pub fn evaluate_polled<P: ProgressSink, S: StopSignal>(
    scan: &ScanResult,
    options: &RuleOptions,
    signal: &mut S,
    on_progress: &mut P,
) -> (result: Result<RuleEvaluation, RuleError>)
    ensures
        exists|answers: Seq<bool>, reported: Seq<EventView>|
            progress::polled(*old(signal), *final(signal), answers)
                && final(on_progress).received() == old(on_progress).received() + reported
                && #[trigger] is_outcome(
                scan@.root,
                scan@.items,
                options@,
                result,
                answers,
                reported,
            ),
{
    let ghost first = *signal;
    let ghost mut answers = Seq::<bool>::empty();
    proof {
        progress::lemma_polled_nothing(*signal);
    }
    let ghost earlier = on_progress.received();
    let ghost items = scan@.items;
    let ghost root = scan@.root;
    let matcher = match PathMatcher::with_case(
        &scan.root,
        options.protected_rules.as_slice(),
        options.ignore_case,
    ) {
        Ok(matcher) => matcher,
        Err(error) => {
            let result = Err(RuleError::InvalidProtectedRule(error));
            proof {
                let none = Seq::<EventView>::empty();
                assert(earlier + none =~= earlier);
                assert(is_outcome(root, items, options@, result, answers, none));
            }
            return result;
        },
    };
    let ghost protected = matcher@;
    let index = ItemIndex::new(&scan.items);
    let total: u64 = scan.items.len() as u64;
    let mut findings: Vec<Finding> = Vec::new();
    let mut protected_items: u64 = 0;
    let mut suppressed_findings: u64 = 0;
    let mut processed: u64 = 0;
    report_rule_progress(on_progress, 0, total, false);
    proof {
        assert(on_progress.received() =~= earlier + reports(total, 0));
        assert(order::views(findings@) =~= Seq::<FindingView>::empty());
    }
    let mut at: usize = 0;
    while at < scan.items.len()
        invariant
            at <= scan.items@.len(),
            items == order::views(scan.items@),
            items == scan@.items,
            root == scan@.root,
            index.all() == items,
            protected == matcher@,
            policy::compiled(root, options@.rule_set()) == Ok::<PolicyView, RuleErrorView>(
                protected,
            ),
            total == items.len(),
            processed == at,
            earlier == old(on_progress).received(),
            evaluated(root, items, options@, protected, at as int) == (RuleState {
                findings: order::views(findings@),
                protected_items,
                suppressed_findings,
            }),
            on_progress.received() == earlier + reports(total, at as int),
            first == *old(signal),
            progress::polled(first, *signal, answers),
            progress::goes_on(answers, at as nat),
        decreases scan.items@.len() - at,
    {
        let ghost before = *signal;
        let stop = signal.poll();
        proof {
            progress::lemma_polled_once(first, before, *signal, answers, stop);
            answers = answers.push(stop);
        }
        if stop {
            let result = Err(RuleError::Cancelled { items_processed: processed });
            assert(is_outcome(root, items, options@, result, answers, reports(total, at as int)));
            return result;
        }
        let item = &scan.items[at];
        assert(items[at as int] == item@);
        processed = processed + 1;
        let considered = !item.path.same(&scan.root) && (item.kind == ItemKind::File || item.kind
            == ItemKind::Directory);
        if considered {
            let found = judge_item(&index, item, options);
            if matcher.is_match(&item.path) {
                protected_items = protected_items.saturating_add(1);
                suppressed_findings = suppressed_findings.saturating_add(found.len() as u64);
            } else {
                append_findings(&mut findings, found);
            }
        }
        report_rule_progress(on_progress, processed, total, false);
        assert(on_progress.received() =~= earlier + reports(total, at + 1));
        at = at + 1;
    }
    proof {
        assert(order::relation::<Finding, FindingOrder>(FindingOrder) =~= finding_order());
    }
    let findings = order::sort_by_ranking(findings, &FindingOrder);
    let ghost before = *signal;
    let stop = signal.poll();
    proof {
        progress::lemma_polled_once(first, before, *signal, answers, stop);
        answers = answers.push(stop);
    }
    if stop {
        let result = Err(RuleError::Cancelled { items_processed: processed });
        assert(is_outcome(root, items, options@, result, answers, reports(total, at as int)));
        return result;
    }
    report_rule_progress(on_progress, processed, total, true);
    let result = Ok(RuleEvaluation { findings, protected_items, suppressed_findings });
    proof {
        let reported = reports(total, at as int).push(progress_event(total, total));
        assert(on_progress.received() =~= earlier + reported);
        assert(is_outcome(root, items, options@, result, answers, reported));
    }
    result
}

fn append_findings(findings: &mut Vec<Finding>, more: Vec<Finding>)
    ensures
        order::views(final(findings)@) == order::views(old(findings)@) + order::views(more@),
{
    let mut more = more;
    let ghost before = findings@;
    let ghost added = more@;
    findings.append(&mut more);
    assert(order::views(findings@) =~= order::views(before) + order::views(added));
}

/// What the rules find in a scan.
pub fn evaluate(scan: &ScanResult, options: &RuleOptions) -> (result: Vec<Finding>)
    requires
        policy::compiled(scan@.root, options@.rule_set()) is Ok,
    ensures
        policy::compiled(scan@.root, options@.rule_set()) matches Ok(protected)
            && order::views(result@) == evaluation_of(
            scan@.root,
            scan@.items,
            options@,
            protected,
        ).findings,
{
    let mut log = ProgressLog::new();
    let mut signal = NeverStops::new();
    match evaluate_polled(scan, options, &mut signal, &mut log) {
        Ok(evaluation) => evaluation.findings,
        Err(_) => Vec::new(),
    }
}

/// The findings of `evaluate_with_policy_progress`.
pub fn evaluate_with_progress<P: ProgressSink>(
    scan: &ScanResult,
    options: &RuleOptions,
    cancellation: &CancellationToken,
    on_progress: &mut P,
) -> (result: Result<Vec<Finding>, RuleError>)
    ensures
        exists|
            evaluation: Result<RuleEvaluation, RuleError>,
            answers: Seq<bool>,
            reported: Seq<EventView>,
        |
            progress::given_by(cancellation, answers) && final(on_progress).received() == old(
                on_progress,
            ).received() + reported && #[trigger] is_outcome(
                scan@.root,
                scan@.items,
                options@,
                evaluation,
                answers,
                reported,
            ) && match (evaluation, result) {
                (Ok(whole), Ok(findings)) => order::views(findings@) == whole@.findings,
                (Err(wanted), Err(error)) => wanted == error,
                _ => false,
            },
{
    let evaluation = evaluate_with_policy_progress(scan, options, cancellation, on_progress);
    match evaluation {
        Ok(whole) => Ok(whole.findings),
        Err(error) => Err(error),
    }
}

/// Applies the rules to a scan, with progress reported on the way. Where the
/// token is found cancelled before an item or at the end, that ends it.
pub fn evaluate_with_policy_progress<P: ProgressSink>(
    scan: &ScanResult,
    options: &RuleOptions,
    cancellation: &CancellationToken,
    on_progress: &mut P,
) -> (result: Result<RuleEvaluation, RuleError>)
    ensures
        exists|answers: Seq<bool>, reported: Seq<EventView>|
            progress::given_by(cancellation, answers) && final(on_progress).received() == old(
                on_progress,
            ).received() + reported && #[trigger] is_outcome(
                scan@.root,
                scan@.items,
                options@,
                result,
                answers,
                reported,
            ),
{
    let mut signal = TokenSignal::new(cancellation);
    evaluate_polled(scan, options, &mut signal, on_progress)
}

proof fn lemma_no_protected_finding(
    root: Seq<PartView>,
    items: Seq<ItemView>,
    options: RuleOptionsView,
    protected: PolicyView,
    count: int,
)
    requires
        0 <= count <= items.len(),
    ensures
        forall|k: int|
            0 <= k < evaluated(root, items, options, protected, count).findings.len()
                ==> !protected.matches(
                (#[trigger] evaluated(root, items, options, protected, count).findings[k]).path,
            ),
    decreases count,
{
    if count > 0 {
        lemma_no_protected_finding(root, items, options, protected, count - 1);
        let item = items[count - 1];
        let found = item_findings(items, item, options);
        assert forall|k: int| 0 <= k < found.len() implies (#[trigger] found[k]).path == item.path by {}
    }
}

/// Nothing that is protected is ever recommended.
pub proof fn law_protected_items_are_never_recommended(
    root: Seq<PartView>,
    items: Seq<ItemView>,
    options: RuleOptionsView,
    protected: PolicyView,
    finding: FindingView,
)
    requires
        evaluation_of(root, items, options, protected).findings.contains(finding),
    ensures
        !protected.matches(finding.path),
{
    let end = evaluated(root, items, options, protected, items.len() as int);
    lemma_finding_order();
    order::lemma_sorted_contains(end.findings, finding, finding_order());
    lemma_no_protected_finding(root, items, options, protected, items.len() as int);
    let k = choose|k: int| 0 <= k < end.findings.len() && end.findings[k] == finding;
    assert(!protected.matches(end.findings[k].path));
}

/// Whether a finding is what the rules find in an item that they look at and
/// that is not protected.
pub open spec fn is_found_in(
    root: Seq<PartView>,
    items: Seq<ItemView>,
    options: RuleOptionsView,
    protected: PolicyView,
    finding: FindingView,
    place: int,
) -> bool {
    &&& 0 <= place < items.len()
    &&& is_considered(root, items[place])
    &&& !protected.matches(items[place].path)
    &&& item_findings(items, items[place], options).contains(finding)
}

pub proof fn lemma_finding_source(
    root: Seq<PartView>,
    items: Seq<ItemView>,
    options: RuleOptionsView,
    protected: PolicyView,
    count: int,
    finding: FindingView,
) -> (place: int)
    requires
        0 <= count <= items.len(),
        evaluated(root, items, options, protected, count).findings.contains(finding),
    ensures
        is_found_in(root, items, options, protected, finding, place),
    decreases count,
{
    let all = evaluated(root, items, options, protected, count).findings;
    if count <= 0 {
        0
    } else {
        let before = evaluated(root, items, options, protected, count - 1).findings;
        let at = choose|at: int| 0 <= at < all.len() && all[at] == finding;
        if at < before.len() {
            assert(before[at] == finding);
            lemma_finding_source(root, items, options, protected, count - 1, finding)
        } else {
            let found = item_findings(items, items[count - 1], options);
            assert(found[at - before.len()] == finding);
            count - 1
        }
    }
}

/// Every recommendation is what a rule finds in a scanned item, never in the
/// root itself.
pub proof fn law_recommendations_are_about_scanned_items(
    root: Seq<PartView>,
    items: Seq<ItemView>,
    options: RuleOptionsView,
    protected: PolicyView,
    finding: FindingView,
)
    requires
        evaluation_of(root, items, options, protected).findings.contains(finding),
    ensures
        exists|place: int|
            #![trigger items[place]]
            is_found_in(root, items, options, protected, finding, place) && items[place].path
                == finding.path && items[place].size_bytes == finding.potential_recovery_bytes,
        finding.path != root,
{
    let end = evaluated(root, items, options, protected, items.len() as int);
    lemma_finding_order();
    order::lemma_sorted_contains(end.findings, finding, finding_order());
    let place = lemma_finding_source(
        root,
        items,
        options,
        protected,
        items.len() as int,
        finding,
    );
    assert(items[place].path == finding.path);
}

/// What is only large, and what may hold a state of its own, is of high risk
/// and suggested for archiving. Build output of Rust stands beside a manifest.
pub proof fn law_categories_keep_their_promises(
    root: Seq<PartView>,
    items: Seq<ItemView>,
    options: RuleOptionsView,
    protected: PolicyView,
    finding: FindingView,
)
    requires
        evaluation_of(root, items, options, protected).findings.contains(finding),
    ensures
        (finding.category is LargeItem || finding.category is VirtualMachine
            || finding.category is AndroidEmulator) ==> finding.risk is High
            && finding.suggested_action is ReviewForArchive,
        finding.category is LargeItem ==> finding.potential_recovery_bytes
            >= options.large_item_threshold_bytes,
        finding.category is RustBuildArtifacts ==> has_sibling(
            items,
            finding.path,
            "Cargo.toml"@,
        ),
        finding.category is NodeModules ==> has_contents(items, finding.path),
        !(finding.risk is High) ==> finding.suggested_action is ReviewForDeletion,
{
    let end = evaluated(root, items, options, protected, items.len() as int);
    lemma_finding_order();
    order::lemma_sorted_contains(end.findings, finding, finding_order());
    let place = lemma_finding_source(
        root,
        items,
        options,
        protected,
        items.len() as int,
        finding,
    );
    let found = item_findings(items, items[place], options);
    let at = choose|at: int| 0 <= at < found.len() && found[at] == finding;
    assert(found[at] == finding);
}

/// What lies below something protected is never recommended either.
pub proof fn law_protection_covers_descendants(
    root: Seq<PartView>,
    items: Seq<ItemView>,
    options: RuleOptionsView,
    protected: PolicyView,
    directory: Seq<PartView>,
    finding: FindingView,
)
    requires
        protected.matches(directory),
        path::within(path::normalized(finding.path), path::normalized(directory)),
    ensures
        !evaluation_of(root, items, options, protected).findings.contains(finding),
{
    policy::law_descendants_of_a_match_match(protected, directory, finding.path);
    if evaluation_of(root, items, options, protected).findings.contains(finding) {
        law_protected_items_are_never_recommended(root, items, options, protected, finding);
    }
}

proof fn lemma_withheld(
    root: Seq<PartView>,
    items: Seq<ItemView>,
    options: RuleOptionsView,
    nothing: PolicyView,
    protected: PolicyView,
    count: int,
)
    requires
        0 <= count <= items.len(),
        forall|given: Seq<PartView>| !(#[trigger] nothing.matches(given)),
        evaluated(root, items, options, nothing, count).findings.len() <= u64::MAX,
    ensures
        evaluated(root, items, options, nothing, count).findings.len() == evaluated(
            root,
            items,
            options,
            protected,
            count,
        ).findings.len() + evaluated(root, items, options, protected, count).suppressed_findings,
        forall|finding: FindingView|
            evaluated(root, items, options, protected, count).findings.contains(finding)
                ==> #[trigger] evaluated(root, items, options, nothing, count).findings.contains(
                finding,
            ),
    decreases count,
{
    if count > 0 {
        let item = items[count - 1];
        let found = item_findings(items, item, options);
        let open = evaluated(root, items, options, nothing, count - 1);
        let kept = evaluated(root, items, options, protected, count - 1);
        let open_after = evaluated(root, items, options, nothing, count).findings;
        let kept_after = evaluated(root, items, options, protected, count).findings;
        assert(!nothing.matches(item.path));
        lemma_withheld(root, items, options, nothing, protected, count - 1);
        assert forall|finding: FindingView| kept_after.contains(
            finding,
        ) implies #[trigger] open_after.contains(finding) by {
            let at = choose|at: int| 0 <= at < kept_after.len() && kept_after[at] == finding;
            if at < kept.findings.len() {
                assert(kept.findings[at] == finding);
                assert(open.findings.contains(finding));
                let k = choose|k: int| 0 <= k < open.findings.len() && open.findings[k] == finding;
                assert(open_after[k] == finding);
            } else {
                let k = open.findings.len() + (at - kept.findings.len());
                assert(open_after[k] == finding);
            }
        }
    }
}

/// Protection only withholds: every recommendation would be made without it
/// too, and those that it withholds are counted.
pub proof fn law_protection_withholds_and_counts(
    root: Seq<PartView>,
    items: Seq<ItemView>,
    options: RuleOptionsView,
    nothing: PolicyView,
    protected: PolicyView,
)
    requires
        forall|given: Seq<PartView>| !(#[trigger] nothing.matches(given)),
        evaluation_of(root, items, options, nothing).findings.len() <= u64::MAX,
    ensures
        ({
            let open = evaluation_of(root, items, options, nothing);
            let kept = evaluation_of(root, items, options, protected);
            &&& open.findings.len() == kept.findings.len() + kept.suppressed_findings
            &&& forall|finding: FindingView|
                kept.findings.contains(finding) ==> #[trigger] open.findings.contains(finding)
        }),
{
    let open = evaluated(root, items, options, nothing, items.len() as int).findings;
    let kept = evaluated(root, items, options, protected, items.len() as int).findings;
    lemma_finding_order();
    order::lemma_sorted_len(open, finding_order());
    order::lemma_sorted_len(kept, finding_order());
    lemma_withheld(root, items, options, nothing, protected, items.len() as int);
    assert forall|finding: FindingView| evaluation_of(
        root,
        items,
        options,
        protected,
    ).findings.contains(finding) implies #[trigger] evaluation_of(
        root,
        items,
        options,
        nothing,
    ).findings.contains(finding) by {
        order::lemma_sorted_contains(kept, finding, finding_order());
        order::lemma_sorted_contains(open, finding, finding_order());
    }
}

} // verus!
