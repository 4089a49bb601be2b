//! Scanning: what a walk over a directory tree adds up to.

use crate::model;
use crate::model::{
    FileIdentity, ItemKind, ItemView, ScanResult, ScanView, ScanWarning, ScanWarningView,
    ScannedItem,
};
use crate::order;
use crate::order::Ranking;
use crate::path;
use crate::path::{FilePath, GivenView, PartView};
use crate::policy;
use crate::policy::{PathMatcher, PathRule, PathRuleError, PolicyView, RuleErrorView, RuleSetView};
use crate::progress;
use crate::progress::{
    AnalysisPhase, CancellationToken, EventView, NeverStops, ProgressEvent, ProgressLog,
    ProgressSink, StopSignal, TokenSignal,
};
use crate::text;
use vstd::prelude::*;

verus! {

/// How many items lie between two progress reports.
pub const PROGRESS_INTERVAL_ITEMS: u64 = 128;

#[derive(Debug)]
pub struct ScanOptions {
    pub root: FilePath,
    pub cross_filesystems: bool,
    /// What the scan leaves out.
    pub ignored_rules: Vec<PathRule>,
    /// Whether rules match whatever the case of letters.
    pub ignore_case: bool,
}

impl ScanOptions {
    pub open spec fn rule_set(&self) -> RuleSetView {
        policy::rule_set(order::views(self.ignored_rules@), self.ignore_case)
    }

    pub fn new(root: FilePath) -> (result: Self)
        ensures
            result.root@ == root@,
            result.root.spelling() == root.spelling(),
            !result.cross_filesystems,
            result.ignored_rules@.len() == 0,
            !result.ignore_case,
    {
        ScanOptions {
            root,
            cross_filesystems: false,
            ignored_rules: Vec::new(),
            ignore_case: false,
        }
    }
}

#[derive(Debug)]
pub enum ScanError {
    RootAccess { path: FilePath, reason: String },
    RootNotDirectory(FilePath),
    InvalidRule(PathRuleError),
    Cancelled { items_processed: u64, bytes_processed: u64 },
}

#[verifier::ext_equal]
pub enum ScanErrorView {
    RootAccess { given: GivenView, reason: Seq<char> },
    RootNotDirectory(GivenView),
    InvalidRule(RuleErrorView),
    Cancelled { items_processed: u64, bytes_processed: u64 },
}

impl View for ScanError {
    type V = ScanErrorView;

    open spec fn view(&self) -> ScanErrorView {
        match self {
            ScanError::RootAccess { path, reason } => ScanErrorView::RootAccess {
                given: path.as_given(),
                reason: reason@,
            },
            ScanError::RootNotDirectory(path) => ScanErrorView::RootNotDirectory(path.as_given()),
            ScanError::InvalidRule(error) => ScanErrorView::InvalidRule(error@),
            ScanError::Cancelled { items_processed, bytes_processed } => ScanErrorView::Cancelled {
                items_processed: *items_processed,
                bytes_processed: *bytes_processed,
            },
        }
    }
}

impl ScanErrorView {
    /// The error as a sentence.
    pub open spec fn described(self) -> Seq<char> {
        match self {
            ScanErrorView::RootAccess { given, reason } => "cannot access scan root "@
                + path::spelled(given.spelling) + ": "@ + reason,
            ScanErrorView::RootNotDirectory(given) => "scan root is not a directory: "@
                + path::spelled(given.spelling),
            ScanErrorView::InvalidRule(error) => "invalid path pattern "@ + policy::quoted(
                error.pattern,
            ) + ": "@ + error.message,
            ScanErrorView::Cancelled { items_processed, bytes_processed } =>
            "scan cancelled after processing "@ + text::decimal(items_processed as nat)
                + " items and "@ + text::decimal(bytes_processed as nat) + " bytes"@,
        }
    }
}

impl ScanError {
    pub fn describe(&self) -> (result: String)
        ensures
            result@ == self@.described(),
    {
        match self {
            ScanError::RootAccess { path, reason } => text::cat4(
                "cannot access scan root ",
                path.display().as_str(),
                ": ",
                reason.as_str(),
            ),
            ScanError::RootNotDirectory(path) => text::cat2(
                "scan root is not a directory: ",
                path.display().as_str(),
            ),
            ScanError::InvalidRule(error) => error.describe(),
            ScanError::Cancelled { items_processed, bytes_processed } => text::cat5(
                "scan cancelled after processing ",
                text::decimal_of(*items_processed).as_str(),
                " items and ",
                text::decimal_of(*bytes_processed).as_str(),
                " bytes",
            ),
        }
    }
}

/// A point in time after the epoch.
#[derive(Debug, Clone, Copy, PartialEq, Eq, Structural)]
pub struct Moment {
    pub seconds: u64,
    pub nanoseconds: u32,
}

/// The whole seconds since the epoch.
pub open spec fn epoch_seconds(time: Option<Moment>) -> Option<u64> {
    match time {
        Some(moment) => Some(moment.seconds),
        None => None,
    }
}

/// The nanoseconds since the epoch, where they fit.
pub open spec fn epoch_nanoseconds(time: Option<Moment>) -> Option<u64> {
    match time {
        Some(moment) => {
            let whole = moment.seconds * 1_000_000_000 + moment.nanoseconds;
            if whole <= u64::MAX {
                Some(whole as u64)
            } else {
                None
            }
        },
        None => None,
    }
}

fn seconds_of(time: Option<Moment>) -> (result: Option<u64>)
    ensures
        result == epoch_seconds(time),
{
    match time {
        Some(moment) => Some(moment.seconds),
        None => None,
    }
}

fn nanoseconds_of(time: Option<Moment>) -> (result: Option<u64>)
    ensures
        result == epoch_nanoseconds(time),
{
    match time {
        Some(moment) => match moment.seconds.checked_mul(1_000_000_000) {
            Some(whole) => whole.checked_add(moment.nanoseconds as u64),
            None => None,
        },
        None => None,
    }
}

/// What the filesystem says of one entry.
#[derive(Debug, Clone, Copy, PartialEq, Eq, Structural)]
pub struct EntryMetadata {
    pub kind: ItemKind,
    pub length: u64,
    /// Blocks of 512 bytes on disk, when the platform exposes them.
    pub blocks: Option<u64>,
    pub identity: Option<FileIdentity>,
    pub links: Option<u64>,
    pub created: Option<Moment>,
    pub modified: Option<Moment>,
    pub accessed: Option<Moment>,
}

/// The kind of an entry by what its file type answers.
pub open spec fn kind_of(is_file: bool, is_directory: bool, is_symlink: bool) -> ItemKind {
    if is_file {
        ItemKind::File
    } else if is_directory {
        ItemKind::Directory
    } else if is_symlink {
        ItemKind::Symlink
    } else {
        ItemKind::Other
    }
}

pub fn classify(is_file: bool, is_directory: bool, is_symlink: bool) -> (result: ItemKind)
    ensures
        result == kind_of(is_file, is_directory, is_symlink),
{
    if is_file {
        ItemKind::File
    } else if is_directory {
        ItemKind::Directory
    } else if is_symlink {
        ItemKind::Symlink
    } else {
        ItemKind::Other
    }
}

/// A number cut off at the largest that fits.
pub open spec fn saturated(value: nat) -> u64 {
    if value > u64::MAX {
        u64::MAX
    } else {
        value as u64
    }
}

/// The bytes of some blocks of 512 bytes.
pub open spec fn block_bytes(blocks: Option<u64>) -> Option<u64> {
    match blocks {
        Some(count) => Some(saturated(count as nat * 512)),
        None => None,
    }
}

fn bytes_of_blocks(blocks: Option<u64>) -> (result: Option<u64>)
    ensures
        result == block_bytes(blocks),
{
    match blocks {
        Some(count) => match count.checked_mul(512) {
            Some(bytes) => Some(bytes),
            None => Some(u64::MAX),
        },
        None => None,
    }
}

/// A file's extension in small letters, where it is text.
pub open spec fn normalized_extension(given: Seq<PartView>, kind: ItemKind) -> Option<Seq<char>> {
    if kind != ItemKind::File {
        None
    } else {
        match path::extension(given) {
            Some(bytes) => if vstd::utf8::valid_utf8(bytes) {
                Some(text::lowered(vstd::utf8::decode_utf8(bytes)))
            } else {
                None
            },
            None => None,
        }
    }
}

fn extension_of(given: &FilePath, kind: ItemKind) -> (result: Option<String>)
    ensures
        model::optional(result) == normalized_extension(given@, kind),
{
    if kind != ItemKind::File {
        return None;
    }
    match given.extension() {
        Some(bytes) => match text::decode_strict(bytes.as_slice()) {
            Some(name) => Some(text::lower(name.as_str())),
            None => None,
        },
        None => None,
    }
}

/// An entry as an item, before directories are summed up.
pub open spec fn item_of(given: GivenView, metadata: EntryMetadata) -> ItemView {
    let file = metadata.kind == ItemKind::File;
    ItemView {
        path: given.path,
        spelling: given.spelling,
        kind: metadata.kind,
        size_bytes: if file {
            metadata.length
        } else {
            0
        },
        allocated_size_bytes: if file {
            block_bytes(metadata.blocks)
        } else {
            None
        },
        file_identity: if file {
            metadata.identity
        } else {
            None
        },
        hard_link_count: if file {
            metadata.links
        } else {
            None
        },
        created_at_epoch_seconds: epoch_seconds(metadata.created),
        modified_at_epoch_seconds: epoch_seconds(metadata.modified),
        modified_at_epoch_nanoseconds: epoch_nanoseconds(metadata.modified),
        accessed_at_epoch_seconds: epoch_seconds(metadata.accessed),
        extension: normalized_extension(given.path, metadata.kind),
    }
}

fn make_item(given: FilePath, metadata: EntryMetadata) -> (result: ScannedItem)
    ensures
        result@ == item_of(given.as_given(), metadata),
{
    let file = metadata.kind == ItemKind::File;
    let extension = extension_of(&given, metadata.kind);
    ScannedItem {
        path: given,
        kind: metadata.kind,
        size_bytes: if file {
            metadata.length
        } else {
            0
        },
        allocated_size_bytes: if file {
            bytes_of_blocks(metadata.blocks)
        } else {
            None
        },
        file_identity: if file {
            metadata.identity
        } else {
            None
        },
        hard_link_count: if file {
            metadata.links
        } else {
            None
        },
        created_at_epoch_seconds: seconds_of(metadata.created),
        modified_at_epoch_seconds: seconds_of(metadata.modified),
        modified_at_epoch_nanoseconds: nanoseconds_of(metadata.modified),
        accessed_at_epoch_seconds: seconds_of(metadata.accessed),
        extension,
    }
}

/// One step of a walk over a directory tree.
#[derive(Debug)]
pub enum WalkEvent {
    /// The walk could not go on at some place.
    Unreadable { place: Option<FilePath>, message: String },
    /// An entry whose metadata could not be read.
    Lost { path: FilePath, message: String },
    /// An entry with its metadata.
    Entry { path: FilePath, metadata: EntryMetadata },
}

#[verifier::ext_equal]
pub enum WalkEventView {
    Unreadable { place: Option<GivenView>, message: Seq<char> },
    Lost { given: GivenView, message: Seq<char> },
    Entry { given: GivenView, metadata: EntryMetadata },
}

impl View for WalkEvent {
    type V = WalkEventView;

    open spec fn view(&self) -> WalkEventView {
        match self {
            WalkEvent::Unreadable { place, message } => WalkEventView::Unreadable {
                place: path::optional_given(*place),
                message: message@,
            },
            WalkEvent::Lost { path, message } => WalkEventView::Lost {
                given: path.as_given(),
                message: message@,
            },
            WalkEvent::Entry { path, metadata } => WalkEventView::Entry {
                given: path.as_given(),
                metadata: *metadata,
            },
        }
    }
}

/// What a walk has brought so far.
#[verifier::ext_equal]
pub struct WalkState {
    pub items: Seq<ItemView>,
    pub warnings: Seq<ScanWarningView>,
    pub ignored: Seq<GivenView>,
    pub items_processed: u64,
    pub bytes_processed: u64,
}

/// A walk that has not begun.
pub open spec fn at_start() -> WalkState {
    WalkState {
        items: Seq::empty(),
        warnings: Seq::empty(),
        ignored: Seq::empty(),
        items_processed: 0,
        bytes_processed: 0,
    }
}

/// Whether a rule leaves a path out that no directory above it was left out for.
pub open spec fn newly_ignored(
    root: Seq<PartView>,
    rules: PolicyView,
    given: Seq<PartView>,
) -> bool {
    rules.matches(given) && match path::parent(given) {
        Some(above) => !(path::within(above, root) && rules.matches(above)),
        None => true,
    }
}

/// What becomes of the state with a warning.
pub open spec fn with_warning(
    state: WalkState,
    given: Option<GivenView>,
    message: Seq<char>,
) -> WalkState {
    WalkState {
        warnings: state.warnings.push(ScanWarningView { path: given, message }),
        items_processed: saturated(state.items_processed as nat + 1),
        ..state
    }
}

/// What becomes of the state with a path that a rule leaves out.
pub open spec fn with_ignored(
    root: Seq<PartView>,
    rules: PolicyView,
    state: WalkState,
    given: GivenView,
) -> WalkState {
    if newly_ignored(root, rules, given.path) {
        WalkState { ignored: state.ignored.push(given), ..state }
    } else {
        state
    }
}

/// What becomes of the state with an entry.
pub open spec fn with_entry(
    state: WalkState,
    given: GivenView,
    metadata: EntryMetadata,
) -> WalkState {
    let item = item_of(given, metadata);
    WalkState {
        items: state.items.push(item),
        items_processed: saturated(state.items_processed as nat + 1),
        bytes_processed: saturated(state.bytes_processed as nat + item.size_bytes as nat),
        ..state
    }
}

/// What becomes of the state with one step of the walk.
pub open spec fn stepped(
    root: Seq<PartView>,
    rules: PolicyView,
    state: WalkState,
    event: WalkEventView,
) -> WalkState {
    match event {
        WalkEventView::Unreadable { place, message } => with_warning(state, place, message),
        WalkEventView::Lost { given, message } => if rules.matches(given.path) {
            with_ignored(root, rules, state, given)
        } else {
            with_warning(state, Some(given), message)
        },
        WalkEventView::Entry { given, metadata } => if rules.matches(given.path) {
            with_ignored(root, rules, state, given)
        } else {
            with_entry(state, given, metadata)
        },
    }
}

/// The state after some steps of the walk.
pub open spec fn walked(
    root: Seq<PartView>,
    rules: PolicyView,
    events: Seq<WalkEventView>,
) -> WalkState
    decreases events.len(),
{
    if events.len() == 0 {
        at_start()
    } else {
        stepped(root, rules, walked(root, rules, events.drop_last()), events.last())
    }
}

/// Whether progress is reported after an item.
pub open spec fn report_due(items_processed: u64, complete: bool) -> bool {
    complete || items_processed == 1 || items_processed % PROGRESS_INTERVAL_ITEMS == 0
}

/// The progress event of a scan.
pub open spec fn scan_event(
    items_processed: u64,
    bytes_processed: u64,
    current: Option<GivenView>,
    complete: bool,
) -> EventView {
    EventView {
        phase: AnalysisPhase::Scanning,
        items_processed,
        bytes_processed,
        total_items: if complete {
            Some(items_processed)
        } else {
            None
        },
        total_bytes: if complete {
            Some(bytes_processed)
        } else {
            None
        },
        current_path: current,
    }
}

/// The path that a step of the walk is about.
pub open spec fn event_path(event: WalkEventView) -> Option<GivenView> {
    match event {
        WalkEventView::Unreadable { place, .. } => place,
        WalkEventView::Lost { given, .. } => Some(given),
        WalkEventView::Entry { given, .. } => Some(given),
    }
}

/// Whether a step of the walk is left out by a rule.
pub open spec fn left_out(rules: PolicyView, event: WalkEventView) -> bool {
    match event {
        WalkEventView::Unreadable { .. } => false,
        WalkEventView::Lost { given, .. } => rules.matches(given.path),
        WalkEventView::Entry { given, .. } => rules.matches(given.path),
    }
}

/// What is reported with one step of the walk.
pub open spec fn step_report(rules: PolicyView, state: WalkState, event: WalkEventView) -> Seq<
    EventView,
> {
    if !left_out(rules, event) && report_due(state.items_processed, false) {
        seq![
            scan_event(state.items_processed, state.bytes_processed, event_path(event), false),
        ]
    } else {
        Seq::empty()
    }
}

/// What is reported in the course of a walk.
pub open spec fn walk_reports(
    root: Seq<PartView>,
    rules: PolicyView,
    events: Seq<WalkEventView>,
) -> Seq<EventView>
    decreases events.len(),
{
    if events.len() == 0 {
        seq![progress::starting_event(AnalysisPhase::Scanning)]
    } else {
        walk_reports(root, rules, events.drop_last()) + step_report(
            rules,
            walked(root, rules, events),
            events.last(),
        )
    }
}

/// Whether an item is one of several names of a file whose allocation is known.
pub open spec fn is_linked(item: ItemView) -> bool {
    &&& item.kind == ItemKind::File
    &&& item.allocated_size_bytes is Some
    &&& item.file_identity is Some
    &&& item.hard_link_count is Some
    &&& item.hard_link_count->Some_0 > 1
}

/// Whether an item is a name of the given file among several.
pub open spec fn is_link_to(item: ItemView, identity: FileIdentity) -> bool {
    is_linked(item) && item.file_identity == Some(identity)
}

/// The first name of a file in the order of the walk.
pub open spec fn first_link(items: Seq<ItemView>, identity: FileIdentity) -> int
    decreases items.len(),
{
    if items.len() == 0 {
        0
    } else {
        let earlier = first_link(items.drop_last(), identity);
        if earlier < items.len() - 1 {
            earlier
        } else if is_link_to(items.last(), identity) {
            items.len() - 1
        } else {
            items.len() as int
        }
    }
}

/// What an item costs on disk: all names of one file cost what the first was
/// found to.
pub open spec fn charge(items: Seq<ItemView>, at: int) -> u64 {
    if is_linked(items[at]) {
        items[first_link(items, items[at].file_identity->Some_0)].allocated_size_bytes->Some_0
    } else {
        match items[at].allocated_size_bytes {
            Some(bytes) => bytes,
            None => 0,
        }
    }
}

/// An item with what it costs on disk.
#[verifier::ext_equal]
pub struct ChargedView {
    pub item: ItemView,
    pub charge: u64,
}

pub open spec fn charged(items: Seq<ItemView>) -> Seq<ChargedView> {
    Seq::new(items.len(), |i: int| ChargedView { item: items[i], charge: charge(items, i) })
}

/// Charged items by their paths.
pub open spec fn by_path() -> spec_fn(ChargedView, ChargedView) -> bool {
    |left: ChargedView, right: ChargedView| path::at_most(left.item.path, right.item.path)
}

/// The logical bytes of the first `count` items below a directory.
pub open spec fn bytes_below(items: Seq<ChargedView>, directory: Seq<PartView>, count: int) -> nat
    decreases count,
{
    if count <= 0 {
        0
    } else {
        let item = items[count - 1].item;
        bytes_below(items, directory, count - 1) + if item.kind == ItemKind::File && path::below(
            item.path,
            directory,
        ) {
            item.size_bytes as nat
        } else {
            0
        }
    }
}

/// Whether an item is the first name of its file below a directory.
pub open spec fn counts_below(items: Seq<ChargedView>, directory: Seq<PartView>, at: int) -> bool {
    let item = items[at].item;
    &&& item.kind == ItemKind::File
    &&& item.allocated_size_bytes is Some
    &&& path::below(item.path, directory)
    &&& is_linked(item) ==> forall|earlier: int|
        0 <= earlier < at && path::below((#[trigger] items[earlier]).item.path, directory)
            ==> !is_link_to(items[earlier].item, item.file_identity->Some_0)
}

/// The allocated bytes of the first `count` items below a directory, every
/// file counted once.
pub open spec fn allocated_below(
    items: Seq<ChargedView>,
    directory: Seq<PartView>,
    count: int,
) -> nat
    decreases count,
{
    if count <= 0 {
        0
    } else {
        allocated_below(items, directory, count - 1) + if counts_below(items, directory, count - 1) {
            items[count - 1].charge as nat
        } else {
            0
        }
    }
}

/// Whether the allocation of every file is known.
pub open spec fn allocation_known(items: Seq<ItemView>) -> bool {
    forall|i: int|
        0 <= i < items.len() && (#[trigger] items[i]).kind == ItemKind::File
            ==> items[i].allocated_size_bytes is Some
}

pub open spec fn total_bytes(items: Seq<ChargedView>, directory: Seq<PartView>) -> u64 {
    saturated(bytes_below(items, directory, items.len() as int))
}

pub open spec fn total_allocated(
    items: Seq<ChargedView>,
    directory: Seq<PartView>,
    known: bool,
) -> Option<u64> {
    if known {
        Some(saturated(allocated_below(items, directory, items.len() as int)))
    } else {
        None
    }
}

/// An item with its directory summed up.
pub open spec fn summed(items: Seq<ChargedView>, at: int, known: bool) -> ItemView {
    let item = items[at].item;
    if item.kind == ItemKind::Directory {
        ItemView {
            size_bytes: total_bytes(items, item.path),
            allocated_size_bytes: total_allocated(items, item.path, known),
            ..item
        }
    } else {
        item
    }
}

/// How many items are of a kind.
pub open spec fn kind_count(items: Seq<ItemView>, kind: ItemKind) -> nat
    decreases items.len(),
{
    if items.len() == 0 {
        0
    } else {
        kind_count(items.drop_last(), kind) + if items.last().kind == kind {
            1nat
        } else {
            0
        }
    }
}

/// Warnings by their paths; those without one come first.
pub open spec fn warning_at_most(left: ScanWarningView, right: ScanWarningView) -> bool {
    match (left.path, right.path) {
        (None, _) => true,
        (Some(_), None) => false,
        (Some(a), Some(b)) => path::at_most(a.path, b.path),
    }
}

pub open spec fn warning_order() -> spec_fn(ScanWarningView, ScanWarningView) -> bool {
    |left: ScanWarningView, right: ScanWarningView| warning_at_most(left, right)
}

pub open spec fn path_order() -> spec_fn(Seq<PartView>, Seq<PartView>) -> bool {
    |left: Seq<PartView>, right: Seq<PartView>| path::at_most(left, right)
}

pub open spec fn given_order() -> spec_fn(GivenView, GivenView) -> bool {
    |left: GivenView, right: GivenView| path::at_most(left.path, right.path)
}

/// What a finished walk adds up to.
pub open spec fn scanned(
    root: GivenView,
    state: WalkState,
    started: u64,
    completed: u64,
) -> ScanView {
    let items = order::sorted(charged(state.items), by_path());
    let known = allocation_known(state.items);
    ScanView {
        root: root.path,
        root_spelling: root.spelling,
        started_at_epoch_seconds: started,
        completed_at_epoch_seconds: completed,
        total_size_bytes: total_bytes(items, root.path),
        total_allocated_size_bytes: total_allocated(items, root.path, known),
        file_count: kind_count(state.items, ItemKind::File) as u64,
        directory_count: kind_count(state.items, ItemKind::Directory) as u64,
        items: Seq::new(items.len(), |i: int| summed(items, i, known)),
        ignored_paths: order::sorted(state.ignored, given_order()),
        warnings: order::sorted(state.warnings, warning_order()),
    }
}

#[derive(Clone, Copy)]
struct Link {
    identity: FileIdentity,
    index: usize,
}

impl View for Link {
    type V = Link;

    closed spec fn view(&self) -> Link {
        *self
    }
}

/// Names of files by the file, then by their place in the walk.
struct LinkOrder;

impl Ranking<Link> for LinkOrder {
    closed spec fn at_most(&self, left: Link, right: Link) -> bool {
        if left.identity.volume_id != right.identity.volume_id {
            left.identity.volume_id < right.identity.volume_id
        } else if left.identity.file_id != right.identity.file_id {
            left.identity.file_id < right.identity.file_id
        } else {
            left.index <= right.index
        }
    }

    proof fn ranks(&self) {
    }

    fn not_after(&self, left: &Link, right: &Link) -> (result: bool) {
        if left.identity.volume_id != right.identity.volume_id {
            left.identity.volume_id < right.identity.volume_id
        } else if left.identity.file_id != right.identity.file_id {
            left.identity.file_id < right.identity.file_id
        } else {
            left.index <= right.index
        }
    }
}

proof fn lemma_no_link(items: Seq<ItemView>, identity: FileIdentity)
    requires
        forall|j: int| 0 <= j < items.len() ==> !is_link_to(#[trigger] items[j], identity),
    ensures
        first_link(items, identity) == items.len(),
    decreases items.len(),
{
    if items.len() > 0 {
        let shorter = items.drop_last();
        assert(forall|j: int| 0 <= j < shorter.len() ==> shorter[j] == items[j]);
        lemma_no_link(shorter, identity);
        assert(!is_link_to(items[items.len() - 1], identity));
    }
}

proof fn lemma_first_link(items: Seq<ItemView>, identity: FileIdentity, head: int)
    requires
        0 <= head < items.len(),
        is_link_to(items[head], identity),
        forall|j: int| 0 <= j < head ==> !is_link_to(#[trigger] items[j], identity),
    ensures
        first_link(items, identity) == head,
    decreases items.len(),
{
    let shorter = items.drop_last();
    assert(forall|j: int| 0 <= j < shorter.len() ==> shorter[j] == items[j]);
    if head == items.len() - 1 {
        lemma_no_link(shorter, identity);
    } else {
        lemma_first_link(shorter, identity, head);
    }
}

/// For every item the number of its file among those with several names, and
/// what it costs on disk.
struct LinkGroups {
    groups: Vec<usize>,
    charges: Vec<u64>,
    count: usize,
}

spec fn groups_agree(items: Seq<ItemView>, groups: Seq<usize>) -> bool {
    &&& groups.len() == items.len()
    &&& forall|i: int| 0 <= i < items.len() ==> (#[trigger] groups[i] > 0 <==> is_linked(items[i]))
    &&& forall|i: int, j: int|
        0 <= i < items.len() && 0 <= j < items.len() && #[trigger] groups[i] > 0
            && #[trigger] groups[j] > 0 ==> (groups[i] == groups[j] <==> items[i].file_identity
            == items[j].file_identity)
}

spec fn own_charge(item: ItemView) -> u64 {
    match item.allocated_size_bytes {
        Some(bytes) => bytes,
        None => 0,
    }
}

fn linked(item: &ScannedItem) -> (result: Option<FileIdentity>)
    ensures
        match result {
            Some(identity) => is_link_to(item@, identity),
            None => !is_linked(item@),
        },
{
    if item.kind != ItemKind::File || item.allocated_size_bytes.is_none() {
        return None;
    }
    match (item.file_identity, item.hard_link_count) {
        (Some(identity), Some(count)) => if count > 1 {
            Some(identity)
        } else {
            None
        },
        _ => None,
    }
}

fn collect_links(items: &Vec<ScannedItem>) -> (result: Vec<Link>)
    ensures
        result@.len() <= items@.len(),
        forall|k: int|
            0 <= k < result@.len() ==> (#[trigger] result@[k]).index < items@.len() && is_link_to(
                items@[result@[k].index as int]@,
                result@[k].identity,
            ),
        forall|i: int|
            0 <= i < items@.len() && is_linked((#[trigger] items@[i])@) ==> result@.contains(
                Link { identity: items@[i].file_identity->Some_0, index: i as usize },
            ),
{
    let mut links: Vec<Link> = Vec::new();
    let mut at: usize = 0;
    while at < items.len()
        invariant
            at <= items.len(),
            links@.len() <= at,
            forall|k: int|
                0 <= k < links@.len() ==> (#[trigger] links@[k]).index < items@.len()
                    && is_link_to(items@[links@[k].index as int]@, links@[k].identity),
            forall|i: int|
                0 <= i < at && is_linked((#[trigger] items@[i])@) ==> links@.contains(
                    Link { identity: items@[i].file_identity->Some_0, index: i as usize },
                ),
        decreases items.len() - at,
    {
        let ghost before = links@;
        match linked(&items[at]) {
            Some(identity) => {
                let link = Link { identity, index: at };
                links.push(link);
                proof {
                    assert(links@[before.len() as int] == link);
                    assert forall|i: int| 0 <= i < at + 1 && is_linked((#[trigger] items@[i])@) implies links@.contains(
                        Link { identity: items@[i].file_identity->Some_0, index: i as usize },
                    ) by {
                        if i < at {
                            let wanted = Link {
                                identity: items@[i].file_identity->Some_0,
                                index: i as usize,
                            };
                            assert(before.contains(wanted));
                            let k = choose|k: int| 0 <= k < before.len() && before[k] == wanted;
                            assert(links@[k] == wanted);
                        } else {
                            assert(links@[before.len() as int] == link);
                        }
                    }
                }
            },
            None => {},
        }
        at = at + 1;
    }
    links
}

fn group_links(items: &Vec<ScannedItem>) -> (result: LinkGroups)
    ensures
        groups_agree(order::views(items@), result.groups@),
        forall|i: int|
            0 <= i < result.groups@.len() ==> #[trigger] result.groups@[i] <= result.count,
        result.charges@.len() == items@.len(),
        forall|i: int|
            0 <= i < items@.len() ==> #[trigger] result.charges@[i] == charge(
                order::views(items@),
                i,
            ),
        result.count <= items@.len(),
{
    let ghost all = order::views(items@);
    let unsorted = collect_links(items);
    let ghost collected = unsorted@;
    let ghost rank = order::relation::<Link, LinkOrder>(LinkOrder);
    let links = order::sort_by_ranking(unsorted, &LinkOrder);
    proof {
        order::lemma_relation_ranks::<Link, LinkOrder>(LinkOrder);
        assert(order::views(collected) =~= collected);
        assert(order::views(links@) =~= links@);
        order::law_sorted_is_an_ordered_permutation(collected, rank);
        assert forall|k: int| 0 <= k < links@.len() implies (#[trigger] links@[k]).index
            < items@.len() && is_link_to(
            all[links@[k].index as int],
            links@[k].identity,
        ) by {
            order::lemma_sorted_contains(collected, links@[k], rank);
            assert(links@.contains(links@[k]));
            let p = choose|p: int| 0 <= p < collected.len() && collected[p] == links@[k];
            assert(collected[p].index < items@.len());
        }
        assert forall|i: int| 0 <= i < all.len() && is_linked(#[trigger] all[i]) implies links@.contains(
            Link { identity: all[i].file_identity->Some_0, index: i as usize },
        ) by {
            let wanted = Link { identity: all[i].file_identity->Some_0, index: i as usize };
            assert(is_linked(items@[i]@));
            order::lemma_sorted_contains(collected, wanted, rank);
        }
    }
    let mut groups: Vec<usize> = Vec::new();
    let mut charges: Vec<u64> = Vec::new();
    let mut at: usize = 0;
    while at < items.len()
        invariant
            at <= items.len(),
            all == order::views(items@),
            groups@.len() == at,
            charges@.len() == at,
            forall|i: int| 0 <= i < at ==> #[trigger] groups@[i] == 0,
            forall|i: int| 0 <= i < at ==> #[trigger] charges@[i] == own_charge(all[i]),
        decreases items.len() - at,
    {
        groups.push(0);
        charges.push(
            match items[at].allocated_size_bytes {
                Some(bytes) => bytes,
                None => 0,
            },
        );
        at = at + 1;
    }
    let mut group: usize = 0;
    let mut head: usize = 0;
    let mut done: usize = 0;
    let ghost mut numbers: Seq<usize> = Seq::empty();
    while done < links.len()
        invariant
            done <= links.len(),
            all == order::views(items@),
            all.len() == items@.len(),
            rank == order::relation::<Link, LinkOrder>(LinkOrder),
            order::is_ordered(links@, rank),
            forall|k: int|
                0 <= k < links@.len() ==> (#[trigger] links@[k]).index < items@.len()
                    && is_link_to(all[links@[k].index as int], links@[k].identity),
            forall|i: int|
                0 <= i < all.len() && is_linked(#[trigger] all[i]) ==> links@.contains(
                    Link { identity: all[i].file_identity->Some_0, index: i as usize },
                ),
            groups@.len() == all.len(),
            charges@.len() == all.len(),
            group <= done,
            numbers.len() == done,
            forall|k: int| 0 <= k < done ==> 0 < #[trigger] numbers[k] <= group,
            forall|k: int|
                0 <= k < done ==> groups@[links@[k].index as int] == #[trigger] numbers[k],
            forall|a: int, b: int|
                0 <= a < done && 0 <= b < done ==> (#[trigger] numbers[a] == #[trigger] numbers[b]
                    <==> links@[a].identity == links@[b].identity),
            forall|k: int|
                0 <= k < done ==> charges@[(#[trigger] links@[k]).index as int] == charge(
                    all,
                    links@[k].index as int,
                ),
            forall|i: int|
                0 <= i < all.len() && !is_linked(#[trigger] all[i]) ==> groups@[i] == 0
                    && charges@[i] == own_charge(all[i]),
            forall|i: int| 0 <= i < all.len() ==> #[trigger] groups@[i] <= group,
            done > 0 ==> {
                &&& numbers[done - 1] == group
                &&& head < all.len()
                &&& is_link_to(all[head as int], links@[done - 1].identity)
                &&& forall|j: int|
                    0 <= j < head ==> !is_link_to(#[trigger] all[j], links@[done - 1].identity)
            },
        decreases links.len() - done,
    {
        let link = links[done];
        let fresh = done == 0 || links[done - 1].identity != link.identity;
        let ghost numbered = numbers;
        if fresh {
            group = group + 1;
            head = link.index;
            proof {
                assert forall|j: int| 0 <= j < head implies !is_link_to(
                    #[trigger] all[j],
                    link.identity,
                ) by {
                    if is_link_to(all[j], link.identity) {
                        let other = Link { identity: link.identity, index: j as usize };
                        assert(links@.contains(other));
                        let p = choose|p: int| 0 <= p < links@.len() && links@[p] == other;
                        if p < done {
                            if p < done - 1 {
                                assert(rank(links@[p], links@[done - 1]));
                            }
                            assert(rank(links@[done - 1], links@[done as int]));
                        } else if p > done {
                            assert(rank(links@[done as int], links@[p]));
                        }
                    }
                }
            }
        }
        proof {
            numbers = numbers.push(group);
            lemma_first_link(all, link.identity, head as int);
            assert(charge(all, link.index as int)
                == all[head as int].allocated_size_bytes->Some_0);
            assert forall|a: int| 0 <= a < done implies (#[trigger] numbered[a] == group
                <==> links@[a].identity == link.identity) by {
                if fresh {
                    if links@[a].identity == link.identity {
                        if a < done - 1 {
                            assert(rank(links@[a], links@[done - 1]));
                        }
                        assert(rank(links@[done - 1], links@[done as int]));
                    }
                } else {
                    assert(numbered[a] == numbered[done - 1] <==> links@[a].identity
                        == links@[done - 1].identity);
                }
            }
        }
        let cost: u64 = match items[head].allocated_size_bytes {
            Some(bytes) => bytes,
            None => 0,
        };
        let ghost groups_before = groups@;
        let ghost charges_before = charges@;
        groups.set(link.index, group);
        charges.set(link.index, cost);
        proof {
            assert forall|k: int| 0 <= k < done + 1 implies groups@[links@[k].index as int]
                == #[trigger] numbers[k] by {
                if k < done {
                    assert(numbers[k] == numbered[k]);
                    if links@[k].index == link.index {
                        assert(links@[k].identity == link.identity);
                    }
                }
            }
            assert forall|a: int, b: int| 0 <= a < done + 1 && 0 <= b < done + 1 implies (
            #[trigger] numbers[a] == #[trigger] numbers[b] <==> links@[a].identity
                == links@[b].identity) by {
                if a < done && b < done {
                    assert(numbers[a] == numbered[a] && numbers[b] == numbered[b]);
                } else if a < done {
                    assert(numbers[a] == numbered[a]);
                } else if b < done {
                    assert(numbers[b] == numbered[b]);
                }
            }
            assert forall|k: int| 0 <= k < done + 1 implies 0 < #[trigger] numbers[k] <= group by {
                if k < done {
                    assert(numbers[k] == numbered[k]);
                }
            }
        }
        done = done + 1;
    }
    proof {
        assert forall|i: int| 0 <= i < all.len() implies (#[trigger] groups@[i] > 0
            <==> is_linked(all[i])) by {
            if is_linked(all[i]) {
                let wanted = Link { identity: all[i].file_identity->Some_0, index: i as usize };
                assert(links@.contains(wanted));
                let p = choose|p: int| 0 <= p < links@.len() && links@[p] == wanted;
                assert(numbers[p] > 0);
            }
        }
        assert forall|i: int, j: int|
            0 <= i < all.len() && 0 <= j < all.len() && #[trigger] groups@[i] > 0
                && #[trigger] groups@[j] > 0 implies (groups@[i] == groups@[j]
            <==> all[i].file_identity == all[j].file_identity) by {
            assert(is_linked(all[i]) && is_linked(all[j]));
            let first = Link { identity: all[i].file_identity->Some_0, index: i as usize };
            let second = Link { identity: all[j].file_identity->Some_0, index: j as usize };
            assert(links@.contains(first) && links@.contains(second));
            let p = choose|p: int| 0 <= p < links@.len() && links@[p] == first;
            let q = choose|q: int| 0 <= q < links@.len() && links@[q] == second;
            assert(numbers[p] == numbers[q] <==> links@[p].identity == links@[q].identity);
        }
        assert forall|i: int| 0 <= i < all.len() implies #[trigger] charges@[i] == charge(
            all,
            i,
        ) by {
            if is_linked(all[i]) {
                let wanted = Link { identity: all[i].file_identity->Some_0, index: i as usize };
                assert(links@.contains(wanted));
                let p = choose|p: int| 0 <= p < links@.len() && links@[p] == wanted;
                assert(charges@[links@[p].index as int] == charge(all, links@[p].index as int));
            }
        }
    }
    LinkGroups { groups, charges, count: group }
}

/// An item with its cost on disk and the number of its file among those with
/// several names.
struct Measured {
    item: ScannedItem,
    charge: u64,
    group: usize,
}

#[verifier::ext_equal]
struct MeasuredView {
    item: ItemView,
    charge: u64,
    group: usize,
}

impl View for Measured {
    type V = MeasuredView;

    closed spec fn view(&self) -> MeasuredView {
        MeasuredView { item: self.item@, charge: self.charge, group: self.group }
    }
}

struct MeasuredOrder;

/// A relation by paths is a ranking.
pub proof fn lemma_path_ranking<A>(place: spec_fn(A) -> Seq<PartView>, le: spec_fn(A, A) -> bool)
    requires
        forall|a: A, b: A| #[trigger] le(a, b) == path::at_most(place(a), place(b)),
    ensures
        order::is_ranking(le),
{
    assert forall|a: A, b: A| #[trigger] le(a, b) || le(b, a) by {
        path::law_paths_are_totally_ordered(place(a), place(b));
    }
    assert forall|a: A, b: A, c: A| #[trigger] le(a, b) && #[trigger] le(b, c) implies le(a, c) by {
        path::lemma_at_most_transitive(place(a), place(b), place(c));
    }
}

impl Ranking<Measured> for MeasuredOrder {
    closed spec fn at_most(&self, left: MeasuredView, right: MeasuredView) -> bool {
        path::at_most(left.item.path, right.item.path)
    }

    proof fn ranks(&self) {
        lemma_path_ranking(
            |one: MeasuredView| one.item.path,
            |left: MeasuredView, right: MeasuredView| self.at_most(left, right),
        );
    }

    fn not_after(&self, left: &Measured, right: &Measured) -> (result: bool) {
        left.item.path.not_after(&right.item.path)
    }
}

/// Paths in their order.
pub struct PathOrder;

impl Ranking<FilePath> for PathOrder {
    open spec fn at_most(&self, left: Seq<PartView>, right: Seq<PartView>) -> bool {
        path::at_most(left, right)
    }

    proof fn ranks(&self) {
        lemma_path_ranking(
            |one: Seq<PartView>| one,
            |left: Seq<PartView>, right: Seq<PartView>| self.at_most(left, right),
        );
    }

    fn not_after(&self, left: &FilePath, right: &FilePath) -> (result: bool) {
        left.not_after(right)
    }
}

/// A path that a rule leaves out.
#[derive(Debug)]
struct LeftOut {
    path: FilePath,
}

impl View for LeftOut {
    type V = GivenView;

    closed spec fn view(&self) -> GivenView {
        self.path.as_given()
    }
}

struct LeftOutOrder;

impl Ranking<LeftOut> for LeftOutOrder {
    closed spec fn at_most(&self, left: GivenView, right: GivenView) -> bool {
        path::at_most(left.path, right.path)
    }

    proof fn ranks(&self) {
        lemma_path_ranking(
            |one: GivenView| one.path,
            |left: GivenView, right: GivenView| self.at_most(left, right),
        );
    }

    fn not_after(&self, left: &LeftOut, right: &LeftOut) -> (result: bool) {
        left.path.not_after(&right.path)
    }
}

fn paths_left_out(left_out: Vec<LeftOut>) -> (result: Vec<FilePath>)
    ensures
        path::givens(result@) == order::views(left_out@),
{
    let ghost source = left_out@;
    let mut paths: Vec<FilePath> = Vec::new();
    for one in it: left_out
        invariant
            it.seq() == source,
            paths@.len() == it.index(),
            forall|i: int|
                0 <= i < paths@.len() ==> (#[trigger] paths@[i]).as_given() == source[i]@,
    {
        paths.push(one.path);
    }
    assert(path::givens(paths@) =~= order::views(source));
    paths
}

/// Warnings by their paths; those without one come first.
struct WarningOrder;

pub proof fn lemma_warning_order()
    ensures
        order::is_ranking(warning_order()),
{
    let le = warning_order();
    assert forall|a: ScanWarningView, b: ScanWarningView| #[trigger] le(a, b) || le(b, a) by {
        if a.path is Some && b.path is Some {
            path::law_paths_are_totally_ordered(a.path->Some_0.path, b.path->Some_0.path);
        }
    }
    assert forall|a: ScanWarningView, b: ScanWarningView, c: ScanWarningView| #[trigger] le(a, b)
        && #[trigger] le(b, c) implies le(a, c) by {
        if a.path is Some {
            path::lemma_at_most_transitive(a.path->Some_0.path, b.path->Some_0.path, c.path->Some_0.path);
        }
    }
}

impl Ranking<ScanWarning> for WarningOrder {
    closed spec fn at_most(&self, left: ScanWarningView, right: ScanWarningView) -> bool {
        warning_at_most(left, right)
    }

    proof fn ranks(&self) {
        lemma_warning_order();
        assert(warning_order() =~= |left: ScanWarningView, right: ScanWarningView|
            self.at_most(left, right));
    }

    fn not_after(&self, left: &ScanWarning, right: &ScanWarning) -> (result: bool) {
        match (&left.path, &right.path) {
            (None, _) => true,
            (Some(_), None) => false,
            (Some(a), Some(b)) => a.not_after(b),
        }
    }
}

spec fn cost(one: MeasuredView) -> ChargedView {
    ChargedView { item: one.item, charge: one.charge }
}

spec fn cost_of() -> spec_fn(MeasuredView) -> ChargedView {
    |one: MeasuredView| cost(one)
}

/// Whether the numbers of the files with several names are right.
spec fn numbered(all: Seq<MeasuredView>, count: usize) -> bool {
    &&& forall|i: int|
        0 <= i < all.len() ==> ((#[trigger] all[i]).group > 0 <==> is_linked(all[i].item))
            && all[i].group <= count
    &&& forall|i: int, j: int|
        0 <= i < all.len() && 0 <= j < all.len() && (#[trigger] all[i]).group > 0 && (
        #[trigger] all[j]).group > 0 ==> (all[i].group == all[j].group
            <==> all[i].item.file_identity == all[j].item.file_identity)
}

proof fn lemma_nothing_below(
    items: Seq<ChargedView>,
    directory: Seq<PartView>,
    from: int,
    to: int,
)
    requires
        0 <= from <= to <= items.len(),
        forall|k: int|
            from <= k < to ==> !path::below((#[trigger] items[k]).item.path, directory),
    ensures
        bytes_below(items, directory, to) == bytes_below(items, directory, from),
        allocated_below(items, directory, to) == allocated_below(items, directory, from),
    decreases to - from,
{
    if from < to {
        lemma_nothing_below(items, directory, from, to - 1);
        assert(!path::below(items[to - 1].item.path, directory));
    }
}

/// Adds up what lies below a directory; nothing outside the given range does.
fn sum_directory(
    all: &Vec<Measured>,
    stamps: &mut Vec<usize>,
    stamp: usize,
    from: usize,
    to: usize,
    directory: &FilePath,
) -> (result: (u64, u64))
    requires
        from <= to <= all@.len(),
        numbered(order::views(all@), old(stamps)@.len() as usize),
        old(stamps)@.len() <= usize::MAX,
        forall|g: int| 0 <= g < old(stamps)@.len() ==> #[trigger] old(stamps)@[g] < stamp,
        forall|k: int|
            0 <= k < all@.len() && !(from <= k < to) ==> !path::below(
                (#[trigger] all@[k]).item.path@,
                directory@,
            ),
    ensures
        result.0 == total_bytes(order::mapped(order::views(all@), cost_of()), directory@),
        Some(result.1) == total_allocated(
            order::mapped(order::views(all@), cost_of()),
            directory@,
            true,
        ),
        final(stamps)@.len() == old(stamps)@.len(),
        forall|g: int| 0 <= g < final(stamps)@.len() ==> #[trigger] final(stamps)@[g] <= stamp,
{
    let ghost views = order::views(all@);
    let ghost items = order::mapped(views, cost_of());
    let ghost size = stamps@.len();
    let mut logical: u64 = 0;
    let mut allocated: u64 = 0;
    let mut at: usize = from;
    proof {
        assert forall|k: int| 0 <= k < items.len() implies (#[trigger] items[k]).item
            == all@[k].item@ by {}
        assert forall|k: int| 0 <= k < from implies !path::below(
            (#[trigger] items[k]).item.path,
            directory@,
        ) by {
            assert(!path::below(all@[k].item.path@, directory@));
        }
        lemma_nothing_below(items, directory@, 0, from as int);
        assert forall|g: int| 0 < g <= size implies (#[trigger] stamps@[g - 1] == stamp
            <==> exists|k: int|
            0 <= k < from && (#[trigger] views[k]).group == g && path::below(
                views[k].item.path,
                directory@,
            )) by {
            assert(stamps@[g - 1] < stamp);
            assert forall|k: int| 0 <= k < from implies !path::below(
                (#[trigger] views[k]).item.path,
                directory@,
            ) by {
                assert(!path::below(all@[k].item.path@, directory@));
            }
        }
    }
    while at < to
        invariant
            from <= at <= to <= all@.len(),
            views == order::views(all@),
            items == order::mapped(views, cost_of()),
            numbered(views, size as usize),
            size == stamps@.len(),
            size <= usize::MAX,
            logical == saturated(bytes_below(items, directory@, at as int)),
            allocated == saturated(allocated_below(items, directory@, at as int)),
            forall|g: int| 0 <= g < size ==> #[trigger] stamps@[g] <= stamp,
            forall|g: int|
                0 < g <= size ==> (#[trigger] stamps@[g - 1] == stamp <==> exists|k: int|
                    0 <= k < at && (#[trigger] views[k]).group == g && path::below(
                        views[k].item.path,
                        directory@,
                    )),
        decreases to - at,
    {
        let ghost before = stamps@;
        let one = &all[at];
        assert(views[at as int] == one@);
        assert(items[at as int] == cost(one@));
        let below = one.item.path.is_below(directory);
        if below {
            if one.item.kind == ItemKind::File {
                logical = logical.saturating_add(one.item.size_bytes);
                if one.item.allocated_size_bytes.is_some() {
                    if one.group == 0 {
                        assert(counts_below(items, directory@, at as int));
                        allocated = allocated.saturating_add(one.charge);
                    } else {
                        let fresh = stamps[one.group - 1] != stamp;
                        proof {
                            let number = one.group as int;
                            assert(stamps@[number - 1] == stamp <==> exists|k: int|
                                0 <= k < at && (#[trigger] views[k]).group == number && path::below(
                                    views[k].item.path,
                                    directory@,
                                ));
                            if fresh {
                                assert forall|earlier: int|
                                    0 <= earlier < at && path::below(
                                        (#[trigger] items[earlier]).item.path,
                                        directory@,
                                    ) implies !is_link_to(
                                    items[earlier].item,
                                    items[at as int].item.file_identity->Some_0,
                                ) by {
                                    assert(items[earlier] == cost(views[earlier]));
                                    assert(views[earlier].group != number);
                                    if is_link_to(
                                        items[earlier].item,
                                        items[at as int].item.file_identity->Some_0,
                                    ) {
                                        assert(views[earlier].group > 0);
                                        assert(views[at as int].group > 0);
                                    }
                                }
                                assert(counts_below(items, directory@, at as int));
                            } else {
                                let k = choose|k: int|
                                    0 <= k < at && (#[trigger] views[k]).group == number
                                        && path::below(views[k].item.path, directory@);
                                assert(items[k] == cost(views[k]));
                                assert(views[at as int].group > 0);
                                assert(is_link_to(
                                    items[k].item,
                                    items[at as int].item.file_identity->Some_0,
                                ));
                                assert(!counts_below(items, directory@, at as int));
                            }
                        }
                        if fresh {
                            allocated = allocated.saturating_add(one.charge);
                        }
                        stamps.set(one.group - 1, stamp);
                    }
                }
            }
        }
        proof {
            if below && one.group > 0 {
                assert(is_linked(views[at as int].item));
            }
            assert forall|g: int| 0 < g <= size implies (#[trigger] stamps@[g - 1] == stamp
                <==> exists|k: int|
                0 <= k < at + 1 && (#[trigger] views[k]).group == g && path::below(
                    views[k].item.path,
                    directory@,
                )) by {
                assert(before[g - 1] == stamp <==> exists|k: int|
                    0 <= k < at && (#[trigger] views[k]).group == g && path::below(
                        views[k].item.path,
                        directory@,
                    ));
                if stamps@[g - 1] == stamp {
                    if before[g - 1] == stamp {
                        let k = choose|k: int|
                            0 <= k < at && (#[trigger] views[k]).group == g && path::below(
                                views[k].item.path,
                                directory@,
                            );
                        assert(views[k].group == g);
                    } else {
                        assert(views[at as int].group == g);
                    }
                }
                if exists|k: int|
                    0 <= k < at + 1 && (#[trigger] views[k]).group == g && path::below(
                        views[k].item.path,
                        directory@,
                    ) {
                    let k = choose|k: int|
                        0 <= k < at + 1 && (#[trigger] views[k]).group == g && path::below(
                            views[k].item.path,
                            directory@,
                        );
                    if k < at {
                        assert(before[g - 1] == stamp);
                    }
                }
            }
        }
        at = at + 1;
    }
    proof {
        assert forall|k: int| to <= k < items.len() implies !path::below(
            (#[trigger] items[k]).item.path,
            directory@,
        ) by {
            assert(!path::below(all@[k].item.path@, directory@));
        }
        lemma_nothing_below(items, directory@, to as int, items.len() as int);
    }
    (logical, allocated)
}

/// Where the run of items within a directory ends; the directory stands first.
fn end_of_directory(all: &Vec<Measured>, at: usize) -> (result: usize)
    requires
        at < all@.len(),
        forall|i: int, j: int|
            0 <= i < j < all@.len() ==> path::at_most(
                (#[trigger] all@[i]).item.path@,
                (#[trigger] all@[j]).item.path@,
            ),
    ensures
        at < result <= all@.len(),
        forall|k: int|
            0 <= k < all@.len() && !(at + 1 <= k < result) ==> !path::below(
                (#[trigger] all@[k]).item.path@,
                all@[at as int].item.path@,
            ),
{
    let ghost directory = all@[at as int].item.path@;
    let total: usize = all.len();
    assert(at < total);
    let mut end: usize = at + 1;
    while end < all.len() && all[end].item.path.starts_with(&all[at].item.path)
        invariant
            at < end <= all@.len(),
        decreases all@.len() - end,
    {
        end = end + 1;
    }
    proof {
        assert forall|k: int| 0 <= k < all@.len() && !(at + 1 <= k < end) implies !path::below(
            (#[trigger] all@[k]).item.path@,
            directory,
        ) by {
            let other = all@[k].item.path@;
            if k <= at {
                if path::below(other, directory) {
                    path::lemma_base_comes_first(directory, other);
                    if k < at {
                        path::law_paths_are_totally_ordered(other, directory);
                    }
                }
            } else if path::below(other, directory) {
                let middle = all@[end as int].item.path@;
                if k == end {
                    assert(path::within(other, directory));
                } else {
                    path::lemma_descendants_stand_together(directory, middle, other);
                }
            }
        }
    }
    end
}

fn count_kind(items: &Vec<ScannedItem>, kind: ItemKind) -> (result: u64)
    ensures
        result == kind_count(order::views(items@), kind) as u64,
{
    let ghost all = order::views(items@);
    let mut count: u64 = 0;
    let mut at: usize = 0;
    while at < items.len()
        invariant
            at <= items.len(),
            all == order::views(items@),
            count <= at,
            count == kind_count(all.take(at as int), kind),
        decreases items.len() - at,
    {
        assert(all.take(at + 1).drop_last() =~= all.take(at as int));
        if items[at].kind == kind {
            count = count + 1;
        }
        at = at + 1;
    }
    assert(all.take(at as int) =~= all);
    count
}

fn knows_allocation(items: &Vec<ScannedItem>) -> (result: bool)
    ensures
        result == allocation_known(order::views(items@)),
{
    let ghost all = order::views(items@);
    let mut at: usize = 0;
    while at < items.len()
        invariant
            at <= items.len(),
            all == order::views(items@),
            forall|i: int|
                0 <= i < at && (#[trigger] all[i]).kind == ItemKind::File
                    ==> all[i].allocated_size_bytes is Some,
        decreases items.len() - at,
    {
        assert(all[at as int] == items@[at as int]@);
        if items[at].kind == ItemKind::File && items[at].allocated_size_bytes.is_none() {
            return false;
        }
        at = at + 1;
    }
    true
}

fn measure(items: Vec<ScannedItem>) -> (result: (Vec<Measured>, usize))
    ensures
        order::mapped(order::views(result.0@), cost_of()) == charged(order::views(items@)),
        numbered(order::views(result.0@), result.1),
{
    let linked = group_links(&items);
    let ghost all = order::views(items@);
    let ghost source = items@;
    let mut measured: Vec<Measured> = Vec::new();
    let mut at: usize = 0;
    for item in it: items
        invariant
            it.seq() == source,
            all == order::views(source),
            at == it.index(),
            at <= source.len(),
            measured@.len() == at,
            linked.groups@.len() == source.len(),
            linked.charges@.len() == source.len(),
            forall|i: int|
                0 <= i < at ==> (#[trigger] measured@[i])@ == (MeasuredView {
                    item: all[i],
                    charge: linked.charges@[i],
                    group: linked.groups@[i],
                }),
    {
        let one = Measured { item, charge: linked.charges[at], group: linked.groups[at] };
        measured.push(one);
        at = at + 1;
    }
    proof {
        let views = order::views(measured@);
        assert forall|i: int| 0 <= i < views.len() implies #[trigger] views[i] == (MeasuredView {
            item: all[i],
            charge: linked.charges@[i],
            group: linked.groups@[i],
        }) by {
            assert(measured@[i]@ == views[i]);
        }
        assert forall|i: int| 0 <= i < views.len() implies order::mapped(views, cost_of())[i]
            == #[trigger] charged(all)[i] by {
            assert(linked.charges@[i] == charge(all, i));
        }
        assert(order::mapped(views, cost_of()) =~= charged(all));
        assert forall|i: int| 0 <= i < views.len() implies ((#[trigger] views[i]).group > 0
            <==> is_linked(views[i].item)) && views[i].group <= linked.count by {
            assert(linked.groups@[i] > 0 <==> is_linked(all[i]));
        }
        assert forall|i: int, j: int|
            0 <= i < views.len() && 0 <= j < views.len() && (#[trigger] views[i]).group > 0 && (
            #[trigger] views[j]).group > 0 implies (views[i].group == views[j].group
            <==> views[i].item.file_identity == views[j].item.file_identity) by {
            assert(linked.groups@[i] > 0 && linked.groups@[j] > 0);
        }
    }
    (measured, linked.count)
}

proof fn lemma_numbered_sorted(
    all: Seq<MeasuredView>,
    le: spec_fn(MeasuredView, MeasuredView) -> bool,
    count: usize,
)
    requires
        order::is_ranking(le),
        numbered(all, count),
    ensures
        numbered(order::sorted(all, le), count),
{
    let sorted = order::sorted(all, le);
    assert forall|i: int| 0 <= i < sorted.len() implies ((#[trigger] sorted[i]).group > 0
        <==> is_linked(sorted[i].item)) && sorted[i].group <= count by {
        order::lemma_sorted_contains(all, sorted[i], le);
        assert(sorted.contains(sorted[i]));
        let p = choose|p: int| 0 <= p < all.len() && all[p] == sorted[i];
        assert(all[p].group > 0 <==> is_linked(all[p].item));
    }
    assert forall|i: int, j: int|
        0 <= i < sorted.len() && 0 <= j < sorted.len() && (#[trigger] sorted[i]).group > 0 && (
        #[trigger] sorted[j]).group > 0 implies (sorted[i].group == sorted[j].group
        <==> sorted[i].item.file_identity == sorted[j].item.file_identity) by {
        order::lemma_sorted_contains(all, sorted[i], le);
        order::lemma_sorted_contains(all, sorted[j], le);
        assert(sorted.contains(sorted[i]) && sorted.contains(sorted[j]));
        let p = choose|p: int| 0 <= p < all.len() && all[p] == sorted[i];
        let q = choose|q: int| 0 <= q < all.len() && all[q] == sorted[j];
        assert(all[p].group > 0 && all[q].group > 0);
    }
}

fn no_stamps(count: usize) -> (result: Vec<usize>)
    ensures
        result@.len() == count,
        forall|g: int| 0 <= g < count ==> #[trigger] result@[g] == 0,
{
    let mut stamps: Vec<usize> = Vec::new();
    while stamps.len() < count
        invariant
            stamps@.len() <= count,
            forall|g: int| 0 <= g < stamps@.len() ==> #[trigger] stamps@[g] == 0,
        decreases count - stamps@.len(),
    {
        stamps.push(0);
    }
    stamps
}

/// How many of some items are one of several names of a file.
pub open spec fn link_count(items: Seq<ItemView>) -> nat
    decreases items.len(),
{
    if items.len() == 0 {
        0
    } else {
        link_count(items.drop_last()) + (if is_linked(items.last()) {
            1nat
        } else {
            0
        })
    }
}

/// How often the signal is asked while the directories are summed.
pub open spec fn sum_polls(count: nat) -> nat {
    (count + 1023) / 1024
}

/// How often the signal is asked while a walk is added up: at the start, for
/// each of several names of a file, and now and then as the directories are
/// summed.
pub open spec fn finish_polls(items: Seq<ItemView>) -> nat {
    1 + link_count(items) + sum_polls(items.len())
}

/// Whether all answers let the work go on, or the last one ended it.
pub open spec fn answered(answers: Seq<bool>, stopped: bool, polls: nat) -> bool {
    if stopped {
        progress::stops_at(answers, answers.len() - 1) && answers.len() <= polls
    } else {
        progress::goes_on(answers, polls)
    }
}

fn holds_link(item: &ScannedItem) -> (result: bool)
    ensures
        result == is_linked(item@),
{
    item.kind == ItemKind::File && item.allocated_size_bytes.is_some()
        && item.file_identity.is_some() && match item.hard_link_count {
        Some(count) => count > 1,
        None => false,
    }
}

/// Asks at the start and for each of several names of a file whether to stop.
fn poll_links<S: StopSignal>(items: &Vec<ScannedItem>, signal: &mut S) -> (stopped: bool)
    ensures
        exists|answers: Seq<bool>|
            progress::polled(*old(signal), *final(signal), answers) && #[trigger] answered(
                answers,
                stopped,
                1 + link_count(order::views(items@)),
            ),
{
    let ghost all = order::views(items@);
    let ghost first = *signal;
    let ghost mut answers = Seq::<bool>::empty();
    let ghost before = *signal;
    let stop = signal.poll();
    proof {
        progress::lemma_polled_nothing(first);
        progress::lemma_polled_once(first, before, *signal, answers, stop);
        answers = answers.push(stop);
        lemma_link_count_grows(all, 0);
        assert(all.take(0) =~= Seq::<ItemView>::empty());
    }
    if stop {
        assert(answered(answers, true, 1 + link_count(all)));
        return true;
    }
    let mut at: usize = 0;
    while at < items.len()
        invariant
            at <= items@.len(),
            all == order::views(items@),
            first == *old(signal),
            progress::polled(first, *signal, answers),
            progress::goes_on(answers, 1 + link_count(all.take(at as int))),
        decreases items@.len() - at,
    {
        proof {
            assert(all.take(at + 1).drop_last() =~= all.take(at as int));
            assert(all[at as int] == items@[at as int]@);
            lemma_link_count_grows(all, at + 1);
        }
        if holds_link(&items[at]) {
            let ghost before = *signal;
            let stop = signal.poll();
            proof {
                progress::lemma_polled_once(first, before, *signal, answers, stop);
                answers = answers.push(stop);
            }
            if stop {
                assert(answered(answers, true, 1 + link_count(all)));
                return true;
            }
        }
        at = at + 1;
    }
    assert(all.take(at as int) =~= all);
    assert(answered(answers, false, 1 + link_count(all)));
    false
}

proof fn lemma_link_count_grows(items: Seq<ItemView>, count: int)
    requires
        0 <= count <= items.len(),
    ensures
        link_count(items.take(count)) <= link_count(items),
    decreases items.len() - count,
{
    if count < items.len() {
        lemma_link_count_grows(items, count + 1);
        assert(items.take(count + 1).drop_last() =~= items.take(count));
    } else {
        assert(items.take(count) =~= items);
    }
}

/// The sums of every directory, by the place of the item.
fn sum_directories<S: StopSignal>(
    all: &Vec<Measured>,
    count: usize,
    signal: &mut S,
) -> (result: Option<Vec<(u64, u64)>>)
    requires
        numbered(order::views(all@), count),
        forall|i: int, j: int|
            0 <= i < j < all@.len() ==> path::at_most(
                (#[trigger] all@[i]).item.path@,
                (#[trigger] all@[j]).item.path@,
            ),
    ensures
        exists|answers: Seq<bool>|
            progress::polled(*old(signal), *final(signal), answers) && #[trigger] answered(
                answers,
                result is None,
                sum_polls(all@.len()),
            ),
        result matches Some(sums) ==> {
            &&& sums@.len() == all@.len()
            &&& forall|i: int|
                0 <= i < all@.len() && all@[i].item.kind == ItemKind::Directory ==> {
                    &&& (#[trigger] sums@[i]).0 == total_bytes(
                        order::mapped(order::views(all@), cost_of()),
                        all@[i].item.path@,
                    )
                    &&& Some(sums@[i].1) == total_allocated(
                        order::mapped(order::views(all@), cost_of()),
                        all@[i].item.path@,
                        true,
                    )
                }
        },
{
    let ghost items = order::mapped(order::views(all@), cost_of());
    let mut stamps = no_stamps(count);
    let mut sums: Vec<(u64, u64)> = Vec::new();
    let ghost first = *signal;
    let ghost mut answers = Seq::<bool>::empty();
    proof {
        progress::lemma_polled_nothing(first);
    }
    let mut at: usize = 0;
    while at < all.len()
        invariant
            at <= all@.len(),
            items == order::mapped(order::views(all@), cost_of()),
            numbered(order::views(all@), count),
            forall|i: int, j: int|
                0 <= i < j < all@.len() ==> path::at_most(
                    (#[trigger] all@[i]).item.path@,
                    (#[trigger] all@[j]).item.path@,
                ),
            stamps@.len() == count,
            forall|g: int| 0 <= g < count ==> #[trigger] stamps@[g] <= at,
            sums@.len() == at,
            first == *old(signal),
            progress::polled(first, *signal, answers),
            progress::goes_on(answers, sum_polls(at as nat)),
            forall|i: int|
                0 <= i < at && all@[i].item.kind == ItemKind::Directory ==> {
                    &&& (#[trigger] sums@[i]).0 == total_bytes(items, all@[i].item.path@)
                    &&& Some(sums@[i].1) == total_allocated(items, all@[i].item.path@, true)
                },
        decreases all@.len() - at,
    {
        if at % 1024 == 0 {
            let ghost before = *signal;
            let stop = signal.poll();
            proof {
                progress::lemma_polled_once(first, before, *signal, answers, stop);
                answers = answers.push(stop);
            }
            if stop {
                assert(answered(answers, true, sum_polls(all@.len())));
                return None;
            }
        }
        if all[at].item.kind == ItemKind::Directory {
            let end = end_of_directory(all, at);
            let sum = sum_directory(all, &mut stamps, at + 1, at + 1, end, &all[at].item.path);
            sums.push(sum);
        } else {
            sums.push((0, 0));
        }
        at = at + 1;
    }
    assert(answered(answers, false, sum_polls(all@.len())));
    Some(sums)
}

fn finished_items(all: Vec<Measured>, sums: &Vec<(u64, u64)>, known: bool) -> (result: Vec<
    ScannedItem,
>)
    requires
        sums@.len() == all@.len(),
        forall|i: int|
            0 <= i < all@.len() && all@[i].item.kind == ItemKind::Directory ==> {
                &&& (#[trigger] sums@[i]).0 == total_bytes(
                    order::mapped(order::views(all@), cost_of()),
                    all@[i].item.path@,
                )
                &&& Some(sums@[i].1) == total_allocated(
                    order::mapped(order::views(all@), cost_of()),
                    all@[i].item.path@,
                    true,
                )
            },
    ensures
        order::views(result@) == Seq::new(
            all@.len(),
            |i: int| summed(order::mapped(order::views(all@), cost_of()), i, known),
        ),
{
    let ghost items = order::mapped(order::views(all@), cost_of());
    let ghost source = all@;
    let ghost whole = Seq::new(source.len(), |i: int| summed(items, i, known));
    let mut result: Vec<ScannedItem> = Vec::new();
    let mut at: usize = 0;
    let total: usize = all.len();
    assert(order::views(result@) =~= whole.take(0));
    for one in it: all
        invariant
            it.seq() == source,
            total == source.len(),
            items == order::mapped(order::views(source), cost_of()),
            whole == Seq::new(source.len(), |i: int| summed(items, i, known)),
            at == it.index(),
            at <= source.len(),
            sums@.len() == source.len(),
            forall|i: int|
                0 <= i < source.len() && source[i].item.kind == ItemKind::Directory ==> {
                    &&& (#[trigger] sums@[i]).0 == total_bytes(items, source[i].item.path@)
                    &&& Some(sums@[i].1) == total_allocated(items, source[i].item.path@, true)
                },
            order::views(result@) == whole.take(at as int),
    {
        assert(items[at as int] == cost(source[at as int]@));
        let mut item = one.item;
        if item.kind == ItemKind::Directory {
            let sum = sums[at];
            item.size_bytes = sum.0;
            item.allocated_size_bytes = if known {
                Some(sum.1)
            } else {
                None
            };
        }
        proof {
            assert(item@ == whole[at as int]);
            order::lemma_views_push(result@, item);
            assert(whole.take(at + 1) =~= whole.take(at as int).push(whole[at as int]));
        }
        result.push(item);
        at = at + 1;
    }
    assert(whole.take(at as int) =~= whole);
    result
}

fn report_scan_progress<P: ProgressSink>(
    sink: &mut P,
    items_processed: u64,
    bytes_processed: u64,
    current: Option<FilePath>,
    complete: bool,
)
    ensures
        final(sink).received() == if report_due(items_processed, complete) {
            old(sink).received().push(
                scan_event(items_processed, bytes_processed, path::optional_given(current), complete),
            )
        } else {
            old(sink).received()
        },
{
    if complete || items_processed == 1 || items_processed % PROGRESS_INTERVAL_ITEMS == 0 {
        sink.report(
            &ProgressEvent {
                phase: AnalysisPhase::Scanning,
                items_processed,
                bytes_processed,
                total_items: if complete {
                    Some(items_processed)
                } else {
                    None
                },
                total_bytes: if complete {
                    Some(bytes_processed)
                } else {
                    None
                },
                current_path: current,
            },
        );
    }
}

/// A scan in progress: what the walk has brought so far.
#[derive(Debug)]
pub struct ScanSession {
    root: FilePath,
    rules: PathMatcher,
    started: u64,
    items: Vec<ScannedItem>,
    warnings: Vec<ScanWarning>,
    ignored: Vec<LeftOut>,
    items_processed: u64,
    bytes_processed: u64,
}

impl ScanSession {
    pub closed spec fn state(&self) -> WalkState {
        WalkState {
            items: order::views(self.items@),
            warnings: order::views(self.warnings@),
            ignored: order::views(self.ignored@),
            items_processed: self.items_processed,
            bytes_processed: self.bytes_processed,
        }
    }

    pub closed spec fn root_path(&self) -> Seq<PartView> {
        self.root@
    }

    pub closed spec fn root_given(&self) -> GivenView {
        self.root.as_given()
    }

    pub closed spec fn policy(&self) -> PolicyView {
        self.rules@
    }

    pub closed spec fn started_at(&self) -> u64 {
        self.started
    }

    /// Begins the scan of a directory.
    pub fn begin(
        root: FilePath,
        ignored_rules: &[PathRule],
        ignore_case: bool,
        started: u64,
    ) -> (result: Result<Self, ScanError>)
        ensures
            match result {
                Ok(session) => {
                    &&& policy::compiled(
                        root@,
                        policy::rule_set(order::views(ignored_rules@), ignore_case),
                    ) == Ok::<
                        PolicyView,
                        RuleErrorView,
                    >(session.policy())
                    &&& session.state() == at_start()
                    &&& session.root_path() == root@
                    &&& session.root_given() == root.as_given()
                    &&& session.started_at() == started
                },
                Err(error) => error@ matches ScanErrorView::InvalidRule(reason)
                    && policy::compiled(
                        root@,
                        policy::rule_set(order::views(ignored_rules@), ignore_case),
                    ) == Err::<
                    PolicyView,
                    RuleErrorView,
                >(reason),
            },
    {
        let rules = match PathMatcher::with_case(&root, ignored_rules, ignore_case) {
            Ok(rules) => rules,
            Err(error) => {
                return Err(ScanError::InvalidRule(error));
            },
        };
        let session = ScanSession {
            root,
            rules,
            started,
            items: Vec::new(),
            warnings: Vec::new(),
            ignored: Vec::new(),
            items_processed: 0,
            bytes_processed: 0,
        };
        assert(session.state() =~= at_start());
        Ok(session)
    }

    /// How many steps and bytes the walk has brought so far.
    pub fn processed(&self) -> (result: (u64, u64))
        ensures
            result == (self.state().items_processed, self.state().bytes_processed),
    {
        (self.items_processed, self.bytes_processed)
    }

    /// Whether a rule leaves a path out of the scan. The walk does not go
    /// below it.
    pub fn is_ignored(&self, given: &FilePath) -> (result: bool)
        ensures
            result == self.policy().matches(given@),
    {
        self.rules.is_match(given)
    }

    /// Passes over a path that a rule leaves out, before anything else is known
    /// of it.
    pub fn pass_over(&mut self, given: FilePath)
        ensures
            final(self).state() == with_ignored(
                old(self).root_path(),
                old(self).policy(),
                old(self).state(),
                given.as_given(),
            ),
            old(self).policy().matches(given@) ==> forall|metadata: EntryMetadata|
                final(self).state() == #[trigger] stepped(
                    old(self).root_path(),
                    old(self).policy(),
                    old(self).state(),
                    WalkEventView::Entry { given: given.as_given(), metadata },
                ),
            final(self).root_path() == old(self).root_path(),
            final(self).root_given() == old(self).root_given(),
            final(self).policy() == old(self).policy(),
            final(self).started_at() == old(self).started_at(),
    {
        let covered = match given.parent() {
            Some(above) => above.starts_with(&self.root) && self.rules.is_match(&above),
            None => false,
        };
        if !covered && self.rules.is_match(&given) {
            let left_out = LeftOut { path: given };
            proof {
                order::lemma_views_push(self.ignored@, left_out);
            }
            self.ignored.push(left_out);
        }
    }

    fn warn(&mut self, place: Option<FilePath>, message: String)
        ensures
            final(self).state() == with_warning(
                old(self).state(),
                path::optional_given(place),
                message@,
            ),
            final(self).root_path() == old(self).root_path(),
            final(self).root_given() == old(self).root_given(),
            final(self).policy() == old(self).policy(),
            final(self).started_at() == old(self).started_at(),
    {
        let warning = ScanWarning { path: place, message };
        proof {
            order::lemma_views_push(self.warnings@, warning);
        }
        self.items_processed = self.items_processed.saturating_add(1);
        self.warnings.push(warning);
    }

    /// Takes in one step of the walk.
    pub fn step<P: ProgressSink>(&mut self, event: WalkEvent, sink: &mut P)
        ensures
            final(self).state() == stepped(
                old(self).root_path(),
                old(self).policy(),
                old(self).state(),
                event@,
            ),
            final(self).root_path() == old(self).root_path(),
            final(self).root_given() == old(self).root_given(),
            final(self).policy() == old(self).policy(),
            final(self).started_at() == old(self).started_at(),
            final(sink).received() == old(sink).received() + step_report(
                old(self).policy(),
                final(self).state(),
                event@,
            ),
    {
        let ghost earlier = sink.received();
        match event {
            WalkEvent::Unreadable { place, message } => {
                let current = model::copy_optional_path(&place);
                self.warn(place, message);
                report_scan_progress(
                    sink,
                    self.items_processed,
                    self.bytes_processed,
                    current,
                    false,
                );
            },
            WalkEvent::Lost { path, message } => {
                if self.rules.is_match(&path) {
                    self.pass_over(path);
                } else {
                    let current = Some(path.clone());
                    self.warn(Some(path), message);
                    report_scan_progress(
                        sink,
                        self.items_processed,
                        self.bytes_processed,
                        current,
                        false,
                    );
                }
            },
            WalkEvent::Entry { path, metadata } => {
                if self.rules.is_match(&path) {
                    self.pass_over(path);
                } else {
                    let current = Some(path.clone());
                    let item = make_item(path, metadata);
                    self.items_processed = self.items_processed.saturating_add(1);
                    self.bytes_processed = self.bytes_processed.saturating_add(item.size_bytes);
                    proof {
                        order::lemma_views_push(self.items@, item);
                    }
                    self.items.push(item);
                    report_scan_progress(
                        sink,
                        self.items_processed,
                        self.bytes_processed,
                        current,
                        false,
                    );
                }
            },
        }
        proof {
            let report = step_report(self.policy(), self.state(), event@);
            assert(sink.received() =~= earlier + report);
        }
    }

    /// Asks the signal whether the walk goes on.
    pub fn proceed<S: StopSignal>(&self, signal: &mut S) -> (result: Result<(), ScanError>)
        ensures
            progress::polled(*old(signal), *final(signal), seq![result is Err]),
            result matches Err(error) ==> error@ == (ScanErrorView::Cancelled {
                items_processed: self.state().items_processed,
                bytes_processed: self.state().bytes_processed,
            }),
    {
        let ghost before = *signal;
        let stop = signal.poll();
        proof {
            let none = Seq::<bool>::empty();
            progress::lemma_polled_nothing(before);
            progress::lemma_polled_once(before, before, *signal, none, stop);
            assert(none.push(stop) =~= seq![stop]);
        }
        if stop {
            Err(
                ScanError::Cancelled {
                    items_processed: self.items_processed,
                    bytes_processed: self.bytes_processed,
                },
            )
        } else {
            Ok(())
        }
    }

    /// Adds up the walk, unless the signal asks for a stop.
    pub fn finish<P: ProgressSink, S: StopSignal>(
        self,
        completed: u64,
        signal: &mut S,
        sink: &mut P,
    ) -> (result: Result<ScanResult, ScanError>)
        ensures
            exists|answers: Seq<bool>|
                progress::polled(*old(signal), *final(signal), answers) && #[trigger] answered(
                    answers,
                    result is Err,
                    finish_polls(self.state().items),
                ),
            match result {
                Ok(scan) => {
                    &&& scan@ == scanned(
                        self.root_given(),
                        self.state(),
                        self.started_at(),
                        completed,
                    )
                    &&& final(sink).received() == old(sink).received().push(
                        scan_event(
                            self.state().items_processed,
                            self.state().bytes_processed,
                            None,
                            true,
                        ),
                    )
                },
                Err(error) => {
                    &&& error@ == (ScanErrorView::Cancelled {
                        items_processed: self.state().items_processed,
                        bytes_processed: self.state().bytes_processed,
                    })
                    &&& final(sink).received() == old(sink).received()
                },
            },
    {
        let ghost state = self.state();
        let items_processed: u64 = self.items_processed;
        let bytes_processed: u64 = self.bytes_processed;
        let ghost first = *signal;
        let ghost polls = finish_polls(state.items);
        let stopped = poll_links(&self.items, signal);
        let ghost middle = *signal;
        let ghost asked = choose|answers: Seq<bool>|
            progress::polled(first, middle, answers) && #[trigger] answered(
                answers,
                stopped,
                1 + link_count(state.items),
            );
        if stopped {
            let result: Result<ScanResult, ScanError> = Err(
                ScanError::Cancelled { items_processed, bytes_processed },
            );
            assert(answered(asked, result is Err, polls));
            return result;
        }
        let known = knows_allocation(&self.items);
        let file_count = count_kind(&self.items, ItemKind::File);
        let directory_count = count_kind(&self.items, ItemKind::Directory);
        let (measured, count) = measure(self.items);
        let ghost unsorted = order::views(measured@);
        let ghost rank = order::relation::<Measured, MeasuredOrder>(MeasuredOrder);
        let all = order::sort_by_ranking(measured, &MeasuredOrder);
        let ghost items = order::sorted(charged(state.items), by_path());
        proof {
            order::lemma_relation_ranks::<Measured, MeasuredOrder>(MeasuredOrder);
            order::lemma_sorted_mapped(unsorted, cost_of(), rank, by_path());
            assert(order::mapped(order::views(all@), cost_of()) == items);
            lemma_numbered_sorted(unsorted, rank, count);
            order::law_sorted_is_an_ordered_permutation(unsorted, rank);
            assert forall|i: int, j: int| 0 <= i < j < all@.len() implies path::at_most(
                (#[trigger] all@[i]).item.path@,
                (#[trigger] all@[j]).item.path@,
            ) by {
                assert(rank(order::views(all@)[i], order::views(all@)[j]));
            }
        }
        let summed = sum_directories(&all, count, signal);
        let ghost more = choose|answers: Seq<bool>|
            progress::polled(middle, *signal, answers) && #[trigger] answered(
                answers,
                summed is None,
                sum_polls(all@.len()),
            );
        proof {
            progress::lemma_polled_further(first, middle, *signal, asked, more);
            assert(all@.len() == state.items.len());
            assert(answered(asked + more, summed is None, polls));
        }
        let sums = match summed {
            Some(sums) => sums,
            None => {
                let result: Result<ScanResult, ScanError> = Err(
                    ScanError::Cancelled { items_processed, bytes_processed },
                );
                assert(answered(asked + more, result is Err, polls));
                return result;
            },
        };
        let mut stamps = no_stamps(count);
        let totals = sum_directory(&all, &mut stamps, 1, 0, all.len(), &self.root);
        let items = finished_items(all, &sums, known);
        let ignored_paths = paths_left_out(order::sort_by_ranking(self.ignored, &LeftOutOrder));
        let warnings = order::sort_by_ranking(self.warnings, &WarningOrder);
        proof {
            assert(order::relation::<LeftOut, LeftOutOrder>(LeftOutOrder) =~= given_order());
            assert(order::relation::<ScanWarning, WarningOrder>(WarningOrder) =~= warning_order());
        }
        report_scan_progress(sink, items_processed, bytes_processed, None, true);
        let scan = ScanResult {
            root: self.root,
            started_at_epoch_seconds: self.started,
            completed_at_epoch_seconds: completed,
            total_size_bytes: totals.0,
            total_allocated_size_bytes: if known {
                Some(totals.1)
            } else {
                None
            },
            file_count,
            directory_count,
            items,
            ignored_paths,
            warnings,
        };
        assert(scan@ =~= scanned(self.root_given(), state, self.started_at(), completed));
        Ok(scan)
    }
}

/// Where a walk starts.
#[derive(Debug)]
pub enum WalkRoot {
    /// The directory, by its canonical path.
    Directory(FilePath),
    NotDirectory(FilePath),
    Inaccessible { path: FilePath, reason: String },
}

/// A walk over a directory tree.
#[derive(Debug)]
pub struct Walk {
    pub root: WalkRoot,
    pub started_at_epoch_seconds: u64,
    pub completed_at_epoch_seconds: u64,
    pub events: Vec<WalkEvent>,
}

/// What a walk amounts to under some ignore rules.
pub open spec fn outcome(walk: Walk, ignored_rules: RuleSetView) -> Result<
    ScanView,
    ScanErrorView,
> {
    match walk.root {
        WalkRoot::Inaccessible { path, reason } => Err(
            ScanErrorView::RootAccess { given: path.as_given(), reason: reason@ },
        ),
        WalkRoot::NotDirectory(path) => Err(ScanErrorView::RootNotDirectory(path.as_given())),
        WalkRoot::Directory(root) => match policy::compiled(root@, ignored_rules) {
            Err(error) => Err(ScanErrorView::InvalidRule(error)),
            Ok(rules) => Ok(
                scanned(
                    root.as_given(),
                    walked(root@, rules, order::views(walk.events@)),
                    walk.started_at_epoch_seconds,
                    walk.completed_at_epoch_seconds,
                ),
            ),
        },
    }
}

/// What is reported of a walk that is not stopped.
pub open spec fn reports(walk: Walk, ignored_rules: RuleSetView) -> Seq<EventView> {
    let first = seq![progress::starting_event(AnalysisPhase::Scanning)];
    match walk.root {
        WalkRoot::Directory(root) => match policy::compiled(root@, ignored_rules) {
            Err(error) => first,
            Ok(rules) => {
                let events = order::views(walk.events@);
                let end = walked(root@, rules, events);
                walk_reports(root@, rules, events).push(
                    scan_event(end.items_processed, end.bytes_processed, None, true),
                )
            },
        },
        _ => first,
    }
}

/// Whether a scan was stopped after some steps of a walk, with what had been
/// counted and reported until then.
pub open spec fn stopped_after(
    walk: Walk,
    ignored_rules: RuleSetView,
    error: ScanErrorView,
    reported: Seq<EventView>,
    steps: int,
) -> bool {
    if steps == 0 {
        &&& error == (ScanErrorView::Cancelled { items_processed: 0, bytes_processed: 0 })
        &&& reported == seq![progress::starting_event(AnalysisPhase::Scanning)]
    } else {
        match walk.root {
            WalkRoot::Directory(root) => match policy::compiled(root@, ignored_rules) {
                Err(_) => false,
                Ok(rules) => {
                    let events = order::views(walk.events@).take(steps);
                    let state = walked(root@, rules, events);
                    &&& 0 < steps <= walk.events@.len()
                    &&& error == (ScanErrorView::Cancelled {
                        items_processed: state.items_processed,
                        bytes_processed: state.bytes_processed,
                    })
                    &&& reported == walk_reports(root@, rules, events)
                },
            },
            _ => false,
        }
    }
}

/// How often the signal is asked in the course of a scan that is not stopped:
/// at the start, before each step of the walk, and while it is added up.
pub open spec fn scan_polls(walk: Walk, ignored_rules: RuleSetView) -> nat {
    match walk.root {
        WalkRoot::Directory(root) => match policy::compiled(root@, ignored_rules) {
            Err(_) => 1,
            Ok(rules) => {
                let events = order::views(walk.events@);
                1 + events.len() + finish_polls(walked(root@, rules, events).items)
            },
        },
        _ => 1,
    }
}

/// How many steps of a walk are taken before a poll.
pub open spec fn steps_before(place: int, count: nat) -> int {
    if place <= 0 {
        0
    } else if place - 1 < count {
        place - 1
    } else {
        count as int
    }
}

/// What is said of a scan: it comes to what the walk amounts to where no answer
/// asked for a stop, and it ends with the steps before the first one that did.
pub open spec fn is_outcome(
    walk: Walk,
    ignored_rules: RuleSetView,
    result: Result<ScanResult, ScanError>,
    answers: Seq<bool>,
    reported: Seq<EventView>,
) -> bool {
    let place = answers.len() - 1;
    let polls = scan_polls(walk, ignored_rules);
    match result {
        Ok(scan) => {
            &&& progress::goes_on(answers, polls)
            &&& outcome(walk, ignored_rules) == Ok::<ScanView, ScanErrorView>(scan@)
            &&& reported == reports(walk, ignored_rules)
        },
        Err(error) => {
            ||| {
                &&& progress::goes_on(answers, polls)
                &&& outcome(walk, ignored_rules) == Err::<ScanView, ScanErrorView>(error@)
                &&& reported == reports(walk, ignored_rules)
            }
            ||| {
                &&& progress::stops_at(answers, place)
                &&& place < polls
                &&& stopped_after(
                    walk,
                    ignored_rules,
                    error@,
                    reported,
                    steps_before(place, walk.events@.len()),
                )
            }
        },
    }
}

/// Begins a scan: it is reported, and the signal is asked whether it goes on.
pub fn start_scan<P: ProgressSink, S: StopSignal>(signal: &mut S, sink: &mut P) -> (result: Result<
    (),
    ScanError,
>)
    ensures
        progress::polled(*old(signal), *final(signal), seq![result is Err]),
        final(sink).received() == old(sink).received().push(
            progress::starting_event(AnalysisPhase::Scanning),
        ),
        result matches Err(error) ==> error@ == (ScanErrorView::Cancelled {
            items_processed: 0,
            bytes_processed: 0,
        }),
{
    sink.report(&ProgressEvent::starting(AnalysisPhase::Scanning));
    let ghost before = *signal;
    let stop = signal.poll();
    proof {
        let none = Seq::<bool>::empty();
        progress::lemma_polled_nothing(before);
        progress::lemma_polled_once(before, before, *signal, none, stop);
        assert(none.push(stop) =~= seq![stop]);
    }
    if stop {
        Err(ScanError::Cancelled { items_processed: 0, bytes_processed: 0 })
    } else {
        Ok(())
    }
}

/// What a walk over the root of the options adds up to, with progress reported
/// on the way. At the start, before each step of the walk and while it is added
/// up the signal says whether to stop.
pub fn scan_polled<P: ProgressSink, S: StopSignal>(
    options: &ScanOptions,
    walk: Walk,
    signal: &mut S,
    sink: &mut P,
) -> (result: Result<ScanResult, ScanError>)
    ensures
        exists|answers: Seq<bool>, reported: Seq<EventView>|
            progress::polled(*old(signal), *final(signal), answers) && final(sink).received()
                == old(sink).received() + reported && #[trigger] is_outcome(
                walk,
                options.rule_set(),
                result,
                answers,
                reported,
            ),
{
    let ghost earlier = sink.received();
    let ghost rules_given = options.rule_set();
    let ghost events = order::views(walk.events@);
    let ghost first = seq![progress::starting_event(AnalysisPhase::Scanning)];
    let ghost unasked = *signal;
    let started = start_scan(signal, sink);
    let ghost mut answers = seq![started is Err];
    assert(sink.received() =~= earlier + first);
    if let Err(error) = started {
        let result = Err(error);
        assert(stopped_after(walk, rules_given, error@, first, 0));
        assert(is_outcome(walk, rules_given, result, answers, first));
        return result;
    }
    let root = match walk.root {
        WalkRoot::Directory(root) => root,
        WalkRoot::NotDirectory(path) => {
            let result = Err(ScanError::RootNotDirectory(path));
            assert(is_outcome(walk, rules_given, result, answers, first));
            return result;
        },
        WalkRoot::Inaccessible { path, reason } => {
            let result = Err(ScanError::RootAccess { path, reason });
            assert(is_outcome(walk, rules_given, result, answers, first));
            return result;
        },
    };
    let ghost place = root@;
    let ghost spelled = root.as_given();
    let mut session = match ScanSession::begin(
        root,
        options.ignored_rules.as_slice(),
        options.ignore_case,
        walk.started_at_epoch_seconds,
    ) {
        Ok(session) => session,
        Err(error) => {
            let result = Err(error);
            assert(is_outcome(walk, rules_given, result, answers, first));
            return result;
        },
    };
    let ghost rules = session.policy();
    let ghost source = walk.events@;
    let mut done: usize = 0;
    let total: usize = walk.events.len();
    assert(walked(place, rules, events.take(0)) =~= at_start());
    assert(walk_reports(place, rules, events.take(0)) =~= first);
    for event in it: walk.events
        invariant
            it.seq() == source,
            total == source.len(),
            events == order::views(source),
            done == it.index(),
            done <= source.len(),
            walk.root matches WalkRoot::Directory(given) && given@ == place && given.as_given()
                == spelled,
            session.root_given() == spelled,
            walk.events@ == source,
            policy::compiled(place, rules_given) == Ok::<PolicyView, RuleErrorView>(rules),
            rules_given == options.rule_set(),
            earlier == old(sink).received(),
            session.root_path() == place,
            session.policy() == rules,
            session.started_at() == walk.started_at_epoch_seconds,
            session.state() == walked(place, rules, events.take(done as int)),
            sink.received() == earlier + walk_reports(place, rules, events.take(done as int)),
            first == seq![progress::starting_event(AnalysisPhase::Scanning)],
            unasked == *old(signal),
            progress::polled(unasked, *signal, answers),
            progress::goes_on(answers, done as nat + 1),
    {
        let ghost before = *signal;
        let proceeding = session.proceed(signal);
        proof {
            let more = seq![proceeding is Err];
            progress::lemma_polled_further(unasked, before, *signal, answers, more);
            answers = answers + more;
        }
        if let Err(error) = proceeding {
            let result = Err(error);
            proof {
                let reported = walk_reports(place, rules, events.take(done as int));
                if done == 0 {
                    assert(events.take(0) =~= Seq::<WalkEventView>::empty());
                    assert(reported =~= first);
                }
                assert(stopped_after(walk, rules_given, error@, reported, done as int));
                assert(progress::stops_at(answers, done + 1));
                assert(is_outcome(walk, rules_given, result, answers, reported));
            }
            return result;
        }
        let ghost before = sink.received();
        assert(events.take(done + 1).drop_last() =~= events.take(done as int));
        session.step(event, sink);
        proof {
            assert(sink.received() =~= earlier + walk_reports(place, rules, events.take(done + 1)));
        }
        done = done + 1;
    }
    assert(events.take(done as int) =~= events);
    let ghost state = session.state();
    let ghost before = sink.received();
    let completed: u64 = walk.completed_at_epoch_seconds;
    let ghost unfinished = *signal;
    let result = session.finish(completed, signal, sink);
    proof {
        let more = choose|more: Seq<bool>|
            progress::polled(unfinished, *signal, more) && #[trigger] answered(
                more,
                result is Err,
                finish_polls(state.items),
            );
        progress::lemma_polled_further(unasked, unfinished, *signal, answers, more);
        let given = answers;
        answers = answers + more;
        match &result {
            Ok(_) => {
                let reported = reports(walk, rules_given);
                assert(sink.received() =~= earlier + reported);
                assert(is_outcome(walk, rules_given, result, answers, reported));
            },
            Err(error) => {
                let reported = walk_reports(place, rules, events);
                if done == 0 {
                    assert(reported =~= first);
                }
                assert(events.take(events.len() as int) =~= events);
                assert(stopped_after(walk, rules_given, error@, reported, events.len() as int));
                assert(answers.last() == more.last());
                assert(progress::stops_at(answers, answers.len() - 1));
                assert(is_outcome(walk, rules_given, result, answers, reported));
            },
        }
    }
    result
}

/// What a walk over the root of the options adds up to.
pub fn scan(options: &ScanOptions, walk: Walk) -> (result: Result<ScanResult, ScanError>)
    ensures
        match result {
            Ok(scan) => outcome(walk, options.rule_set()) == Ok::<
                ScanView,
                ScanErrorView,
            >(scan@),
            Err(error) => outcome(walk, options.rule_set()) == Err::<
                ScanView,
                ScanErrorView,
            >(error@),
        },
{
    let mut log = ProgressLog::new();
    let mut signal = NeverStops::new();
    scan_polled(options, walk, &mut signal, &mut log)
}

/// Like `scan`, with progress reported on the way. Where the token is found
/// cancelled at the start, before a step of the walk or while it is added up,
/// that ends the scan.
pub fn scan_with_progress<P: ProgressSink>(
    options: &ScanOptions,
    walk: Walk,
    cancellation: &CancellationToken,
    on_progress: &mut P,
) -> (result: Result<ScanResult, ScanError>)
    ensures
        exists|answers: Seq<bool>, reported: Seq<EventView>|
            progress::given_by(cancellation, answers) && final(on_progress).received() == old(
                on_progress,
            ).received() + reported && #[trigger] is_outcome(
                walk,
                options.rule_set(),
                result,
                answers,
                reported,
            ),
{
    let mut signal = TokenSignal::new(cancellation);
    scan_polled(options, walk, &mut signal, on_progress)
}

proof fn lemma_walked_items_are_kept(
    root: Seq<PartView>,
    rules: PolicyView,
    events: Seq<WalkEventView>,
)
    ensures
        forall|i: int|
            0 <= i < walked(root, rules, events).items.len() ==> !rules.matches(
                (#[trigger] walked(root, rules, events).items[i]).path,
            ),
    decreases events.len(),
{
    if events.len() > 0 {
        lemma_walked_items_are_kept(root, rules, events.drop_last());
    }
}

pub proof fn lemma_by_path()
    ensures
        order::is_ranking(by_path()),
{
    let le = by_path();
    assert forall|a: ChargedView, b: ChargedView| #[trigger] le(a, b) || le(b, a) by {
        path::law_paths_are_totally_ordered(a.item.path, b.item.path);
    }
    assert forall|a: ChargedView, b: ChargedView, c: ChargedView| #[trigger] le(a, b)
        && #[trigger] le(b, c) implies le(a, c) by {
        path::lemma_at_most_transitive(a.item.path, b.item.path, c.item.path);
    }
}

/// Nothing that a rule leaves out is among the items of a scan.
pub proof fn law_ignored_paths_are_absent(
    root: GivenView,
    rules: PolicyView,
    events: Seq<WalkEventView>,
    started: u64,
    completed: u64,
    item: ItemView,
)
    requires
        scanned(root, walked(root.path, rules, events), started, completed).items.contains(item),
    ensures
        !rules.matches(item.path),
{
    let state = walked(root.path, rules, events);
    let found = charged(state.items);
    let items = order::sorted(found, by_path());
    let all = scanned(root, state, started, completed).items;
    let i = choose|i: int| 0 <= i < all.len() && all[i] == item;
    assert(all[i].path == items[i].item.path);
    lemma_walked_items_are_kept(root.path, rules, events);
    lemma_by_path();
    assert(items.contains(items[i]));
    order::lemma_sorted_contains(found, items[i], by_path());
    let k = choose|k: int| 0 <= k < found.len() && found[k] == items[i];
    assert(!rules.matches(state.items[k].path));
}

/// The steps of a walk that no rule leaves out.
pub open spec fn kept_events(rules: PolicyView, events: Seq<WalkEventView>) -> Seq<WalkEventView>
    decreases events.len(),
{
    if events.len() == 0 {
        Seq::empty()
    } else if left_out(rules, events.last()) {
        kept_events(rules, events.drop_last())
    } else {
        kept_events(rules, events.drop_last()).push(events.last())
    }
}

proof fn lemma_kept_events(root: Seq<PartView>, rules: PolicyView, events: Seq<WalkEventView>)
    ensures
        ({
            let whole = walked(root, rules, events);
            let kept = walked(root, rules, kept_events(rules, events));
            &&& whole.items == kept.items
            &&& whole.warnings == kept.warnings
            &&& whole.items_processed == kept.items_processed
            &&& whole.bytes_processed == kept.bytes_processed
        }),
    decreases events.len(),
{
    if events.len() > 0 {
        lemma_kept_events(root, rules, events.drop_last());
        let before = kept_events(rules, events.drop_last());
        assert(before.push(events.last()).drop_last() =~= before);
    }
}

/// What a rule leaves out changes nothing of a scan but the list of what was
/// left out: not the items, the totals or the warnings.
pub proof fn law_what_is_left_out_counts_for_nothing(
    root: GivenView,
    rules: PolicyView,
    events: Seq<WalkEventView>,
    started: u64,
    completed: u64,
)
    ensures
        ({
            let whole = scanned(root, walked(root.path, rules, events), started, completed);
            let kept = scanned(
                root,
                walked(root.path, rules, kept_events(rules, events)),
                started,
                completed,
            );
            whole == (ScanView { ignored_paths: whole.ignored_paths, ..kept })
        }),
{
    lemma_kept_events(root.path, rules, events);
}

proof fn lemma_bytes_below_grow(
    items: Seq<ChargedView>,
    inner: Seq<PartView>,
    outer: Seq<PartView>,
    count: int,
)
    requires
        path::within(inner, outer),
        count <= items.len(),
    ensures
        bytes_below(items, inner, count) <= bytes_below(items, outer, count),
    decreases count,
{
    if count > 0 {
        lemma_bytes_below_grow(items, inner, outer, count - 1);
        let item = items[count - 1].item;
        if path::below(item.path, inner) {
            assert(item.path.take(outer.len() as int) =~= item.path.take(inner.len() as int).take(
                outer.len() as int,
            ));
        }
    }
}

/// A directory is at least as large as any directory in it.
pub proof fn law_directories_hold_what_lies_in_them(
    items: Seq<ChargedView>,
    inner: Seq<PartView>,
    outer: Seq<PartView>,
)
    requires
        path::within(inner, outer),
    ensures
        total_bytes(items, inner) <= total_bytes(items, outer),
{
    lemma_bytes_below_grow(items, inner, outer, items.len() as int);
}

/// Of two names of one file below a directory at most one is counted in what
/// the directory takes up on disk.
pub proof fn law_hard_links_are_counted_once(
    items: Seq<ChargedView>,
    directory: Seq<PartView>,
    identity: FileIdentity,
    first: int,
    second: int,
)
    requires
        0 <= first < second < items.len(),
        is_link_to(items[first].item, identity),
        is_link_to(items[second].item, identity),
    ensures
        !(counts_below(items, directory, first) && counts_below(items, directory, second)),
{
}

proof fn lemma_walked_keeps(
    root: Seq<PartView>,
    rules: PolicyView,
    events: Seq<WalkEventView>,
    at: int,
)
    requires
        0 <= at < events.len(),
    ensures
        events[at] matches WalkEventView::Unreadable { place, message } ==> walked(
            root,
            rules,
            events,
        ).warnings.contains(ScanWarningView { path: place, message }),
        events[at] matches WalkEventView::Lost { given, message } ==> !rules.matches(given.path)
            ==> walked(root, rules, events).warnings.contains(
            ScanWarningView { path: Some(given), message },
        ),
        events[at] matches WalkEventView::Entry { given, metadata } ==> !rules.matches(given.path)
            ==> walked(root, rules, events).items.contains(item_of(given, metadata)),
    decreases events.len(),
{
    let before = walked(root, rules, events.drop_last());
    let after = walked(root, rules, events);
    if at < events.len() - 1 {
        lemma_walked_keeps(root, rules, events.drop_last(), at);
        assert forall|warning: ScanWarningView|
            before.warnings.contains(warning) implies after.warnings.contains(warning) by {
            let k = choose|k: int| 0 <= k < before.warnings.len() && before.warnings[k] == warning;
            assert(after.warnings[k] == warning);
        }
        assert forall|item: ItemView| before.items.contains(item) implies after.items.contains(
            item,
        ) by {
            let k = choose|k: int| 0 <= k < before.items.len() && before.items[k] == item;
            assert(after.items[k] == item);
        }
    } else {
        match events[at] {
            WalkEventView::Unreadable { place, message } => {
                assert(after.warnings[after.warnings.len() - 1] == (ScanWarningView {
                    path: place,
                    message,
                }));
            },
            WalkEventView::Lost { given, message } => {
                if !rules.matches(given.path) {
                    assert(after.warnings[after.warnings.len() - 1] == (ScanWarningView {
                        path: Some(given),
                        message,
                    }));
                }
            },
            WalkEventView::Entry { given, metadata } => {
                if !rules.matches(given.path) {
                    assert(after.items[after.items.len() - 1] == item_of(given, metadata));
                }
            },
        }
    }
}

/// What cannot be read, or is lost while it is looked at, becomes a warning and
/// keeps no walk from adding up.
pub proof fn law_failures_become_warnings(
    walk: Walk,
    root: FilePath,
    ignored_rules: RuleSetView,
    rules: PolicyView,
    at: int,
)
    requires
        walk.root == WalkRoot::Directory(root),
        policy::compiled(root@, ignored_rules) == Ok::<PolicyView, RuleErrorView>(rules),
        0 <= at < walk.events@.len(),
    ensures
        outcome(walk, ignored_rules) is Ok,
        walk.events@[at]@ matches WalkEventView::Unreadable { place, message } ==> outcome(
            walk,
            ignored_rules,
        )->Ok_0.warnings.contains(ScanWarningView { path: place, message }),
        walk.events@[at]@ matches WalkEventView::Lost { given, message } ==> !rules.matches(given.path)
            ==> outcome(walk, ignored_rules)->Ok_0.warnings.contains(
            ScanWarningView { path: Some(given), message },
        ),
{
    let events = order::views(walk.events@);
    let state = walked(root@, rules, events);
    assert(events[at] == walk.events@[at]@);
    lemma_walked_keeps(root@, rules, events, at);
    lemma_warning_order();
    match events[at] {
        WalkEventView::Unreadable { place, message } => {
            order::lemma_sorted_contains(
                state.warnings,
                ScanWarningView { path: place, message },
                warning_order(),
            );
        },
        WalkEventView::Lost { given, message } => {
            order::lemma_sorted_contains(
                state.warnings,
                ScanWarningView { path: Some(given), message },
                warning_order(),
            );
        },
        _ => {},
    }
}

/// Whether an item records an entry of a walk: under its path and kind, a file
/// with its length, a directory with whatever lies in it, and anything else
/// without a size.
pub open spec fn records(item: ItemView, given: GivenView, metadata: EntryMetadata) -> bool {
    &&& item.path == given.path
    &&& item.spelling == given.spelling
    &&& item.kind == metadata.kind
    &&& item.kind == ItemKind::File ==> item.size_bytes == metadata.length
    &&& item.kind == ItemKind::Symlink || item.kind == ItemKind::Other ==> item.size_bytes == 0
}

/// Every entry that no rule leaves out is recorded, and only files have a size
/// of their own: a symbolic link is recorded for itself.
pub proof fn law_entries_are_recorded(
    root: GivenView,
    rules: PolicyView,
    events: Seq<WalkEventView>,
    started: u64,
    completed: u64,
    at: int,
)
    requires
        0 <= at < events.len(),
        events[at] is Entry,
        !rules.matches(events[at]->Entry_given.path),
    ensures
        exists|i: int|
            0 <= i < scanned(root, walked(root.path, rules, events), started, completed).items.len()
                && records(
                #[trigger] scanned(root, walked(root.path, rules, events), started, completed).items[i],
                events[at]->Entry_given,
                events[at]->metadata,
            ),
{
    let state = walked(root.path, rules, events);
    let wanted = item_of(events[at]->Entry_given, events[at]->metadata);
    lemma_walked_keeps(root.path, rules, events, at);
    let k = choose|k: int| 0 <= k < state.items.len() && state.items[k] == wanted;
    let found = charged(state.items);
    lemma_by_path();
    assert(found.contains(found[k]));
    order::lemma_sorted_contains(found, found[k], by_path());
    let items = order::sorted(found, by_path());
    let i = choose|i: int| 0 <= i < items.len() && items[i] == found[k];
    let all = scanned(root, state, started, completed).items;
    assert(all[i] == summed(items, i, allocation_known(state.items)));
}

/// The bytes of some items together.
pub open spec fn bytes_together(items: Seq<ItemView>) -> nat
    decreases items.len(),
{
    if items.len() == 0 {
        0
    } else {
        bytes_together(items.drop_last()) + items.last().size_bytes as nat
    }
}

spec fn charged_together(items: Seq<ChargedView>) -> nat
    decreases items.len(),
{
    if items.len() == 0 {
        0
    } else {
        charged_together(items.drop_last()) + items.last().item.size_bytes as nat
    }
}

proof fn lemma_inserted_together(
    items: Seq<ChargedView>,
    value: ChargedView,
    le: spec_fn(ChargedView, ChargedView) -> bool,
)
    ensures
        charged_together(order::inserted(items, value, le)) == charged_together(items)
            + value.item.size_bytes,
    decreases items.len(),
{
    let all = order::inserted(items, value, le);
    if items.len() == 0 {
        assert(all.drop_last() =~= Seq::<ChargedView>::empty());
        assert(charged_together(Seq::<ChargedView>::empty()) == 0);
    } else if le(items.last(), value) {
        assert(all.drop_last() =~= items);
    } else {
        lemma_inserted_together(items.drop_last(), value, le);
        assert(all.drop_last() =~= order::inserted(items.drop_last(), value, le));
    }
}

proof fn lemma_sorted_together(
    items: Seq<ChargedView>,
    le: spec_fn(ChargedView, ChargedView) -> bool,
)
    ensures
        charged_together(order::sorted(items, le)) == charged_together(items),
    decreases items.len(),
{
    if items.len() > 0 {
        lemma_sorted_together(items.drop_last(), le);
        lemma_inserted_together(order::sorted(items.drop_last(), le), items.last(), le);
    }
}

proof fn lemma_charged_together(found: Seq<ChargedView>, items: Seq<ItemView>)
    requires
        found.len() == items.len(),
        forall|i: int| 0 <= i < items.len() ==> (#[trigger] found[i]).item == items[i],
    ensures
        charged_together(found) == bytes_together(items),
    decreases items.len(),
{
    if items.len() > 0 {
        lemma_charged_together(found.drop_last(), items.drop_last());
    }
}

proof fn lemma_all_below(items: Seq<ChargedView>, directory: Seq<PartView>, count: int)
    requires
        0 <= count <= items.len(),
        forall|i: int|
            0 <= i < items.len() ==> if (#[trigger] items[i]).item.kind == ItemKind::File {
                path::below(items[i].item.path, directory)
            } else {
                items[i].item.size_bytes == 0
            },
    ensures
        bytes_below(items, directory, count) == charged_together(items.take(count)),
    decreases count,
{
    if count > 0 {
        lemma_all_below(items, directory, count - 1);
        assert(items.take(count).drop_last() =~= items.take(count - 1));
        assert(items.take(count).last() == items[count - 1]);
    }
}

proof fn lemma_walked_counts(
    root: Seq<PartView>,
    rules: PolicyView,
    events: Seq<WalkEventView>,
    directory: Seq<PartView>,
)
    requires
        forall|k: int|
            0 <= k < events.len() && (#[trigger] events[k]) is Entry && events[k]->metadata.kind
                == ItemKind::File ==> path::below(events[k]->Entry_given.path, directory),
    ensures
        ({
            let state = walked(root, rules, events);
            &&& state.items_processed == saturated(state.items.len() + state.warnings.len())
            &&& state.bytes_processed == saturated(bytes_together(state.items))
            &&& forall|i: int|
                0 <= i < state.items.len() ==> if (#[trigger] state.items[i]).kind
                    == ItemKind::File {
                    path::below(state.items[i].path, directory)
                } else {
                    state.items[i].size_bytes == 0
                }
        }),
    decreases events.len(),
{
    if events.len() > 0 {
        let shorter = events.drop_last();
        assert forall|k: int|
            0 <= k < shorter.len() && (#[trigger] shorter[k]) is Entry && shorter[k]->metadata.kind
                == ItemKind::File implies path::below(shorter[k]->Entry_given.path, directory) by {
            assert(events[k] == shorter[k]);
        }
        lemma_walked_counts(root, rules, shorter, directory);
        let before = walked(root, rules, shorter);
        let after = walked(root, rules, events);
        assert(events[events.len() - 1] == events.last());
        if after.items.len() > before.items.len() {
            assert(after.items.drop_last() =~= before.items);
        }
        assert forall|i: int| 0 <= i < after.items.len() implies if (
        #[trigger] after.items[i]).kind == ItemKind::File {
            path::below(after.items[i].path, directory)
        } else {
            after.items[i].size_bytes == 0
        } by {
            if i < before.items.len() {
                assert(after.items[i] == before.items[i]);
            }
        }
    }
}

/// The last report of a walk below its root counts every item and every
/// warning of the scan, and tells its size.
pub proof fn law_the_last_report_tells_the_totals(
    walk: Walk,
    root: FilePath,
    ignored_rules: RuleSetView,
    rules: PolicyView,
)
    requires
        walk.root == WalkRoot::Directory(root),
        policy::compiled(root@, ignored_rules) == Ok::<PolicyView, RuleErrorView>(rules),
        forall|k: int|
            0 <= k < walk.events@.len() && (#[trigger] walk.events@[k])@ is Entry
                && walk.events@[k]@->metadata.kind == ItemKind::File ==> path::below(
                walk.events@[k]@->Entry_given.path,
                root@,
            ),
    ensures
        ({
            let scan = outcome(walk, ignored_rules)->Ok_0;
            let last = reports(walk, ignored_rules).last();
            &&& last.total_items == Some(saturated(scan.items.len() + scan.warnings.len()))
            &&& last.items_processed == saturated(scan.items.len() + scan.warnings.len())
            &&& last.total_bytes == Some(scan.total_size_bytes)
            &&& last.bytes_processed == scan.total_size_bytes
        }),
{
    let events = order::views(walk.events@);
    assert forall|k: int|
        0 <= k < events.len() && (#[trigger] events[k]) is Entry && events[k]->metadata.kind
            == ItemKind::File implies path::below(events[k]->Entry_given.path, root@) by {
        assert(events[k] == walk.events@[k]@);
    }
    let state = walked(root@, rules, events);
    lemma_walked_counts(root@, rules, events, root@);
    let found = charged(state.items);
    let items = order::sorted(found, by_path());
    lemma_by_path();
    lemma_charged_together(found, state.items);
    lemma_sorted_together(found, by_path());
    order::lemma_sorted_len(found, by_path());
    order::lemma_sorted_len(state.warnings, warning_order());
    assert forall|i: int| 0 <= i < items.len() implies if (#[trigger] items[i]).item.kind
        == ItemKind::File {
        path::below(items[i].item.path, root@)
    } else {
        items[i].item.size_bytes == 0
    } by {
        assert(items.contains(items[i]));
        order::lemma_sorted_contains(found, items[i], by_path());
        let k = choose|k: int| 0 <= k < found.len() && found[k] == items[i];
        assert(state.items[k] == items[i].item);
    }
    lemma_all_below(items, root@, items.len() as int);
    assert(items.take(items.len() as int) =~= items);
}

} // verus!
