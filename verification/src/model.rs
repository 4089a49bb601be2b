//! The data that scans and analyses produce.

use crate::order;
use crate::path;
use crate::path::{FilePath, GivenView, PartView};
use crate::single;
use vstd::prelude::*;

verus! {

/// The view of an optional value.
pub open spec fn optional<T: View>(value: Option<T>) -> Option<T::V> {
    match value {
        Some(inner) => Some(inner@),
        None => None,
    }
}

#[derive(Debug, Clone, Copy, PartialEq, Eq, Hash, PartialOrd, Ord, Structural)]
pub struct FileIdentity {
    /// Identifies the filesystem or volume containing the file.
    pub volume_id: u64,
    /// Identifies the physical file within that filesystem or volume.
    pub file_id: u64,
}

#[derive(Debug, Clone, Copy, PartialEq, Eq, Structural)]
pub enum ItemKind {
    File,
    Directory,
    Symlink,
    Other,
}

#[derive(Debug, PartialEq, Eq)]
pub struct ScannedItem {
    pub path: FilePath,
    pub kind: ItemKind,
    /// Logical file length, or the sum of descendant logical lengths for a directory.
    pub size_bytes: u64,
    /// Disk blocks used, when the platform exposes this information.
    pub allocated_size_bytes: Option<u64>,
    pub file_identity: Option<FileIdentity>,
    pub hard_link_count: Option<u64>,
    pub created_at_epoch_seconds: Option<u64>,
    pub modified_at_epoch_seconds: Option<u64>,
    pub modified_at_epoch_nanoseconds: Option<u64>,
    pub accessed_at_epoch_seconds: Option<u64>,
    pub extension: Option<String>,
}

#[verifier::ext_equal]
pub struct ItemView {
    pub path: Seq<PartView>,
    pub spelling: Seq<u8>,
    pub kind: ItemKind,
    pub size_bytes: u64,
    pub allocated_size_bytes: Option<u64>,
    pub file_identity: Option<FileIdentity>,
    pub hard_link_count: Option<u64>,
    pub created_at_epoch_seconds: Option<u64>,
    pub modified_at_epoch_seconds: Option<u64>,
    pub modified_at_epoch_nanoseconds: Option<u64>,
    pub accessed_at_epoch_seconds: Option<u64>,
    pub extension: Option<Seq<char>>,
}

impl ItemView {
    /// The path with its spelling.
    pub open spec fn given(self) -> GivenView {
        GivenView { path: self.path, spelling: self.spelling }
    }
}

impl View for ScannedItem {
    type V = ItemView;

    open spec fn view(&self) -> ItemView {
        ItemView {
            path: self.path@,
            spelling: self.path.spelling(),
            kind: self.kind,
            size_bytes: self.size_bytes,
            allocated_size_bytes: self.allocated_size_bytes,
            file_identity: self.file_identity,
            hard_link_count: self.hard_link_count,
            created_at_epoch_seconds: self.created_at_epoch_seconds,
            modified_at_epoch_seconds: self.modified_at_epoch_seconds,
            modified_at_epoch_nanoseconds: self.modified_at_epoch_nanoseconds,
            accessed_at_epoch_seconds: self.accessed_at_epoch_seconds,
            extension: optional(self.extension),
        }
    }
}

#[derive(Debug, PartialEq, Eq)]
pub struct ScanWarning {
    pub path: Option<FilePath>,
    pub message: String,
}

#[verifier::ext_equal]
pub struct ScanWarningView {
    pub path: Option<GivenView>,
    pub message: Seq<char>,
}

impl View for ScanWarning {
    type V = ScanWarningView;

    open spec fn view(&self) -> ScanWarningView {
        ScanWarningView { path: path::optional_given(self.path), message: self.message@ }
    }
}

#[derive(Debug, PartialEq, Eq)]
pub struct ScanResult {
    pub root: FilePath,
    pub started_at_epoch_seconds: u64,
    pub completed_at_epoch_seconds: u64,
    pub total_size_bytes: u64,
    pub total_allocated_size_bytes: Option<u64>,
    pub file_count: u64,
    pub directory_count: u64,
    pub items: Vec<ScannedItem>,
    /// Paths omitted from the scan because they matched an ignore rule.
    pub ignored_paths: Vec<FilePath>,
    pub warnings: Vec<ScanWarning>,
}

#[verifier::ext_equal]
pub struct ScanView {
    pub root: Seq<PartView>,
    pub root_spelling: Seq<u8>,
    pub started_at_epoch_seconds: u64,
    pub completed_at_epoch_seconds: u64,
    pub total_size_bytes: u64,
    pub total_allocated_size_bytes: Option<u64>,
    pub file_count: u64,
    pub directory_count: u64,
    pub items: Seq<ItemView>,
    pub ignored_paths: Seq<GivenView>,
    pub warnings: Seq<ScanWarningView>,
}

impl View for ScanResult {
    type V = ScanView;

    open spec fn view(&self) -> ScanView {
        ScanView {
            root: self.root@,
            root_spelling: self.root.spelling(),
            started_at_epoch_seconds: self.started_at_epoch_seconds,
            completed_at_epoch_seconds: self.completed_at_epoch_seconds,
            total_size_bytes: self.total_size_bytes,
            total_allocated_size_bytes: self.total_allocated_size_bytes,
            file_count: self.file_count,
            directory_count: self.directory_count,
            items: order::views(self.items@),
            ignored_paths: path::givens(self.ignored_paths@),
            warnings: order::views(self.warnings@),
        }
    }
}

#[derive(Debug, Clone, Copy, PartialEq, Eq, Structural)]
pub enum DuplicateWarningKind {
    MetadataUnavailable,
    Unreadable,
    ChangedDuringDetection,
    NotRegularFile,
}

#[derive(Debug, PartialEq, Eq)]
pub struct DuplicateWarning {
    pub path: FilePath,
    pub kind: DuplicateWarningKind,
    pub message: String,
}

#[verifier::ext_equal]
pub struct DuplicateWarningView {
    pub path: Seq<PartView>,
    pub spelling: Seq<u8>,
    pub kind: DuplicateWarningKind,
    pub message: Seq<char>,
}

impl View for DuplicateWarning {
    type V = DuplicateWarningView;

    open spec fn view(&self) -> DuplicateWarningView {
        DuplicateWarningView {
            path: self.path@,
            spelling: self.path.spelling(),
            kind: self.kind,
            message: self.message@,
        }
    }
}

#[derive(Debug, PartialEq, Eq)]
pub struct DuplicateEntry {
    pub path: FilePath,
    pub file_identity: Option<FileIdentity>,
    pub allocated_size_bytes: Option<u64>,
    pub hard_link_count: Option<u64>,
    /// Protected entries are evidence only and are never counted as recoverable.
    pub protected: bool,
}

#[verifier::ext_equal]
pub struct EntryView {
    pub path: Seq<PartView>,
    pub spelling: Seq<u8>,
    pub file_identity: Option<FileIdentity>,
    pub allocated_size_bytes: Option<u64>,
    pub hard_link_count: Option<u64>,
    pub protected: bool,
}

impl EntryView {
    /// The path with its spelling.
    pub open spec fn given(self) -> GivenView {
        GivenView { path: self.path, spelling: self.spelling }
    }
}

impl View for DuplicateEntry {
    type V = EntryView;

    open spec fn view(&self) -> EntryView {
        EntryView {
            path: self.path@,
            spelling: self.path.spelling(),
            file_identity: self.file_identity,
            allocated_size_bytes: self.allocated_size_bytes,
            hard_link_count: self.hard_link_count,
            protected: self.protected,
        }
    }
}

#[derive(Debug, PartialEq, Eq)]
pub struct DuplicateGroup {
    pub blake3_hash: String,
    pub size_bytes_per_file: u64,
    pub entries: Vec<DuplicateEntry>,
    /// Number of separately allocated files after hard-linked names are collapsed.
    pub unique_file_count: u64,
    /// Number of separately allocated copies covered by a protection rule.
    pub protected_file_count: u64,
    /// Logical bytes represented by all but one separately allocated copy.
    pub logical_duplicate_bytes: u64,
    /// Conservative allocated-space estimate that retains one physical copy.
    /// `None` means allocated size was unavailable for at least one physical copy.
    pub potential_recovery_allocated_bytes: Option<u64>,
}

#[verifier::ext_equal]
pub struct GroupView {
    pub blake3_hash: Seq<char>,
    pub size_bytes_per_file: u64,
    pub entries: Seq<EntryView>,
    pub unique_file_count: u64,
    pub protected_file_count: u64,
    pub logical_duplicate_bytes: u64,
    pub potential_recovery_allocated_bytes: Option<u64>,
}

impl View for DuplicateGroup {
    type V = GroupView;

    open spec fn view(&self) -> GroupView {
        GroupView {
            blake3_hash: self.blake3_hash@,
            size_bytes_per_file: self.size_bytes_per_file,
            entries: order::views(self.entries@),
            unique_file_count: self.unique_file_count,
            protected_file_count: self.protected_file_count,
            logical_duplicate_bytes: self.logical_duplicate_bytes,
            potential_recovery_allocated_bytes: self.potential_recovery_allocated_bytes,
        }
    }
}

#[derive(Debug, PartialEq, Eq)]
pub struct DuplicateReport {
    pub groups: Vec<DuplicateGroup>,
    pub warnings: Vec<DuplicateWarning>,
    pub files_hashed: u64,
    pub bytes_hashed: u64,
    pub logical_duplicate_bytes: u64,
    /// Total conservative allocated-space estimate, when every group has one.
    pub potential_recovery_allocated_bytes: Option<u64>,
}

#[verifier::ext_equal]
pub struct DuplicatesView {
    pub groups: Seq<GroupView>,
    pub warnings: Seq<DuplicateWarningView>,
    pub files_hashed: u64,
    pub bytes_hashed: u64,
    pub logical_duplicate_bytes: u64,
    pub potential_recovery_allocated_bytes: Option<u64>,
}

impl View for DuplicateReport {
    type V = DuplicatesView;

    open spec fn view(&self) -> DuplicatesView {
        DuplicatesView {
            groups: order::views(self.groups@),
            warnings: order::views(self.warnings@),
            files_hashed: self.files_hashed,
            bytes_hashed: self.bytes_hashed,
            logical_duplicate_bytes: self.logical_duplicate_bytes,
            potential_recovery_allocated_bytes: self.potential_recovery_allocated_bytes,
        }
    }
}

#[derive(Debug, Clone, Copy, PartialEq, Eq, Structural)]
pub enum FindingCategory {
    LargeItem,
    OldArchive,
    OldInstaller,
    NodeModules,
    RustBuildArtifacts,
    GradleCache,
    AndroidEmulator,
    VirtualMachine,
    IsoImage,
    OperatingSystemCache,
    GeneratedDirectory,
    CacheDirectory,
}

#[derive(Debug, Clone, Copy, PartialEq, Eq, Structural)]
pub enum RiskLevel {
    Low,
    Medium,
    High,
}

#[derive(Debug, Clone, Copy, PartialEq, Eq, Structural)]
pub enum SuggestedAction {
    ReviewForDeletion,
    ReviewForArchive,
}

/// Degrees of certainty, as the bits of single-precision numbers, named by their
/// hundredths.
pub const CERTAINTY_100: u32 = 0x3F80_0000;

pub const CERTAINTY_99: u32 = 0x3F7D_70A4;

pub const CERTAINTY_96: u32 = 0x3F75_C28F;

pub const CERTAINTY_95: u32 = 0x3F73_3333;

pub const CERTAINTY_90: u32 = 0x3F66_6666;

pub const CERTAINTY_88: u32 = 0x3F61_47AE;

pub const CERTAINTY_82: u32 = 0x3F51_EB85;

pub const CERTAINTY_78: u32 = 0x3F47_AE14;

/// A degree of certainty, as the bits of a single-precision number: zero is none
/// and one is full.
#[derive(Debug, Clone, Copy, PartialEq, Eq, Structural)]
pub struct Confidence {
    pub bits: u32,
}

impl Confidence {
    /// The bits of the degree, at least none and at most full. What is no number
    /// counts as none.
    pub open spec fn bounded(self) -> u32 {
        if self.bits >= single::SIGN || single::is_nan(self.bits) {
            0
        } else if self.bits > CERTAINTY_100 {
            CERTAINTY_100
        } else {
            self.bits
        }
    }

    /// Whether the degree lies between none and full.
    pub open spec fn is_share(self) -> bool {
        self.bits <= CERTAINTY_100 || self.bits == single::SIGN
    }

    /// The degree in whole percent, halves rounded to the even one.
    pub open spec fn spec_percent(self) -> Seq<char> {
        single::percent_digits(self.bits)
    }

    /// The bounded degree in whole percent, halves rounded up.
    pub open spec fn spec_rounded_percent(self) -> nat {
        single::upper_percent(self.bounded())
    }

    pub fn is_between_none_and_full(self) -> (result: bool)
        ensures
            result == self.is_share(),
    {
        self.bits <= CERTAINTY_100 || self.bits == single::SIGN
    }

    pub fn rounded_percent(self) -> (result: u8)
        ensures
            result == self.spec_rounded_percent(),
    {
        let bits: u32 = if self.bits > single::INFINITE {
            0
        } else if self.bits > CERTAINTY_100 {
            CERTAINTY_100
        } else {
            self.bits
        };
        single::percent_rounded_up(bits)
    }

    pub fn percent(self) -> (result: String)
        ensures
            result@ == self.spec_percent(),
    {
        single::write_percent(self.bits)
    }
}

#[derive(Debug, PartialEq, Eq)]
pub struct Finding {
    pub category: FindingCategory,
    pub path: FilePath,
    pub potential_recovery_bytes: u64,
    pub confidence: Confidence,
    pub risk: RiskLevel,
    pub evidence: Vec<String>,
    pub suggested_action: SuggestedAction,
}

#[verifier::ext_equal]
pub struct FindingView {
    pub category: FindingCategory,
    pub path: Seq<PartView>,
    pub spelling: Seq<u8>,
    pub potential_recovery_bytes: u64,
    pub confidence: Confidence,
    pub risk: RiskLevel,
    pub evidence: Seq<Seq<char>>,
    pub suggested_action: SuggestedAction,
}

impl View for Finding {
    type V = FindingView;

    open spec fn view(&self) -> FindingView {
        FindingView {
            category: self.category,
            path: self.path@,
            spelling: self.path.spelling(),
            potential_recovery_bytes: self.potential_recovery_bytes,
            confidence: self.confidence,
            risk: self.risk,
            evidence: order::views(self.evidence@),
            suggested_action: self.suggested_action,
        }
    }
}

#[derive(Debug, Clone, Copy, PartialEq, Eq, Hash, PartialOrd, Ord, Structural)]
pub enum RelationshipKind {
    ArchiveExtractedDirectory,
    InstallerApplicationDirectory,
    BuildDirectoryProject,
    VirtualMachineComponent,
    AndroidEmulatorConfiguration,
    ExactDuplicate,
}

/// A deterministic connection between two scanned items.
///
/// Relationships are evidence for explanations. They never authorize deletion.
#[derive(Debug, PartialEq, Eq)]
pub struct Relationship {
    pub kind: RelationshipKind,
    pub source_path: FilePath,
    pub target_path: FilePath,
    pub confidence: Confidence,
    pub evidence: Vec<String>,
}

#[verifier::ext_equal]
pub struct RelationshipView {
    pub kind: RelationshipKind,
    pub source_path: Seq<PartView>,
    pub source_spelling: Seq<u8>,
    pub target_path: Seq<PartView>,
    pub target_spelling: Seq<u8>,
    pub confidence: Confidence,
    pub evidence: Seq<Seq<char>>,
}

impl View for Relationship {
    type V = RelationshipView;

    open spec fn view(&self) -> RelationshipView {
        RelationshipView {
            kind: self.kind,
            source_path: self.source_path@,
            source_spelling: self.source_path.spelling(),
            target_path: self.target_path@,
            target_spelling: self.target_path.spelling(),
            confidence: self.confidence,
            evidence: order::views(self.evidence@),
        }
    }
}

#[derive(Debug, PartialEq, Eq)]
pub struct RelationshipReport {
    pub relationships: Vec<Relationship>,
    pub items_analyzed: u64,
}

#[verifier::ext_equal]
pub struct RelationshipsView {
    pub relationships: Seq<RelationshipView>,
    pub items_analyzed: u64,
}

impl View for RelationshipReport {
    type V = RelationshipsView;

    open spec fn view(&self) -> RelationshipsView {
        RelationshipsView {
            relationships: order::views(self.relationships@),
            items_analyzed: self.items_analyzed,
        }
    }
}

#[derive(Debug, Clone, Copy, PartialEq, Eq, Structural)]
pub enum AiCategory {
    ReplaceableInstaller,
    ArchiveWithExtractedCopy,
    CacheOrGenerated,
    DuplicateCopy,
    UserDataOrState,
    Unknown,
}

#[derive(Debug, Clone, Copy, PartialEq, Eq, Structural)]
pub enum AiSuggestedAction {
    ReviewForDeletion,
    ReviewForArchive,
    KeepOrReview,
}

/// A local model's explanation of one candidate. It is context for a review
/// and never permission to delete.
#[derive(Debug, PartialEq, Eq)]
pub struct AiExplanation {
    pub path: FilePath,
    pub category: AiCategory,
    pub risk: RiskLevel,
    pub confidence: Confidence,
    pub reason: String,
    pub suggested_action: AiSuggestedAction,
}

#[verifier::ext_equal]
pub struct ExplanationView {
    pub path: Seq<PartView>,
    pub spelling: Seq<u8>,
    pub category: AiCategory,
    pub risk: RiskLevel,
    pub confidence: Confidence,
    pub reason: Seq<char>,
    pub suggested_action: AiSuggestedAction,
}

impl View for AiExplanation {
    type V = ExplanationView;

    open spec fn view(&self) -> ExplanationView {
        ExplanationView {
            path: self.path@,
            spelling: self.path.spelling(),
            category: self.category,
            risk: self.risk,
            confidence: self.confidence,
            reason: self.reason@,
            suggested_action: self.suggested_action,
        }
    }
}

#[derive(Debug, PartialEq, Eq)]
pub enum AiStatus {
    Disabled,
    NoCandidates,
    Unavailable { reason: String },
    Complete { model: String },
    Partial { model: String },
}

#[verifier::ext_equal]
pub enum AiStatusView {
    Disabled,
    NoCandidates,
    Unavailable { reason: Seq<char> },
    Complete { model: Seq<char> },
    Partial { model: Seq<char> },
}

impl View for AiStatus {
    type V = AiStatusView;

    open spec fn view(&self) -> AiStatusView {
        match self {
            AiStatus::Disabled => AiStatusView::Disabled,
            AiStatus::NoCandidates => AiStatusView::NoCandidates,
            AiStatus::Unavailable { reason } => AiStatusView::Unavailable { reason: reason@ },
            AiStatus::Complete { model } => AiStatusView::Complete { model: model@ },
            AiStatus::Partial { model } => AiStatusView::Partial { model: model@ },
        }
    }
}

#[derive(Debug, PartialEq, Eq)]
pub struct AiReport {
    pub status: AiStatus,
    pub candidates_considered: u64,
    pub explanations: Vec<AiExplanation>,
    pub warnings: Vec<String>,
}

#[verifier::ext_equal]
pub struct AiReportView {
    pub status: AiStatusView,
    pub candidates_considered: u64,
    pub explanations: Seq<ExplanationView>,
    pub warnings: Seq<Seq<char>>,
}

impl View for AiReport {
    type V = AiReportView;

    open spec fn view(&self) -> AiReportView {
        AiReportView {
            status: self.status@,
            candidates_considered: self.candidates_considered,
            explanations: order::views(self.explanations@),
            warnings: order::views(self.warnings@),
        }
    }
}

impl AiReport {
    /// The report of an analysis that was switched off.
    pub fn disabled() -> (result: Self)
        ensures
            result@ == (AiReportView {
                status: AiStatusView::Disabled,
                candidates_considered: 0,
                explanations: Seq::empty(),
                warnings: Seq::empty(),
            }),
    {
        AiReport {
            status: AiStatus::Disabled,
            candidates_considered: 0,
            explanations: Vec::new(),
            warnings: Vec::new(),
        }
    }
}

/// A copy of an optional path.
pub fn copy_optional_path(path: &Option<FilePath>) -> (result: Option<FilePath>)
    ensures
        path::optional_given(result) == path::optional_given(*path),
{
    match path {
        Some(inner) => Some(inner.clone()),
        None => None,
    }
}

} // verus!
