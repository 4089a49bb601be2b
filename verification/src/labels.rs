//! What things are called on screens and in reports.

use crate::canvas::Theme;
use crate::model::{AiSuggestedAction, FindingCategory, RelationshipKind, RiskLevel, SuggestedAction};
use vstd::prelude::*;

verus! {

/// What a kind of relationship is called.
pub open spec fn kind_label(value: RelationshipKind) -> Seq<char> {
    match value {
        RelationshipKind::ArchiveExtractedDirectory => "Archive and extracted folder"@,
        RelationshipKind::InstallerApplicationDirectory => "Installer and application folder"@,
        RelationshipKind::BuildDirectoryProject => "Build output and source project"@,
        RelationshipKind::VirtualMachineComponent => "Virtual-machine components"@,
        RelationshipKind::AndroidEmulatorConfiguration => "Android emulator configuration"@,
        RelationshipKind::ExactDuplicate => "Exact duplicate files"@,
    }
}

pub fn relationship_kind_label(value: RelationshipKind) -> (result: &'static str)
    ensures
        result@ == kind_label(value),
{
    match value {
        RelationshipKind::ArchiveExtractedDirectory => "Archive and extracted folder",
        RelationshipKind::InstallerApplicationDirectory => "Installer and application folder",
        RelationshipKind::BuildDirectoryProject => "Build output and source project",
        RelationshipKind::VirtualMachineComponent => "Virtual-machine components",
        RelationshipKind::AndroidEmulatorConfiguration => "Android emulator configuration",
        RelationshipKind::ExactDuplicate => "Exact duplicate files",
    }
}

/// What a category of findings is called.
pub open spec fn label_of_category(value: FindingCategory) -> Seq<char> {
    match value {
        FindingCategory::LargeItem => "Large item"@,
        FindingCategory::OldArchive => "Old archive"@,
        FindingCategory::OldInstaller => "Old installer"@,
        FindingCategory::NodeModules => "Node.js dependencies"@,
        FindingCategory::RustBuildArtifacts => "Rust build artifacts"@,
        FindingCategory::GradleCache => "Gradle cache"@,
        FindingCategory::AndroidEmulator => "Android emulator"@,
        FindingCategory::VirtualMachine => "Virtual machine"@,
        FindingCategory::IsoImage => "Old ISO image"@,
        FindingCategory::OperatingSystemCache => "Operating-system cache"@,
        FindingCategory::GeneratedDirectory => "Generated build folder"@,
        FindingCategory::CacheDirectory => "Cache folder"@,
    }
}

pub fn category_label(value: FindingCategory) -> (result: &'static str)
    ensures
        result@ == label_of_category(value),
{
    match value {
        FindingCategory::LargeItem => "Large item",
        FindingCategory::OldArchive => "Old archive",
        FindingCategory::OldInstaller => "Old installer",
        FindingCategory::NodeModules => "Node.js dependencies",
        FindingCategory::RustBuildArtifacts => "Rust build artifacts",
        FindingCategory::GradleCache => "Gradle cache",
        FindingCategory::AndroidEmulator => "Android emulator",
        FindingCategory::VirtualMachine => "Virtual machine",
        FindingCategory::IsoImage => "Old ISO image",
        FindingCategory::OperatingSystemCache => "Operating-system cache",
        FindingCategory::GeneratedDirectory => "Generated build folder",
        FindingCategory::CacheDirectory => "Cache folder",
    }
}

/// What a risk is called.
pub open spec fn label_of_risk(value: RiskLevel) -> Seq<char> {
    match value {
        RiskLevel::Low => "Low"@,
        RiskLevel::Medium => "Medium"@,
        RiskLevel::High => "High"@,
    }
}

pub fn risk_label(value: RiskLevel) -> (result: &'static str)
    ensures
        result@ == label_of_risk(value),
{
    match value {
        RiskLevel::Low => "Low",
        RiskLevel::Medium => "Medium",
        RiskLevel::High => "High",
    }
}

/// What an action is called.
pub open spec fn label_of_action(value: SuggestedAction) -> Seq<char> {
    match value {
        SuggestedAction::ReviewForDeletion => "Review before deleting"@,
        SuggestedAction::ReviewForArchive => "Review for archiving"@,
    }
}

pub fn action_label(value: SuggestedAction) -> (result: &'static str)
    ensures
        result@ == label_of_action(value),
{
    match value {
        SuggestedAction::ReviewForDeletion => "Review before deleting",
        SuggestedAction::ReviewForArchive => "Review for archiving",
    }
}

/// What an action that a model suggests is called.
pub open spec fn label_of_ai_action(value: AiSuggestedAction) -> Seq<char> {
    match value {
        AiSuggestedAction::ReviewForDeletion => "review for deletion"@,
        AiSuggestedAction::ReviewForArchive => "review for archive"@,
        AiSuggestedAction::KeepOrReview => "keep or inspect manually"@,
    }
}

pub fn ai_action_label(value: AiSuggestedAction) -> (result: &'static str)
    ensures
        result@ == label_of_ai_action(value),
{
    match value {
        AiSuggestedAction::ReviewForDeletion => "review for deletion",
        AiSuggestedAction::ReviewForArchive => "review for archive",
        AiSuggestedAction::KeepOrReview => "keep or inspect manually",
    }
}

/// What is advised for a finding.
pub open spec fn guidance(risk: RiskLevel, action: SuggestedAction) -> Seq<char> {
    match (risk, action) {
        (RiskLevel::Low, SuggestedAction::ReviewForDeletion) =>
        "Good cleanup candidate; verify it before deleting"@,
        (RiskLevel::Low, SuggestedAction::ReviewForArchive) =>
        "Low detected risk; consider archiving it first"@,
        (RiskLevel::Medium, _) => "Inspect its project or application context first"@,
        (RiskLevel::High, _) => "Do not delete until you understand and back up this item"@,
    }
}

pub fn recommendation_guidance(risk: RiskLevel, action: SuggestedAction) -> (result: &'static str)
    ensures
        result@ == guidance(risk, action),
{
    match (risk, action) {
        (RiskLevel::Low, SuggestedAction::ReviewForDeletion) =>
        "Good cleanup candidate; verify it before deleting",
        (RiskLevel::Low, SuggestedAction::ReviewForArchive) =>
        "Low detected risk; consider archiving it first",
        (RiskLevel::Medium, _) => "Inspect its project or application context first",
        (RiskLevel::High, _) => "Do not delete until you understand and back up this item",
    }
}

/// The tone in which a value is told.
#[derive(Debug, Clone, Copy, PartialEq, Eq, Structural)]
pub enum RecordTone {
    Text,
    Accent,
    Positive,
    Warning,
    Danger,
}

pub open spec fn tone_of_risk(risk: RiskLevel) -> RecordTone {
    match risk {
        RiskLevel::Low => RecordTone::Positive,
        RiskLevel::Medium => RecordTone::Warning,
        RiskLevel::High => RecordTone::Danger,
    }
}

pub fn risk_tone(risk: RiskLevel) -> (result: RecordTone)
    ensures
        result == tone_of_risk(risk),
{
    match risk {
        RiskLevel::Low => RecordTone::Positive,
        RiskLevel::Medium => RecordTone::Warning,
        RiskLevel::High => RecordTone::Danger,
    }
}

impl Theme {
    /// A text in a tone.
    pub open spec fn as_tone(self, text: Seq<char>, tone: RecordTone) -> Seq<char> {
        match tone {
            RecordTone::Text => self.as_text(text),
            RecordTone::Accent => self.as_accent(text),
            RecordTone::Positive => self.as_green(text),
            RecordTone::Warning => self.as_yellow(text),
            RecordTone::Danger => self.as_red(text),
        }
    }

    pub fn tone(self, text: &str, tone: RecordTone) -> (result: String)
        ensures
            result@ == self.as_tone(text@, tone),
    {
        match tone {
            RecordTone::Text => self.text(text),
            RecordTone::Accent => self.accent(text),
            RecordTone::Positive => self.green(text),
            RecordTone::Warning => self.yellow(text),
            RecordTone::Danger => self.red(text),
        }
    }
}

} // verus!
