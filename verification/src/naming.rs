//! The names under which values of a few kinds are stored.

use crate::model::{
    AiCategory, AiSuggestedAction, DuplicateWarningKind, FindingCategory, ItemKind,
    RelationshipKind, RiskLevel, SuggestedAction,
};
use crate::order;
use crate::text;
use vstd::prelude::*;

verus! {

/// A value that is stored under a name of its own.
pub trait Named: Sized {
    /// The name of a value.
    spec fn spec_name(self) -> Seq<char>;

    /// The value of a name, where there is one.
    spec fn named(text: Seq<char>) -> Option<Self>;

    /// A name stands for the value that it is the name of.
    proof fn law_names_read_back(self)
        ensures
            Self::named(self.spec_name()) == Some(self),
    ;

    /// All names, in the order in which their values are declared.
    spec fn names() -> Seq<Seq<char>>;

    fn name(self) -> (result: &'static str)
        ensures
            result@ == self.spec_name(),
    ;

    fn all_names() -> (result: Vec<&'static str>)
        ensures
            order::views(result@) == Self::names(),
    ;

    fn from_name(text: &str) -> (result: Option<Self>)
        ensures
            result == Self::named(text@),
    ;
}

impl Named for ItemKind {
    open spec fn spec_name(self) -> Seq<char> {
        match self {
            ItemKind::File => "file"@,
            ItemKind::Directory => "directory"@,
            ItemKind::Symlink => "symlink"@,
            ItemKind::Other => "other"@,
        }
    }

    open spec fn names() -> Seq<Seq<char>> {
        seq![
            "file"@,
            "directory"@,
            "symlink"@,
            "other"@,
        ]
    }

    fn all_names() -> (result: Vec<&'static str>) {
        let names: Vec<&'static str> = vec![
            "file",
            "directory",
            "symlink",
            "other",
        ];
        assert(order::views(names@) =~= Self::names());
        names
    }

    open spec fn named(text: Seq<char>) -> Option<Self> {
        if text == "file"@ {
            Some(ItemKind::File)
        } else if text == "directory"@ {
            Some(ItemKind::Directory)
        } else if text == "symlink"@ {
            Some(ItemKind::Symlink)
        } else if text == "other"@ {
            Some(ItemKind::Other)
        } else {
            None
        }
    }

    proof fn law_names_read_back(self) {
        reveal_strlit("file");
        reveal_strlit("directory");
        reveal_strlit("symlink");
        reveal_strlit("other");
        assert("directory"@.len() != "file"@.len());
        assert("symlink"@.len() != "file"@.len());
        assert("symlink"@.len() != "directory"@.len());
        assert("other"@.len() != "file"@.len());
        assert("other"@.len() != "directory"@.len());
        assert("other"@.len() != "symlink"@.len());
    }

    fn name(self) -> (result: &'static str) {
        match self {
            ItemKind::File => "file",
            ItemKind::Directory => "directory",
            ItemKind::Symlink => "symlink",
            ItemKind::Other => "other",
        }
    }

    fn from_name(text: &str) -> (result: Option<Self>) {
        if text::same_text(text, "file") {
            Some(ItemKind::File)
        } else if text::same_text(text, "directory") {
            Some(ItemKind::Directory)
        } else if text::same_text(text, "symlink") {
            Some(ItemKind::Symlink)
        } else if text::same_text(text, "other") {
            Some(ItemKind::Other)
        } else {
            None
        }
    }
}

impl Named for DuplicateWarningKind {
    open spec fn spec_name(self) -> Seq<char> {
        match self {
            DuplicateWarningKind::MetadataUnavailable => "metadata_unavailable"@,
            DuplicateWarningKind::Unreadable => "unreadable"@,
            DuplicateWarningKind::ChangedDuringDetection => "changed_during_detection"@,
            DuplicateWarningKind::NotRegularFile => "not_regular_file"@,
        }
    }

    open spec fn names() -> Seq<Seq<char>> {
        seq![
            "metadata_unavailable"@,
            "unreadable"@,
            "changed_during_detection"@,
            "not_regular_file"@,
        ]
    }

    fn all_names() -> (result: Vec<&'static str>) {
        let names: Vec<&'static str> = vec![
            "metadata_unavailable",
            "unreadable",
            "changed_during_detection",
            "not_regular_file",
        ];
        assert(order::views(names@) =~= Self::names());
        names
    }

    open spec fn named(text: Seq<char>) -> Option<Self> {
        if text == "metadata_unavailable"@ {
            Some(DuplicateWarningKind::MetadataUnavailable)
        } else if text == "unreadable"@ {
            Some(DuplicateWarningKind::Unreadable)
        } else if text == "changed_during_detection"@ {
            Some(DuplicateWarningKind::ChangedDuringDetection)
        } else if text == "not_regular_file"@ {
            Some(DuplicateWarningKind::NotRegularFile)
        } else {
            None
        }
    }

    proof fn law_names_read_back(self) {
        reveal_strlit("metadata_unavailable");
        reveal_strlit("unreadable");
        reveal_strlit("changed_during_detection");
        reveal_strlit("not_regular_file");
        assert("unreadable"@.len() != "metadata_unavailable"@.len());
        assert("changed_during_detection"@.len() != "metadata_unavailable"@.len());
        assert("changed_during_detection"@.len() != "unreadable"@.len());
        assert("not_regular_file"@.len() != "metadata_unavailable"@.len());
        assert("not_regular_file"@.len() != "unreadable"@.len());
        assert("not_regular_file"@.len() != "changed_during_detection"@.len());
    }

    fn name(self) -> (result: &'static str) {
        match self {
            DuplicateWarningKind::MetadataUnavailable => "metadata_unavailable",
            DuplicateWarningKind::Unreadable => "unreadable",
            DuplicateWarningKind::ChangedDuringDetection => "changed_during_detection",
            DuplicateWarningKind::NotRegularFile => "not_regular_file",
        }
    }

    fn from_name(text: &str) -> (result: Option<Self>) {
        if text::same_text(text, "metadata_unavailable") {
            Some(DuplicateWarningKind::MetadataUnavailable)
        } else if text::same_text(text, "unreadable") {
            Some(DuplicateWarningKind::Unreadable)
        } else if text::same_text(text, "changed_during_detection") {
            Some(DuplicateWarningKind::ChangedDuringDetection)
        } else if text::same_text(text, "not_regular_file") {
            Some(DuplicateWarningKind::NotRegularFile)
        } else {
            None
        }
    }
}

impl Named for FindingCategory {
    open spec fn spec_name(self) -> Seq<char> {
        match self {
            FindingCategory::LargeItem => "large_item"@,
            FindingCategory::OldArchive => "old_archive"@,
            FindingCategory::OldInstaller => "old_installer"@,
            FindingCategory::NodeModules => "node_modules"@,
            FindingCategory::RustBuildArtifacts => "rust_build_artifacts"@,
            FindingCategory::GradleCache => "gradle_cache"@,
            FindingCategory::AndroidEmulator => "android_emulator"@,
            FindingCategory::VirtualMachine => "virtual_machine"@,
            FindingCategory::IsoImage => "iso_image"@,
            FindingCategory::OperatingSystemCache => "operating_system_cache"@,
            FindingCategory::GeneratedDirectory => "generated_directory"@,
            FindingCategory::CacheDirectory => "cache_directory"@,
        }
    }

    open spec fn names() -> Seq<Seq<char>> {
        seq![
            "large_item"@,
            "old_archive"@,
            "old_installer"@,
            "node_modules"@,
            "rust_build_artifacts"@,
            "gradle_cache"@,
            "android_emulator"@,
            "virtual_machine"@,
            "iso_image"@,
            "operating_system_cache"@,
            "generated_directory"@,
            "cache_directory"@,
        ]
    }

    fn all_names() -> (result: Vec<&'static str>) {
        let names: Vec<&'static str> = vec![
            "large_item",
            "old_archive",
            "old_installer",
            "node_modules",
            "rust_build_artifacts",
            "gradle_cache",
            "android_emulator",
            "virtual_machine",
            "iso_image",
            "operating_system_cache",
            "generated_directory",
            "cache_directory",
        ];
        assert(order::views(names@) =~= Self::names());
        names
    }

    open spec fn named(text: Seq<char>) -> Option<Self> {
        if text == "large_item"@ {
            Some(FindingCategory::LargeItem)
        } else if text == "old_archive"@ {
            Some(FindingCategory::OldArchive)
        } else if text == "old_installer"@ {
            Some(FindingCategory::OldInstaller)
        } else if text == "node_modules"@ {
            Some(FindingCategory::NodeModules)
        } else if text == "rust_build_artifacts"@ {
            Some(FindingCategory::RustBuildArtifacts)
        } else if text == "gradle_cache"@ {
            Some(FindingCategory::GradleCache)
        } else if text == "android_emulator"@ {
            Some(FindingCategory::AndroidEmulator)
        } else if text == "virtual_machine"@ {
            Some(FindingCategory::VirtualMachine)
        } else if text == "iso_image"@ {
            Some(FindingCategory::IsoImage)
        } else if text == "operating_system_cache"@ {
            Some(FindingCategory::OperatingSystemCache)
        } else if text == "generated_directory"@ {
            Some(FindingCategory::GeneratedDirectory)
        } else if text == "cache_directory"@ {
            Some(FindingCategory::CacheDirectory)
        } else {
            None
        }
    }

    proof fn law_names_read_back(self) {
        reveal_strlit("large_item");
        reveal_strlit("old_archive");
        reveal_strlit("old_installer");
        reveal_strlit("node_modules");
        reveal_strlit("rust_build_artifacts");
        reveal_strlit("gradle_cache");
        reveal_strlit("android_emulator");
        reveal_strlit("virtual_machine");
        reveal_strlit("iso_image");
        reveal_strlit("operating_system_cache");
        reveal_strlit("generated_directory");
        reveal_strlit("cache_directory");
        assert("old_archive"@.len() != "large_item"@.len());
        assert("old_installer"@.len() != "large_item"@.len());
        assert("old_installer"@.len() != "old_archive"@.len());
        assert("node_modules"@.len() != "large_item"@.len());
        assert("node_modules"@.len() != "old_archive"@.len());
        assert("node_modules"@.len() != "old_installer"@.len());
        assert("rust_build_artifacts"@.len() != "large_item"@.len());
        assert("rust_build_artifacts"@.len() != "old_archive"@.len());
        assert("rust_build_artifacts"@.len() != "old_installer"@.len());
        assert("rust_build_artifacts"@.len() != "node_modules"@.len());
        assert("gradle_cache"@.len() != "large_item"@.len());
        assert("gradle_cache"@.len() != "old_archive"@.len());
        assert("gradle_cache"@.len() != "old_installer"@.len());
        assert("gradle_cache"@[0] != "node_modules"@[0]);
        assert("gradle_cache"@.len() != "rust_build_artifacts"@.len());
        assert("android_emulator"@.len() != "large_item"@.len());
        assert("android_emulator"@.len() != "old_archive"@.len());
        assert("android_emulator"@.len() != "old_installer"@.len());
        assert("android_emulator"@.len() != "node_modules"@.len());
        assert("android_emulator"@.len() != "rust_build_artifacts"@.len());
        assert("android_emulator"@.len() != "gradle_cache"@.len());
        assert("virtual_machine"@.len() != "large_item"@.len());
        assert("virtual_machine"@.len() != "old_archive"@.len());
        assert("virtual_machine"@.len() != "old_installer"@.len());
        assert("virtual_machine"@.len() != "node_modules"@.len());
        assert("virtual_machine"@.len() != "rust_build_artifacts"@.len());
        assert("virtual_machine"@.len() != "gradle_cache"@.len());
        assert("virtual_machine"@.len() != "android_emulator"@.len());
        assert("iso_image"@.len() != "large_item"@.len());
        assert("iso_image"@.len() != "old_archive"@.len());
        assert("iso_image"@.len() != "old_installer"@.len());
        assert("iso_image"@.len() != "node_modules"@.len());
        assert("iso_image"@.len() != "rust_build_artifacts"@.len());
        assert("iso_image"@.len() != "gradle_cache"@.len());
        assert("iso_image"@.len() != "android_emulator"@.len());
        assert("iso_image"@.len() != "virtual_machine"@.len());
        assert("operating_system_cache"@.len() != "large_item"@.len());
        assert("operating_system_cache"@.len() != "old_archive"@.len());
        assert("operating_system_cache"@.len() != "old_installer"@.len());
        assert("operating_system_cache"@.len() != "node_modules"@.len());
        assert("operating_system_cache"@.len() != "rust_build_artifacts"@.len());
        assert("operating_system_cache"@.len() != "gradle_cache"@.len());
        assert("operating_system_cache"@.len() != "android_emulator"@.len());
        assert("operating_system_cache"@.len() != "virtual_machine"@.len());
        assert("operating_system_cache"@.len() != "iso_image"@.len());
        assert("generated_directory"@.len() != "large_item"@.len());
        assert("generated_directory"@.len() != "old_archive"@.len());
        assert("generated_directory"@.len() != "old_installer"@.len());
        assert("generated_directory"@.len() != "node_modules"@.len());
        assert("generated_directory"@.len() != "rust_build_artifacts"@.len());
        assert("generated_directory"@.len() != "gradle_cache"@.len());
        assert("generated_directory"@.len() != "android_emulator"@.len());
        assert("generated_directory"@.len() != "virtual_machine"@.len());
        assert("generated_directory"@.len() != "iso_image"@.len());
        assert("generated_directory"@.len() != "operating_system_cache"@.len());
        assert("cache_directory"@.len() != "large_item"@.len());
        assert("cache_directory"@.len() != "old_archive"@.len());
        assert("cache_directory"@.len() != "old_installer"@.len());
        assert("cache_directory"@.len() != "node_modules"@.len());
        assert("cache_directory"@.len() != "rust_build_artifacts"@.len());
        assert("cache_directory"@.len() != "gradle_cache"@.len());
        assert("cache_directory"@.len() != "android_emulator"@.len());
        assert("cache_directory"@[0] != "virtual_machine"@[0]);
        assert("cache_directory"@.len() != "iso_image"@.len());
        assert("cache_directory"@.len() != "operating_system_cache"@.len());
        assert("cache_directory"@.len() != "generated_directory"@.len());
    }

    fn name(self) -> (result: &'static str) {
        match self {
            FindingCategory::LargeItem => "large_item",
            FindingCategory::OldArchive => "old_archive",
            FindingCategory::OldInstaller => "old_installer",
            FindingCategory::NodeModules => "node_modules",
            FindingCategory::RustBuildArtifacts => "rust_build_artifacts",
            FindingCategory::GradleCache => "gradle_cache",
            FindingCategory::AndroidEmulator => "android_emulator",
            FindingCategory::VirtualMachine => "virtual_machine",
            FindingCategory::IsoImage => "iso_image",
            FindingCategory::OperatingSystemCache => "operating_system_cache",
            FindingCategory::GeneratedDirectory => "generated_directory",
            FindingCategory::CacheDirectory => "cache_directory",
        }
    }

    fn from_name(text: &str) -> (result: Option<Self>) {
        if text::same_text(text, "large_item") {
            Some(FindingCategory::LargeItem)
        } else if text::same_text(text, "old_archive") {
            Some(FindingCategory::OldArchive)
        } else if text::same_text(text, "old_installer") {
            Some(FindingCategory::OldInstaller)
        } else if text::same_text(text, "node_modules") {
            Some(FindingCategory::NodeModules)
        } else if text::same_text(text, "rust_build_artifacts") {
            Some(FindingCategory::RustBuildArtifacts)
        } else if text::same_text(text, "gradle_cache") {
            Some(FindingCategory::GradleCache)
        } else if text::same_text(text, "android_emulator") {
            Some(FindingCategory::AndroidEmulator)
        } else if text::same_text(text, "virtual_machine") {
            Some(FindingCategory::VirtualMachine)
        } else if text::same_text(text, "iso_image") {
            Some(FindingCategory::IsoImage)
        } else if text::same_text(text, "operating_system_cache") {
            Some(FindingCategory::OperatingSystemCache)
        } else if text::same_text(text, "generated_directory") {
            Some(FindingCategory::GeneratedDirectory)
        } else if text::same_text(text, "cache_directory") {
            Some(FindingCategory::CacheDirectory)
        } else {
            None
        }
    }
}

impl Named for RiskLevel {
    open spec fn spec_name(self) -> Seq<char> {
        match self {
            RiskLevel::Low => "low"@,
            RiskLevel::Medium => "medium"@,
            RiskLevel::High => "high"@,
        }
    }

    open spec fn names() -> Seq<Seq<char>> {
        seq![
            "low"@,
            "medium"@,
            "high"@,
        ]
    }

    fn all_names() -> (result: Vec<&'static str>) {
        let names: Vec<&'static str> = vec![
            "low",
            "medium",
            "high",
        ];
        assert(order::views(names@) =~= Self::names());
        names
    }

    open spec fn named(text: Seq<char>) -> Option<Self> {
        if text == "low"@ {
            Some(RiskLevel::Low)
        } else if text == "medium"@ {
            Some(RiskLevel::Medium)
        } else if text == "high"@ {
            Some(RiskLevel::High)
        } else {
            None
        }
    }

    proof fn law_names_read_back(self) {
        reveal_strlit("low");
        reveal_strlit("medium");
        reveal_strlit("high");
        assert("medium"@.len() != "low"@.len());
        assert("high"@.len() != "low"@.len());
        assert("high"@.len() != "medium"@.len());
    }

    fn name(self) -> (result: &'static str) {
        match self {
            RiskLevel::Low => "low",
            RiskLevel::Medium => "medium",
            RiskLevel::High => "high",
        }
    }

    fn from_name(text: &str) -> (result: Option<Self>) {
        if text::same_text(text, "low") {
            Some(RiskLevel::Low)
        } else if text::same_text(text, "medium") {
            Some(RiskLevel::Medium)
        } else if text::same_text(text, "high") {
            Some(RiskLevel::High)
        } else {
            None
        }
    }
}

impl Named for SuggestedAction {
    open spec fn spec_name(self) -> Seq<char> {
        match self {
            SuggestedAction::ReviewForDeletion => "review_for_deletion"@,
            SuggestedAction::ReviewForArchive => "review_for_archive"@,
        }
    }

    open spec fn names() -> Seq<Seq<char>> {
        seq![
            "review_for_deletion"@,
            "review_for_archive"@,
        ]
    }

    fn all_names() -> (result: Vec<&'static str>) {
        let names: Vec<&'static str> = vec![
            "review_for_deletion",
            "review_for_archive",
        ];
        assert(order::views(names@) =~= Self::names());
        names
    }

    open spec fn named(text: Seq<char>) -> Option<Self> {
        if text == "review_for_deletion"@ {
            Some(SuggestedAction::ReviewForDeletion)
        } else if text == "review_for_archive"@ {
            Some(SuggestedAction::ReviewForArchive)
        } else {
            None
        }
    }

    proof fn law_names_read_back(self) {
        reveal_strlit("review_for_deletion");
        reveal_strlit("review_for_archive");
        assert("review_for_archive"@.len() != "review_for_deletion"@.len());
    }

    fn name(self) -> (result: &'static str) {
        match self {
            SuggestedAction::ReviewForDeletion => "review_for_deletion",
            SuggestedAction::ReviewForArchive => "review_for_archive",
        }
    }

    fn from_name(text: &str) -> (result: Option<Self>) {
        if text::same_text(text, "review_for_deletion") {
            Some(SuggestedAction::ReviewForDeletion)
        } else if text::same_text(text, "review_for_archive") {
            Some(SuggestedAction::ReviewForArchive)
        } else {
            None
        }
    }
}

impl Named for RelationshipKind {
    open spec fn spec_name(self) -> Seq<char> {
        match self {
            RelationshipKind::ArchiveExtractedDirectory => "archive_extracted_directory"@,
            RelationshipKind::InstallerApplicationDirectory => "installer_application_directory"@,
            RelationshipKind::BuildDirectoryProject => "build_directory_project"@,
            RelationshipKind::VirtualMachineComponent => "virtual_machine_component"@,
            RelationshipKind::AndroidEmulatorConfiguration => "android_emulator_configuration"@,
            RelationshipKind::ExactDuplicate => "exact_duplicate"@,
        }
    }

    open spec fn names() -> Seq<Seq<char>> {
        seq![
            "archive_extracted_directory"@,
            "installer_application_directory"@,
            "build_directory_project"@,
            "virtual_machine_component"@,
            "android_emulator_configuration"@,
            "exact_duplicate"@,
        ]
    }

    fn all_names() -> (result: Vec<&'static str>) {
        let names: Vec<&'static str> = vec![
            "archive_extracted_directory",
            "installer_application_directory",
            "build_directory_project",
            "virtual_machine_component",
            "android_emulator_configuration",
            "exact_duplicate",
        ];
        assert(order::views(names@) =~= Self::names());
        names
    }

    open spec fn named(text: Seq<char>) -> Option<Self> {
        if text == "archive_extracted_directory"@ {
            Some(RelationshipKind::ArchiveExtractedDirectory)
        } else if text == "installer_application_directory"@ {
            Some(RelationshipKind::InstallerApplicationDirectory)
        } else if text == "build_directory_project"@ {
            Some(RelationshipKind::BuildDirectoryProject)
        } else if text == "virtual_machine_component"@ {
            Some(RelationshipKind::VirtualMachineComponent)
        } else if text == "android_emulator_configuration"@ {
            Some(RelationshipKind::AndroidEmulatorConfiguration)
        } else if text == "exact_duplicate"@ {
            Some(RelationshipKind::ExactDuplicate)
        } else {
            None
        }
    }

    proof fn law_names_read_back(self) {
        reveal_strlit("archive_extracted_directory");
        reveal_strlit("installer_application_directory");
        reveal_strlit("build_directory_project");
        reveal_strlit("virtual_machine_component");
        reveal_strlit("android_emulator_configuration");
        reveal_strlit("exact_duplicate");
        assert("installer_application_directory"@.len() != "archive_extracted_directory"@.len());
        assert("build_directory_project"@.len() != "archive_extracted_directory"@.len());
        assert("build_directory_project"@.len() != "installer_application_directory"@.len());
        assert("virtual_machine_component"@.len() != "archive_extracted_directory"@.len());
        assert("virtual_machine_component"@.len() != "installer_application_directory"@.len());
        assert("virtual_machine_component"@.len() != "build_directory_project"@.len());
        assert("android_emulator_configuration"@.len() != "archive_extracted_directory"@.len());
        assert("android_emulator_configuration"@.len() != "installer_application_directory"@.len());
        assert("android_emulator_configuration"@.len() != "build_directory_project"@.len());
        assert("android_emulator_configuration"@.len() != "virtual_machine_component"@.len());
        assert("exact_duplicate"@.len() != "archive_extracted_directory"@.len());
        assert("exact_duplicate"@.len() != "installer_application_directory"@.len());
        assert("exact_duplicate"@.len() != "build_directory_project"@.len());
        assert("exact_duplicate"@.len() != "virtual_machine_component"@.len());
        assert("exact_duplicate"@.len() != "android_emulator_configuration"@.len());
    }

    fn name(self) -> (result: &'static str) {
        match self {
            RelationshipKind::ArchiveExtractedDirectory => "archive_extracted_directory",
            RelationshipKind::InstallerApplicationDirectory => "installer_application_directory",
            RelationshipKind::BuildDirectoryProject => "build_directory_project",
            RelationshipKind::VirtualMachineComponent => "virtual_machine_component",
            RelationshipKind::AndroidEmulatorConfiguration => "android_emulator_configuration",
            RelationshipKind::ExactDuplicate => "exact_duplicate",
        }
    }

    fn from_name(text: &str) -> (result: Option<Self>) {
        if text::same_text(text, "archive_extracted_directory") {
            Some(RelationshipKind::ArchiveExtractedDirectory)
        } else if text::same_text(text, "installer_application_directory") {
            Some(RelationshipKind::InstallerApplicationDirectory)
        } else if text::same_text(text, "build_directory_project") {
            Some(RelationshipKind::BuildDirectoryProject)
        } else if text::same_text(text, "virtual_machine_component") {
            Some(RelationshipKind::VirtualMachineComponent)
        } else if text::same_text(text, "android_emulator_configuration") {
            Some(RelationshipKind::AndroidEmulatorConfiguration)
        } else if text::same_text(text, "exact_duplicate") {
            Some(RelationshipKind::ExactDuplicate)
        } else {
            None
        }
    }
}

impl Named for AiCategory {
    open spec fn spec_name(self) -> Seq<char> {
        match self {
            AiCategory::ReplaceableInstaller => "replaceable_installer"@,
            AiCategory::ArchiveWithExtractedCopy => "archive_with_extracted_copy"@,
            AiCategory::CacheOrGenerated => "cache_or_generated"@,
            AiCategory::DuplicateCopy => "duplicate_copy"@,
            AiCategory::UserDataOrState => "user_data_or_state"@,
            AiCategory::Unknown => "unknown"@,
        }
    }

    open spec fn names() -> Seq<Seq<char>> {
        seq![
            "replaceable_installer"@,
            "archive_with_extracted_copy"@,
            "cache_or_generated"@,
            "duplicate_copy"@,
            "user_data_or_state"@,
            "unknown"@,
        ]
    }

    fn all_names() -> (result: Vec<&'static str>) {
        let names: Vec<&'static str> = vec![
            "replaceable_installer",
            "archive_with_extracted_copy",
            "cache_or_generated",
            "duplicate_copy",
            "user_data_or_state",
            "unknown",
        ];
        assert(order::views(names@) =~= Self::names());
        names
    }

    open spec fn named(text: Seq<char>) -> Option<Self> {
        if text == "replaceable_installer"@ {
            Some(AiCategory::ReplaceableInstaller)
        } else if text == "archive_with_extracted_copy"@ {
            Some(AiCategory::ArchiveWithExtractedCopy)
        } else if text == "cache_or_generated"@ {
            Some(AiCategory::CacheOrGenerated)
        } else if text == "duplicate_copy"@ {
            Some(AiCategory::DuplicateCopy)
        } else if text == "user_data_or_state"@ {
            Some(AiCategory::UserDataOrState)
        } else if text == "unknown"@ {
            Some(AiCategory::Unknown)
        } else {
            None
        }
    }

    proof fn law_names_read_back(self) {
        reveal_strlit("replaceable_installer");
        reveal_strlit("archive_with_extracted_copy");
        reveal_strlit("cache_or_generated");
        reveal_strlit("duplicate_copy");
        reveal_strlit("user_data_or_state");
        reveal_strlit("unknown");
        assert("archive_with_extracted_copy"@.len() != "replaceable_installer"@.len());
        assert("cache_or_generated"@.len() != "replaceable_installer"@.len());
        assert("cache_or_generated"@.len() != "archive_with_extracted_copy"@.len());
        assert("duplicate_copy"@.len() != "replaceable_installer"@.len());
        assert("duplicate_copy"@.len() != "archive_with_extracted_copy"@.len());
        assert("duplicate_copy"@.len() != "cache_or_generated"@.len());
        assert("user_data_or_state"@.len() != "replaceable_installer"@.len());
        assert("user_data_or_state"@.len() != "archive_with_extracted_copy"@.len());
        assert("user_data_or_state"@[0] != "cache_or_generated"@[0]);
        assert("user_data_or_state"@.len() != "duplicate_copy"@.len());
        assert("unknown"@.len() != "replaceable_installer"@.len());
        assert("unknown"@.len() != "archive_with_extracted_copy"@.len());
        assert("unknown"@.len() != "cache_or_generated"@.len());
        assert("unknown"@.len() != "duplicate_copy"@.len());
        assert("unknown"@.len() != "user_data_or_state"@.len());
    }

    fn name(self) -> (result: &'static str) {
        match self {
            AiCategory::ReplaceableInstaller => "replaceable_installer",
            AiCategory::ArchiveWithExtractedCopy => "archive_with_extracted_copy",
            AiCategory::CacheOrGenerated => "cache_or_generated",
            AiCategory::DuplicateCopy => "duplicate_copy",
            AiCategory::UserDataOrState => "user_data_or_state",
            AiCategory::Unknown => "unknown",
        }
    }

    fn from_name(text: &str) -> (result: Option<Self>) {
        if text::same_text(text, "replaceable_installer") {
            Some(AiCategory::ReplaceableInstaller)
        } else if text::same_text(text, "archive_with_extracted_copy") {
            Some(AiCategory::ArchiveWithExtractedCopy)
        } else if text::same_text(text, "cache_or_generated") {
            Some(AiCategory::CacheOrGenerated)
        } else if text::same_text(text, "duplicate_copy") {
            Some(AiCategory::DuplicateCopy)
        } else if text::same_text(text, "user_data_or_state") {
            Some(AiCategory::UserDataOrState)
        } else if text::same_text(text, "unknown") {
            Some(AiCategory::Unknown)
        } else {
            None
        }
    }
}

impl Named for AiSuggestedAction {
    open spec fn spec_name(self) -> Seq<char> {
        match self {
            AiSuggestedAction::ReviewForDeletion => "review_for_deletion"@,
            AiSuggestedAction::ReviewForArchive => "review_for_archive"@,
            AiSuggestedAction::KeepOrReview => "keep_or_review"@,
        }
    }

    open spec fn names() -> Seq<Seq<char>> {
        seq![
            "review_for_deletion"@,
            "review_for_archive"@,
            "keep_or_review"@,
        ]
    }

    fn all_names() -> (result: Vec<&'static str>) {
        let names: Vec<&'static str> = vec![
            "review_for_deletion",
            "review_for_archive",
            "keep_or_review",
        ];
        assert(order::views(names@) =~= Self::names());
        names
    }

    open spec fn named(text: Seq<char>) -> Option<Self> {
        if text == "review_for_deletion"@ {
            Some(AiSuggestedAction::ReviewForDeletion)
        } else if text == "review_for_archive"@ {
            Some(AiSuggestedAction::ReviewForArchive)
        } else if text == "keep_or_review"@ {
            Some(AiSuggestedAction::KeepOrReview)
        } else {
            None
        }
    }

    proof fn law_names_read_back(self) {
        reveal_strlit("review_for_deletion");
        reveal_strlit("review_for_archive");
        reveal_strlit("keep_or_review");
        assert("review_for_archive"@.len() != "review_for_deletion"@.len());
        assert("keep_or_review"@.len() != "review_for_deletion"@.len());
        assert("keep_or_review"@.len() != "review_for_archive"@.len());
    }

    fn name(self) -> (result: &'static str) {
        match self {
            AiSuggestedAction::ReviewForDeletion => "review_for_deletion",
            AiSuggestedAction::ReviewForArchive => "review_for_archive",
            AiSuggestedAction::KeepOrReview => "keep_or_review",
        }
    }

    fn from_name(text: &str) -> (result: Option<Self>) {
        if text::same_text(text, "review_for_deletion") {
            Some(AiSuggestedAction::ReviewForDeletion)
        } else if text::same_text(text, "review_for_archive") {
            Some(AiSuggestedAction::ReviewForArchive)
        } else if text::same_text(text, "keep_or_review") {
            Some(AiSuggestedAction::KeepOrReview)
        } else {
            None
        }
    }
}

} // verus!
