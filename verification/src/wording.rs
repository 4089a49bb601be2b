//! What labels say.

use vstd::prelude::*;

use crate::labels;
use crate::labels::RecordTone;
use crate::model::{FindingCategory, RelationshipKind, RiskLevel, SuggestedAction};
use crate::naming::Named;
use crate::sheet;
use crate::text;

verus! {

/// A label and a number by which the labels of categories can be told apart.
proof fn lemma_category(category: FindingCategory)
    ensures
        ({
            let label = labels::label_of_category(category);
            match category {
                FindingCategory::LargeItem => label.len() == 10,
                FindingCategory::OldArchive => label.len() == 11,
                FindingCategory::OldInstaller => label.len() == 13 && label[4] == 'i',
                FindingCategory::NodeModules => label.len() == 20 && label[0] == 'N',
                FindingCategory::RustBuildArtifacts => label.len() == 20 && label[0] == 'R',
                FindingCategory::GradleCache => label.len() == 12 && label[0] == 'G',
                FindingCategory::AndroidEmulator => label.len() == 16,
                FindingCategory::VirtualMachine => label.len() == 15,
                FindingCategory::IsoImage => label.len() == 13 && label[4] == 'I',
                FindingCategory::OperatingSystemCache => label.len() == 22 && label[0] == 'O',
                FindingCategory::GeneratedDirectory => label.len() == 22 && label[0] == 'G',
                FindingCategory::CacheDirectory => label.len() == 12 && label[0] == 'C',
            }
        }),
{
    reveal_strlit("Large item");
    reveal_strlit("Old archive");
    reveal_strlit("Old installer");
    reveal_strlit("Node.js dependencies");
    reveal_strlit("Rust build artifacts");
    reveal_strlit("Gradle cache");
    reveal_strlit("Android emulator");
    reveal_strlit("Virtual machine");
    reveal_strlit("Old ISO image");
    reveal_strlit("Operating-system cache");
    reveal_strlit("Generated build folder");
    reveal_strlit("Cache folder");
}

/// No two categories of findings go by one label.
pub proof fn law_labels_tell_categories_apart(left: FindingCategory, right: FindingCategory)
    ensures
        labels::label_of_category(left) == labels::label_of_category(right) <==> left == right,
{
    lemma_category(left);
    lemma_category(right);
}

proof fn lemma_kind(kind: RelationshipKind)
    ensures
        ({
            let label = labels::kind_label(kind);
            match kind {
                RelationshipKind::ArchiveExtractedDirectory => label.len() == 28,
                RelationshipKind::InstallerApplicationDirectory => label.len() == 32,
                RelationshipKind::BuildDirectoryProject => label.len() == 31,
                RelationshipKind::VirtualMachineComponent => label.len() == 26,
                RelationshipKind::AndroidEmulatorConfiguration => label.len() == 30,
                RelationshipKind::ExactDuplicate => label.len() == 21,
            }
        }),
{
    reveal_strlit("Archive and extracted folder");
    reveal_strlit("Installer and application folder");
    reveal_strlit("Build output and source project");
    reveal_strlit("Virtual-machine components");
    reveal_strlit("Android emulator configuration");
    reveal_strlit("Exact duplicate files");
}

/// No two kinds of relationships go by one label.
pub proof fn law_labels_tell_relationships_apart(left: RelationshipKind, right: RelationshipKind)
    ensures
        labels::kind_label(left) == labels::kind_label(right) <==> left == right,
{
    lemma_kind(left);
    lemma_kind(right);
}

/// A risk is told by the name that it is stored under, with a capital; and no two
/// risks are told in one tone.
pub proof fn law_risks_are_told_by_their_names(risk: RiskLevel, other: RiskLevel)
    ensures
        text::lowered(labels::label_of_risk(risk)) == risk.spec_name(),
        labels::tone_of_risk(risk) == labels::tone_of_risk(other) <==> risk == other,
        labels::tone_of_risk(risk) == RecordTone::Danger <==> risk == RiskLevel::High,
        labels::tone_of_risk(risk) == RecordTone::Positive <==> risk == RiskLevel::Low,
{
    reveal_strlit("Low");
    reveal_strlit("Medium");
    reveal_strlit("High");
    reveal_strlit("low");
    reveal_strlit("medium");
    reveal_strlit("high");
    assert(text::lowered(labels::label_of_risk(risk)) =~= risk.spec_name());
}

/// A finding of a category that is named after what it is goes by the name that it is
/// stored under, with blanks for underscores and a capital.
pub proof fn law_plain_categories_are_told_by_their_names(category: FindingCategory)
    requires
        category is LargeItem || category is OldArchive || category is OldInstaller
            || category is RustBuildArtifacts || category is GradleCache
            || category is AndroidEmulator || category is VirtualMachine,
    ensures
        text::lowered(labels::label_of_category(category)) == sheet::spaced(category.spec_name()),
{
    reveal_strlit("Large item");
    reveal_strlit("large_item");
    reveal_strlit("Old archive");
    reveal_strlit("old_archive");
    reveal_strlit("Old installer");
    reveal_strlit("old_installer");
    reveal_strlit("Rust build artifacts");
    reveal_strlit("rust_build_artifacts");
    reveal_strlit("Gradle cache");
    reveal_strlit("gradle_cache");
    reveal_strlit("Android emulator");
    reveal_strlit("android_emulator");
    reveal_strlit("Virtual machine");
    reveal_strlit("virtual_machine");
    assert(text::lowered(labels::label_of_category(category)) =~= sheet::spaced(
        category.spec_name(),
    ));
}

/// Only what is of low risk and may be deleted is called a good candidate, and whatever
/// is of high risk is warned of.
pub proof fn law_only_low_risks_are_called_good(risk: RiskLevel, action: SuggestedAction)
    ensures
        labels::guidance(risk, action) == "Good cleanup candidate; verify it before deleting"@
            <==> risk == RiskLevel::Low && action == SuggestedAction::ReviewForDeletion,
        labels::guidance(risk, action)
            == "Do not delete until you understand and back up this item"@ <==> risk
            == RiskLevel::High,
        labels::guidance(risk, action) == "Inspect its project or application context first"@
            <==> risk == RiskLevel::Medium,
{
    reveal_strlit("Good cleanup candidate; verify it before deleting");
    reveal_strlit("Low detected risk; consider archiving it first");
    reveal_strlit("Inspect its project or application context first");
    reveal_strlit("Do not delete until you understand and back up this item");
    assert("Good cleanup candidate; verify it before deleting"@[0] == 'G');
    assert("Low detected risk; consider archiving it first"@[0] == 'L');
    assert("Inspect its project or application context first"@[0] == 'I');
    assert("Do not delete until you understand and back up this item"@[0] == 'D');
}

} // verus!
