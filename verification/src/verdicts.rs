//! What the rules recommend, and of which items.

use crate::model::{
    Confidence, FindingCategory, FindingView, ItemKind, ItemView, RiskLevel, SuggestedAction,
};
use crate::order;
use crate::path;
use crate::path::PartView;
use crate::policy::PolicyView;
use crate::relationships;
use crate::rules;
use crate::rules::RuleOptionsView;
use crate::tally;
use crate::text;
use vstd::prelude::*;

verus! {

/// The name of a path in small letters, where it has one that is text.
pub open spec fn small_name(given: Seq<PartView>) -> Seq<char> {
    if given.len() > 0 && given.last() is Name && vstd::utf8::valid_utf8(given.last()->Name_0) {
        text::lowered(vstd::utf8::decode_utf8(given.last()->Name_0))
    } else {
        Seq::empty()
    }
}

/// Whether a name in small letters is that of a disk image.
pub open spec fn names_image(name: Seq<char>) -> bool {
    ".iso"@.is_suffix_of(name)
}

/// Whether a name in small letters is that of an installer.
pub open spec fn names_installer(name: Seq<char>) -> bool {
    ||| ".deb"@.is_suffix_of(name)
    ||| ".rpm"@.is_suffix_of(name)
    ||| ".exe"@.is_suffix_of(name)
    ||| ".msi"@.is_suffix_of(name)
    ||| ".dmg"@.is_suffix_of(name)
    ||| ".appimage"@.is_suffix_of(name)
    ||| ".apk"@.is_suffix_of(name)
}

/// Whether a name in small letters is that of an archive.
pub open spec fn names_archive(name: Seq<char>) -> bool {
    ||| ".zip"@.is_suffix_of(name)
    ||| ".7z"@.is_suffix_of(name)
    ||| ".rar"@.is_suffix_of(name)
    ||| ".tar"@.is_suffix_of(name)
    ||| ".tar.gz"@.is_suffix_of(name)
    ||| ".tgz"@.is_suffix_of(name)
    ||| ".tar.bz2"@.is_suffix_of(name)
    ||| ".tbz2"@.is_suffix_of(name)
    ||| ".tar.xz"@.is_suffix_of(name)
    ||| ".txz"@.is_suffix_of(name)
    ||| ".gz"@.is_suffix_of(name)
}

/// Whether a name in small letters is that of a disk or package of a virtual
/// machine.
pub open spec fn names_machine(name: Seq<char>) -> bool {
    ||| ".vdi"@.is_suffix_of(name)
    ||| ".vmdk"@.is_suffix_of(name)
    ||| ".vhd"@.is_suffix_of(name)
    ||| ".vhdx"@.is_suffix_of(name)
    ||| ".qcow"@.is_suffix_of(name)
    ||| ".qcow2"@.is_suffix_of(name)
    ||| ".ova"@.is_suffix_of(name)
}

proof fn lemma_ends(name: Seq<char>, suffix: Seq<char>)
    ensures
        text::ends(name, suffix) == suffix.is_suffix_of(name),
{
    if suffix.len() <= name.len() {
        assert(name.skip(name.len() - suffix.len()) =~= name.subrange(
            name.len() - suffix.len(),
            name.len() as int,
        ));
    }
}

proof fn lemma_image(name: Seq<char>)
    ensures
        crate::names::has_suffix(name, rules::image_suffixes()) == names_image(name),
{
    let list = rules::image_suffixes();
    assert(list[0] == ".iso"@);
    lemma_ends(name, list[0]);
}

proof fn lemma_installer(name: Seq<char>)
    ensures
        crate::names::has_suffix(name, rules::installer_suffixes()) == names_installer(name),
{
    let list = rules::installer_suffixes();
    assert(list[0] == ".deb"@ && list[1] == ".rpm"@ && list[2] == ".exe"@ && list[3] == ".msi"@
        && list[4] == ".dmg"@ && list[5] == ".appimage"@ && list[6] == ".apk"@);
    assert forall|i: int| 0 <= i < list.len() implies text::ends(name, #[trigger] list[i])
        == list[i].is_suffix_of(name) by {
        lemma_ends(name, list[i]);
    }
}

proof fn lemma_archive(name: Seq<char>)
    ensures
        crate::names::has_suffix(name, rules::archive_suffixes()) == names_archive(name),
{
    let list = rules::archive_suffixes();
    assert(list[0] == ".zip"@ && list[1] == ".7z"@ && list[2] == ".rar"@ && list[3] == ".tar"@
        && list[4] == ".tar.gz"@ && list[5] == ".tgz"@ && list[6] == ".tar.bz2"@ && list[7]
        == ".tbz2"@ && list[8] == ".tar.xz"@ && list[9] == ".txz"@ && list[10] == ".gz"@);
    assert forall|i: int| 0 <= i < list.len() implies text::ends(name, #[trigger] list[i])
        == list[i].is_suffix_of(name) by {
        lemma_ends(name, list[i]);
    }
}

proof fn lemma_machine(name: Seq<char>)
    ensures
        rules::is_machine_file(name) == names_machine(name),
{
    let disks = relationships::virtual_disk_suffixes();
    let packages = relationships::package_suffixes();
    assert(disks[0] == ".vdi"@ && disks[1] == ".vmdk"@ && disks[2] == ".vhd"@ && disks[3]
        == ".vhdx"@ && disks[4] == ".qcow"@ && disks[5] == ".qcow2"@ && packages[0] == ".ova"@);
    assert forall|i: int| 0 <= i < disks.len() implies text::ends(name, #[trigger] disks[i])
        == disks[i].is_suffix_of(name) by {
        lemma_ends(name, disks[i]);
    }
    lemma_ends(name, packages[0]);
}

/// Whether the rules look at an item and may speak of it: a file or a
/// directory that is not the root and is not protected.
pub open spec fn is_open(
    root: Seq<PartView>,
    item: ItemView,
    protected: PolicyView,
) -> bool {
    &&& item.path != root
    &&& item.kind == ItemKind::File || item.kind == ItemKind::Directory
    &&& !protected.matches(item.path)
}

/// How long an item has not been modified, in seconds; nothing where it was
/// modified in the time to come.
pub open spec fn unmodified_for(item: ItemView, options: RuleOptionsView) -> int {
    let modified = item.modified_at_epoch_seconds->Some_0;
    if options.now_epoch_seconds >= modified {
        options.now_epoch_seconds - modified
    } else {
        0
    }
}

/// Whether an item has not been modified for as many days of 86400 seconds as
/// make an item old.
pub open spec fn is_of_age(item: ItemView, options: RuleOptionsView) -> bool {
    item.modified_at_epoch_seconds is Some && unmodified_for(item, options)
        >= options.old_item_threshold_days * 86400
}

proof fn lemma_old(item: ItemView, options: RuleOptionsView)
    ensures
        rules::is_old(item, options) == is_of_age(item, options),
        item.modified_at_epoch_seconds is Some ==> rules::age_days(item, options) is Some
            && rules::age_days(item, options)->Some_0 == unmodified_for(item, options) / 86400,
{
    if item.modified_at_epoch_seconds is Some {
        let age = unmodified_for(item, options);
        let days = options.old_item_threshold_days as int;
        assert(age / 86400 >= days <==> age >= days * 86400) by (nonlinear_arith)
            requires
                age >= 0,
                days >= 0,
        ;
    }
}

/// What is found in an item that the rules may speak of is recommended.
proof fn lemma_recommended(
    root: Seq<PartView>,
    items: Seq<ItemView>,
    options: RuleOptionsView,
    protected: PolicyView,
    count: int,
    place: int,
    finding: FindingView,
)
    requires
        0 <= place < count <= items.len(),
        is_open(root, items[place], protected),
        rules::item_findings(items, items[place], options).contains(finding),
    ensures
        rules::evaluated(root, items, options, protected, count).findings.contains(finding),
    decreases count,
{
    let before = rules::evaluated(root, items, options, protected, count - 1).findings;
    let after = rules::evaluated(root, items, options, protected, count).findings;
    let found = rules::item_findings(items, items[count - 1], options);
    if place == count - 1 {
        let k = choose|k: int| 0 <= k < found.len() && found[k] == finding;
        assert(after[before.len() + k] == finding);
    } else {
        lemma_recommended(root, items, options, protected, count - 1, place, finding);
        let k = choose|k: int| 0 <= k < before.len() && before[k] == finding;
        assert(after[k] == finding);
    }
}

proof fn lemma_in_evaluation(
    root: Seq<PartView>,
    items: Seq<ItemView>,
    options: RuleOptionsView,
    protected: PolicyView,
    place: int,
    finding: FindingView,
)
    requires
        0 <= place < items.len(),
        is_open(root, items[place], protected),
        rules::item_findings(items, items[place], options).contains(finding),
    ensures
        rules::evaluation_of(root, items, options, protected).findings.contains(finding),
{
    let end = rules::evaluated(root, items, options, protected, items.len() as int).findings;
    lemma_recommended(root, items, options, protected, items.len() as int, place, finding);
    rules::lemma_finding_order();
    order::lemma_sorted_contains(end, finding, rules::finding_order());
}

/// The item that a recommendation is about.
proof fn lemma_about(
    root: Seq<PartView>,
    items: Seq<ItemView>,
    options: RuleOptionsView,
    protected: PolicyView,
    finding: FindingView,
) -> (place: int)
    requires
        rules::evaluation_of(root, items, options, protected).findings.contains(finding),
    ensures
        0 <= place < items.len(),
        is_open(root, items[place], protected),
        rules::item_findings(items, items[place], options).contains(finding),
{
    let end = rules::evaluated(root, items, options, protected, items.len() as int);
    rules::lemma_finding_order();
    order::lemma_sorted_contains(end.findings, finding, rules::finding_order());
    rules::lemma_finding_source(
        root,
        items,
        options,
        protected,
        items.len() as int,
        finding,
    )
}

/// Whether a finding is about an item: its path and its size.
pub open spec fn is_about(finding: FindingView, item: ItemView) -> bool {
    &&& finding.path == item.path
    &&& finding.spelling == item.spelling
    &&& finding.potential_recovery_bytes == item.size_bytes
}

/// Whether a finding says of an item that it is an old file of some category:
/// of medium risk, to be looked at for deletion, and with the days that it has
/// not been modified.
pub open spec fn tells_old_file(
    finding: FindingView,
    item: ItemView,
    options: RuleOptionsView,
    category: FindingCategory,
    reason: Seq<char>,
) -> bool {
    &&& is_about(finding, item)
    &&& finding.category == category
    &&& finding.risk == RiskLevel::Medium
    &&& finding.suggested_action == SuggestedAction::ReviewForDeletion
    &&& finding.confidence == (Confidence { bits: 0x3F51_EB85 })
    &&& finding.evidence == seq![
        reason,
        "Not modified in "@ + text::decimal((unmodified_for(item, options) / 86400) as nat)
            + " days"@,
    ]
}

/// An old file that may be spoken of is recommended by what its name ends in:
/// a disk image as such, any other installer as an old installer, and any
/// other archive as an old archive.
pub proof fn law_old_files_are_recommended_by_their_names(
    root: Seq<PartView>,
    items: Seq<ItemView>,
    options: RuleOptionsView,
    protected: PolicyView,
    place: int,
)
    requires
        0 <= place < items.len(),
        is_open(root, items[place], protected),
        items[place].kind == ItemKind::File,
        is_of_age(items[place], options),
    ensures
        ({
            let item = items[place];
            let name = small_name(item.path);
            let findings = rules::evaluation_of(root, items, options, protected).findings;
            &&& names_image(name) ==> exists|finding: FindingView| #[trigger]
                findings.contains(finding) && tells_old_file(
                    finding,
                    item,
                    options,
                    FindingCategory::IsoImage,
                    "Recognized as an installer or disk image"@,
                )
            &&& !names_image(name) && names_installer(name) ==> exists|finding: FindingView| #[trigger]
                findings.contains(finding) && tells_old_file(
                    finding,
                    item,
                    options,
                    FindingCategory::OldInstaller,
                    "Recognized as an installer or disk image"@,
                )
            &&& !names_image(name) && !names_installer(name) && names_archive(name)
                ==> exists|finding: FindingView| #[trigger]
                findings.contains(finding) && tells_old_file(
                    finding,
                    item,
                    options,
                    FindingCategory::OldArchive,
                    "Recognized as an archive"@,
                )
        }),
{
    let item = items[place];
    let name = small_name(item.path);
    lemma_image(name);
    lemma_installer(name);
    lemma_archive(name);
    lemma_old(item, options);
    let found = rules::item_findings(items, item, options);
    if let Some((category, reason)) = rules::old_file_kind(name) {
        let finding = rules::old_file_finding(item, options, category, reason);
        let at: int = if item.size_bytes >= options.large_item_threshold_bytes { 1 } else { 0 };
        assert(found[at] == finding);
        lemma_in_evaluation(root, items, options, protected, place, finding);
        assert(tells_old_file(finding, item, options, category, reason));
    }
}

/// A recommendation of an old image, installer or archive is about an old
/// unprotected file of the scan whose name ends in a suffix of its category,
/// and in none of those that come before it.
pub proof fn law_names_bear_out_old_files(
    root: Seq<PartView>,
    items: Seq<ItemView>,
    options: RuleOptionsView,
    protected: PolicyView,
    finding: FindingView,
)
    requires
        rules::evaluation_of(root, items, options, protected).findings.contains(finding),
        finding.category is OldInstaller || finding.category is OldArchive
            || finding.category is IsoImage,
    ensures
        exists|place: int|
            {
                &&& 0 <= place < items.len()
                &&& is_open(root, #[trigger] items[place], protected)
                &&& items[place].kind == ItemKind::File
                &&& is_about(finding, items[place])
                &&& is_of_age(items[place], options)
            },
        finding.category is IsoImage <==> names_image(small_name(finding.path)),
        finding.category is OldInstaller ==> names_installer(small_name(finding.path)),
        finding.category is OldArchive ==> names_archive(small_name(finding.path))
            && !names_installer(small_name(finding.path)),
{
    let place = lemma_about(root, items, options, protected, finding);
    let item = items[place];
    let name = small_name(item.path);
    lemma_image(name);
    lemma_installer(name);
    lemma_archive(name);
    lemma_old(item, options);
    let found = rules::item_findings(items, item, options);
    let k = choose|k: int| 0 <= k < found.len() && found[k] == finding;
    assert(is_about(found[k], items[place]));
}

/// An item that may be spoken of is recommended as a large one where it has at
/// least the threshold of bytes, of high risk and to be looked at for
/// archiving; and only such an item is.
pub proof fn law_large_items_are_recommended(
    root: Seq<PartView>,
    items: Seq<ItemView>,
    options: RuleOptionsView,
    protected: PolicyView,
    place: int,
    finding: FindingView,
)
    requires
        0 <= place < items.len(),
        is_open(root, items[place], protected),
    ensures
        items[place].size_bytes >= options.large_item_threshold_bytes ==> exists|
            large: FindingView,
        | #[trigger]
            rules::evaluation_of(root, items, options, protected).findings.contains(large)
                && is_about(large, items[place]) && large.category == FindingCategory::LargeItem
                && large.risk == RiskLevel::High && large.suggested_action
                == SuggestedAction::ReviewForArchive && large.confidence == (Confidence {
                bits: 0x3F80_0000,
            }) && large.evidence == seq![
                "Item is at least "@ + text::decimal(options.large_item_threshold_bytes as nat)
                    + " bytes, the configured large-item threshold"@,
            ],
        rules::evaluation_of(root, items, options, protected).findings.contains(finding)
            && finding.category is LargeItem ==> exists|other: int|
            {
                &&& 0 <= other < items.len()
                &&& is_open(root, #[trigger] items[other], protected)
                &&& is_about(finding, items[other])
                &&& items[other].size_bytes >= options.large_item_threshold_bytes
            },
{
    let item = items[place];
    if item.size_bytes >= options.large_item_threshold_bytes {
        let large = rules::large_item_finding(item, options.large_item_threshold_bytes);
        assert(rules::item_findings(items, item, options)[0] == large);
        lemma_in_evaluation(root, items, options, protected, place, large);
    }
    if rules::evaluation_of(root, items, options, protected).findings.contains(finding)
        && finding.category is LargeItem {
        let other = lemma_about(root, items, options, protected, finding);
        let found = rules::item_findings(items, items[other], options);
        let k = choose|k: int| 0 <= k < found.len() && found[k] == finding;
        assert(found[k] == finding);
        assert(is_open(root, items[other], protected));
    }
}

/// A disk or package of a virtual machine that may be spoken of is recommended
/// as such, of high risk and to be looked at for archiving.
pub proof fn law_machine_files_are_recommended(
    root: Seq<PartView>,
    items: Seq<ItemView>,
    options: RuleOptionsView,
    protected: PolicyView,
    place: int,
)
    requires
        0 <= place < items.len(),
        is_open(root, items[place], protected),
        items[place].kind == ItemKind::File,
        names_machine(small_name(items[place].path)),
    ensures
        exists|finding: FindingView| #[trigger]
            rules::evaluation_of(root, items, options, protected).findings.contains(finding)
                && is_about(finding, items[place]) && finding.category
                == FindingCategory::VirtualMachine && finding.risk == RiskLevel::High
                && finding.suggested_action == SuggestedAction::ReviewForArchive
                && finding.confidence == (Confidence { bits: 0x3F66_6666 }) && finding.evidence
                == seq!["Recognized as a virtual-machine disk or package"@],
{
    let item = items[place];
    let found = rules::item_findings(items, item, options);
    lemma_machine(small_name(item.path));
    let finding = rules::machine_finding(item);
    assert(found[found.len() - 1] == finding);
    lemma_in_evaluation(root, items, options, protected, place, finding);
}

/// The directory that a path stands in.
pub open spec fn above(given: Seq<PartView>) -> Seq<PartView> {
    given.drop_last()
}

/// Whether a directory is `/var/cache`, or Windows' downloaded updates or
/// prefetched programs.
pub open spec fn is_for_the_system(given: Seq<PartView>) -> bool {
    ||| given.len() == 3 && given[0] is Root && small_name(given) == "cache"@ && small_name(
        above(given),
    ) == "var"@
    ||| small_name(given) == "download"@ && small_name(above(given)) == "softwaredistribution"@
        && small_name(above(above(given))) == "windows"@
    ||| small_name(given) == "prefetch"@ && small_name(above(given)) == "windows"@
}

/// Whether a directory is `.gradle/caches` or `.gradle/wrapper/dists`.
pub open spec fn is_for_gradle(given: Seq<PartView>) -> bool {
    ||| small_name(given) == "caches"@ && small_name(above(given)) == ".gradle"@
    ||| small_name(given) == "dists"@ && small_name(above(given)) == "wrapper"@ && small_name(
        above(above(given)),
    ) == ".gradle"@
}

proof fn lemma_small_name(given: Seq<PartView>)
    ensures
        crate::names::strict_lower_name(given) == small_name(given),
        small_name(given).len() > 0 ==> given.len() > 0,
{
}

proof fn lemma_ends_with_two(given: Seq<PartView>, first: Seq<char>, second: Seq<char>)
    requires
        first.len() > 0,
        second.len() > 0,
    ensures
        rules::ends_with_names(given, seq![first, second]) == (small_name(given) == second
            && small_name(above(given)) == first),
{
    let wanted = seq![first, second];
    assert(wanted.last() == second);
    assert(wanted.drop_last() =~= seq![first]);
    assert(seq![first].last() == first);
    assert(seq![first].drop_last() =~= Seq::<Seq<char>>::empty());
    lemma_small_name(given);
    lemma_small_name(above(given));
    reveal_with_fuel(rules::ends_with_names, 3);
    let none = Seq::<Seq<char>>::empty();
    assert(rules::ends_with_names(above(given).drop_last(), none));
    if given.len() > 0 {
        assert(rules::ends_with_names(above(given), seq![first]) == (small_name(above(given))
            == first && above(given).len() > 0));
    }
}

proof fn lemma_ends_with_three(
    given: Seq<PartView>,
    first: Seq<char>,
    second: Seq<char>,
    third: Seq<char>,
)
    requires
        first.len() > 0,
        second.len() > 0,
        third.len() > 0,
    ensures
        rules::ends_with_names(given, seq![first, second, third]) == (small_name(given) == third
            && small_name(above(given)) == second && small_name(above(above(given))) == first),
{
    let wanted = seq![first, second, third];
    assert(wanted.last() == third);
    assert(wanted.drop_last() =~= seq![first, second]);
    lemma_small_name(given);
    lemma_ends_with_two(above(given), first, second);
}

proof fn lemma_system(given: Seq<PartView>)
    ensures
        rules::is_system_cache(given) == is_for_the_system(given),
{
    reveal_strlit("var");
    reveal_strlit("cache");
    reveal_strlit("windows");
    reveal_strlit("softwaredistribution");
    reveal_strlit("download");
    reveal_strlit("prefetch");
    lemma_ends_with_two(given, "var"@, "cache"@);
    lemma_ends_with_three(given, "windows"@, "softwaredistribution"@, "download"@);
    lemma_ends_with_two(given, "windows"@, "prefetch"@);
}

proof fn lemma_gradle(given: Seq<PartView>)
    ensures
        rules::is_gradle_cache(given) == is_for_gradle(given),
{
    reveal_strlit(".gradle");
    reveal_strlit("caches");
    reveal_strlit("wrapper");
    reveal_strlit("dists");
    lemma_ends_with_two(given, ".gradle"@, "caches"@);
    lemma_ends_with_three(given, ".gradle"@, "wrapper"@, "dists"@);
}

/// Whether an item of the scan stands in a directory.
pub open spec fn holds_something(items: Seq<ItemView>, directory: Seq<PartView>) -> bool {
    exists|i: int|
        {
            &&& 0 <= i < items.len()
            &&& (#[trigger] items[i]).path.len() > 0
            &&& !(items[i].path.last() is Root)
            &&& above(items[i].path) == directory
        }
}

/// Whether a file `Cargo.toml`, whatever the case of its letters, stands
/// beside a path.
pub open spec fn stands_beside_a_manifest(items: Seq<ItemView>, given: Seq<PartView>) -> bool {
    &&& given.len() > 0
    &&& !(given.last() is Root)
    &&& exists|i: int|
        {
            &&& 0 <= i < items.len()
            &&& (#[trigger] items[i]).kind == ItemKind::File
            &&& items[i].path.len() > 0
            &&& items[i].path.last() is Name
            &&& above(items[i].path) == above(given)
            &&& text::lowered(text::lossy_text(items[i].path.last()->Name_0)) == "cargo.toml"@
        }
}

proof fn lemma_contents(items: Seq<ItemView>, directory: Seq<PartView>)
    ensures
        rules::has_contents(items, directory) == holds_something(items, directory),
{
    if rules::has_contents(items, directory) {
        let i = choose|i: int|
            0 <= i < items.len() && crate::index::is_child(#[trigger] items[i], directory);
        assert(above(items[i].path) == directory);
    }
    if holds_something(items, directory) {
        let i = choose|i: int|
            {
                &&& 0 <= i < items.len()
                &&& (#[trigger] items[i]).path.len() > 0
                &&& !(items[i].path.last() is Root)
                &&& above(items[i].path) == directory
            };
        assert(crate::index::is_child(items[i], directory));
    }
}

proof fn lemma_manifest(items: Seq<ItemView>, given: Seq<PartView>)
    ensures
        rules::has_sibling(items, given, "Cargo.toml"@) == stands_beside_a_manifest(items, given),
{
    reveal_strlit("Cargo.toml");
    reveal_strlit("cargo.toml");
    assert(text::lowered("Cargo.toml"@) =~= "cargo.toml"@);
    if let Some(parent) = path::parent(given) {
        let wanted = relationships::child_named(parent, "Cargo.toml"@, ItemKind::File);
        if rules::has_sibling(items, given, "Cargo.toml"@) {
            let i = choose|i: int| 0 <= i < items.len() && wanted(#[trigger] items[i]);
            assert(items[i].kind == ItemKind::File);
        }
        if stands_beside_a_manifest(items, given) {
            let i = choose|i: int|
                {
                    &&& 0 <= i < items.len()
                    &&& (#[trigger] items[i]).kind == ItemKind::File
                    &&& items[i].path.len() > 0
                    &&& items[i].path.last() is Name
                    &&& above(items[i].path) == above(given)
                    &&& text::lowered(text::lossy_text(items[i].path.last()->Name_0))
                        == "cargo.toml"@
                };
            assert(wanted(items[i]));
        }
    }
}

/// Whether a finding says of a directory that it is of some category, with a
/// reason and the bytes that it occupies.
pub open spec fn tells_directory(
    finding: FindingView,
    item: ItemView,
    category: FindingCategory,
    reason: Seq<char>,
) -> bool {
    &&& is_about(finding, item)
    &&& finding.category == category
    &&& finding.evidence == seq![
        reason,
        "Directory occupies "@ + text::decimal(item.size_bytes as nat) + " bytes"@,
    ]
}

/// Whether a finding is of a cache: of low risk and to be looked at for
/// deletion.
pub open spec fn is_harmless(finding: FindingView) -> bool {
    &&& finding.risk == RiskLevel::Low
    &&& finding.suggested_action == SuggestedAction::ReviewForDeletion
    &&& finding.confidence == (Confidence { bits: 0x3F66_6666 })
}

/// Whether a finding is of what can be made again: of medium risk and to be
/// looked at for deletion.
pub open spec fn is_generated(finding: FindingView) -> bool {
    &&& finding.risk == RiskLevel::Medium
    &&& finding.suggested_action == SuggestedAction::ReviewForDeletion
    &&& finding.confidence == (Confidence { bits: 0x3F61_47AE })
}

/// Whether a finding is of what has a state of its own: of high risk and to be
/// looked at for archiving.
pub open spec fn is_stateful(finding: FindingView) -> bool {
    &&& finding.risk == RiskLevel::High
    &&& finding.suggested_action == SuggestedAction::ReviewForArchive
    &&& finding.confidence == (Confidence { bits: 0x3F66_6666 })
}

/// Names that tell directories apart.
proof fn lemma_names_differ(name: Seq<char>)
    ensures
        name == ".cache"@ ==> name != "cache"@ && name != "download"@ && name != "prefetch"@ && name
            != "caches"@ && name != "dists"@,
        name == "caches"@ || name == "dists"@ ==> name != "cache"@ && name != "download"@ && name
            != "prefetch"@ && name != ".cache"@,
        ".avd"@.is_suffix_of(name) ==> name != "cache"@ && name != "download"@ && name
            != "prefetch"@ && name != ".cache"@ && name != "caches"@ && name != "dists"@,
        ".vmwarevm"@.is_suffix_of(name) ==> name != "cache"@ && name != "download"@ && name
            != "prefetch"@ && name != ".cache"@ && name != "caches"@ && name != "dists"@
            && !".avd"@.is_suffix_of(name),
        name == "node_modules"@ || name == "target"@ || name == "build"@ || name == "dist"@ ==> name
            != "cache"@ && name != "download"@ && name != "prefetch"@ && name != ".cache"@ && name
            != "caches"@ && name != "dists"@ && !".avd"@.is_suffix_of(name)
            && !".vmwarevm"@.is_suffix_of(name),
        "node_modules"@ != "target"@,
        "node_modules"@ != "build"@,
        "node_modules"@ != "dist"@,
        "target"@ != "build"@,
        "target"@ != "dist"@,
{
    reveal_strlit("cache");
    reveal_strlit("download");
    reveal_strlit("prefetch");
    reveal_strlit(".cache");
    reveal_strlit("caches");
    reveal_strlit("dists");
    reveal_strlit("dist");
    reveal_strlit(".avd");
    reveal_strlit(".vmwarevm");
    reveal_strlit("node_modules");
    reveal_strlit("target");
    reveal_strlit("build");
    assert(".cache"@[0] != "caches"@[0]);
    let avd = ".avd"@;
    let bundle = ".vmwarevm"@;
    if avd.is_suffix_of(name) {
        assert(avd[0] == name[name.len() - 4]);
        assert(avd[3] == name[name.len() - 1]);
    }
    if bundle.is_suffix_of(name) {
        assert(bundle[0] == name[name.len() - 9]);
        assert(bundle[8] == name[name.len() - 1]);
    }
    assert("cache"@[4] == 'e' && "download"@[7] == 'd' && "download"@[4] == 'l' && "prefetch"@[7]
        == 'h' && ".cache"@[5] == 'e' && "caches"@[5] == 's' && "dists"@[4] == 's' && "dist"@[3]
        == 't' && "node_modules"@[11] == 's' && "target"@[5] == 't' && "build"@[4] == 'd'
        && "build"@[1] == 'u' && ".avd"@[3] == 'd' && ".vmwarevm"@[8] == 'm' && "target"@[0] == 't'
        && "dists"@[0] == 'd' && "caches"@[0] == 'c' && ".cache"@[0] == '.');
}

/// A directory that may be spoken of is recommended by its name and where it
/// stands: caches, emulators and virtual machines, and what is generated.
#[verifier::spinoff_prover]
pub proof fn law_directories_are_recommended_by_their_names(
    root: Seq<PartView>,
    items: Seq<ItemView>,
    options: RuleOptionsView,
    protected: PolicyView,
    place: int,
)
    requires
        0 <= place < items.len(),
        is_open(root, items[place], protected),
        items[place].kind == ItemKind::Directory,
    ensures
        ({
            let item = items[place];
            let name = small_name(item.path);
            let findings = rules::evaluation_of(root, items, options, protected).findings;
            &&& is_for_the_system(item.path) ==> exists|finding: FindingView| #[trigger]
                findings.contains(finding) && tells_directory(
                    finding,
                    item,
                    FindingCategory::OperatingSystemCache,
                    "Recognized as a known operating-system cache"@,
                ) && is_harmless(finding)
            &&& name == ".cache"@ ==> exists|finding: FindingView| #[trigger]
                findings.contains(finding) && tells_directory(
                    finding,
                    item,
                    FindingCategory::CacheDirectory,
                    "Recognized as a common cache directory"@,
                ) && is_harmless(finding)
            &&& is_for_gradle(item.path) ==> exists|finding: FindingView| #[trigger]
                findings.contains(finding) && tells_directory(
                    finding,
                    item,
                    FindingCategory::GradleCache,
                    "Recognized as a Gradle cache or downloaded distribution"@,
                ) && is_harmless(finding)
            &&& ".avd"@.is_suffix_of(name) ==> exists|finding: FindingView| #[trigger]
                findings.contains(finding) && tells_directory(
                    finding,
                    item,
                    FindingCategory::AndroidEmulator,
                    "Recognized as an Android Virtual Device directory"@,
                ) && is_stateful(finding)
            &&& ".vmwarevm"@.is_suffix_of(name) ==> exists|finding: FindingView| #[trigger]
                findings.contains(finding) && tells_directory(
                    finding,
                    item,
                    FindingCategory::VirtualMachine,
                    "Recognized as a virtual-machine bundle"@,
                ) && is_stateful(finding)
            &&& name == "node_modules"@ && holds_something(items, item.path) ==> exists|finding: FindingView| #[trigger]
                findings.contains(finding) && tells_directory(
                    finding,
                    item,
                    FindingCategory::NodeModules,
                    "Recognized as a generated dependency or build directory"@,
                ) && is_generated(finding)
            &&& name == "node_modules"@ && !holds_something(items, item.path) ==> exists|finding: FindingView| #[trigger]
                findings.contains(finding) && tells_directory(
                    finding,
                    item,
                    FindingCategory::GeneratedDirectory,
                    "Recognized as a generated dependency or build directory"@,
                ) && is_generated(finding)
            &&& name == "target"@ && stands_beside_a_manifest(items, item.path) ==> exists|finding: FindingView| #[trigger]
                findings.contains(finding) && tells_directory(
                    finding,
                    item,
                    FindingCategory::RustBuildArtifacts,
                    "Recognized as a generated dependency or build directory"@,
                ) && is_generated(finding)
            &&& name == "target"@ && !stands_beside_a_manifest(items, item.path) ==> exists|finding: FindingView| #[trigger]
                findings.contains(finding) && tells_directory(
                    finding,
                    item,
                    FindingCategory::GeneratedDirectory,
                    "Recognized as a generated dependency or build directory"@,
                ) && is_generated(finding)
            &&& (name == "build"@ || name == "dist"@) ==> exists|finding: FindingView| #[trigger]
                findings.contains(finding) && tells_directory(
                    finding,
                    item,
                    FindingCategory::GeneratedDirectory,
                    "Recognized as a generated dependency or build directory"@,
                ) && is_generated(finding)
        }),
{
    let item = items[place];
    let name = small_name(item.path);
    let findings = rules::evaluation_of(root, items, options, protected).findings;
    lemma_small_name(item.path);
    lemma_system(item.path);
    lemma_gradle(item.path);
    lemma_contents(items, item.path);
    lemma_manifest(items, item.path);
    lemma_names_differ(name);
    lemma_ends(name, ".avd"@);
    lemma_ends(name, ".vmwarevm"@);
    let found = rules::item_findings(items, item, options);
    if let Some(kind) = rules::directory_kind(items, item.path) {
        let finding = rules::directory_finding(item, kind);
        assert(found[found.len() - 1] == finding);
        lemma_in_evaluation(root, items, options, protected, place, finding);
        assert(findings.contains(finding));
        assert(tells_directory(finding, item, kind.category, kind.evidence));
    }
}

/// A recommendation that a directory is generated or a cache, or of an
/// emulator or a virtual machine, is about a directory whose name says so, or
/// about a file of a virtual machine.
#[verifier::spinoff_prover]
pub proof fn law_names_bear_out_directories(
    root: Seq<PartView>,
    items: Seq<ItemView>,
    options: RuleOptionsView,
    protected: PolicyView,
    finding: FindingView,
)
    requires
        rules::evaluation_of(root, items, options, protected).findings.contains(finding),
    ensures
        ({
            let name = small_name(finding.path);
            &&& finding.category is OperatingSystemCache ==> is_for_the_system(finding.path)
            &&& finding.category is CacheDirectory ==> name == ".cache"@
            &&& finding.category is GradleCache ==> is_for_gradle(finding.path)
            &&& finding.category is AndroidEmulator ==> ".avd"@.is_suffix_of(name)
            &&& finding.category is VirtualMachine ==> ".vmwarevm"@.is_suffix_of(name)
                || names_machine(name)
            &&& finding.category is NodeModules ==> name == "node_modules"@ && holds_something(
                items,
                finding.path,
            )
            &&& finding.category is RustBuildArtifacts ==> name == "target"@
                && stands_beside_a_manifest(items, finding.path)
            &&& finding.category is GeneratedDirectory ==> {
                ||| name == "node_modules"@ && !holds_something(items, finding.path)
                ||| name == "target"@ && !stands_beside_a_manifest(items, finding.path)
                ||| name == "build"@
                ||| name == "dist"@
            }
        }),
        exists|place: int|
            {
                &&& 0 <= place < items.len()
                &&& is_open(root, #[trigger] items[place], protected)
                &&& is_about(finding, items[place])
                &&& finding.category is OperatingSystemCache || finding.category is CacheDirectory
                    || finding.category is GradleCache || finding.category is AndroidEmulator
                    || finding.category is NodeModules || finding.category is RustBuildArtifacts
                    || finding.category is GeneratedDirectory ==> items[place].kind
                    == ItemKind::Directory
                &&& finding.category is VirtualMachine ==> if items[place].kind
                    == ItemKind::Directory {
                    ".vmwarevm"@.is_suffix_of(small_name(finding.path))
                } else {
                    names_machine(small_name(finding.path))
                }
            },
{
    let place = lemma_about(root, items, options, protected, finding);
    let item = items[place];
    let name = small_name(item.path);
    lemma_small_name(item.path);
    lemma_system(item.path);
    lemma_gradle(item.path);
    lemma_contents(items, item.path);
    lemma_manifest(items, item.path);
    lemma_machine(name);
    lemma_ends(name, ".avd"@);
    lemma_ends(name, ".vmwarevm"@);
    let found = rules::item_findings(items, item, options);
    let k = choose|k: int| 0 <= k < found.len() && found[k] == finding;
    assert(is_about(found[k], items[place]));
}

/// The place of a category among those of one item: first large items, then
/// archives, installers, what is generated, caches of tools, machines, images,
/// caches of the system, and last unspecific directories.
pub open spec fn place_among(category: FindingCategory) -> int {
    match category {
        FindingCategory::LargeItem => 0,
        FindingCategory::OldArchive => 1,
        FindingCategory::OldInstaller => 2,
        FindingCategory::NodeModules => 3,
        FindingCategory::RustBuildArtifacts => 4,
        FindingCategory::GradleCache => 5,
        FindingCategory::AndroidEmulator => 6,
        FindingCategory::VirtualMachine => 7,
        FindingCategory::IsoImage => 8,
        FindingCategory::OperatingSystemCache => 9,
        FindingCategory::GeneratedDirectory => 10,
        FindingCategory::CacheDirectory => 11,
    }
}

/// Recommendations come by what they may recover, the most first, then in the
/// order of their paths, then by category.
pub proof fn law_the_best_recommendations_come_first(
    root: Seq<PartView>,
    items: Seq<ItemView>,
    options: RuleOptionsView,
    protected: PolicyView,
    first: int,
    second: int,
)
    requires
        0 <= first < second < rules::evaluation_of(root, items, options, protected).findings.len(),
    ensures
        ({
            let findings = rules::evaluation_of(root, items, options, protected).findings;
            let one = findings[first];
            let other = findings[second];
            &&& one.potential_recovery_bytes >= other.potential_recovery_bytes
            &&& one.potential_recovery_bytes == other.potential_recovery_bytes ==> path::at_most(
                one.path,
                other.path,
            )
            &&& one.potential_recovery_bytes == other.potential_recovery_bytes && one.path
                == other.path ==> place_among(one.category) <= place_among(other.category)
        }),
{
    let end = rules::evaluated(root, items, options, protected, items.len() as int).findings;
    let le = rules::finding_order();
    rules::lemma_finding_order();
    order::law_sorted_is_an_ordered_permutation(end, le);
    let findings = order::sorted(end, le);
    assert(le(findings[first], findings[second]));
    path::law_paths_are_totally_ordered(findings[first].path, findings[second].path);
}

proof fn lemma_protected_folded(
    root: Seq<PartView>,
    items: Seq<ItemView>,
    options: RuleOptionsView,
    protected: PolicyView,
    count: int,
)
    requires
        0 <= count <= items.len(),
    ensures
        rules::evaluated(root, items, options, protected, count).protected_items
            == tally::at_most_max(
            items.take(count).fold_left(
                0int,
                |sum: int, item: ItemView|
                    if item.path != root && (item.kind == ItemKind::File || item.kind
                        == ItemKind::Directory) && protected.matches(item.path) {
                        sum + 1
                    } else {
                        sum
                    },
            ),
        ),
        items.take(count).fold_left(
            0int,
            |sum: int, item: ItemView|
                if item.path != root && (item.kind == ItemKind::File || item.kind
                    == ItemKind::Directory) && protected.matches(item.path) {
                    sum + 1
                } else {
                    sum
                },
        ) >= 0,
    decreases count,
{
    if count > 0 {
        lemma_protected_folded(root, items, options, protected, count - 1);
        assert(items.take(count).drop_last() =~= items.take(count - 1));
        assert(items.take(count).last() == items[count - 1]);
    }
}

/// The protected items are counted: the files and directories, beside the
/// root, that a rule of protection matches.
pub proof fn law_protected_items_are_counted(
    root: Seq<PartView>,
    items: Seq<ItemView>,
    options: RuleOptionsView,
    protected: PolicyView,
)
    ensures
        rules::evaluation_of(root, items, options, protected).protected_items
            == tally::at_most_max(
            items.fold_left(
                0int,
                |sum: int, item: ItemView|
                    if item.path != root && (item.kind == ItemKind::File || item.kind
                        == ItemKind::Directory) && protected.matches(item.path) {
                        sum + 1
                    } else {
                        sum
                    },
            ),
        ),
{
    lemma_protected_folded(root, items, options, protected, items.len() as int);
    assert(items.take(items.len() as int) =~= items);
}

/// No item is recommended twice under one category, and none more than three
/// times.
pub proof fn law_an_item_has_few_recommendations(
    items: Seq<ItemView>,
    item: ItemView,
    options: RuleOptionsView,
    first: int,
    second: int,
)
    requires
        0 <= first < second < rules::item_findings(items, item, options).len(),
    ensures
        rules::item_findings(items, item, options).len() <= 3,
        rules::item_findings(items, item, options)[first].category != rules::item_findings(
            items,
            item,
            options,
        )[second].category,
{
}

} // verus!
