//! Deterministic connections between scanned items.

use crate::index;
use crate::index::{Condition, ItemIndex};
use crate::model;
use crate::model::{
    CERTAINTY_100, CERTAINTY_78, CERTAINTY_90, CERTAINTY_96, CERTAINTY_99, Confidence,
    DuplicateEntry, DuplicateGroup, DuplicateReport, EntryView, Finding, FindingView, GroupView,
    ItemKind, ItemView, Relationship, RelationshipKind, RelationshipReport, RelationshipView,
    RelationshipsView, ScanResult, ScannedItem,
};
use crate::names;
use crate::order;
use crate::order::Ranking;
use crate::path;
use crate::path::{FilePath, GivenView, PartView};
use crate::progress;
use crate::progress::{
    AnalysisPhase, CancellationToken, EventView, NeverStops, ProgressEvent, ProgressLog,
    ProgressSink, StopSignal, TokenSignal,
};
use crate::scanner;
use crate::spelling;
use crate::text;
use vstd::prelude::*;

verus! {

/// How many items lie between two progress reports.
pub const PROGRESS_INTERVAL_ITEMS: u64 = 128;

#[derive(Debug, Clone, Copy, PartialEq, Eq, Structural)]
pub enum RelationshipError {
    Cancelled { items_analyzed: u64 },
}

impl RelationshipError {
    /// The error as a sentence.
    pub fn describe(&self) -> (result: String)
        ensures
            self matches RelationshipError::Cancelled { items_analyzed } && result@
                == "relationship detection cancelled after analyzing "@ + text::decimal(
                items_analyzed as nat,
            ) + " items"@,
    {
        match self {
            RelationshipError::Cancelled { items_analyzed } => text::cat3(
                "relationship detection cancelled after analyzing ",
                text::decimal_of(*items_analyzed).as_str(),
                " items",
            ),
        }
    }
}

pub open spec fn archive_suffixes() -> Seq<Seq<char>> {
    seq![
        ".tar.gz"@,
        ".tar.bz2"@,
        ".tar.xz"@,
        ".tar.zst"@,
        ".tbz2"@,
        ".tgz"@,
        ".txz"@,
        ".zip"@,
        ".7z"@,
        ".rar"@,
        ".tar"@,
        ".gz"@,
        ".bz2"@,
        ".xz"@,
        ".zst"@,
    ]
}

fn archive_suffix_list() -> (result: Vec<&'static str>)
    ensures
        order::views(result@) == archive_suffixes(),
{
    let list = vec![
        ".tar.gz",
        ".tar.bz2",
        ".tar.xz",
        ".tar.zst",
        ".tbz2",
        ".tgz",
        ".txz",
        ".zip",
        ".7z",
        ".rar",
        ".tar",
        ".gz",
        ".bz2",
        ".xz",
        ".zst",
    ];
    assert(order::views(list@) =~= archive_suffixes());
    list
}

pub open spec fn installer_suffixes() -> Seq<Seq<char>> {
    seq![
        ".msixbundle"@,
        ".appimage"@,
        ".msix"@,
        ".deb"@,
        ".rpm"@,
        ".exe"@,
        ".msi"@,
        ".dmg"@,
        ".pkg"@,
        ".apk"@,
        ".run"@,
    ]
}

fn installer_suffix_list() -> (result: Vec<&'static str>)
    ensures
        order::views(result@) == installer_suffixes(),
{
    let list = vec![
        ".msixbundle",
        ".appimage",
        ".msix",
        ".deb",
        ".rpm",
        ".exe",
        ".msi",
        ".dmg",
        ".pkg",
        ".apk",
        ".run",
    ];
    assert(order::views(list@) =~= installer_suffixes());
    list
}

pub open spec fn virtual_disk_suffixes() -> Seq<Seq<char>> {
    seq![".vdi"@, ".vmdk"@, ".vhd"@, ".vhdx"@, ".qcow"@, ".qcow2"@]
}

pub(crate) fn virtual_disk_suffix_list() -> (result: Vec<&'static str>)
    ensures
        order::views(result@) == virtual_disk_suffixes(),
{
    let list = vec![".vdi", ".vmdk", ".vhd", ".vhdx", ".qcow", ".qcow2"];
    assert(order::views(list@) =~= virtual_disk_suffixes());
    list
}

pub open spec fn machine_suffixes() -> Seq<Seq<char>> {
    seq![".vbox"@, ".vmx"@, ".ovf"@]
}

fn machine_suffix_list() -> (result: Vec<&'static str>)
    ensures
        order::views(result@) == machine_suffixes(),
{
    let list = vec![".vbox", ".vmx", ".ovf"];
    assert(order::views(list@) =~= machine_suffixes());
    list
}

pub open spec fn package_suffixes() -> Seq<Seq<char>> {
    seq![".ova"@]
}

pub(crate) fn package_suffix_list() -> (result: Vec<&'static str>)
    ensures
        order::views(result@) == package_suffixes(),
{
    let list = vec![".ova"];
    assert(order::views(list@) =~= package_suffixes());
    list
}

/// The manifests that make the parent of a build directory its project.
pub open spec fn manifest_names(name: Seq<char>) -> Seq<Seq<char>> {
    if name == "node_modules"@ {
        seq!["package.json"@]
    } else if name == "target"@ {
        seq!["Cargo.toml"@]
    } else if name == "build"@ || name == "dist"@ {
        seq![
            "Cargo.toml"@,
            "package.json"@,
            "build.gradle"@,
            "build.gradle.kts"@,
            "settings.gradle"@,
            "settings.gradle.kts"@,
            "CMakeLists.txt"@,
            "pyproject.toml"@,
        ]
    } else {
        Seq::empty()
    }
}

fn manifest_list(name: &str) -> (result: Vec<&'static str>)
    ensures
        order::views(result@) == manifest_names(name@),
{
    if text::same_text(name, "node_modules") {
        let list = vec!["package.json"];
        assert(order::views(list@) =~= manifest_names(name@));
        list
    } else if text::same_text(name, "target") {
        let list = vec!["Cargo.toml"];
        assert(order::views(list@) =~= manifest_names(name@));
        list
    } else if text::same_text(name, "build") || text::same_text(name, "dist") {
        let list = vec![
            "Cargo.toml",
            "package.json",
            "build.gradle",
            "build.gradle.kts",
            "settings.gradle",
            "settings.gradle.kts",
            "CMakeLists.txt",
            "pyproject.toml",
        ];
        assert(order::views(list@) =~= manifest_names(name@));
        list
    } else {
        let list: Vec<&'static str> = Vec::new();
        assert(order::views(list@) =~= manifest_names(name@));
        list
    }
}

/// The items of a directory with a name, whatever its letters' case, and a kind.
pub open spec fn child_named(
    directory: Seq<PartView>,
    name: Seq<char>,
    kind: ItemKind,
) -> spec_fn(ItemView) -> bool {
    |item: ItemView|
        index::is_child(item, directory) && item.kind == kind && path::file_name(item.path) is Some
            && names::lower_name(item.path) == text::lowered(name)
}

/// The files of a directory with one of some suffixes.
pub open spec fn child_with_suffix(
    directory: Seq<PartView>,
    suffixes: Seq<Seq<char>>,
) -> spec_fn(ItemView) -> bool {
    |item: ItemView|
        index::is_child(item, directory) && item.kind == ItemKind::File && names::has_suffix(
            names::lower_name(item.path),
            suffixes,
        )
}

/// The directories in a directory that are named after a product.
pub open spec fn child_of_product(
    directory: Seq<PartView>,
    product: Seq<char>,
) -> spec_fn(ItemView) -> bool {
    |item: ItemView|
        index::is_child(item, directory) && item.kind == ItemKind::Directory
            && names::product_name(names::lower_name(item.path)) == product
}

/// The configuration of a virtual machine in a directory.
pub open spec fn machine_in(items: Seq<ItemView>, directory: Seq<PartView>) -> Option<ItemView> {
    index::least(items, child_with_suffix(directory, machine_suffixes()))
}

/// The directories in a directory that are named after a product and hold a
/// virtual machine.
pub open spec fn machine_of_product(
    items: Seq<ItemView>,
    directory: Seq<PartView>,
    product: Seq<char>,
) -> spec_fn(ItemView) -> bool {
    |item: ItemView|
        child_of_product(directory, product)(item) && machine_in(items, item.path) is Some
}

struct Named {
    lowered: String,
    kind: ItemKind,
}

impl Condition for Named {
    closed spec fn holds(&self, item: ItemView) -> bool {
        item.kind == self.kind && path::file_name(item.path) is Some && names::lower_name(item.path)
            == self.lowered@
    }

    fn check(&self, item: &ScannedItem) -> (result: bool) {
        item.kind == self.kind && item.path.file_name().is_some() && text::same_text(
            names::lowercase_name(&item.path).as_str(),
            self.lowered.as_str(),
        )
    }
}

struct Suffixed {
    suffixes: Vec<&'static str>,
}

impl Condition for Suffixed {
    closed spec fn holds(&self, item: ItemView) -> bool {
        item.kind == ItemKind::File && names::has_suffix(
            names::lower_name(item.path),
            order::views(self.suffixes@),
        )
    }

    fn check(&self, item: &ScannedItem) -> (result: bool) {
        item.kind == ItemKind::File && names::any_suffix(
            names::lowercase_name(&item.path).as_str(),
            &self.suffixes,
        )
    }
}

struct OfProduct {
    product: String,
}

impl Condition for OfProduct {
    closed spec fn holds(&self, item: ItemView) -> bool {
        item.kind == ItemKind::Directory && names::product_name(names::lower_name(item.path))
            == self.product@
    }

    fn check(&self, item: &ScannedItem) -> (result: bool) {
        item.kind == ItemKind::Directory && text::same_text(
            names::normalized_product_name(names::lowercase_name(&item.path).as_str()).as_str(),
            self.product.as_str(),
        )
    }
}

struct MachineOfProduct<'a, 'b> {
    product: OfProduct,
    index: &'b ItemIndex<'a>,
}

impl<'a, 'b> Condition for MachineOfProduct<'a, 'b> {
    closed spec fn holds(&self, item: ItemView) -> bool {
        self.product.holds(item) && machine_in(self.index.all(), item.path) is Some
    }

    fn check(&self, item: &ScannedItem) -> (result: bool) {
        self.product.check(item) && machine_configuration(self.index, &item.path).is_some()
    }
}

fn machine_configuration<'a>(index: &ItemIndex<'a>, directory: &FilePath) -> (result: Option<
    &'a ScannedItem,
>)
    ensures
        match result {
            Some(item) => machine_in(index.all(), directory@) == Some(item@),
            None => machine_in(index.all(), directory@) is None,
        },
{
    let condition = Suffixed { suffixes: machine_suffix_list() };
    proof {
        assert(index::children_where(directory@, condition) =~= child_with_suffix(
            directory@,
            machine_suffixes(),
        ));
    }
    index.first_child(directory, &condition)
}

pub(crate) fn find_named<'a>(
    index: &ItemIndex<'a>,
    directory: &FilePath,
    name: &str,
    kind: ItemKind,
) -> (result: Option<&'a ScannedItem>)
    ensures
        match result {
            Some(item) => index::first(index.all(), child_named(directory@, name@, kind)) == Some(
                item@,
            ),
            None => index::first(index.all(), child_named(directory@, name@, kind)) is None,
        },
{
    let condition = Named { lowered: text::lower(name), kind };
    proof {
        assert(index::children_where(directory@, condition) =~= child_named(
            directory@,
            name@,
            kind,
        ));
    }
    index.earliest_child(directory, &condition)
}

/// A sequence of one relationship.
pub open spec fn single(
    kind: RelationshipKind,
    source: GivenView,
    target: GivenView,
    bits: u32,
    evidence: Seq<Seq<char>>,
) -> Seq<RelationshipView> {
    seq![
        RelationshipView {
            kind,
            source_path: source.path,
            source_spelling: source.spelling,
            target_path: target.path,
            target_spelling: target.spelling,
            confidence: Confidence { bits },
            evidence,
        },
    ]
}

/// What `{:?}` makes of a path: the text in quotes with escapes.
pub uninterp spec fn quoted_path(characters: Seq<char>) -> Seq<char>;

/// `std::fmt` with `{:?}` on a `std::path::Path`, which escapes more than on a
/// string; how it escapes is left to the name.
#[verifier::external_body]
fn quote_path(value: &str) -> (result: String)
    ensures
        result@ == quoted_path(value@),
{
    format!("{:?}", std::path::Path::new(value))
}

/// How many bytes the character takes that some bytes begin with; none where
/// they do not begin with one.
pub open spec fn leading_width(bytes: Seq<u8>) -> nat {
    if bytes.len() >= 1 && vstd::utf8::valid_utf8(bytes.take(1)) {
        1
    } else if bytes.len() >= 2 && vstd::utf8::valid_utf8(bytes.take(2)) {
        2
    } else if bytes.len() >= 3 && vstd::utf8::valid_utf8(bytes.take(3)) {
        3
    } else if bytes.len() >= 4 && vstd::utf8::valid_utf8(bytes.take(4)) {
        4
    } else {
        0
    }
}

/// A text without its first and its last character, which are quotes.
pub open spec fn unquoted(characters: Seq<char>) -> Seq<char> {
    if characters.len() < 2 {
        characters
    } else {
        characters.subrange(1, characters.len() - 1)
    }
}

pub open spec fn hex_digit(value: nat) -> char {
    if value < 10 {
        (48 + value) as char
    } else {
        (55 + value) as char
    }
}

/// A byte that belongs to no character, as it is escaped.
pub open spec fn escaped_byte(byte: u8) -> Seq<char> {
    seq!['\\', 'x', hex_digit(byte as nat / 16), hex_digit(byte as nat % 16)]
}

/// Bytes with their characters as they stand in quotes and all other bytes
/// escaped.
pub open spec fn escaped_bytes(bytes: Seq<u8>) -> Seq<char>
    decreases bytes.len(),
{
    if bytes.len() == 0 {
        Seq::empty()
    } else {
        let width = leading_width(bytes) as int;
        if width == 0 {
            escaped_byte(bytes[0]) + escaped_bytes(bytes.skip(1))
        } else {
            unquoted(quoted_path(vstd::utf8::decode_utf8(bytes.take(width)))) + escaped_bytes(
                bytes.skip(width),
            )
        }
    }
}

/// A file name as it is quoted, with escapes for what is not UTF-8.
pub open spec fn quoted_bytes(name: Seq<u8>) -> Seq<char> {
    if vstd::utf8::valid_utf8(name) {
        quoted_path(vstd::utf8::decode_utf8(name))
    } else {
        "\""@ + escaped_bytes(name) + "\""@
    }
}

/// The name of a path as it is quoted.
pub open spec fn quoted_name(given: Seq<PartView>) -> Seq<char> {
    match path::file_name(given) {
        Some(name) => quoted_bytes(name),
        None => quoted_path(Seq::empty()),
    }
}

/// An archive and the directory beside it that bears its name.
pub open spec fn archive_relationship(items: Seq<ItemView>, item: ItemView) -> Seq<
    RelationshipView,
> {
    match (names::base_name(names::lower_name(item.path), archive_suffixes()), path::parent(item.path)) {
        (Some(base), Some(parent)) => match index::first(
            items,
            child_named(parent, base, ItemKind::Directory),
        ) {
            Some(directory) => single(
                RelationshipKind::ArchiveExtractedDirectory,
                item.given(),
                directory.given(),
                CERTAINTY_96,
                seq![
                    "Archive name matches sibling directory "@ + quoted_name(directory.path),
                ],
            ),
            None => Seq::empty(),
        },
        _ => Seq::empty(),
    }
}

/// An installer and the directory beside it of the same product.
pub open spec fn installer_relationship(items: Seq<ItemView>, item: ItemView) -> Seq<
    RelationshipView,
> {
    match (
        names::base_name(names::lower_name(item.path), installer_suffixes()),
        path::parent(item.path),
    ) {
        (Some(base), Some(parent)) => {
            let product = names::product_name(base);
            if product.len() == 0 {
                Seq::empty()
            } else {
                match index::least(items, child_of_product(parent, product)) {
                    Some(directory) => single(
                        RelationshipKind::InstallerApplicationDirectory,
                        item.given(),
                        directory.given(),
                        CERTAINTY_78,
                        seq![
                            "Installer and sibling application directory share a normalized product name"@,
                            "This does not prove that the application is installed"@,
                        ],
                    ),
                    None => Seq::empty(),
                }
            }
        },
        _ => Seq::empty(),
    }
}

/// The first of some manifests, from a position on, that stands in a directory.
pub open spec fn first_manifest(
    items: Seq<ItemView>,
    directory: Seq<PartView>,
    manifests: Seq<Seq<char>>,
    from: int,
) -> Option<ItemView>
    decreases manifests.len() - from,
{
    if from < 0 || from >= manifests.len() {
        None
    } else {
        match index::first(items, child_named(directory, manifests[from], ItemKind::File)) {
            Some(item) => Some(item),
            None => first_manifest(items, directory, manifests, from + 1),
        }
    }
}

/// A build directory and the project it belongs to.
pub open spec fn build_relationship(items: Seq<ItemView>, item: ItemView) -> Seq<
    RelationshipView,
> {
    match path::parent(item.path) {
        Some(project) => match first_manifest(
            items,
            project,
            manifest_names(names::lower_name(item.path)),
            0,
        ) {
            Some(manifest) => single(
                RelationshipKind::BuildDirectoryProject,
                item.given(),
                GivenView {
                    path: project,
                    spelling: spelling::front(item.spelling, (item.path.len() - 1) as nat),
                },
                CERTAINTY_99,
                seq![
                    "Build directory is linked to project manifest "@ + path::spelled(
                        manifest.spelling,
                    ),
                ],
            ),
            None => Seq::empty(),
        },
        None => Seq::empty(),
    }
}

/// A virtual disk or machine package and the machine it belongs to.
pub open spec fn machine_relationship(items: Seq<ItemView>, item: ItemView) -> Seq<
    RelationshipView,
> {
    let name = names::lower_name(item.path);
    match path::parent(item.path) {
        None => Seq::empty(),
        Some(parent) => if names::has_suffix(name, virtual_disk_suffixes()) {
            match machine_in(items, parent) {
                Some(configuration) => if configuration.path != item.path {
                    single(
                        RelationshipKind::VirtualMachineComponent,
                        item.given(),
                        configuration.given(),
                        CERTAINTY_99,
                        seq!["Virtual disk and virtual-machine configuration share a directory"@],
                    )
                } else {
                    Seq::empty()
                },
                None => Seq::empty(),
            }
        } else if names::has_suffix(name, package_suffixes()) {
            match path::file_stem(item.path) {
                None => Seq::empty(),
                Some(stem) => match index::least(
                    items,
                    machine_of_product(items, parent, names::product_name(text::lossy_text(stem))),
                ) {
                    Some(directory) => single(
                        RelationshipKind::VirtualMachineComponent,
                        item.given(),
                        directory.given(),
                        CERTAINTY_90,
                        seq![
                            "VM package name matches a sibling directory containing VM configuration"@,
                        ],
                    ),
                    None => Seq::empty(),
                },
            }
        } else {
            Seq::empty()
        },
    }
}

/// The text without every `.avd` at its end.
pub open spec fn without_avd(name: Seq<char>) -> Seq<char>
    decreases name.len(),
{
    if name.len() >= 4 && text::ends(name, ".avd"@) {
        without_avd(name.take(name.len() - 4))
    } else {
        name
    }
}

/// An Android emulator and its configuration.
pub open spec fn emulator_relationship(items: Seq<ItemView>, item: ItemView) -> Seq<
    RelationshipView,
> {
    let name = names::lower_name(item.path);
    match path::parent(item.path) {
        Some(parent) => if text::ends(name, ".avd"@) {
            match index::first(
                items,
                child_named(parent, without_avd(name) + ".ini"@, ItemKind::File),
            ) {
                Some(configuration) => single(
                    RelationshipKind::AndroidEmulatorConfiguration,
                    item.given(),
                    configuration.given(),
                    CERTAINTY_99,
                    seq!["Android Virtual Device directory matches its AVD .ini file"@],
                ),
                None => Seq::empty(),
            }
        } else {
            Seq::empty()
        },
        None => Seq::empty(),
    }
}

/// What one item is connected to.
pub open spec fn item_relationships(items: Seq<ItemView>, item: ItemView) -> Seq<
    RelationshipView,
> {
    match item.kind {
        ItemKind::File => archive_relationship(items, item) + installer_relationship(items, item)
            + machine_relationship(items, item),
        ItemKind::Directory => build_relationship(items, item) + emulator_relationship(items, item),
        _ => Seq::empty(),
    }
}

/// Whether two names are of one physical file.
pub open spec fn same_file(left: EntryView, right: EntryView) -> bool {
    match (left.file_identity, right.file_identity) {
        (Some(a), Some(b)) => a == b,
        (None, None) => left.path == right.path,
        _ => false,
    }
}

/// Whether an entry is the first name of its physical file.
pub open spec fn is_first_name(entries: Seq<EntryView>, at: int) -> bool {
    forall|i: int| 0 <= i < at ==> !same_file(#[trigger] entries[i], entries[at])
}

/// The copies that the first `count` entries of a group hold of its first file.
pub open spec fn copies(group: GroupView, count: int) -> Seq<RelationshipView>
    decreases count,
{
    if count <= 1 {
        Seq::empty()
    } else if is_first_name(group.entries, count - 1) {
        copies(group, count - 1) + single(
            RelationshipKind::ExactDuplicate,
            group.entries[0].given(),
            group.entries[count - 1].given(),
            CERTAINTY_100,
            seq!["Files have the same size and BLAKE3 fingerprint "@ + group.blake3_hash],
        )
    } else {
        copies(group, count - 1)
    }
}

/// What the first `steps` items and then groups are connected to.
pub open spec fn found(items: Seq<ItemView>, groups: Seq<GroupView>, steps: int) -> Seq<
    RelationshipView,
>
    decreases steps,
{
    if steps <= 0 {
        Seq::empty()
    } else if steps <= items.len() {
        found(items, groups, steps - 1) + item_relationships(items, items[steps - 1])
    } else {
        let group = groups[steps - 1 - items.len()];
        found(items, groups, steps - 1) + copies(group, group.entries.len() as int)
    }
}

/// The place of a kind of relationship in the report.
pub open spec fn kind_rank(kind: RelationshipKind) -> int {
    match kind {
        RelationshipKind::ArchiveExtractedDirectory => 0,
        RelationshipKind::InstallerApplicationDirectory => 1,
        RelationshipKind::BuildDirectoryProject => 2,
        RelationshipKind::VirtualMachineComponent => 3,
        RelationshipKind::AndroidEmulatorConfiguration => 4,
        RelationshipKind::ExactDuplicate => 5,
    }
}

/// Relationships by kind, then by their paths.
pub open spec fn relationship_at_most(left: RelationshipView, right: RelationshipView) -> bool {
    if left.kind != right.kind {
        kind_rank(left.kind) <= kind_rank(right.kind)
    } else if left.source_path != right.source_path {
        path::at_most(left.source_path, right.source_path)
    } else {
        path::at_most(left.target_path, right.target_path)
    }
}

pub open spec fn relationship_order() -> spec_fn(RelationshipView, RelationshipView) -> bool {
    |left: RelationshipView, right: RelationshipView| relationship_at_most(left, right)
}

/// Whether two relationships connect the same items in the same way.
pub open spec fn same_connection(left: RelationshipView, right: RelationshipView) -> bool {
    left.kind == right.kind && left.source_path == right.source_path && left.target_path
        == right.target_path
}

/// The list without the relationships that repeat the one in front of them.
pub open spec fn deduplicated(list: Seq<RelationshipView>) -> Seq<RelationshipView>
    decreases list.len(),
{
    if list.len() == 0 {
        Seq::empty()
    } else {
        let kept = deduplicated(list.drop_last());
        if kept.len() > 0 && same_connection(kept.last(), list.last()) {
            kept
        } else {
            kept.push(list.last())
        }
    }
}

/// The report on a scan and its duplicates.
pub open spec fn report_of(items: Seq<ItemView>, groups: Seq<GroupView>) -> RelationshipsView {
    let steps = items.len() + groups.len();
    RelationshipsView {
        relationships: deduplicated(
            order::sorted(found(items, groups, steps as int), relationship_order()),
        ),
        items_analyzed: scanner::saturated(steps),
    }
}

pub open spec fn report_due(analyzed: u64, complete: bool) -> bool {
    complete || analyzed == 0 || analyzed % PROGRESS_INTERVAL_ITEMS == 0
}

pub open spec fn progress_event(
    analyzed: u64,
    total: u64,
    current: Option<GivenView>,
) -> EventView {
    EventView {
        phase: AnalysisPhase::DetectingRelationships,
        items_processed: analyzed,
        bytes_processed: 0,
        total_items: Some(total),
        total_bytes: None,
        current_path: current,
    }
}

/// The path that a step is about.
pub open spec fn step_path(items: Seq<ItemView>, groups: Seq<GroupView>, step: int) -> Option<
    GivenView,
> {
    if step < items.len() {
        Some(items[step].given())
    } else {
        let entries = groups[step - items.len()].entries;
        if entries.len() > 0 {
            Some(entries[0].given())
        } else {
            None
        }
    }
}

/// What is reported in the course of the first steps.
pub open spec fn reports(items: Seq<ItemView>, groups: Seq<GroupView>, steps: int) -> Seq<EventView>
    decreases steps,
{
    let total = scanner::saturated(items.len() + groups.len());
    if steps <= 0 {
        seq![progress_event(0, total, None)]
    } else {
        let analyzed = scanner::saturated(steps as nat);
        if report_due(analyzed, false) {
            reports(items, groups, steps - 1).push(
                progress_event(analyzed, total, step_path(items, groups, steps - 1)),
            )
        } else {
            reports(items, groups, steps - 1)
        }
    }
}

fn entry_identity_same(left: &DuplicateEntry, right: &DuplicateEntry) -> (result: bool)
    ensures
        result == same_file(left@, right@),
{
    match (left.file_identity, right.file_identity) {
        (Some(a), Some(b)) => a == b,
        (None, None) => left.path.same(&right.path),
        _ => false,
    }
}

fn first_name(entries: &Vec<DuplicateEntry>, at: usize) -> (result: bool)
    requires
        at < entries@.len(),
    ensures
        result == is_first_name(order::views(entries@), at as int),
{
    let ghost all = order::views(entries@);
    let mut earlier: usize = 0;
    while earlier < at
        invariant
            earlier <= at < entries@.len(),
            all == order::views(entries@),
            forall|i: int| 0 <= i < earlier ==> !same_file(#[trigger] all[i], all[at as int]),
        decreases at - earlier,
    {
        if entry_identity_same(&entries[earlier], &entries[at]) {
            assert(same_file(all[earlier as int], all[at as int]));
            return false;
        }
        earlier = earlier + 1;
    }
    true
}

/// The relationships gathered so far.
struct Gathered {
    list: Vec<Relationship>,
}

impl Gathered {
    spec fn view(&self) -> Seq<RelationshipView> {
        order::views(self.list@)
    }

    fn add_one(
        &mut self,
        kind: RelationshipKind,
        source: &FilePath,
        target: &FilePath,
        bits: u32,
        evidence: String,
    )
        ensures
            final(self)@ == old(self)@ + single(
                kind,
                source.as_given(),
                target.as_given(),
                bits,
                seq![evidence@],
            ),
    {
        let mut lines: Vec<String> = Vec::new();
        lines.push(evidence);
        assert(order::views(lines@) =~= seq![evidence@]);
        self.add_all(kind, source, target, bits, lines);
    }

    fn add_all(
        &mut self,
        kind: RelationshipKind,
        source: &FilePath,
        target: &FilePath,
        bits: u32,
        evidence: Vec<String>,
    )
        ensures
            final(self)@ == old(self)@ + single(
                kind,
                source.as_given(),
                target.as_given(),
                bits,
                order::views(evidence@),
            ),
    {
        let relationship = Relationship {
            kind,
            source_path: source.clone(),
            target_path: target.clone(),
            confidence: Confidence { bits },
            evidence,
        };
        let ghost before = self@;
        proof {
            order::lemma_views_push(self.list@, relationship);
        }
        self.list.push(relationship);
        assert(self@ =~= before + single(
            kind,
            source.as_given(),
            target.as_given(),
            bits,
            order::views(evidence@),
        ));
    }
}

fn make_hex_digit(value: u8) -> (result: char)
    requires
        value < 16,
    ensures
        result == hex_digit(value as nat),
{
    if value < 10 {
        (48 + value) as char
    } else {
        (55 + value) as char
    }
}

fn begins_with_character(bytes: &[u8], at: usize, width: usize) -> (result: Option<String>)
    requires
        at <= bytes@.len(),
    ensures
        ({
            let rest = bytes@.skip(at as int);
            match result {
                Some(character) => width <= rest.len() && vstd::utf8::valid_utf8(
                    rest.take(width as int),
                ) && character@ == vstd::utf8::decode_utf8(rest.take(width as int)),
                None => width > rest.len() || !vstd::utf8::valid_utf8(rest.take(width as int)),
            }
        }),
{
    if width > bytes.len() - at {
        return None;
    }
    let piece = text::bytes_between(bytes, at, at + width);
    assert(piece@ =~= bytes@.skip(at as int).take(width as int));
    text::decode_strict(piece.as_slice())
}

fn unquote(value: &str) -> (result: String)
    ensures
        result@ == unquoted(value@),
{
    let characters = text::chars_of(value);
    if characters.len() < 2 {
        text::string_of(characters.as_slice())
    } else {
        text::string_between(characters.as_slice(), 1, characters.len() - 1)
    }
}

/// The character that some bytes begin with, and how many bytes it takes.
fn leading_character(bytes: &[u8], at: usize) -> (result: Option<(String, usize)>)
    requires
        at < bytes@.len(),
    ensures
        ({
            let rest = bytes@.skip(at as int);
            match result {
                Some((character, width)) => width == leading_width(rest) && 0 < width
                    <= rest.len() && character@ == vstd::utf8::decode_utf8(
                    rest.take(width as int),
                ),
                None => leading_width(rest) == 0,
            }
        }),
{
    if let Some(character) = begins_with_character(bytes, at, 1) {
        return Some((character, 1));
    }
    if let Some(character) = begins_with_character(bytes, at, 2) {
        return Some((character, 2));
    }
    if let Some(character) = begins_with_character(bytes, at, 3) {
        return Some((character, 3));
    }
    if let Some(character) = begins_with_character(bytes, at, 4) {
        return Some((character, 4));
    }
    None
}

fn escape_bytes(bytes: &[u8]) -> (result: String)
    ensures
        result@ == escaped_bytes(bytes@),
{
    let mut result = String::new();
    let mut at: usize = 0;
    assert(bytes@.skip(0) =~= bytes@);
    assert(result@ + escaped_bytes(bytes@) =~= escaped_bytes(bytes@));
    while at < bytes.len()
        invariant
            at <= bytes@.len(),
            result@ + escaped_bytes(bytes@.skip(at as int)) == escaped_bytes(bytes@),
        decreases bytes@.len() - at,
    {
        let ghost rest = bytes@.skip(at as int);
        let ghost before = result@;
        match leading_character(bytes, at) {
            Some((character, width)) => {
                let inside = unquote(quote_path(character.as_str()).as_str());
                result = text::cat2(result.as_str(), inside.as_str());
                proof {
                    assert(rest.skip(width as int) =~= bytes@.skip(at + width));
                    assert(result@ + escaped_bytes(bytes@.skip(at + width)) =~= before + (
                    inside@ + escaped_bytes(rest.skip(width as int))));
                }
                at = at + width;
            },
            None => {
                let byte: u8 = bytes[at];
                result.push('\\');
                result.push('x');
                result.push(make_hex_digit(byte / 16));
                result.push(make_hex_digit(byte % 16));
                proof {
                    assert(rest.skip(1) =~= bytes@.skip(at + 1));
                    assert(rest[0] == byte);
                    assert(result@ + escaped_bytes(bytes@.skip(at + 1)) =~= before + (escaped_byte(
                        byte,
                    ) + escaped_bytes(rest.skip(1))));
                }
                at = at + 1;
            },
        }
    }
    assert(result@ + escaped_bytes(bytes@.skip(at as int)) =~= result@);
    result
}

fn quote_bytes(name: &[u8]) -> (result: String)
    ensures
        result@ == quoted_bytes(name@),
{
    match text::decode_strict(name) {
        Some(known) => quote_path(known.as_str()),
        None => text::cat3("\"", escape_bytes(name).as_str(), "\""),
    }
}

fn quote_name(given: &FilePath) -> (result: String)
    ensures
        result@ == quoted_name(given@),
{
    match given.file_name() {
        Some(name) => quote_bytes(name.as_slice()),
        None => {
            let empty = String::new();
            assert(empty@ =~= Seq::<char>::empty());
            quote_path(empty.as_str())
        },
    }
}

fn detect_archive_relationship(item: &ScannedItem, index: &ItemIndex, gathered: &mut Gathered)
    ensures
        final(gathered)@ == old(gathered)@ + archive_relationship(index.all(), item@),
{
    let ghost before = gathered@;
    let name = names::lowercase_name(&item.path);
    if let Some(base) = names::strip_suffix(name.as_str(), &archive_suffix_list()) {
        if let Some(parent) = item.path.parent() {
            if let Some(directory) = find_named(
                index,
                &parent,
                base.as_str(),
                ItemKind::Directory,
            ) {
                let evidence = text::cat2(
                    "Archive name matches sibling directory ",
                    quote_name(&directory.path).as_str(),
                );
                gathered.add_one(
                    RelationshipKind::ArchiveExtractedDirectory,
                    &item.path,
                    &directory.path,
                    CERTAINTY_96,
                    evidence,
                );
            }
        }
    }
    assert(gathered@ =~= before + archive_relationship(index.all(), item@));
}

fn detect_installer_relationship(item: &ScannedItem, index: &ItemIndex, gathered: &mut Gathered)
    ensures
        final(gathered)@ == old(gathered)@ + installer_relationship(index.all(), item@),
{
    let ghost before = gathered@;
    let name = names::lowercase_name(&item.path);
    if let Some(base) = names::strip_suffix(name.as_str(), &installer_suffix_list()) {
        if let Some(parent) = item.path.parent() {
            let product = names::normalized_product_name(base.as_str());
            if !product.as_str().is_empty() {
                let condition = OfProduct { product };
                proof {
                    assert(index::children_where(parent@, condition) =~= child_of_product(
                        parent@,
                        condition.product@,
                    ));
                }
                if let Some(directory) = index.first_child(&parent, &condition) {
                    let evidence = vec![
                        "Installer and sibling application directory share a normalized product name".to_owned(),
                        "This does not prove that the application is installed".to_owned(),
                    ];
                    proof {
                        assert(order::views(evidence@) =~= seq![
                            "Installer and sibling application directory share a normalized product name"@,
                            "This does not prove that the application is installed"@,
                        ]);
                    }
                    gathered.add_all(
                        RelationshipKind::InstallerApplicationDirectory,
                        &item.path,
                        &directory.path,
                        CERTAINTY_78,
                        evidence,
                    );
                }
            }
        }
    }
    assert(gathered@ =~= before + installer_relationship(index.all(), item@));
}

fn find_manifest<'a>(
    index: &ItemIndex<'a>,
    directory: &FilePath,
    manifests: &Vec<&'static str>,
) -> (result: Option<&'a ScannedItem>)
    ensures
        match result {
            Some(item) => first_manifest(
                index.all(),
                directory@,
                order::views(manifests@),
                0,
            ) == Some(item@),
            None => first_manifest(index.all(), directory@, order::views(manifests@), 0) is None,
        },
{
    let ghost all = order::views(manifests@);
    let mut at: usize = 0;
    while at < manifests.len()
        invariant
            at <= manifests.len(),
            all == order::views(manifests@),
            first_manifest(index.all(), directory@, all, 0) == first_manifest(
                index.all(),
                directory@,
                all,
                at as int,
            ),
        decreases manifests.len() - at,
    {
        assert(all[at as int] == manifests@[at as int]@);
        let candidate = find_named(index, directory, manifests[at], ItemKind::File);
        if candidate.is_some() {
            return candidate;
        }
        at = at + 1;
    }
    None
}

fn detect_build_relationship(item: &ScannedItem, index: &ItemIndex, gathered: &mut Gathered)
    ensures
        final(gathered)@ == old(gathered)@ + build_relationship(index.all(), item@),
{
    let ghost before = gathered@;
    let name = names::lowercase_name(&item.path);
    let manifests = manifest_list(name.as_str());
    if let Some(project) = item.path.parent_as_given() {
        if let Some(manifest) = find_manifest(index, &project, &manifests) {
            let evidence = text::cat2(
                "Build directory is linked to project manifest ",
                manifest.path.display().as_str(),
            );
            gathered.add_one(
                RelationshipKind::BuildDirectoryProject,
                &item.path,
                &project,
                CERTAINTY_99,
                evidence,
            );
        }
    }
    assert(gathered@ =~= before + build_relationship(index.all(), item@));
}

fn detect_virtual_machine_relationship(
    item: &ScannedItem,
    index: &ItemIndex,
    gathered: &mut Gathered,
)
    ensures
        final(gathered)@ == old(gathered)@ + machine_relationship(index.all(), item@),
{
    let ghost before = gathered@;
    let ghost all = index.all();
    let name = names::lowercase_name(&item.path);
    if let Some(parent) = item.path.parent() {
        if names::any_suffix(name.as_str(), &virtual_disk_suffix_list()) {
            if let Some(configuration) = machine_configuration(index, &parent) {
                if !configuration.path.same(&item.path) {
                    gathered.add_one(
                        RelationshipKind::VirtualMachineComponent,
                        &item.path,
                        &configuration.path,
                        CERTAINTY_99,
                        "Virtual disk and virtual-machine configuration share a directory".to_owned(),
                    );
                }
            }
        } else if names::any_suffix(name.as_str(), &package_suffix_list()) {
            if let Some(stem) = item.path.file_stem() {
                let product = names::normalized_product_name(
                    text::decode_lossy(stem.as_slice()).as_str(),
                );
                let condition = MachineOfProduct { product: OfProduct { product }, index };
                proof {
                    assert(index::children_where(parent@, condition) =~= machine_of_product(
                        all,
                        parent@,
                        condition.product.product@,
                    ));
                }
                if let Some(directory) = index.first_child(&parent, &condition) {
                    gathered.add_one(
                        RelationshipKind::VirtualMachineComponent,
                        &item.path,
                        &directory.path,
                        CERTAINTY_90,
                        "VM package name matches a sibling directory containing VM configuration".to_owned(),
                    );
                }
            }
        }
    }
    assert(gathered@ =~= before + machine_relationship(all, item@));
}

proof fn lemma_ends_in_avd(part: Seq<char>)
    ensures
        text::ends(part, ".avd"@) <==> {
            &&& part.len() >= 4
            &&& part[part.len() - 4] == '.'
            &&& part[part.len() - 3] == 'a'
            &&& part[part.len() - 2] == 'v'
            &&& part[part.len() - 1] == 'd'
        },
{
    reveal_strlit(".avd");
    let from = part.len() - 4;
    assert(".avd"@ =~= seq!['.', 'a', 'v', 'd']);
    if part.len() >= 4 {
        let tail = part.skip(from);
        assert(tail[0] == part[from] && tail[1] == part[from + 1]);
        assert(tail[2] == part[from + 2] && tail[3] == part[from + 3]);
        if part[from] == '.' && part[from + 1] == 'a' && part[from + 2] == 'v' && part[from + 3]
            == 'd' {
            assert(tail =~= ".avd"@);
        }
    }
}

#[verifier::spinoff_prover]
fn trim_avd(name: &str) -> (result: String)
    ensures
        result@ == without_avd(name@),
{
    let characters = text::chars_of(name);
    let mut end: usize = characters.len();
    proof {
        reveal_strlit(".avd");
        assert(characters@.take(end as int) =~= characters@);
    }
    while end >= 4 && characters[end - 4] == '.' && characters[end - 3] == 'a' && characters[end - 2]
        == 'v' && characters[end - 1] == 'd'
        invariant
            end <= characters.len(),
            ".avd"@.len() == 4,
            without_avd(characters@) == without_avd(characters@.take(end as int)),
        decreases end,
    {
        proof {
            let part = characters@.take(end as int);
            lemma_ends_in_avd(part);
            assert(part.take(end - 4) =~= characters@.take(end - 4));
        }
        end = end - 4;
    }
    proof {
        let part = characters@.take(end as int);
        lemma_ends_in_avd(part);
        assert(characters@.subrange(0, end as int) =~= part);
    }
    text::string_between(characters.as_slice(), 0, end)
}

fn detect_android_emulator_relationship(
    item: &ScannedItem,
    index: &ItemIndex,
    gathered: &mut Gathered,
)
    ensures
        final(gathered)@ == old(gathered)@ + emulator_relationship(index.all(), item@),
{
    let ghost before = gathered@;
    let name = names::lowercase_name(&item.path);
    let characters = text::chars_of(name.as_str());
    let suffix = text::chars_of(".avd");
    if let Some(parent) = item.path.parent() {
        if text::chars_end_with(characters.as_slice(), suffix.as_slice()) {
            let wanted = text::cat2(trim_avd(name.as_str()).as_str(), ".ini");
            if let Some(configuration) = find_named(
                index,
                &parent,
                wanted.as_str(),
                ItemKind::File,
            ) {
                gathered.add_one(
                    RelationshipKind::AndroidEmulatorConfiguration,
                    &item.path,
                    &configuration.path,
                    CERTAINTY_99,
                    "Android Virtual Device directory matches its AVD .ini file".to_owned(),
                );
            }
        }
    }
    assert(gathered@ =~= before + emulator_relationship(index.all(), item@));
}

fn detect_duplicate_relationships(group: &DuplicateGroup, gathered: &mut Gathered)
    ensures
        final(gathered)@ == old(gathered)@ + copies(group@, group@.entries.len() as int),
{
    let ghost before = gathered@;
    let ghost view = group@;
    if group.entries.len() == 0 {
        assert(gathered@ =~= before + copies(view, 0));
        return;
    }
    let mut at: usize = 1;
    assert(gathered@ =~= before + copies(view, 1));
    while at < group.entries.len()
        invariant
            1 <= at <= group.entries@.len(),
            view == group@,
            gathered@ == before + copies(view, at as int),
        decreases group.entries.len() - at,
    {
        if first_name(&group.entries, at) {
            let evidence = text::cat2(
                "Files have the same size and BLAKE3 fingerprint ",
                group.blake3_hash.as_str(),
            );
            gathered.add_one(
                RelationshipKind::ExactDuplicate,
                &group.entries[0].path,
                &group.entries[at].path,
                CERTAINTY_100,
                evidence,
            );
        }
        proof {
            assert(gathered@ =~= before + copies(view, at + 1));
        }
        at = at + 1;
    }
}

/// Relationships by kind, then by their paths.
struct RelationshipOrder;

fn rank_of(kind: RelationshipKind) -> (result: u8)
    ensures
        result == kind_rank(kind),
{
    match kind {
        RelationshipKind::ArchiveExtractedDirectory => 0,
        RelationshipKind::InstallerApplicationDirectory => 1,
        RelationshipKind::BuildDirectoryProject => 2,
        RelationshipKind::VirtualMachineComponent => 3,
        RelationshipKind::AndroidEmulatorConfiguration => 4,
        RelationshipKind::ExactDuplicate => 5,
    }
}

impl Ranking<Relationship> for RelationshipOrder {
    closed spec fn at_most(&self, left: RelationshipView, right: RelationshipView) -> bool {
        relationship_at_most(left, right)
    }

    proof fn ranks(&self) {
        lemma_relationship_order();
        assert(relationship_order() =~= |left: RelationshipView, right: RelationshipView|
            self.at_most(left, right));
    }

    fn not_after(&self, left: &Relationship, right: &Relationship) -> (result: bool) {
        if left.kind != right.kind {
            rank_of(left.kind) <= rank_of(right.kind)
        } else if !left.source_path.same(&right.source_path) {
            left.source_path.not_after(&right.source_path)
        } else {
            left.target_path.not_after(&right.target_path)
        }
    }
}

pub proof fn lemma_relationship_order()
    ensures
        order::is_ranking(relationship_order()),
{
    let le = relationship_order();
    assert forall|a: RelationshipView, b: RelationshipView| #[trigger] le(a, b) || le(b, a) by {
        path::law_paths_are_totally_ordered(a.source_path, b.source_path);
        path::law_paths_are_totally_ordered(a.target_path, b.target_path);
    }
    assert forall|a: RelationshipView, b: RelationshipView, c: RelationshipView| #[trigger]
        le(a, b) && #[trigger] le(b, c) implies le(a, c) by {
        assert(kind_rank(a.kind) == kind_rank(b.kind) ==> a.kind == b.kind);
        assert(kind_rank(b.kind) == kind_rank(c.kind) ==> b.kind == c.kind);
        path::law_paths_are_totally_ordered(a.source_path, b.source_path);
        path::law_paths_are_totally_ordered(b.source_path, c.source_path);
        path::law_paths_are_totally_ordered(a.source_path, c.source_path);
        if path::at_most(a.source_path, b.source_path) && path::at_most(
            b.source_path,
            c.source_path,
        ) {
            path::lemma_at_most_transitive(a.source_path, b.source_path, c.source_path);
        }
        if path::at_most(a.target_path, b.target_path) && path::at_most(
            b.target_path,
            c.target_path,
        ) {
            path::lemma_at_most_transitive(a.target_path, b.target_path, c.target_path);
        }
    }
}

fn same_ends(left: &Relationship, right: &Relationship) -> (result: bool)
    ensures
        result == same_connection(left@, right@),
{
    left.kind == right.kind && left.source_path.same(&right.source_path) && left.target_path.same(
        &right.target_path,
    )
}

fn deduplicate(list: Vec<Relationship>) -> (result: Vec<Relationship>)
    ensures
        order::views(result@) == deduplicated(order::views(list@)),
{
    let ghost all = order::views(list@);
    let ghost source = list@;
    let mut kept: Vec<Relationship> = Vec::new();
    assert(order::views(kept@) =~= deduplicated(all.take(0)));
    for relationship in it: list
        invariant
            it.seq() == source,
            all == order::views(source),
            order::views(kept@) == deduplicated(all.take(it.index())),
    {
        proof {
            assert(all.take(it.index() + 1).drop_last() =~= all.take(it.index()));
            assert(all[it.index()] == relationship@);
            order::lemma_views_push(kept@, relationship);
        }
        let repeats = kept.len() > 0 && same_ends(&kept[kept.len() - 1], &relationship);
        if !repeats {
            kept.push(relationship);
        }
    }
    assert(all.take(all.len() as int) =~= all);
    kept
}

fn report_progress<P: ProgressSink>(
    sink: &mut P,
    analyzed: u64,
    total: u64,
    current: Option<FilePath>,
    complete: bool,
)
    ensures
        final(sink).received() == if report_due(analyzed, complete) {
            old(sink).received().push(progress_event(analyzed, total, path::optional_given(current)))
        } else {
            old(sink).received()
        },
{
    if complete || analyzed == 0 || analyzed % PROGRESS_INTERVAL_ITEMS == 0 {
        sink.report(
            &ProgressEvent {
                phase: AnalysisPhase::DetectingRelationships,
                items_processed: analyzed,
                bytes_processed: 0,
                total_items: Some(total),
                total_bytes: None,
                current_path: current,
            },
        );
    }
}

fn detect_item(item: &ScannedItem, index: &ItemIndex, gathered: &mut Gathered)
    ensures
        final(gathered)@ == old(gathered)@ + item_relationships(index.all(), item@),
{
    let ghost before = gathered@;
    match item.kind {
        ItemKind::File => {
            detect_archive_relationship(item, index, gathered);
            detect_installer_relationship(item, index, gathered);
            detect_virtual_machine_relationship(item, index, gathered);
        },
        ItemKind::Directory => {
            detect_build_relationship(item, index, gathered);
            detect_android_emulator_relationship(item, index, gathered);
        },
        ItemKind::Symlink => {},
        ItemKind::Other => {},
    }
    assert(gathered@ =~= before + item_relationships(index.all(), item@));
}

/// What is reported where nothing asks for a stop.
pub open spec fn all_reports(items: Seq<ItemView>, groups: Seq<GroupView>) -> Seq<EventView> {
    let analyzed = report_of(items, groups).items_analyzed;
    reports(items, groups, (items.len() + groups.len()) as int).push(
        progress_event(analyzed, analyzed, None),
    )
}

/// How many steps are taken before a poll: the first poll comes before all of
/// them, and there is one more before each and at the end.
pub open spec fn steps_before(place: int) -> int {
    if place <= 0 {
        0
    } else {
        place - 1
    }
}

/// What is said of a detection: it is complete where no answer asked for a
/// stop, and it ends with the steps before the first one that did.
pub open spec fn is_outcome(
    items: Seq<ItemView>,
    groups: Seq<GroupView>,
    result: Result<RelationshipReport, RelationshipError>,
    answers: Seq<bool>,
    reported: Seq<EventView>,
) -> bool {
    match result {
        Ok(report) => {
            &&& progress::goes_on(answers, items.len() + groups.len() + 2)
            &&& report@ == report_of(items, groups)
            &&& reported == all_reports(items, groups)
        },
        Err(RelationshipError::Cancelled { items_analyzed }) => {
            let place = answers.len() - 1;
            &&& progress::stops_at(answers, place)
            &&& place <= items.len() + groups.len() + 1
            &&& items_analyzed == scanner::saturated(steps_before(place) as nat)
            &&& reported == reports(items, groups, steps_before(place))
        },
    }
}

/// Connects the items of a scan and the files of its duplicate groups, with
/// progress reported on the way. At the start, before each step and at the end
/// the signal says whether to stop.
pub fn detect_relationships_polled<P: ProgressSink, S: StopSignal>(
    scan: &ScanResult,
    duplicates: &DuplicateReport,
    signal: &mut S,
    on_progress: &mut P,
) -> (result: Result<RelationshipReport, RelationshipError>)
    ensures
        exists|answers: Seq<bool>, reported: Seq<EventView>|
            progress::polled(*old(signal), *final(signal), answers)
                && final(on_progress).received() == old(on_progress).received() + reported
                && #[trigger] is_outcome(
                scan@.items,
                duplicates@.groups,
                result,
                answers,
                reported,
            ),
{
    let ghost first = *signal;
    let ghost mut answers = Seq::<bool>::empty();
    proof {
        progress::lemma_polled_nothing(*signal);
    }
    let ghost earlier = on_progress.received();
    let ghost items = scan@.items;
    let ghost groups = duplicates@.groups;
    let index = ItemIndex::new(&scan.items);
    let total: u64 = (scan.items.len() as u64).saturating_add(duplicates.groups.len() as u64);
    let mut analyzed: u64 = 0;
    let mut gathered = Gathered { list: Vec::new() };
    report_progress(on_progress, analyzed, total, None, false);
    proof {
        assert(on_progress.received() =~= earlier + reports(items, groups, 0));
        assert(gathered@ =~= found(items, groups, 0));
    }
    let ghost before = *signal;
    let stop = signal.poll();
    proof {
        progress::lemma_polled_once(first, before, *signal, answers, stop);
        answers = answers.push(stop);
    }
    if stop {
        let result = Err(RelationshipError::Cancelled { items_analyzed: analyzed });
        assert(is_outcome(items, groups, result, answers, reports(items, groups, 0)));
        return result;
    }
    let mut at: usize = 0;
    while at < scan.items.len()
        invariant
            at <= scan.items@.len(),
            items == order::views(scan.items@),
            items == scan@.items,
            groups == duplicates@.groups,
            index.all() == items,
            earlier == old(on_progress).received(),
            total == scanner::saturated(items.len() + groups.len()),
            analyzed == scanner::saturated(at as nat),
            gathered@ == found(items, groups, at as int),
            on_progress.received() == earlier + reports(items, groups, at as int),
            first == *old(signal),
            progress::polled(first, *signal, answers),
            progress::goes_on(answers, at as nat + 1),
        decreases scan.items@.len() - at,
    {
        let ghost before = *signal;
        let stop = signal.poll();
        proof {
            progress::lemma_polled_once(first, before, *signal, answers, stop);
            answers = answers.push(stop);
        }
        if stop {
            let result = Err(RelationshipError::Cancelled { items_analyzed: analyzed });
            assert(is_outcome(items, groups, result, answers, reports(items, groups, at as int)));
            return result;
        }
        let item = &scan.items[at];
        assert(items[at as int] == item@);
        detect_item(item, &index, &mut gathered);
        analyzed = analyzed.saturating_add(1);
        let current = Some(item.path.clone());
        report_progress(on_progress, analyzed, total, current, false);
        assert(on_progress.received() =~= earlier + reports(items, groups, at + 1));
        at = at + 1;
    }
    let ghost count = items.len();
    let mut next: usize = 0;
    while next < duplicates.groups.len()
        invariant
            next <= duplicates.groups@.len(),
            count == items.len(),
            items == scan@.items,
            groups == duplicates@.groups,
            groups == order::views(duplicates.groups@),
            earlier == old(on_progress).received(),
            total == scanner::saturated(items.len() + groups.len()),
            analyzed == scanner::saturated(count + next as nat),
            gathered@ == found(items, groups, count + next),
            on_progress.received() == earlier + reports(items, groups, count + next),
            first == *old(signal),
            progress::polled(first, *signal, answers),
            progress::goes_on(answers, count + next as nat + 1),
        decreases duplicates.groups@.len() - next,
    {
        let ghost before = *signal;
        let stop = signal.poll();
        proof {
            progress::lemma_polled_once(first, before, *signal, answers, stop);
            answers = answers.push(stop);
        }
        if stop {
            let result = Err(RelationshipError::Cancelled { items_analyzed: analyzed });
            assert(is_outcome(items, groups, result, answers, reports(items, groups, count + next)));
            return result;
        }
        let group = &duplicates.groups[next];
        assert(groups[next as int] == group@);
        detect_duplicate_relationships(group, &mut gathered);
        analyzed = analyzed.saturating_add(1);
        let current = if group.entries.len() > 0 {
            Some(group.entries[0].path.clone())
        } else {
            None
        };
        assert(path::optional_given(current) == step_path(items, groups, count + next));
        report_progress(on_progress, analyzed, total, current, false);
        assert(on_progress.received() =~= earlier + reports(items, groups, count + next + 1));
        next = next + 1;
    }
    let ghost steps = count + groups.len();
    proof {
        assert(order::relation::<Relationship, RelationshipOrder>(RelationshipOrder)
            =~= relationship_order());
    }
    let sorted = order::sort_by_ranking(gathered.list, &RelationshipOrder);
    let relationships = deduplicate(sorted);
    let ghost before = *signal;
    let stop = signal.poll();
    proof {
        progress::lemma_polled_once(first, before, *signal, answers, stop);
        answers = answers.push(stop);
    }
    if stop {
        let result = Err(RelationshipError::Cancelled { items_analyzed: analyzed });
        assert(is_outcome(items, groups, result, answers, reports(items, groups, steps as int)));
        return result;
    }
    report_progress(on_progress, analyzed, total, None, true);
    let result = Ok(RelationshipReport { relationships, items_analyzed: analyzed });
    proof {
        let reported = all_reports(items, groups);
        assert(on_progress.received() =~= earlier + reported);
        assert(is_outcome(items, groups, result, answers, reported));
    }
    result
}

/// Connects the items of a scan and the files of its duplicate groups.
pub fn detect_relationships(scan: &ScanResult, duplicates: &DuplicateReport) -> (result:
    RelationshipReport)
    ensures
        result@ == report_of(scan@.items, duplicates@.groups),
{
    let mut log = ProgressLog::new();
    let mut signal = NeverStops::new();
    match detect_relationships_polled(scan, duplicates, &mut signal, &mut log) {
        Ok(report) => report,
        Err(_) => RelationshipReport { relationships: Vec::new(), items_analyzed: 0 },
    }
}

/// Like `detect_relationships`, with progress reported on the way. Where the
/// token is found cancelled at the start, before a step or at the end, that
/// ends it.
pub fn detect_relationships_with_progress<P: ProgressSink>(
    scan: &ScanResult,
    duplicates: &DuplicateReport,
    cancellation: &CancellationToken,
    on_progress: &mut P,
) -> (result: Result<RelationshipReport, RelationshipError>)
    ensures
        exists|answers: Seq<bool>, reported: Seq<EventView>|
            progress::given_by(cancellation, answers) && final(on_progress).received() == old(
                on_progress,
            ).received() + reported && #[trigger] is_outcome(
                scan@.items,
                duplicates@.groups,
                result,
                answers,
                reported,
            ),
{
    let mut signal = TokenSignal::new(cancellation);
    detect_relationships_polled(scan, duplicates, &mut signal, on_progress)
}

/// How a kind of relationship is named in the evidence of a finding.
pub open spec fn evidence_label(kind: RelationshipKind) -> Seq<char> {
    match kind {
        RelationshipKind::ArchiveExtractedDirectory => "Related extracted directory"@,
        RelationshipKind::InstallerApplicationDirectory => "Related application directory"@,
        RelationshipKind::BuildDirectoryProject => "Source project"@,
        RelationshipKind::VirtualMachineComponent => "Related VM component"@,
        RelationshipKind::AndroidEmulatorConfiguration => "AVD configuration"@,
        RelationshipKind::ExactDuplicate => "Exact duplicate"@,
    }
}

fn relationship_evidence_label(kind: RelationshipKind) -> (result: &'static str)
    ensures
        result@ == evidence_label(kind),
{
    match kind {
        RelationshipKind::ArchiveExtractedDirectory => "Related extracted directory",
        RelationshipKind::InstallerApplicationDirectory => "Related application directory",
        RelationshipKind::BuildDirectoryProject => "Source project",
        RelationshipKind::VirtualMachineComponent => "Related VM component",
        RelationshipKind::AndroidEmulatorConfiguration => "AVD configuration",
        RelationshipKind::ExactDuplicate => "Exact duplicate",
    }
}

/// The other end of a relationship that a path is an end of.
pub open spec fn other_end(relationship: RelationshipView, given: Seq<PartView>) -> Option<
    GivenView,
> {
    if relationship.source_path == given {
        Some(
            GivenView {
                path: relationship.target_path,
                spelling: relationship.target_spelling,
            },
        )
    } else if relationship.target_path == given {
        Some(
            GivenView {
                path: relationship.source_path,
                spelling: relationship.source_spelling,
            },
        )
    } else {
        None
    }
}

/// The evidence of a finding with what the first relationships add to it.
pub open spec fn enriched_evidence(
    finding: FindingView,
    relationships: Seq<RelationshipView>,
    count: int,
) -> Seq<Seq<char>>
    decreases count,
{
    if count <= 0 {
        finding.evidence
    } else {
        let before = enriched_evidence(finding, relationships, count - 1);
        match other_end(relationships[count - 1], finding.path) {
            Some(related) => {
                let line = evidence_label(relationships[count - 1].kind) + ": "@ + path::spelled(related.spelling);
                if before.contains(line) {
                    before
                } else {
                    before.push(line)
                }
            },
            None => before,
        }
    }
}

/// A finding with the relationships of its item as further evidence.
pub open spec fn enriched(finding: FindingView, relationships: Seq<RelationshipView>) -> FindingView {
    FindingView {
        evidence: enriched_evidence(finding, relationships, relationships.len() as int),
        ..finding
    }
}

fn contains_line(lines: &Vec<String>, line: &str) -> (result: bool)
    ensures
        result == order::views(lines@).contains(line@),
{
    let ghost all = order::views(lines@);
    let mut at: usize = 0;
    while at < lines.len()
        invariant
            at <= lines.len(),
            all == order::views(lines@),
            forall|i: int| 0 <= i < at ==> all[i] != line@,
        decreases lines.len() - at,
    {
        assert(all[at as int] == lines@[at as int]@);
        if text::same_text(lines[at].as_str(), line) {
            return true;
        }
        at = at + 1;
    }
    false
}

fn enrich(finding: &mut Finding, relationships: &Vec<Relationship>)
    ensures
        final(finding)@ == enriched(old(finding)@, order::views(relationships@)),
{
    let ghost whole = finding@;
    let ghost all = order::views(relationships@);
    let mut at: usize = 0;
    while at < relationships.len()
        invariant
            at <= relationships.len(),
            all == order::views(relationships@),
            finding@ == (FindingView { evidence: enriched_evidence(whole, all, at as int), ..whole }),
        decreases relationships.len() - at,
    {
        let relationship = &relationships[at];
        assert(all[at as int] == relationship@);
        let related = if relationship.source_path.same(&finding.path) {
            Some(&relationship.target_path)
        } else if relationship.target_path.same(&finding.path) {
            Some(&relationship.source_path)
        } else {
            None
        };
        if let Some(other) = related {
            let line = text::cat3(
                relationship_evidence_label(relationship.kind),
                ": ",
                other.display().as_str(),
            );
            if !contains_line(&finding.evidence, line.as_str()) {
                proof {
                    order::lemma_views_push(finding.evidence@, line);
                }
                finding.evidence.push(line);
            }
        }
        at = at + 1;
    }
}

/// Adds the relationships of each finding's item to its evidence.
pub fn enrich_findings_with_relationships(findings: &mut Vec<Finding>, report: &RelationshipReport)
    ensures
        order::views(final(findings)@) == Seq::new(
            old(findings)@.len(),
            |i: int| enriched(order::views(old(findings)@)[i], report@.relationships),
        ),
{
    let ghost source = order::views(findings@);
    let ghost all = report@.relationships;
    let mut at: usize = 0;
    while at < findings.len()
        invariant
            at <= findings@.len(),
            findings@.len() == source.len(),
            all == order::views(report.relationships@),
            forall|i: int|
                0 <= i < at ==> (#[trigger] findings@[i])@ == enriched(source[i], all),
            forall|i: int| at <= i < source.len() ==> (#[trigger] findings@[i])@ == source[i],
        decreases findings@.len() - at,
    {
        enrich(&mut findings[at], &report.relationships);
        at = at + 1;
    }
    proof {
        assert(order::views(findings@) =~= Seq::new(
            source.len(),
            |i: int| enriched(source[i], all),
        ));
    }
}

proof fn lemma_evidence_grows(
    finding: FindingView,
    relationships: Seq<RelationshipView>,
    count: int,
)
    requires
        count <= relationships.len(),
    ensures
        finding.evidence.is_prefix_of(enriched_evidence(finding, relationships, count)),
        forall|k: int|
            0 <= k < count ==> match other_end(#[trigger] relationships[k], finding.path) {
                Some(related) => enriched_evidence(finding, relationships, count).contains(
                    evidence_label(relationships[k].kind) + ": "@ + path::spelled(related.spelling),
                ),
                None => true,
            },
    decreases count,
{
    if count > 0 {
        lemma_evidence_grows(finding, relationships, count - 1);
        let before = enriched_evidence(finding, relationships, count - 1);
        let after = enriched_evidence(finding, relationships, count);
        assert forall|line: Seq<char>| before.contains(line) implies #[trigger] after.contains(
            line,
        ) by {
            let at = choose|at: int| 0 <= at < before.len() && before[at] == line;
            assert(after[at] == line);
        }
        assert forall|k: int| 0 <= k < count implies match other_end(
            #[trigger] relationships[k],
            finding.path,
        ) {
            Some(related) => after.contains(
                evidence_label(relationships[k].kind) + ": "@ + path::spelled(related.spelling),
            ),
            None => true,
        } by {
            if k == count - 1 {
                if let Some(related) = other_end(relationships[k], finding.path) {
                    let line = evidence_label(relationships[k].kind) + ": "@ + path::spelled(related.spelling);
                    if !before.contains(line) {
                        assert(after[after.len() - 1] == line);
                    }
                }
            }
        }
    }
}

/// Relationships only add to the evidence of a finding. They change neither
/// what it is about nor its risk, its confidence or its action, and nothing
/// that spoke for it before is lost.
pub proof fn law_relationships_only_add_evidence(
    finding: FindingView,
    relationships: Seq<RelationshipView>,
)
    ensures
        enriched(finding, relationships) == (FindingView {
            evidence: enriched(finding, relationships).evidence,
            ..finding
        }),
        finding.evidence.is_prefix_of(enriched(finding, relationships).evidence),
{
    lemma_evidence_grows(finding, relationships, relationships.len() as int);
}

proof fn lemma_enriched_again(
    finding: FindingView,
    relationships: Seq<RelationshipView>,
    count: int,
)
    requires
        count <= relationships.len(),
    ensures
        enriched_evidence(enriched(finding, relationships), relationships, count) == enriched(
            finding,
            relationships,
        ).evidence,
    decreases count,
{
    if count > 0 {
        lemma_enriched_again(finding, relationships, count - 1);
        lemma_evidence_grows(finding, relationships, relationships.len() as int);
        let last = relationships[count - 1];
        if let Some(related) = other_end(last, finding.path) {
            assert(enriched(finding, relationships).evidence.contains(
                evidence_label(last.kind) + ": "@ + path::spelled(related.spelling),
            ));
        }
    }
}

/// Adding the same relationships again adds nothing.
pub proof fn law_enriching_twice_adds_nothing(
    finding: FindingView,
    relationships: Seq<RelationshipView>,
)
    ensures
        enriched(enriched(finding, relationships), relationships) == enriched(
            finding,
            relationships,
        ),
{
    lemma_enriched_again(finding, relationships, relationships.len() as int);
}

pub proof fn lemma_kept_are_distinct(list: Seq<RelationshipView>)
    requires
        order::is_ordered(list, relationship_order()),
    ensures
        deduplicated(list).len() <= list.len(),
        list.len() > 0 ==> deduplicated(list).len() > 0 && same_connection(
            deduplicated(list).last(),
            list.last(),
        ),
        forall|i: int|
            0 <= i < deduplicated(list).len() ==> list.contains(#[trigger] deduplicated(list)[i]),
        forall|i: int, j: int|
            0 <= i < j < deduplicated(list).len() ==> relationship_at_most(
                #[trigger] deduplicated(list)[i],
                #[trigger] deduplicated(list)[j],
            ) && !same_connection(deduplicated(list)[i], deduplicated(list)[j]),
    decreases list.len(),
{
    if list.len() > 0 {
        let shorter = list.drop_last();
        assert(order::is_ordered(shorter, relationship_order())) by {
            assert(forall|i: int| 0 <= i < shorter.len() ==> shorter[i] == list[i]);
        }
        lemma_kept_are_distinct(shorter);
        let kept = deduplicated(shorter);
        let after = deduplicated(list);
        let last = list.last();
        assert(list[list.len() - 1] == last);
        assert forall|i: int| 0 <= i < after.len() implies list.contains(#[trigger] after[i]) by {
            if i < kept.len() {
                assert(shorter.contains(kept[i]));
                let at = choose|at: int| 0 <= at < shorter.len() && shorter[at] == kept[i];
                assert(list[at] == kept[i]);
            }
        }
        assert forall|i: int, j: int| 0 <= i < j < after.len() implies relationship_at_most(
            #[trigger] after[i],
            #[trigger] after[j],
        ) && !same_connection(after[i], after[j]) by {
            if j < kept.len() {
                assert(after[i] == kept[i] && after[j] == kept[j]);
            } else {
                assert(after[i] == kept[i] && after[j] == last);
                assert(shorter.contains(kept[i]));
                let at = choose|at: int| 0 <= at < shorter.len() && shorter[at] == kept[i];
                let le = relationship_order();
                assert(le(list[at], list[list.len() - 1]));
                if same_connection(kept[i], last) {
                    let end = kept.last();
                    if i < kept.len() - 1 {
                        assert(relationship_at_most(kept[i], kept[kept.len() - 1]));
                        assert(!same_connection(kept[i], kept[kept.len() - 1]));
                        assert(le(shorter[shorter.len() - 1], last)) by {
                            assert(le(list[list.len() - 2], list[list.len() - 1]));
                        }
                        assert(relationship_at_most(end, last));
                        path::law_paths_are_totally_ordered(end.source_path, last.source_path);
                        path::law_paths_are_totally_ordered(end.target_path, last.target_path);
                    }
                }
            }
        }
    }
}

/// No connection is reported twice, and the report is in order.
pub proof fn law_no_connection_is_reported_twice(
    items: Seq<ItemView>,
    groups: Seq<GroupView>,
    first: int,
    second: int,
)
    requires
        0 <= first < second < report_of(items, groups).relationships.len(),
    ensures
        relationship_at_most(
            report_of(items, groups).relationships[first],
            report_of(items, groups).relationships[second],
        ),
        !same_connection(
            report_of(items, groups).relationships[first],
            report_of(items, groups).relationships[second],
        ),
{
    let all = found(items, groups, (items.len() + groups.len()) as int);
    lemma_relationship_order();
    order::law_sorted_is_an_ordered_permutation(all, relationship_order());
    lemma_kept_are_distinct(order::sorted(all, relationship_order()));
}

} // verus!
