//! What relationships connect.

use crate::index;
use crate::model::{
    Confidence, EntryView, FindingView, GroupView, ItemKind, ItemView, RelationshipKind,
    RelationshipView,
};
use crate::names;
use crate::order;
use crate::path;
use crate::path::PartView;
use crate::relationships;
use crate::text;
use vstd::prelude::*;

verus! {

/// The name of a path in small letters as it is shown.
pub open spec fn shown_name(given: Seq<PartView>) -> Seq<char> {
    if given.len() > 0 && given.last() is Name {
        text::lowered(text::lossy_text(given.last()->Name_0))
    } else {
        Seq::empty()
    }
}

/// Whether a path stands in a directory.
pub open spec fn stands_in(given: Seq<PartView>, directory: Seq<PartView>) -> bool {
    &&& given.len() > 0
    &&& !(given.last() is Root)
    &&& given.drop_last() == directory
}

/// Whether two paths stand in one directory.
pub open spec fn stand_together(left: Seq<PartView>, right: Seq<PartView>) -> bool {
    stands_in(left, left.drop_last()) && stands_in(right, left.drop_last())
}

/// Whether a relationship connects two items of a scan.
pub open spec fn connects(
    relationship: RelationshipView,
    kind: RelationshipKind,
    source: ItemView,
    target: ItemView,
) -> bool {
    &&& relationship.kind == kind
    &&& relationship.source_path == source.path
    &&& relationship.source_spelling == source.spelling
    &&& relationship.target_path == target.path
    &&& relationship.target_spelling == target.spelling
}

proof fn lemma_found_source(
    items: Seq<ItemView>,
    groups: Seq<GroupView>,
    steps: int,
    one: RelationshipView,
) -> (step: int)
    requires
        0 <= steps <= items.len() + groups.len(),
        relationships::found(items, groups, steps).contains(one),
    ensures
        0 <= step < steps,
        step < items.len() ==> relationships::item_relationships(items, items[step]).contains(one),
        step >= items.len() ==> relationships::copies(
            groups[step - items.len()],
            groups[step - items.len()].entries.len() as int,
        ).contains(one),
    decreases steps,
{
    let all = relationships::found(items, groups, steps);
    let k = choose|k: int| 0 <= k < all.len() && all[k] == one;
    if steps <= 0 {
        0
    } else {
        let before = relationships::found(items, groups, steps - 1);
        if k < before.len() {
            assert(before[k] == one);
            lemma_found_source(items, groups, steps - 1, one)
        } else {
            let step = steps - 1;
            let more = if step < items.len() {
                relationships::item_relationships(items, items[step])
            } else {
                relationships::copies(
                    groups[step - items.len()],
                    groups[step - items.len()].entries.len() as int,
                )
            };
            assert(all == before + more);
            assert(more[k - before.len()] == one);
            step
        }
    }
}

proof fn lemma_found_has(
    items: Seq<ItemView>,
    groups: Seq<GroupView>,
    steps: int,
    step: int,
    one: RelationshipView,
)
    requires
        0 <= step < steps <= items.len() + groups.len(),
        step < items.len() ==> relationships::item_relationships(items, items[step]).contains(one),
        step >= items.len() ==> relationships::copies(
            groups[step - items.len()],
            groups[step - items.len()].entries.len() as int,
        ).contains(one),
    ensures
        relationships::found(items, groups, steps).contains(one),
    decreases steps,
{
    let before = relationships::found(items, groups, steps - 1);
    let after = relationships::found(items, groups, steps);
    if step == steps - 1 {
        let more = if step < items.len() {
            relationships::item_relationships(items, items[step])
        } else {
            relationships::copies(
                groups[step - items.len()],
                groups[step - items.len()].entries.len() as int,
            )
        };
        assert(after == before + more);
        let k = choose|k: int| 0 <= k < more.len() && more[k] == one;
        assert(after[before.len() + k] == one);
    } else {
        lemma_found_has(items, groups, steps - 1, step, one);
        let k = choose|k: int| 0 <= k < before.len() && before[k] == one;
        assert(after[k] == one);
    }
}

proof fn lemma_kept_has(list: Seq<RelationshipView>, at: int) -> (kept: int)
    requires
        0 <= at < list.len(),
        order::is_ordered(list, relationships::relationship_order()),
    ensures
        0 <= kept < relationships::deduplicated(list).len(),
        relationships::same_connection(relationships::deduplicated(list)[kept], list[at]),
    decreases list.len(),
{
    let front = list.drop_last();
    assert(order::is_ordered(front, relationships::relationship_order())) by {
        assert(forall|i: int| 0 <= i < front.len() ==> front[i] == list[i]);
    }
    let before = relationships::deduplicated(front);
    let after = relationships::deduplicated(list);
    if at < front.len() {
        let kept = lemma_kept_has(front, at);
        assert(after[kept] == before[kept]);
        kept
    } else {
        relationships::lemma_kept_are_distinct(list);
        after.len() - 1
    }
}

/// What is found in an item or a group is reported.
proof fn lemma_reported(
    items: Seq<ItemView>,
    groups: Seq<GroupView>,
    step: int,
    one: RelationshipView,
)
    requires
        0 <= step < items.len() + groups.len(),
        step < items.len() ==> relationships::item_relationships(items, items[step]).contains(one),
        step >= items.len() ==> relationships::copies(
            groups[step - items.len()],
            groups[step - items.len()].entries.len() as int,
        ).contains(one),
    ensures
        exists|k: int|
            0 <= k < relationships::report_of(items, groups).relationships.len()
                && relationships::same_connection(
                #[trigger] relationships::report_of(items, groups).relationships[k],
                one,
            ),
{
    let steps = items.len() + groups.len();
    let all = relationships::found(items, groups, steps as int);
    let le = relationships::relationship_order();
    lemma_found_has(items, groups, steps as int, step, one);
    relationships::lemma_relationship_order();
    order::law_sorted_is_an_ordered_permutation(all, le);
    order::lemma_sorted_contains(all, one, le);
    let sorted = order::sorted(all, le);
    let at = choose|at: int| 0 <= at < sorted.len() && sorted[at] == one;
    let k = lemma_kept_has(sorted, at);
    assert(relationships::same_connection(
        relationships::report_of(items, groups).relationships[k],
        one,
    ));
}

/// What is reported was found in an item or a group.
proof fn lemma_report_source(
    items: Seq<ItemView>,
    groups: Seq<GroupView>,
    one: RelationshipView,
) -> (step: int)
    requires
        relationships::report_of(items, groups).relationships.contains(one),
    ensures
        0 <= step < items.len() + groups.len(),
        step < items.len() ==> relationships::item_relationships(items, items[step]).contains(one),
        step >= items.len() ==> relationships::copies(
            groups[step - items.len()],
            groups[step - items.len()].entries.len() as int,
        ).contains(one),
{
    let steps = items.len() + groups.len();
    let all = relationships::found(items, groups, steps as int);
    let le = relationships::relationship_order();
    relationships::lemma_relationship_order();
    order::law_sorted_is_an_ordered_permutation(all, le);
    let sorted = order::sorted(all, le);
    relationships::lemma_kept_are_distinct(sorted);
    let kept = relationships::deduplicated(sorted);
    let k = choose|k: int| 0 <= k < kept.len() && kept[k] == one;
    assert(sorted.contains(kept[k]));
    order::lemma_sorted_contains(all, one, le);
    lemma_found_source(items, groups, steps as int, one)
}

proof fn lemma_first_where(
    items: Seq<ItemView>,
    condition: spec_fn(ItemView) -> bool,
) -> (at: int)
    requires
        index::first(items, condition) is Some,
    ensures
        index::is_first(items, condition, at),
        index::first(items, condition) == Some(items[at]),
{
    choose|at: int| index::is_first(items, condition, at)
}

proof fn lemma_least_where(
    items: Seq<ItemView>,
    condition: spec_fn(ItemView) -> bool,
) -> (at: int)
    requires
        index::least(items, condition) is Some,
    ensures
        index::is_least(items, condition, at),
        index::least(items, condition) == Some(items[at]),
{
    choose|at: int| index::is_least(items, condition, at)
}

/// Where an item satisfies a condition, one of the first path does.
proof fn lemma_some_least(
    items: Seq<ItemView>,
    condition: spec_fn(ItemView) -> bool,
    count: int,
    some: int,
) -> (at: int)
    requires
        0 <= some < count <= items.len(),
        condition(items[some]),
    ensures
        0 <= at < count,
        condition(items[at]),
        forall|i: int|
            0 <= i < count && condition(#[trigger] items[i]) ==> path::at_most(
                items[at].path,
                items[i].path,
            ) && (items[i].path == items[at].path ==> at <= i),
    decreases count,
{
    if exists|i: int| 0 <= i < count - 1 && condition(#[trigger] items[i]) {
        let other = choose|i: int| 0 <= i < count - 1 && condition(#[trigger] items[i]);
        let best = lemma_some_least(items, condition, count - 1, other);
        let last = count - 1;
        path::law_paths_are_totally_ordered(items[best].path, items[last].path);
        if condition(items[last]) && !path::at_most(items[best].path, items[last].path) {
            assert forall|i: int| 0 <= i < count && condition(#[trigger] items[i]) implies path::at_most(
                items[last].path,
                items[i].path,
            ) && (items[i].path == items[last].path ==> last <= i) by {
                if i < last {
                    assert(path::at_most(items[best].path, items[i].path));
                    path::lemma_at_most_transitive(
                        items[last].path,
                        items[best].path,
                        items[i].path,
                    );
                }
                path::law_paths_are_totally_ordered(items[last].path, items[i].path);
            }
            last
        } else {
            best
        }
    } else {
        assert(some == count - 1);
        path::law_paths_are_totally_ordered(items[some].path, items[some].path);
        some
    }
}

proof fn lemma_shown(given: Seq<PartView>)
    ensures
        names::lower_name(given) == shown_name(given),
        text::lowered(shown_name(given)) == shown_name(given),
        path::file_name(given) is Some <==> given.len() > 0 && given.last() is Name,
{
    assert(text::lowered(shown_name(given)) =~= shown_name(given));
}

proof fn lemma_child(item: ItemView, directory: Seq<PartView>)
    ensures
        index::is_child(item, directory) <==> stands_in(item.path, directory),
{
}

/// Whether some text is the ending of an archive's name.
pub open spec fn ends_archives(suffix: Seq<char>) -> bool {
    ||| suffix == ".tar.gz"@
    ||| suffix == ".tar.bz2"@
    ||| suffix == ".tar.xz"@
    ||| suffix == ".tar.zst"@
    ||| suffix == ".tbz2"@
    ||| suffix == ".tgz"@
    ||| suffix == ".txz"@
    ||| suffix == ".zip"@
    ||| suffix == ".7z"@
    ||| suffix == ".rar"@
    ||| suffix == ".tar"@
    ||| suffix == ".gz"@
    ||| suffix == ".bz2"@
    ||| suffix == ".xz"@
    ||| suffix == ".zst"@
}

/// Whether a name is made of something and an ending, the longest that an
/// archive's name can be taken to have.
pub open spec fn is_archived(base: Seq<char>, suffix: Seq<char>, name: Seq<char>) -> bool {
    &&& ends_archives(suffix)
    &&& base.len() > 0
    &&& name == base + suffix
    &&& forall|other: Seq<char>| #[trigger]
        ends_archives(other) && other.is_suffix_of(name) ==> other.len() <= suffix.len()
}

proof fn lemma_archive_list(suffix: Seq<char>)
    ensures
        ends_archives(suffix) <==> relationships::archive_suffixes().contains(suffix),
{
    let list = relationships::archive_suffixes();
    assert(list[0] == ".tar.gz"@ && list[1] == ".tar.bz2"@ && list[2] == ".tar.xz"@ && list[3]
        == ".tar.zst"@ && list[4] == ".tbz2"@ && list[5] == ".tgz"@ && list[6] == ".txz"@ && list[7]
        == ".zip"@ && list[8] == ".7z"@ && list[9] == ".rar"@ && list[10] == ".tar"@ && list[11]
        == ".gz"@ && list[12] == ".bz2"@ && list[13] == ".xz"@ && list[14] == ".zst"@);
}

/// Of two endings in the list the shorter does not come first where both may
/// end one name.
proof fn lemma_archive_order(early: int, late: int)
    requires
        0 <= early < late < relationships::archive_suffixes().len(),
        relationships::archive_suffixes()[early].len()
            < relationships::archive_suffixes()[late].len(),
    ensures
        relationships::archive_suffixes()[early].len() > 0,
        relationships::archive_suffixes()[late].len() > 0,
        relationships::archive_suffixes()[early].last()
            != relationships::archive_suffixes()[late].last(),
{
    reveal_strlit(".tar.gz");
    reveal_strlit(".tar.bz2");
    reveal_strlit(".tar.xz");
    reveal_strlit(".tar.zst");
    reveal_strlit(".tbz2");
    reveal_strlit(".tgz");
    reveal_strlit(".txz");
    reveal_strlit(".zip");
    reveal_strlit(".7z");
    reveal_strlit(".rar");
    reveal_strlit(".tar");
    reveal_strlit(".gz");
    reveal_strlit(".bz2");
    reveal_strlit(".xz");
    reveal_strlit(".zst");
    let list = relationships::archive_suffixes();
    assert(list[0].last() == 'z' && list[1].last() == '2' && list[2].last() == 'z'
        && list[3].last() == 't' && list[4].last() == '2' && list[5].last() == 'z'
        && list[6].last() == 'z' && list[7].last() == 'p' && list[8].last() == 'z'
        && list[9].last() == 'r' && list[10].last() == 'r' && list[11].last() == 'z'
        && list[12].last() == '2' && list[13].last() == 'z' && list[14].last() == 't');
    assert(list[0].len() == 7 && list[1].len() == 8 && list[2].len() == 7 && list[3].len() == 8
        && list[4].len() == 5 && list[5].len() == 4 && list[6].len() == 4 && list[7].len() == 4
        && list[8].len() == 3 && list[9].len() == 4 && list[10].len() == 4 && list[11].len() == 3
        && list[12].len() == 4 && list[13].len() == 3 && list[14].len() == 4);
}

/// What stands in front of the first ending in a list.
proof fn lemma_without(name: Seq<char>, suffixes: Seq<Seq<char>>, from: int) -> (at: int)
    requires
        0 <= from <= suffixes.len(),
    ensures
        names::without_suffix(name, suffixes, from) is Some ==> {
            &&& from <= at < suffixes.len()
            &&& suffixes[at].is_suffix_of(name)
            &&& name == names::without_suffix(name, suffixes, from)->Some_0 + suffixes[at]
            &&& forall|i: int| from <= i < at ==> !(#[trigger] suffixes[i]).is_suffix_of(name)
        },
        names::without_suffix(name, suffixes, from) is None ==> forall|i: int|
            from <= i < suffixes.len() ==> !(#[trigger] suffixes[i]).is_suffix_of(name),
    decreases suffixes.len() - from,
{
    if from < suffixes.len() {
        lemma_ends(name, suffixes[from]);
        if text::ends(name, suffixes[from]) {
            assert(name =~= name.take(name.len() - suffixes[from].len()) + suffixes[from]);
            from
        } else {
            lemma_without(name, suffixes, from + 1)
        }
    } else {
        from
    }
}

proof fn lemma_ends(name: Seq<char>, suffix: Seq<char>)
    ensures
        text::ends(name, suffix) == suffix.is_suffix_of(name),
{
    if suffix.len() <= name.len() {
        assert(name.skip(name.len() - suffix.len()) =~= name.subrange(
            name.len() - suffix.len(),
            name.len() as int,
        ));
    }
}

proof fn lemma_archived(base: Seq<char>, suffix: Seq<char>, name: Seq<char>)
    requires
        is_archived(base, suffix, name),
    ensures
        names::base_name(name, relationships::archive_suffixes()) == Some(base),
{
    let list = relationships::archive_suffixes();
    lemma_archive_list(suffix);
    let k = choose|k: int| 0 <= k < list.len() && list[k] == suffix;
    assert(suffix.is_suffix_of(name)) by {
        assert(suffix =~= name.subrange(name.len() - suffix.len(), name.len() as int));
    }
    let at = lemma_without(name, list, 0);
    if names::without_suffix(name, list, 0) is None {
        assert(!list[k].is_suffix_of(name));
    }
    assert(list.contains(list[at]));
    lemma_archive_list(list[at]);
    assert(list[at].len() <= suffix.len());
    if list[at].len() < suffix.len() {
        if at < k {
            lemma_archive_order(at, k);
            assert(list[at].last() == name.last() && suffix.last() == name.last());
        } else {
            assert(!list[k].is_suffix_of(name));
        }
    } else {
        assert(list[at] =~= suffix);
    }
    let front = names::without_suffix(name, list, 0)->Some_0;
    assert(name.len() == front.len() + suffix.len());
    assert forall|i: int| 0 <= i < base.len() implies front[i] == base[i] by {
        assert(name[i] == (front + suffix)[i]);
        assert(name[i] == (base + suffix)[i]);
    }
    assert(front =~= base);
}

/// A relationship of an archive to its contents leads from a file to a
/// directory that stands beside it and has its name without the ending of an
/// archive.
pub proof fn law_archives_are_related_to_directories_of_their_names(
    items: Seq<ItemView>,
    groups: Seq<GroupView>,
    one: RelationshipView,
)
    requires
        relationships::report_of(items, groups).relationships.contains(one),
        one.kind is ArchiveExtractedDirectory,
    ensures
        exists|s: int, t: int|
            {
                &&& 0 <= s < items.len()
                &&& 0 <= t < items.len()
                &&& connects(
                    one,
                    RelationshipKind::ArchiveExtractedDirectory,
                    #[trigger] items[s],
                    #[trigger] items[t],
                )
                &&& items[s].kind == ItemKind::File
                &&& items[t].kind == ItemKind::Directory
                &&& stand_together(items[s].path, items[t].path)
            },
        exists|suffix: Seq<char>| #[trigger]
            ends_archives(suffix) && shown_name(one.source_path) == shown_name(one.target_path)
                + suffix,
        shown_name(one.target_path).len() > 0,
        one.confidence == (Confidence { bits: 0x3F75_C28F }),
{
    let s = lemma_report_source(items, groups, one);
    if s >= items.len() {
        lemma_copies_kind(groups[s - items.len()], groups[s - items.len()].entries.len() as int, one);
    }
    let item = items[s];
    lemma_shown(item.path);
    let list = relationships::archive_suffixes();
    let name = names::lower_name(item.path);
    let all = relationships::item_relationships(items, item);
    let k = choose|k: int| 0 <= k < all.len() && all[k] == one;
    assert(all[k] == one);
    let at = lemma_without(name, list, 0);
    let base = names::base_name(name, list)->Some_0;
    let parent = path::parent(item.path)->Some_0;
    let wanted = relationships::child_named(parent, base, ItemKind::Directory);
    assert(relationships::archive_relationship(items, item).len() > 0);
    assert(relationships::archive_relationship(items, item)[0] == one);
    let t = lemma_first_where(items, wanted);
    lemma_shown(items[t].path);
    assert(text::lowered(base) =~= base) by {
        assert forall|i: int| 0 <= i < base.len() implies text::lower_char(base[i])
            == base[i] by {
            assert(text::lowered(name)[i] == name[i]);
            assert(name[i] == base[i]);
        }
    }
    assert(wanted(items[t]));
    assert(list.contains(list[at]));
    lemma_archive_list(list[at]);
    assert(ends_archives(list[at]));
    assert(connects(one, RelationshipKind::ArchiveExtractedDirectory, items[s], items[t]));
}

proof fn lemma_copies_kind(group: GroupView, count: int, one: RelationshipView)
    requires
        relationships::copies(group, count).contains(one),
    ensures
        one.kind == RelationshipKind::ExactDuplicate,
    decreases count,
{
    let all = relationships::copies(group, count);
    let k = choose|k: int| 0 <= k < all.len() && all[k] == one;
    if count > 1 {
        let before = relationships::copies(group, count - 1);
        if k < before.len() {
            assert(before[k] == one);
            lemma_copies_kind(group, count - 1, one);
        }
    }
}

/// A file that has the name of a directory beside it and the ending of an
/// archive is reported as the archive of such a directory.
pub proof fn law_archives_beside_their_contents_are_found(
    items: Seq<ItemView>,
    groups: Seq<GroupView>,
    s: int,
    t: int,
    suffix: Seq<char>,
)
    requires
        0 <= s < items.len(),
        0 <= t < items.len(),
        items[s].kind == ItemKind::File,
        items[t].kind == ItemKind::Directory,
        stand_together(items[s].path, items[t].path),
        is_archived(shown_name(items[t].path), suffix, shown_name(items[s].path)),
    ensures
        exists|one: RelationshipView|
            {
                &&& #[trigger] relationships::report_of(items, groups).relationships.contains(one)
                &&& one.kind == RelationshipKind::ArchiveExtractedDirectory
                &&& one.source_path == items[s].path
                &&& stand_together(items[s].path, one.target_path)
                &&& shown_name(one.target_path) == shown_name(items[t].path)
            },
{
    let item = items[s];
    let base = shown_name(items[t].path);
    lemma_shown(item.path);
    lemma_shown(items[t].path);
    lemma_archived(base, suffix, shown_name(item.path));
    let parent = item.path.drop_last();
    let wanted = relationships::child_named(parent, base, ItemKind::Directory);
    assert(wanted(items[t]));
    index::lemma_some_first(items, wanted, t);
    let d = lemma_first_where(items, wanted);
    lemma_shown(items[d].path);
    let one = relationships::archive_relationship(items, item)[0];
    assert(relationships::item_relationships(items, item)[0] == one);
    assert(wanted(items[d]));
    lemma_reported(items, groups, s, one);
    let all = relationships::report_of(items, groups).relationships;
    let k = choose|k: int|
        0 <= k < all.len() && relationships::same_connection(#[trigger] all[k], one);
    assert(all.contains(all[k]));
    assert(all[k].kind == RelationshipKind::ArchiveExtractedDirectory);
}

/// Whether a file's name is that of a manifest of a project whose build output
/// has a name.
pub open spec fn makes_a_project(directory: Seq<char>, manifest: Seq<char>) -> bool {
    ||| directory == "node_modules"@ && manifest == text::lowered("package.json"@)
    ||| directory == "target"@ && manifest == text::lowered("Cargo.toml"@)
    ||| (directory == "build"@ || directory == "dist"@) && {
        ||| manifest == text::lowered("Cargo.toml"@)
        ||| manifest == text::lowered("package.json"@)
        ||| manifest == text::lowered("build.gradle"@)
        ||| manifest == text::lowered("build.gradle.kts"@)
        ||| manifest == text::lowered("settings.gradle"@)
        ||| manifest == text::lowered("settings.gradle.kts"@)
        ||| manifest == text::lowered("CMakeLists.txt"@)
        ||| manifest == text::lowered("pyproject.toml"@)
    }
}

proof fn lemma_manifests(directory: Seq<char>, manifest: Seq<char>)
    ensures
        makes_a_project(directory, manifest) <==> exists|i: int|
            0 <= i < relationships::manifest_names(directory).len() && manifest == text::lowered(
                #[trigger] relationships::manifest_names(directory)[i],
            ),
{
    reveal_strlit("node_modules");
    reveal_strlit("target");
    reveal_strlit("build");
    reveal_strlit("dist");
    assert("node_modules"@.len() == 12 && "target"@.len() == 6 && "build"@.len() == 5
        && "dist"@.len() == 4);
    let list = relationships::manifest_names(directory);
    if directory == "node_modules"@ {
        assert(list[0] == "package.json"@);
    } else if directory == "target"@ {
        assert(list[0] == "Cargo.toml"@);
    } else if directory == "build"@ || directory == "dist"@ {
        assert(list[0] == "Cargo.toml"@ && list[1] == "package.json"@ && list[2] == "build.gradle"@
            && list[3] == "build.gradle.kts"@ && list[4] == "settings.gradle"@ && list[5]
            == "settings.gradle.kts"@ && list[6] == "CMakeLists.txt"@ && list[7]
            == "pyproject.toml"@);
    }
}

proof fn lemma_first_manifest(
    items: Seq<ItemView>,
    directory: Seq<PartView>,
    manifests: Seq<Seq<char>>,
    from: int,
)
    requires
        0 <= from <= manifests.len(),
    ensures
        relationships::first_manifest(items, directory, manifests, from) is Some <==> exists|
            i: int,
            m: int,
        |
            {
                &&& from <= i < manifests.len()
                &&& 0 <= m < items.len()
                &&& #[trigger] relationships::child_named(directory, manifests[i], ItemKind::File)(
                    #[trigger] items[m],
                )
            },
    decreases manifests.len() - from,
{
    if from < manifests.len() {
        lemma_first_manifest(items, directory, manifests, from + 1);
        let wanted = relationships::child_named(directory, manifests[from], ItemKind::File);
        if index::first(items, wanted) is Some {
            let m = lemma_first_where(items, wanted);
            assert(relationships::child_named(directory, manifests[from], ItemKind::File)(
                items[m],
            ));
        } else {
            assert forall|m: int| 0 <= m < items.len() implies !wanted(#[trigger] items[m]) by {
                if wanted(items[m]) {
                    index::lemma_some_first(items, wanted, m);
                }
            }
        }
    }
}

/// Whether a file of the scan makes the directory that a path stands in the
/// project that the path is the build output of.
pub open spec fn has_a_project(items: Seq<ItemView>, given: Seq<PartView>) -> bool {
    exists|m: int|
        {
            &&& 0 <= m < items.len()
            &&& (#[trigger] items[m]).kind == ItemKind::File
            &&& items[m].path.len() > 0
            &&& items[m].path.last() is Name
            &&& stands_in(items[m].path, given.drop_last())
            &&& makes_a_project(shown_name(given), shown_name(items[m].path))
        }
}

proof fn lemma_project(items: Seq<ItemView>, item: ItemView)
    requires
        stands_in(item.path, item.path.drop_last()),
    ensures
        relationships::first_manifest(
            items,
            item.path.drop_last(),
            relationships::manifest_names(names::lower_name(item.path)),
            0,
        ) is Some <==> has_a_project(items, item.path),
{
    let directory = item.path.drop_last();
    let name = shown_name(item.path);
    lemma_shown(item.path);
    let list = relationships::manifest_names(name);
    lemma_first_manifest(items, directory, list, 0);
    if relationships::first_manifest(items, directory, list, 0) is Some {
        let (i, m) = choose|i: int, m: int|
            {
                &&& 0 <= i < list.len()
                &&& 0 <= m < items.len()
                &&& #[trigger] relationships::child_named(directory, list[i], ItemKind::File)(
                    #[trigger] items[m],
                )
            };
        lemma_shown(items[m].path);
        lemma_manifests(name, shown_name(items[m].path));
        assert(items[m].kind == ItemKind::File);
    }
    if has_a_project(items, item.path) {
        let m = choose|m: int|
            {
                &&& 0 <= m < items.len()
                &&& (#[trigger] items[m]).kind == ItemKind::File
                &&& items[m].path.len() > 0
                &&& items[m].path.last() is Name
                &&& stands_in(items[m].path, directory)
                &&& makes_a_project(name, shown_name(items[m].path))
            };
        lemma_shown(items[m].path);
        lemma_manifests(name, shown_name(items[m].path));
        let i = choose|i: int|
            0 <= i < list.len() && shown_name(items[m].path) == text::lowered(#[trigger] list[i]);
        assert(relationships::child_named(directory, list[i], ItemKind::File)(items[m]));
    }
}

/// A directory is reported as the build output of the project that it stands
/// in where a manifest stands there that fits its name, and only then.
pub proof fn law_build_output_is_related_to_its_project(
    items: Seq<ItemView>,
    groups: Seq<GroupView>,
    s: int,
    one: RelationshipView,
)
    requires
        0 <= s < items.len(),
    ensures
        items[s].kind == ItemKind::Directory && stands_in(items[s].path, items[s].path.drop_last())
            && has_a_project(items, items[s].path) ==> exists|found: RelationshipView|
            {
                &&& #[trigger] relationships::report_of(items, groups).relationships.contains(found)
                &&& found.kind == RelationshipKind::BuildDirectoryProject
                &&& found.source_path == items[s].path
                &&& found.target_path == items[s].path.drop_last()
            },
        relationships::report_of(items, groups).relationships.contains(one)
            && one.kind is BuildDirectoryProject ==> {
            &&& stands_in(one.source_path, one.target_path)
            &&& has_a_project(items, one.source_path)
            &&& one.confidence == (Confidence { bits: 0x3F7D_70A4 })
            &&& exists|d: int|
                0 <= d < items.len() && (#[trigger] items[d]).kind == ItemKind::Directory
                    && items[d].path == one.source_path && items[d].spelling == one.source_spelling
        },
{
    let all = relationships::report_of(items, groups).relationships;
    if items[s].kind == ItemKind::Directory && stands_in(
        items[s].path,
        items[s].path.drop_last(),
    ) && has_a_project(items, items[s].path) {
        lemma_project(items, items[s]);
        let found = relationships::build_relationship(items, items[s])[0];
        assert(relationships::item_relationships(items, items[s])[0] == found);
        lemma_reported(items, groups, s, found);
        let k = choose|k: int|
            0 <= k < all.len() && relationships::same_connection(#[trigger] all[k], found);
        assert(all.contains(all[k]));
    }
    if all.contains(one) && one.kind is BuildDirectoryProject {
        let d = lemma_report_source(items, groups, one);
        if d >= items.len() {
            lemma_copies_kind(
                groups[d - items.len()],
                groups[d - items.len()].entries.len() as int,
                one,
            );
        }
        let found = relationships::item_relationships(items, items[d]);
        let k = choose|k: int| 0 <= k < found.len() && found[k] == one;
        assert(found[k] == one);
        assert(relationships::build_relationship(items, items[d]).len() > 0);
        lemma_project(items, items[d]);
        assert(items[d].kind == ItemKind::Directory);
    }
}

/// The relationship of an emulator leads from a directory whose name ends in
/// `.avd` to the file beside it that has `.ini` there, and where such a file
/// stands it is reported.
pub proof fn law_emulators_are_related_to_their_settings(
    items: Seq<ItemView>,
    groups: Seq<GroupView>,
    s: int,
    t: int,
    base: Seq<char>,
    one: RelationshipView,
)
    requires
        0 <= s < items.len(),
        0 <= t < items.len(),
        items[s].kind == ItemKind::Directory,
        items[t].kind == ItemKind::File,
        stand_together(items[s].path, items[t].path),
        shown_name(items[s].path) == base + ".avd"@,
        !".avd"@.is_suffix_of(base),
        items[t].path.last() is Name,
        shown_name(items[t].path) == text::lowered(base + ".ini"@),
    ensures
        exists|found: RelationshipView|
            {
                &&& #[trigger] relationships::report_of(items, groups).relationships.contains(found)
                &&& found.kind == RelationshipKind::AndroidEmulatorConfiguration
                &&& found.source_path == items[s].path
                &&& stand_together(items[s].path, found.target_path)
                &&& shown_name(found.target_path) == text::lowered(base + ".ini"@)
            },
        relationships::report_of(items, groups).relationships.contains(one)
            && one.kind is AndroidEmulatorConfiguration ==> {
            &&& ".avd"@.is_suffix_of(shown_name(one.source_path))
            &&& stand_together(one.source_path, one.target_path)
            &&& one.confidence == (Confidence { bits: 0x3F7D_70A4 })
        },
{
    let all = relationships::report_of(items, groups).relationships;
    let item = items[s];
    let name = shown_name(item.path);
    reveal_strlit(".avd");
    reveal_strlit(".ini");
    lemma_shown(item.path);
    lemma_ends(name, ".avd"@);
    lemma_ends(base, ".avd"@);
    assert(".avd"@.is_suffix_of(name)) by {
        assert(".avd"@ =~= name.subrange(name.len() - 4, name.len() as int));
    }
    assert(name.take(name.len() - 4) =~= base);
    reveal_with_fuel(relationships::without_avd, 2);
    assert(relationships::without_avd(name) == base);
    let wanted = relationships::child_named(
        item.path.drop_last(),
        base + ".ini"@,
        ItemKind::File,
    );
    lemma_shown(items[t].path);
    assert(wanted(items[t]));
    index::lemma_some_first(items, wanted, t);
    let d = lemma_first_where(items, wanted);
    lemma_shown(items[d].path);
    assert(wanted(items[d]));
    let found = relationships::emulator_relationship(items, item)[0];
    let here = relationships::item_relationships(items, item);
    assert(here[here.len() - 1] == found);
    lemma_reported(items, groups, s, found);
    let k = choose|k: int|
        0 <= k < all.len() && relationships::same_connection(#[trigger] all[k], found);
    assert(all.contains(all[k]));
    if all.contains(one) && one.kind is AndroidEmulatorConfiguration {
        lemma_emulator_source(items, groups, one);
    }
}

proof fn lemma_emulator_source(
    items: Seq<ItemView>,
    groups: Seq<GroupView>,
    one: RelationshipView,
)
    requires
        relationships::report_of(items, groups).relationships.contains(one),
        one.kind is AndroidEmulatorConfiguration,
    ensures
        ".avd"@.is_suffix_of(shown_name(one.source_path)),
        stand_together(one.source_path, one.target_path),
        one.confidence == (Confidence { bits: 0x3F7D_70A4 }),
{
    let d = lemma_report_source(items, groups, one);
    if d >= items.len() {
        lemma_copies_kind(
            groups[d - items.len()],
            groups[d - items.len()].entries.len() as int,
            one,
        );
    }
    let item = items[d];
    let found = relationships::item_relationships(items, item);
    let k = choose|k: int| 0 <= k < found.len() && found[k] == one;
    assert(found[k] == one);
    assert(relationships::emulator_relationship(items, item).len() > 0);
    assert(relationships::emulator_relationship(items, item)[0] == one);
    let name = names::lower_name(item.path);
    lemma_shown(item.path);
    lemma_ends(name, ".avd"@);
    let wanted = relationships::child_named(
        item.path.drop_last(),
        relationships::without_avd(name) + ".ini"@,
        ItemKind::File,
    );
    let t = lemma_first_where(items, wanted);
    assert(wanted(items[t]));
}

/// Whether a name in small letters is that of a virtual machine's settings.
pub open spec fn names_settings(name: Seq<char>) -> bool {
    ".vbox"@.is_suffix_of(name) || ".vmx"@.is_suffix_of(name) || ".ovf"@.is_suffix_of(name)
}

/// Whether a name in small letters is that of a virtual disk.
pub open spec fn names_disk(name: Seq<char>) -> bool {
    ||| ".vdi"@.is_suffix_of(name)
    ||| ".vmdk"@.is_suffix_of(name)
    ||| ".vhd"@.is_suffix_of(name)
    ||| ".vhdx"@.is_suffix_of(name)
    ||| ".qcow"@.is_suffix_of(name)
    ||| ".qcow2"@.is_suffix_of(name)
}

proof fn lemma_machine_names(name: Seq<char>)
    ensures
        names::has_suffix(name, relationships::machine_suffixes()) == names_settings(name),
        names::has_suffix(name, relationships::virtual_disk_suffixes()) == names_disk(name),
        names::has_suffix(name, relationships::package_suffixes()) == ".ova"@.is_suffix_of(name),
{
    let machines = relationships::machine_suffixes();
    let disks = relationships::virtual_disk_suffixes();
    let packages = relationships::package_suffixes();
    assert(machines[0] == ".vbox"@ && machines[1] == ".vmx"@ && machines[2] == ".ovf"@);
    assert(disks[0] == ".vdi"@ && disks[1] == ".vmdk"@ && disks[2] == ".vhd"@ && disks[3]
        == ".vhdx"@ && disks[4] == ".qcow"@ && disks[5] == ".qcow2"@ && packages[0] == ".ova"@);
    assert forall|i: int| 0 <= i < machines.len() implies text::ends(name, #[trigger] machines[i])
        == machines[i].is_suffix_of(name) by {
        lemma_ends(name, machines[i]);
    }
    assert forall|i: int| 0 <= i < disks.len() implies text::ends(name, #[trigger] disks[i])
        == disks[i].is_suffix_of(name) by {
        lemma_ends(name, disks[i]);
    }
    lemma_ends(name, packages[0]);
}

/// Whether a file of the scan in a directory holds a virtual machine's
/// settings.
pub open spec fn holds_settings(items: Seq<ItemView>, directory: Seq<PartView>) -> bool {
    exists|m: int|
        {
            &&& 0 <= m < items.len()
            &&& (#[trigger] items[m]).kind == ItemKind::File
            &&& stands_in(items[m].path, directory)
            &&& names_settings(shown_name(items[m].path))
        }
}

proof fn lemma_settings(items: Seq<ItemView>, directory: Seq<PartView>)
    ensures
        relationships::machine_in(items, directory) is Some <==> holds_settings(items, directory),
        relationships::machine_in(items, directory) matches Some(found) ==> found.kind
            == ItemKind::File && stands_in(found.path, directory) && names_settings(
            shown_name(found.path),
        ) && items.contains(found),
{
    let wanted = relationships::child_with_suffix(directory, relationships::machine_suffixes());
    if relationships::machine_in(items, directory) is Some {
        let m = lemma_least_where(items, wanted);
        assert(wanted(items[m]));
        lemma_shown(items[m].path);
        lemma_machine_names(shown_name(items[m].path));
        assert(items.contains(items[m]));
    }
    if holds_settings(items, directory) {
        let m = choose|m: int|
            {
                &&& 0 <= m < items.len()
                &&& (#[trigger] items[m]).kind == ItemKind::File
                &&& stands_in(items[m].path, directory)
                &&& names_settings(shown_name(items[m].path))
            };
        lemma_shown(items[m].path);
        lemma_machine_names(shown_name(items[m].path));
        assert(wanted(items[m]));
        let at = lemma_some_least(items, wanted, items.len() as int, m);
        assert(index::is_least(items, wanted, at));
    }
}

/// Whether a relationship of a virtual machine is that of a disk to the
/// settings beside it, or of a package to a directory beside it that is named
/// after the same product and holds settings.
pub open spec fn is_of_a_machine(items: Seq<ItemView>, one: RelationshipView) -> bool {
    let name = shown_name(one.source_path);
    &&& stand_together(one.source_path, one.target_path)
    &&& names_disk(name) ==> {
        &&& names_settings(shown_name(one.target_path))
        &&& one.confidence == (Confidence { bits: 0x3F7D_70A4 })
    }
    &&& !names_disk(name) ==> {
        &&& ".ova"@.is_suffix_of(name)
        &&& holds_settings(items, one.target_path)
        &&& one.confidence == (Confidence { bits: 0x3F66_6666 })
    }
}

/// A relationship of a virtual machine is of a disk or a package, and of what
/// stands beside it; and a disk beside settings is reported.
pub proof fn law_machines_are_related_to_their_parts(
    items: Seq<ItemView>,
    groups: Seq<GroupView>,
    s: int,
    one: RelationshipView,
)
    requires
        0 <= s < items.len(),
    ensures
        relationships::report_of(items, groups).relationships.contains(one)
            && one.kind is VirtualMachineComponent ==> is_of_a_machine(items, one),
        items[s].kind == ItemKind::File && stands_in(items[s].path, items[s].path.drop_last())
            && names_disk(shown_name(items[s].path)) && !names_settings(shown_name(items[s].path))
            && holds_settings(items, items[s].path.drop_last()) ==> exists|
            found: RelationshipView,
        |
            {
                &&& #[trigger] relationships::report_of(items, groups).relationships.contains(found)
                &&& found.kind == RelationshipKind::VirtualMachineComponent
                &&& found.source_path == items[s].path
                &&& stand_together(items[s].path, found.target_path)
                &&& names_settings(shown_name(found.target_path))
            },
{
    let all = relationships::report_of(items, groups).relationships;
    if all.contains(one) && one.kind is VirtualMachineComponent {
        lemma_machine_source(items, groups, one);
    }
    let item = items[s];
    let name = shown_name(item.path);
    let directory = item.path.drop_last();
    if item.kind == ItemKind::File && stands_in(item.path, directory) && names_disk(name)
        && !names_settings(name) && holds_settings(items, directory) {
        lemma_shown(item.path);
        lemma_machine_names(name);
        lemma_settings(items, directory);
        let target = relationships::machine_in(items, directory)->Some_0;
        lemma_shown(target.path);
        let found = relationships::machine_relationship(items, item)[0];
        let here = relationships::item_relationships(items, item);
        assert(here[here.len() - 1] == found);
        lemma_reported(items, groups, s, found);
        let k = choose|k: int|
            0 <= k < all.len() && relationships::same_connection(#[trigger] all[k], found);
        assert(all.contains(all[k]));
    }
}

proof fn lemma_machine_source(
    items: Seq<ItemView>,
    groups: Seq<GroupView>,
    one: RelationshipView,
)
    requires
        relationships::report_of(items, groups).relationships.contains(one),
        one.kind is VirtualMachineComponent,
    ensures
        is_of_a_machine(items, one),
{
    let d = lemma_report_source(items, groups, one);
    if d >= items.len() {
        lemma_copies_kind(
            groups[d - items.len()],
            groups[d - items.len()].entries.len() as int,
            one,
        );
    }
    let item = items[d];
    let found = relationships::item_relationships(items, item);
    let k = choose|k: int| 0 <= k < found.len() && found[k] == one;
    assert(found[k] == one);
    assert(relationships::machine_relationship(items, item).len() > 0);
    assert(relationships::machine_relationship(items, item)[0] == one);
    let name = names::lower_name(item.path);
    lemma_shown(item.path);
    lemma_machine_names(name);
    let directory = item.path.drop_last();
    if names_disk(name) {
        lemma_settings(items, directory);
    } else {
        let stem = path::file_stem(item.path)->Some_0;
        let wanted = relationships::machine_of_product(
            items,
            directory,
            names::product_name(text::lossy_text(stem)),
        );
        let t = lemma_least_where(items, wanted);
        assert(wanted(items[t]));
        lemma_settings(items, items[t].path);
    }
}

/// Whether two entries are of one physical file.
pub open spec fn is_same_file(left: EntryView, right: EntryView) -> bool {
    ||| left.file_identity is Some && left.file_identity == right.file_identity
    ||| left.file_identity is None && right.file_identity is None && left.path == right.path
}

proof fn lemma_copies_have(group: GroupView, count: int, at: int)
    requires
        1 <= at < count <= group.entries.len(),
        forall|i: int| 0 <= i < at ==> !is_same_file(#[trigger] group.entries[i], group.entries[at]),
    ensures
        exists|one: RelationshipView|
            {
                &&& #[trigger] relationships::copies(group, count).contains(one)
                &&& one.kind == RelationshipKind::ExactDuplicate
                &&& one.source_path == group.entries[0].path
                &&& one.target_path == group.entries[at].path
            },
    decreases count,
{
    let before = relationships::copies(group, count - 1);
    let after = relationships::copies(group, count);
    if at == count - 1 {
        assert(relationships::is_first_name(group.entries, at));
        let one = after.last();
        assert(after[after.len() - 1] == one);
        assert(after.contains(one));
    } else {
        lemma_copies_have(group, count - 1, at);
        let one = choose|one: RelationshipView|
            {
                &&& #[trigger] before.contains(one)
                &&& one.kind == RelationshipKind::ExactDuplicate
                &&& one.source_path == group.entries[0].path
                &&& one.target_path == group.entries[at].path
            };
        let k = choose|k: int| 0 <= k < before.len() && before[k] == one;
        assert(after[k] == one);
        assert(after.contains(one));
    }
}

proof fn lemma_copies_source(group: GroupView, count: int, one: RelationshipView) -> (at: int)
    requires
        count <= group.entries.len(),
        relationships::copies(group, count).contains(one),
    ensures
        1 <= at < count,
        one.source_path == group.entries[0].path,
        one.target_path == group.entries[at].path,
        one.source_spelling == group.entries[0].spelling,
        one.target_spelling == group.entries[at].spelling,
        one.confidence == (Confidence { bits: 0x3F80_0000 }),
        one.evidence == seq![
            "Files have the same size and BLAKE3 fingerprint "@ + group.blake3_hash,
        ],
        forall|i: int| 0 <= i < at ==> !is_same_file(#[trigger] group.entries[i], group.entries[at]),
    decreases count,
{
    let all = relationships::copies(group, count);
    let k = choose|k: int| 0 <= k < all.len() && all[k] == one;
    if count <= 1 {
        1
    } else {
        let before = relationships::copies(group, count - 1);
        if k < before.len() {
            assert(before[k] == one);
            lemma_copies_source(group, count - 1, one)
        } else {
            assert(all[k] == one);
            assert(relationships::is_first_name(group.entries, count - 1));
            assert forall|i: int| 0 <= i < count - 1 implies !is_same_file(
                #[trigger] group.entries[i],
                group.entries[count - 1],
            ) by {
                assert(!relationships::same_file(group.entries[i], group.entries[count - 1]));
            }
            count - 1
        }
    }
}

/// Duplicates are related as such: the first name of a group with the first
/// name of every other file of the group, and nothing else.
pub proof fn law_duplicates_are_related(
    items: Seq<ItemView>,
    groups: Seq<GroupView>,
    g: int,
    at: int,
    one: RelationshipView,
)
    requires
        0 <= g < groups.len(),
        1 <= at < groups[g].entries.len(),
        forall|i: int|
            0 <= i < at ==> !is_same_file(
                #[trigger] groups[g].entries[i],
                groups[g].entries[at],
            ),
    ensures
        exists|found: RelationshipView|
            {
                &&& #[trigger] relationships::report_of(items, groups).relationships.contains(found)
                &&& found.kind == RelationshipKind::ExactDuplicate
                &&& found.source_path == groups[g].entries[0].path
                &&& found.target_path == groups[g].entries[at].path
            },
        relationships::report_of(items, groups).relationships.contains(one)
            && one.kind is ExactDuplicate ==> exists|h: int, k: int|
            {
                &&& 0 <= h < groups.len()
                &&& 1 <= k < groups[h].entries.len()
                &&& one.source_path == groups[h].entries[0].path
                &&& one.target_path == (#[trigger] groups[h].entries[k]).path
                &&& one.confidence == (Confidence { bits: 0x3F80_0000 })
                &&& !is_same_file(groups[h].entries[0], groups[h].entries[k])
            },
{
    let all = relationships::report_of(items, groups).relationships;
    let group = groups[g];
    let count = group.entries.len() as int;
    lemma_copies_have(group, count, at);
    let found = choose|found: RelationshipView|
        {
            &&& #[trigger] relationships::copies(group, count).contains(found)
            &&& found.kind == RelationshipKind::ExactDuplicate
            &&& found.source_path == group.entries[0].path
            &&& found.target_path == group.entries[at].path
        };
    lemma_reported(items, groups, items.len() + g, found);
    let k = choose|k: int|
        0 <= k < all.len() && relationships::same_connection(#[trigger] all[k], found);
    assert(all.contains(all[k]));
    if all.contains(one) && one.kind is ExactDuplicate {
        let d = lemma_report_source(items, groups, one);
        if d < items.len() {
            let here = relationships::item_relationships(items, items[d]);
            let j = choose|j: int| 0 <= j < here.len() && here[j] == one;
            assert(here[j] == one);
        } else {
            let h = d - items.len();
            let j = lemma_copies_source(groups[h], groups[h].entries.len() as int, one);
            assert(!is_same_file(groups[h].entries[0], groups[h].entries[j]));
            assert(one.target_path == groups[h].entries[j].path);
        }
    }
}

/// Whether some text is the ending of an installer's name.
pub open spec fn ends_installers(suffix: Seq<char>) -> bool {
    ||| suffix == ".msixbundle"@
    ||| suffix == ".appimage"@
    ||| suffix == ".msix"@
    ||| suffix == ".deb"@
    ||| suffix == ".rpm"@
    ||| suffix == ".exe"@
    ||| suffix == ".msi"@
    ||| suffix == ".dmg"@
    ||| suffix == ".pkg"@
    ||| suffix == ".apk"@
    ||| suffix == ".run"@
}

proof fn lemma_installer_list(suffix: Seq<char>)
    ensures
        ends_installers(suffix) <==> relationships::installer_suffixes().contains(suffix),
{
    let list = relationships::installer_suffixes();
    assert(list.len() == 11);
    assert(list[0] == ".msixbundle"@ && list[1] == ".appimage"@ && list[2] == ".msix"@ && list[3]
        == ".deb"@ && list[4] == ".rpm"@ && list[5] == ".exe"@ && list[6] == ".msi"@ && list[7]
        == ".dmg"@ && list[8] == ".pkg"@ && list[9] == ".apk"@ && list[10] == ".run"@);
}

/// Whether some text begins with a dot and has no other.
spec fn has_one_dot(suffix: Seq<char>) -> bool {
    suffix.len() > 0 && suffix[0] == '.' && forall|i: int|
        0 < i < suffix.len() ==> suffix[i] != '.'
}

proof fn lemma_installer_dots(suffix: Seq<char>)
    requires
        ends_installers(suffix),
    ensures
        has_one_dot(suffix),
{
    reveal_strlit(".msixbundle");
    reveal_strlit(".appimage");
    reveal_strlit(".msix");
    reveal_strlit(".deb");
    reveal_strlit(".rpm");
    reveal_strlit(".exe");
    reveal_strlit(".msi");
    reveal_strlit(".dmg");
    reveal_strlit(".pkg");
    reveal_strlit(".apk");
    reveal_strlit(".run");
}

/// A name has one ending with one dot.
proof fn lemma_one_ending(name: Seq<char>, left: Seq<char>, right: Seq<char>)
    requires
        left.is_suffix_of(name),
        right.is_suffix_of(name),
        has_one_dot(left),
        has_one_dot(right),
    ensures
        left == right,
{
    if left.len() < right.len() {
        assert(right[right.len() - left.len()] == name[name.len() - left.len()]);
        assert(left[0] == name[name.len() - left.len()]);
    } else if right.len() < left.len() {
        assert(left[left.len() - right.len()] == name[name.len() - right.len()]);
        assert(right[0] == name[name.len() - right.len()]);
    }
    assert(left =~= right);
}

proof fn lemma_installer(base: Seq<char>, suffix: Seq<char>)
    requires
        ends_installers(suffix),
        base.len() > 0,
    ensures
        names::base_name(base + suffix, relationships::installer_suffixes()) == Some(base),
{
    let name = base + suffix;
    let list = relationships::installer_suffixes();
    lemma_installer_list(suffix);
    let k = choose|k: int| 0 <= k < list.len() && list[k] == suffix;
    assert(suffix.is_suffix_of(name)) by {
        assert(suffix =~= name.subrange(name.len() - suffix.len(), name.len() as int));
    }
    let at = lemma_without(name, list, 0);
    if names::without_suffix(name, list, 0) is None {
        assert(!list[k].is_suffix_of(name));
    }
    assert(list.contains(list[at]));
    lemma_installer_list(list[at]);
    lemma_installer_dots(list[at]);
    lemma_installer_dots(suffix);
    lemma_one_ending(name, list[at], suffix);
    let front = names::without_suffix(name, list, 0)->Some_0;
    assert forall|i: int| 0 <= i < base.len() implies front[i] == base[i] by {
        assert(name[i] == (front + suffix)[i]);
    }
    assert(front =~= base);
}

/// A relationship of an installer leads from a file to a directory that stands
/// beside it and is named after the same product as the installer without its
/// ending.
pub proof fn law_installers_are_related_to_directories_of_their_product(
    items: Seq<ItemView>,
    groups: Seq<GroupView>,
    one: RelationshipView,
)
    requires
        relationships::report_of(items, groups).relationships.contains(one),
        one.kind is InstallerApplicationDirectory,
    ensures
        exists|s: int, t: int|
            {
                &&& 0 <= s < items.len()
                &&& 0 <= t < items.len()
                &&& connects(
                    one,
                    RelationshipKind::InstallerApplicationDirectory,
                    #[trigger] items[s],
                    #[trigger] items[t],
                )
                &&& items[s].kind == ItemKind::File
                &&& items[t].kind == ItemKind::Directory
                &&& stand_together(items[s].path, items[t].path)
            },
        exists|base: Seq<char>, suffix: Seq<char>|
            {
                &&& #[trigger] ends_installers(suffix)
                &&& shown_name(one.source_path) == base + suffix
                &&& #[trigger] names::product_name(base) == names::product_name(
                    shown_name(one.target_path),
                )
            },
        names::product_name(shown_name(one.target_path)).len() > 0,
        one.confidence == (Confidence { bits: 0x3F47_AE14 }),
{
    let s = lemma_report_source(items, groups, one);
    if s >= items.len() {
        lemma_copies_kind(groups[s - items.len()], groups[s - items.len()].entries.len() as int, one);
    }
    let item = items[s];
    lemma_shown(item.path);
    let list = relationships::installer_suffixes();
    let name = names::lower_name(item.path);
    let all = relationships::item_relationships(items, item);
    let k = choose|k: int| 0 <= k < all.len() && all[k] == one;
    assert(all[k] == one);
    let at = lemma_without(name, list, 0);
    let base = names::base_name(name, list)->Some_0;
    let parent = path::parent(item.path)->Some_0;
    let wanted = relationships::child_of_product(parent, names::product_name(base));
    assert(relationships::installer_relationship(items, item).len() > 0);
    assert(relationships::installer_relationship(items, item)[0] == one);
    let t = lemma_least_where(items, wanted);
    lemma_shown(items[t].path);
    assert(wanted(items[t]));
    assert(list.contains(list[at]));
    lemma_installer_list(list[at]);
    assert(ends_installers(list[at]));
    assert(names::product_name(base) == names::product_name(shown_name(one.target_path)));
    assert(connects(one, RelationshipKind::InstallerApplicationDirectory, items[s], items[t]));
}

/// An installer with a directory beside it that is named after the same product is
/// reported with such a directory.
pub proof fn law_installers_beside_their_product_are_found(
    items: Seq<ItemView>,
    groups: Seq<GroupView>,
    s: int,
    t: int,
    base: Seq<char>,
    suffix: Seq<char>,
)
    requires
        0 <= s < items.len(),
        0 <= t < items.len(),
        items[s].kind == ItemKind::File,
        items[t].kind == ItemKind::Directory,
        stand_together(items[s].path, items[t].path),
        ends_installers(suffix),
        base.len() > 0,
        shown_name(items[s].path) == base + suffix,
        names::product_name(base).len() > 0,
        names::product_name(base) == names::product_name(shown_name(items[t].path)),
    ensures
        exists|one: RelationshipView|
            {
                &&& #[trigger] relationships::report_of(items, groups).relationships.contains(one)
                &&& one.kind == RelationshipKind::InstallerApplicationDirectory
                &&& one.source_path == items[s].path
                &&& stand_together(items[s].path, one.target_path)
                &&& names::product_name(shown_name(one.target_path)) == names::product_name(base)
            },
{
    let item = items[s];
    lemma_shown(item.path);
    lemma_shown(items[t].path);
    lemma_installer(base, suffix);
    let parent = item.path.drop_last();
    let wanted = relationships::child_of_product(parent, names::product_name(base));
    assert(wanted(items[t]));
    let d = lemma_some_least(items, wanted, items.len() as int, t);
    assert(index::is_least(items, wanted, d));
    let e = lemma_least_where(items, wanted);
    lemma_shown(items[e].path);
    assert(wanted(items[e]));
    let before = relationships::archive_relationship(items, item);
    let one = relationships::installer_relationship(items, item)[0];
    assert(relationships::item_relationships(items, item)[before.len() as int] == one);
    lemma_reported(items, groups, s, one);
    let all = relationships::report_of(items, groups).relationships;
    let k = choose|k: int|
        0 <= k < all.len() && relationships::same_connection(#[trigger] all[k], one);
    assert(all.contains(all[k]));
    assert(all[k].kind == RelationshipKind::InstallerApplicationDirectory);
}

/// How the other end of a relationship is told in the evidence of a finding.
pub open spec fn told_end(kind: RelationshipKind, spelling: Seq<u8>) -> Seq<char> {
    (match kind {
        RelationshipKind::ArchiveExtractedDirectory => "Related extracted directory"@,
        RelationshipKind::InstallerApplicationDirectory => "Related application directory"@,
        RelationshipKind::BuildDirectoryProject => "Source project"@,
        RelationshipKind::VirtualMachineComponent => "Related VM component"@,
        RelationshipKind::AndroidEmulatorConfiguration => "AVD configuration"@,
        RelationshipKind::ExactDuplicate => "Exact duplicate"@,
    }) + ": "@ + path::spelled(spelling)
}

proof fn lemma_evidence_before(
    finding: FindingView,
    list: Seq<RelationshipView>,
    more: Seq<RelationshipView>,
    count: int,
)
    requires
        count <= list.len() <= more.len(),
        forall|i: int| 0 <= i < list.len() ==> list[i] == #[trigger] more[i],
    ensures
        relationships::enriched_evidence(finding, list, count) == relationships::enriched_evidence(
            finding,
            more,
            count,
        ),
    decreases count,
{
    if count > 0 {
        lemma_evidence_before(finding, list, more, count - 1);
        assert(list[count - 1] == more[count - 1]);
    }
}

/// A relationship tells a finding about one of its ends of the other end, in a line
/// behind the evidence, unless that line stands there; it says nothing to a finding
/// about another item, and without relationships nothing is said.
pub proof fn law_relationships_tell_of_the_other_end(
    finding: FindingView,
    list: Seq<RelationshipView>,
    one: RelationshipView,
)
    ensures
        relationships::enriched(finding, Seq::empty()).evidence == finding.evidence,
        ({
            let before = relationships::enriched(finding, list).evidence;
            let after = relationships::enriched(finding, list.push(one)).evidence;
            let line = if one.source_path == finding.path {
                told_end(one.kind, one.target_spelling)
            } else {
                told_end(one.kind, one.source_spelling)
            };
            &&& one.source_path != finding.path && one.target_path != finding.path ==> after
                == before
            &&& one.source_path == finding.path || one.target_path == finding.path ==> {
                &&& after.contains(line)
                &&& before.contains(line) ==> after == before
                &&& !before.contains(line) ==> after == before + seq![line]
            }
        }),
{
    let more = list.push(one);
    lemma_evidence_before(finding, list, more, list.len() as int);
    let before = relationships::enriched(finding, list).evidence;
    let after = relationships::enriched(finding, more).evidence;
    assert(more[more.len() - 1] == one);
    if one.source_path == finding.path || one.target_path == finding.path {
        let line = if one.source_path == finding.path {
            told_end(one.kind, one.target_spelling)
        } else {
            told_end(one.kind, one.source_spelling)
        };
        if !before.contains(line) {
            assert(after =~= before + seq![line]);
            assert(after[after.len() - 1] == line);
        }
    }
}

} // verus!
