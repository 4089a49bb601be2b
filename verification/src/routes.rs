//! What paths are made of.

use crate::model::ItemKind;
use crate::path;
use crate::path::PartView;
use crate::policy::RuleView;
use crate::scanner;
use crate::session;
use crate::spelling;
use crate::text;
use vstd::prelude::*;

verus! {

/// A path is written with a slash between its components: behind the root none
/// more, and a single name as it is.
pub proof fn law_paths_are_written_with_slashes(front: Seq<PartView>, name: Seq<u8>)
    ensures
        path::written(seq![PartView::Root]) == seq![47u8],
        path::written(seq![PartView::Name(name)]) == name,
        path::written(seq![PartView::Root, PartView::Name(name)]) == seq![47u8] + name,
        front.len() > 0 && !(front.last() is Root) ==> path::written(
            front.push(PartView::Name(name)),
        ) == path::written(front) + seq![47u8] + name,
        front.len() > 0 && !(front.last() is Root) ==> path::written(front.push(PartView::Parent))
            == path::written(front) + seq![47u8, 46u8, 46u8],
{
    let last = PartView::Name(name);
    let two = seq![PartView::Root, last];
    assert(two.drop_last() =~= seq![PartView::Root]);
    assert(two.last() == last);
    assert(path::written(seq![PartView::Root]) == seq![47u8]);
    assert(two.drop_last().last() is Root);
    assert(path::written(two) == path::written(two.drop_last()) + path::piece_of(two.last()));
    if front.len() > 0 {
        assert(front.push(last).drop_last() =~= front);
        assert(front.push(PartView::Parent).drop_last() =~= front);
        if !(front.last() is Root) {
            assert(path::written(front) + seq![47u8] + seq![46u8, 46u8] =~= path::written(front)
                + seq![47u8, 46u8, 46u8]);
        }
    }
}

/// The last component of a path is its name, and what stands in front of it
/// its parent; the root has neither.
pub proof fn law_the_last_component_is_the_name(front: Seq<PartView>, name: Seq<u8>)
    ensures
        path::file_name(front.push(PartView::Name(name))) == Some(name),
        path::parent(front.push(PartView::Name(name))) == Some(front),
        path::parent(seq![PartView::Root]) is None,
        path::file_name(seq![PartView::Root]) is None,
        path::file_name(front.push(PartView::Parent)) is None,
        path::parent(Seq::<PartView>::empty()) is None,
{
    assert(front.push(PartView::Name(name)).drop_last() =~= front);
}

proof fn lemma_stem_length(stem: Seq<u8>, extension: Seq<u8>)
    requires
        stem.len() > 0,
        !extension.contains(46u8),
    ensures
        path::stem_length(stem.push(46u8) + extension) == Some(stem.len()),
    decreases extension.len(),
{
    let all = stem.push(46u8) + extension;
    if extension.len() == 0 {
        assert(all.last() == 46u8);
    } else {
        let shorter = extension.drop_last();
        assert(!shorter.contains(46u8)) by {
            if shorter.contains(46u8) {
                let k = choose|k: int| 0 <= k < shorter.len() && shorter[k] == 46u8;
                assert(extension[k] == 46u8);
            }
        }
        lemma_stem_length(stem, shorter);
        assert(all.drop_last() =~= stem.push(46u8) + shorter);
        assert(extension[extension.len() - 1] == all.last());
        assert(all.last() != 46u8);
    }
}

proof fn lemma_no_stem(name: Seq<u8>)
    requires
        forall|i: int| 1 <= i < name.len() ==> #[trigger] name[i] != 46u8,
    ensures
        path::stem_length(name) is None,
    decreases name.len(),
{
    if name.len() > 1 {
        assert(name[name.len() - 1] != 46u8);
        let shorter = name.drop_last();
        assert forall|i: int| 1 <= i < shorter.len() implies #[trigger] shorter[i] != 46u8 by {
            assert(name[i] != 46u8);
        }
        lemma_no_stem(shorter);
    }
}

/// A name is divided at its last dot into stem and extension; a dot in front
/// of everything does not count.
pub proof fn law_names_are_divided_at_their_last_dot(
    front: Seq<PartView>,
    stem: Seq<u8>,
    extension: Seq<u8>,
    whole: Seq<u8>,
)
    requires
        stem.len() > 0,
        !extension.contains(46u8),
        forall|i: int| 1 <= i < whole.len() ==> #[trigger] whole[i] != 46u8,
    ensures
        path::extension(front.push(PartView::Name(stem.push(46u8) + extension))) == Some(extension),
        path::file_stem(front.push(PartView::Name(stem.push(46u8) + extension))) == Some(stem),
        path::extension(front.push(PartView::Name(whole))) is None,
        path::file_stem(front.push(PartView::Name(whole))) == Some(whole),
{
    let name = stem.push(46u8) + extension;
    lemma_stem_length(stem, extension);
    lemma_no_stem(whole);
    assert(name.take(stem.len() as int) =~= stem);
    assert(name.skip(stem.len() as int + 1) =~= extension);
}

/// A path lies within another where that one is its beginning, and below it
/// where it goes on behind it.
pub proof fn law_paths_lie_below_their_beginnings(given: Seq<PartView>, base: Seq<PartView>)
    ensures
        path::within(given, base) <==> base.is_prefix_of(given),
        path::below(given, base) <==> base.is_prefix_of(given) && base != given,
{
    if base.is_prefix_of(given) {
        assert(given.take(base.len() as int) =~= base);
        if base.len() == given.len() {
            assert(base =~= given);
        }
    }
    if path::within(given, base) {
        assert(given.subrange(0, base.len() as int) =~= base);
    }
}

/// A relative path goes on behind the one that it is resolved against, an
/// absolute one stands for itself, and a leading `~` stands for the home
/// directory.
pub proof fn law_relative_paths_go_on_behind(
    base: Seq<PartView>,
    name: Seq<u8>,
    rest: Seq<PartView>,
)
    ensures
        base.len() > 0 ==> path::joined(base, seq![PartView::Name(name)] + rest) == base
            + seq![PartView::Name(name)] + rest,
        path::joined(base, seq![PartView::Root] + rest) == seq![PartView::Root] + rest,
        path::expanded(seq![PartView::Name(seq![126u8])], Some(base)) == base,
        base.len() > 0 && name != seq![126u8] ==> path::expanded(
            seq![PartView::Name(seq![126u8]), PartView::Name(name)],
            Some(base),
        ) == base.push(PartView::Name(name)),
        name != seq![126u8] ==> path::expanded(seq![PartView::Name(name)] + rest, Some(base))
            == seq![PartView::Name(name)] + rest,
{
    let relative = seq![PartView::Name(name)] + rest;
    let absolute = seq![PartView::Root] + rest;
    assert(relative[0] == PartView::Name(name));
    assert(absolute[0] == PartView::Root);
    assert(base + relative =~= base + seq![PartView::Name(name)] + rest);
    let home = seq![PartView::Name(seq![126u8])];
    assert(home.drop_first() =~= Seq::<PartView>::empty());
    assert(base + Seq::<PartView>::empty() =~= base);
    if base.len() == 0 {
        assert(base =~= Seq::<PartView>::empty());
    }
    let below = seq![PartView::Name(seq![126u8]), PartView::Name(name)];
    assert(below.drop_first() =~= seq![PartView::Name(name)]);
    assert(base + seq![PartView::Name(name)] =~= base.push(PartView::Name(name)));
}

proof fn lemma_single_name(name: Seq<u8>)
    requires
        path::is_name(name),
    ensures
        path::components(name) == seq![PartView::Name(name)],
{
    let one = seq![PartView::Name(name)];
    assert(path::is_path(one));
    path::law_written_paths_read_back(one);
}

proof fn lemma_longer_name(name: Seq<u8>, suffix: Seq<u8>)
    requires
        path::is_name(name),
        suffix.len() >= 3,
        !suffix.contains(47u8),
    ensures
        path::is_name(name + suffix),
{
    let all = name + suffix;
    if all.contains(47u8) {
        let k = choose|k: int| 0 <= k < all.len() && all[k] == 47u8;
        if k < name.len() {
            assert(name[k] == 47u8);
        } else {
            assert(suffix[k - name.len()] == 47u8);
        }
    }
    assert(all.len() > 2);
}

proof fn lemma_ascii_suffix(suffix: Seq<char>)
    requires
        suffix == "-journal"@ || suffix == "-wal"@ || suffix == "-shm"@,
    ensures
        text::bytes_of(suffix).len() >= 3,
        !text::bytes_of(suffix).contains(47u8),
{
    reveal_strlit("-journal");
    reveal_strlit("-wal");
    reveal_strlit("-shm");
    vstd::utf8::is_ascii_chars_encode_utf8(suffix);
    let bytes = text::bytes_of(suffix);
    if bytes.contains(47u8) {
        let k = choose|k: int| 0 <= k < bytes.len() && bytes[k] == 47u8;
        assert(suffix[k] == '/');
    }
}

/// A scan that is kept in history passes over the database and over the files
/// beside it that have its name with `-journal`, `-wal` or `-shm` behind it.
pub proof fn law_the_files_of_the_database_are_never_scanned(
    asked: Seq<RuleView>,
    front: Seq<PartView>,
    name: Seq<u8>,
    suffix: Seq<char>,
)
    requires
        front.len() > 0,
        path::is_name(name),
        suffix == "-journal"@ || suffix == "-wal"@ || suffix == "-shm"@,
    ensures
        ({
            let database = front.push(PartView::Name(name));
            let rules = session::ignored_rules(asked, Some(database));
            &&& rules.contains(RuleView::Exact(database))
            &&& rules.contains(
                RuleView::Exact(
                    front.push(PartView::Name(name + text::bytes_of(suffix))),
                ),
            )
            &&& rules.len() == asked.len() + 4
        }),
{
    let database = front.push(PartView::Name(name));
    let rules = session::ignored_rules(asked, Some(database));
    assert(database.drop_last() =~= front);
    lemma_sibling(front, name, "-journal"@);
    lemma_sibling(front, name, "-wal"@);
    lemma_sibling(front, name, "-shm"@);
    let list = session::artifacts(database);
    assert(list.len() == 4);
    assert(rules[asked.len() as int] == RuleView::Exact(list[0]));
    assert(rules[asked.len() as int + 1] == RuleView::Exact(list[1]));
    assert(rules[asked.len() as int + 2] == RuleView::Exact(list[2]));
    assert(rules[asked.len() as int + 3] == RuleView::Exact(list[3]));
}

proof fn lemma_sibling(front: Seq<PartView>, name: Seq<u8>, suffix: Seq<char>)
    requires
        front.len() > 0,
        path::is_name(name),
        suffix == "-journal"@ || suffix == "-wal"@ || suffix == "-shm"@,
    ensures
        path::sibling(front.push(PartView::Name(name)), suffix) == Some(
            front.push(PartView::Name(name + text::bytes_of(suffix))),
        ),
{
    let database = front.push(PartView::Name(name));
    assert(database.drop_last() =~= front);
    lemma_ascii_suffix(suffix);
    let longer = name + text::bytes_of(suffix);
    lemma_longer_name(name, text::bytes_of(suffix));
    lemma_single_name(longer);
    let one = seq![PartView::Name(longer)];
    assert(one[0] is Name);
    assert(front + one =~= front.push(PartView::Name(longer)));
}

/// A file with a name of text is told by what stands behind the last dot of it, in
/// small letters; what is no file has no extension, and nor has a file whose name has
/// a dot at most in front.
pub proof fn law_files_are_told_by_their_extension(
    front: Seq<PartView>,
    stem: Seq<u8>,
    extension: Seq<u8>,
    whole: Seq<u8>,
    kind: ItemKind,
)
    requires
        stem.len() > 0,
        !extension.contains(46u8),
        forall|i: int| 1 <= i < whole.len() ==> #[trigger] whole[i] != 46u8,
    ensures
        ({
            let given = front.push(PartView::Name(stem.push(46u8) + extension));
            &&& kind == ItemKind::File && vstd::utf8::valid_utf8(extension)
                ==> scanner::normalized_extension(given, kind) == Some(
                text::lowered(vstd::utf8::decode_utf8(extension)),
            )
            &&& !vstd::utf8::valid_utf8(extension) ==> scanner::normalized_extension(
                given,
                kind,
            ) is None
            &&& kind != ItemKind::File ==> scanner::normalized_extension(given, kind) is None
        }),
        scanner::normalized_extension(front.push(PartView::Name(whole)), kind) is None,
{
    law_names_are_divided_at_their_last_dot(front, stem, extension, whole);
}

/// A path below a root is shown by what follows the root, and any other as it is
/// spelled.
pub proof fn law_paths_are_shown_from_their_root(root: Seq<PartView>, spelling: Seq<u8>)
    ensures
        root.is_prefix_of(path::components(spelling)) && root != path::components(spelling)
            ==> exists|rest: Seq<u8>|
            {
                &&& #[trigger] path::components(rest) == path::components(spelling).skip(
                    root.len() as int,
                )
                &&& path::relative_shown(root, spelling) == text::lossy_text(rest)
            },
        !root.is_prefix_of(path::components(spelling)) || root == path::components(spelling)
            ==> path::relative_shown(root, spelling) == text::lossy_text(spelling),
{
    law_paths_lie_below_their_beginnings(path::components(spelling), root);
    if path::below(path::components(spelling), root) {
        spelling::law_rest_spells_the_other_components(spelling, root.len());
        let rest = spelling::rest(spelling, root.len());
        assert(path::components(rest) == path::components(spelling).skip(root.len() as int));
    }
}

} // verus!
