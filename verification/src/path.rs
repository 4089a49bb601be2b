//! Paths as sequences of components.

use crate::order;
use crate::spelling;
use crate::text;
use vstd::prelude::*;
use vstd::slice::slice_subrange;

verus! {

/// One component of a path.
#[derive(Debug, PartialEq, Eq, PartialOrd, Ord, Hash)]
pub enum Part {
    /// The root directory in front of an absolute path.
    Root,
    /// A leading `.`.
    Current,
    /// A `..`.
    Parent,
    /// A name.
    Name(Vec<u8>),
}

#[verifier::ext_equal]
pub enum PartView {
    Root,
    Current,
    Parent,
    Name(Seq<u8>),
}

impl View for Part {
    type V = PartView;

    open spec fn view(&self) -> PartView {
        match self {
            Part::Root => PartView::Root,
            Part::Current => PartView::Current,
            Part::Parent => PartView::Parent,
            Part::Name(name) => PartView::Name(name@),
        }
    }
}

impl Clone for Part {
    fn clone(&self) -> (result: Self)
        ensures
            result@ == self@,
    {
        match self {
            Part::Root => Part::Root,
            Part::Current => Part::Current,
            Part::Parent => Part::Parent,
            Part::Name(name) => Part::Name(text::copy_bytes(name.as_slice())),
        }
    }
}

/// A path. Two spellings with the same components are the same path.
#[derive(Debug)]
pub struct FilePath {
    parts: Vec<Part>,
    /// How the path was given, where that is not how it is written.
    given: Option<Vec<u8>>,
}

impl View for FilePath {
    type V = Seq<PartView>;

    closed spec fn view(&self) -> Seq<PartView> {
        order::views(self.parts@)
    }
}

impl vstd::std_specs::cmp::PartialEqSpecImpl for FilePath {
    open spec fn obeys_eq_spec() -> bool {
        true
    }

    open spec fn eq_spec(&self, other: &Self) -> bool {
        self@ == other@
    }
}

impl PartialEq for FilePath {
    fn eq(&self, other: &Self) -> (result: bool) {
        self.same(other)
    }
}

impl Eq for FilePath {

}

/// A path together with how it is spelled.
#[verifier::ext_equal]
pub struct GivenView {
    pub path: Seq<PartView>,
    pub spelling: Seq<u8>,
}

/// Some paths as they are spelled.
pub open spec fn givens(paths: Seq<FilePath>) -> Seq<GivenView> {
    Seq::new(paths.len(), |i: int| paths[i].as_given())
}

/// A path as it is spelled, where there is one.
pub open spec fn optional_given(path: Option<FilePath>) -> Option<GivenView> {
    match path {
        Some(given) => Some(given.as_given()),
        None => None,
    }
}

/// Whether a spelling is one of a path.
pub open spec fn spells(spelling: Seq<u8>, path: Seq<PartView>) -> bool {
    components(spelling) == path
}

/// A path as it is shown: by its spelling.
pub open spec fn spelled(spelling: Seq<u8>) -> Seq<char> {
    text::lossy_text(spelling)
}

/// The spelling of one path behind that of another: an absolute one stands for
/// itself.
pub open spec fn spelled_behind(base: Seq<u8>, relative: Seq<u8>) -> Seq<u8> {
    if base.len() == 0 || (relative.len() > 0 && relative[0] == 47) {
        relative
    } else if base.last() == 47 {
        base + relative
    } else {
        base + seq![47u8] + relative
    }
}

/// A path resolved against another, as both are spelled.
pub open spec fn resolved(base: GivenView, relative: GivenView) -> GivenView {
    GivenView {
        path: joined(base.path, relative.path),
        spelling: spelled_behind(base.spelling, relative.spelling),
    }
}

/// The path that some bytes spell.
pub open spec fn given_as(bytes: Seq<u8>) -> GivenView {
    GivenView { path: components(bytes), spelling: bytes }
}

/// A path whose first name is `~`, with the home directory in its place where
/// that is known, as both are spelled.
pub open spec fn expanded_as_given(given: GivenView, home: Option<GivenView>) -> GivenView {
    match home {
        Some(known) => if given.path.len() > 0 && given.path[0] == PartView::Name(seq![126u8]) {
            if given.path.len() == 1 {
                known
            } else {
                GivenView {
                    path: joined(known.path, given.path.drop_first()),
                    spelling: spelled_behind(known.spelling, written(given.path.drop_first())),
                }
            }
        } else {
            given
        },
        None => given,
    }
}

/// Whether a name can be a component: not empty, without a separator, and
/// neither `.` nor `..`.
pub open spec fn is_name(name: Seq<u8>) -> bool {
    &&& name.len() > 0
    &&& !name.contains(47u8)
    &&& name != seq![46u8]
    &&& name != seq![46u8, 46u8]
}

/// Whether a component can stand at a position of a path: the root and the
/// leading `.` stand in front only.
pub open spec fn may_stand(part: PartView, at: int) -> bool {
    match part {
        PartView::Root => at == 0,
        PartView::Current => at == 0,
        PartView::Parent => true,
        PartView::Name(name) => is_name(name),
    }
}

/// Whether a sequence of components is that of some path.
pub open spec fn is_path(path: Seq<PartView>) -> bool {
    forall|i: int| 0 <= i < path.len() ==> may_stand(#[trigger] path[i], i)
}

/// What one piece between separators adds to the components in front of it.
pub open spec fn with_piece(
    before: Seq<PartView>,
    piece: Seq<u8>,
    first: bool,
) -> Seq<PartView> {
    if piece.len() == 0 {
        before
    } else if piece == seq![46u8] {
        if first {
            before.push(PartView::Current)
        } else {
            before
        }
    } else if piece == seq![46u8, 46u8] {
        before.push(PartView::Parent)
    } else {
        before.push(PartView::Name(piece))
    }
}

/// The components that a list of pieces between separators stands for.
pub open spec fn gathered(pieces: Seq<Seq<u8>>) -> Seq<PartView>
    decreases pieces.len(),
{
    if pieces.len() == 0 {
        Seq::empty()
    } else if pieces.len() == 1 {
        with_piece(Seq::empty(), pieces[0], true)
    } else if pieces.len() == 2 && pieces[0].len() == 0 {
        with_piece(seq![PartView::Root], pieces[1], false)
    } else {
        with_piece(gathered(pieces.drop_last()), pieces.last(), false)
    }
}

/// The components of a path written as bytes.
pub open spec fn components(bytes: Seq<u8>) -> Seq<PartView> {
    gathered(text::split(bytes, 47u8))
}

/// One component as it is written.
pub open spec fn piece_of(part: PartView) -> Seq<u8> {
    match part {
        PartView::Root => seq![47u8],
        PartView::Current => seq![46u8],
        PartView::Parent => seq![46u8, 46u8],
        PartView::Name(name) => name,
    }
}

/// A path as it is written: its components with one separator between them.
pub open spec fn written(path: Seq<PartView>) -> Seq<u8>
    decreases path.len(),
{
    if path.len() == 0 {
        Seq::empty()
    } else if path.len() == 1 {
        piece_of(path[0])
    } else if path.drop_last().last() is Root {
        written(path.drop_last()) + piece_of(path.last())
    } else {
        written(path.drop_last()) + seq![47u8] + piece_of(path.last())
    }
}

/// A path as it is shown where it is written by its components.
pub open spec fn shown(path: Seq<PartView>) -> Seq<char> {
    text::lossy_text(written(path))
}

/// Whether `path` is `base` or lies below it.
pub open spec fn within(path: Seq<PartView>, base: Seq<PartView>) -> bool {
    base.len() <= path.len() && path.take(base.len() as int) == base
}

/// Whether `path` lies below `base`.
pub open spec fn below(path: Seq<PartView>, base: Seq<PartView>) -> bool {
    base.len() < path.len() && path.take(base.len() as int) == base
}

pub open spec fn parent(path: Seq<PartView>) -> Option<Seq<PartView>> {
    if path.len() == 0 || path.last() is Root {
        None
    } else {
        Some(path.drop_last())
    }
}

pub open spec fn file_name(path: Seq<PartView>) -> Option<Seq<u8>> {
    if path.len() > 0 && path.last() is Name {
        Some(path.last()->Name_0)
    } else {
        None
    }
}

/// The position of the last dot of a name that has something in front of it.
pub open spec fn stem_length(name: Seq<u8>) -> Option<nat>
    decreases name.len(),
{
    if name.len() <= 1 {
        None
    } else if name.last() == 46u8 {
        Some((name.len() - 1) as nat)
    } else {
        stem_length(name.drop_last())
    }
}

/// The name up to its last dot, or all of it.
pub open spec fn stem_of_name(name: Seq<u8>) -> Seq<u8> {
    match stem_length(name) {
        Some(length) => name.take(length as int),
        None => name,
    }
}

/// What follows the last dot of a name.
pub open spec fn extension_of_name(name: Seq<u8>) -> Option<Seq<u8>> {
    match stem_length(name) {
        Some(length) => Some(name.skip(length as int + 1)),
        None => None,
    }
}

pub open spec fn file_stem(path: Seq<PartView>) -> Option<Seq<u8>> {
    match file_name(path) {
        Some(name) => Some(stem_of_name(name)),
        None => None,
    }
}

pub open spec fn extension(path: Seq<PartView>) -> Option<Seq<u8>> {
    match file_name(path) {
        Some(name) => extension_of_name(name),
        None => None,
    }
}

/// The last names of a path, at most some of them.
pub open spec fn last_names(path: Seq<PartView>, count: nat) -> Seq<PartView>
    decreases path.len(),
{
    if path.len() == 0 || count == 0 {
        Seq::empty()
    } else if path.last() is Name {
        last_names(path.drop_last(), (count - 1) as nat).push(path.last())
    } else {
        last_names(path.drop_last(), count)
    }
}

/// A path as it is shown below a directory, where it lies below it.
pub open spec fn relative_shown(root: Seq<PartView>, spelling: Seq<u8>) -> Seq<char> {
    if below(components(spelling), root) {
        spelled(spelling::rest(spelling, root.len()))
    } else {
        spelled(spelling)
    }
}

/// A path whose first name is `~`, with the home directory in its place where
/// that is known.
pub open spec fn expanded(path: Seq<PartView>, home: Option<Seq<PartView>>) -> Seq<PartView> {
    match home {
        Some(known) => if path.len() > 0 && path[0] == PartView::Name(seq![126u8]) {
            joined(known, path.drop_first())
        } else {
            path
        },
        None => path,
    }
}

/// The path beside another that has its name with something behind it, where
/// it has a name.
pub open spec fn sibling(path: Seq<PartView>, suffix: Seq<char>) -> Option<Seq<PartView>> {
    match (file_name(path), parent(path)) {
        (Some(name), Some(base)) => Some(
            joined(base, components(name + text::bytes_of(suffix))),
        ),
        _ => None,
    }
}

pub open spec fn is_absolute(path: Seq<PartView>) -> bool {
    path.len() > 0 && path[0] is Root
}

/// `relative` resolved against `base`: an absolute path stands for itself.
pub open spec fn joined(base: Seq<PartView>, relative: Seq<PartView>) -> Seq<PartView> {
    if base.len() == 0 || is_absolute(relative) {
        relative
    } else if relative.len() > 0 && relative[0] is Current {
        base + relative.drop_first()
    } else {
        base + relative
    }
}

/// The path with every `.` dropped and every `..` resolved against what stands
/// in front of it.
pub open spec fn normalized(path: Seq<PartView>) -> Seq<PartView>
    decreases path.len(),
{
    if path.len() == 0 {
        Seq::empty()
    } else {
        let before = normalized(path.drop_last());
        match path.last() {
            PartView::Current => before,
            PartView::Parent => match parent(before) {
                Some(shorter) => shorter,
                None => before,
            },
            part => before.push(part),
        }
    }
}

/// Components in order: the root, `.`, `..`, then names by their bytes.
pub open spec fn part_at_most(left: PartView, right: PartView) -> bool {
    match (left, right) {
        (PartView::Root, _) => true,
        (PartView::Current, PartView::Root) => false,
        (PartView::Current, _) => true,
        (PartView::Parent, PartView::Root) => false,
        (PartView::Parent, PartView::Current) => false,
        (PartView::Parent, _) => true,
        (PartView::Name(a), PartView::Name(b)) => order::bytes_at_most(a, b),
        (PartView::Name(_), _) => false,
    }
}

pub open spec fn part_order() -> spec_fn(PartView, PartView) -> bool {
    |left: PartView, right: PartView| part_at_most(left, right)
}

/// Paths in order of their components.
pub open spec fn at_most(left: Seq<PartView>, right: Seq<PartView>) -> bool {
    order::lexicographic(left, right, part_order())
}

pub proof fn lemma_byte_order()
    ensures
        order::is_total_order(order::byte_order()),
{
}

pub proof fn lemma_part_order()
    ensures
        order::is_total_order(part_order()),
{
    lemma_byte_order();
    let le = part_order();
    let bytes = order::byte_order();
    assert forall|a: PartView, b: PartView| #[trigger] le(a, b) || le(b, a) by {
        if let PartView::Name(x) = a {
            if let PartView::Name(y) = b {
                order::lemma_lexicographic_total(x, y, bytes);
            }
        }
    }
    assert forall|a: PartView, b: PartView| #[trigger] le(a, b) && le(b, a) implies a == b by {
        if let PartView::Name(x) = a {
            if let PartView::Name(y) = b {
                order::lemma_lexicographic_total(x, y, bytes);
            }
        }
    }
    assert forall|a: PartView, b: PartView, c: PartView| #[trigger] le(a, b) && #[trigger] le(
        b,
        c,
    ) implies le(a, c) by {
        if let PartView::Name(x) = a {
            if let PartView::Name(y) = b {
                if let PartView::Name(z) = c {
                    order::lemma_lexicographic_transitive(x, y, z, bytes);
                }
            }
        }
    }
}

/// Any two paths are ordered, and only equal ones both ways.
pub proof fn law_paths_are_totally_ordered(left: Seq<PartView>, right: Seq<PartView>)
    ensures
        at_most(left, right) || at_most(right, left),
        at_most(left, right) && at_most(right, left) ==> left == right,
{
    lemma_part_order();
    order::lemma_lexicographic_total(left, right, part_order());
}

pub proof fn lemma_at_most_transitive(
    first: Seq<PartView>,
    second: Seq<PartView>,
    third: Seq<PartView>,
)
    requires
        at_most(first, second),
        at_most(second, third),
    ensures
        at_most(first, third),
{
    lemma_part_order();
    order::lemma_lexicographic_transitive(first, second, third, part_order());
}

proof fn lemma_within_step(path: Seq<PartView>, base: Seq<PartView>)
    requires
        base.len() > 0,
        path.len() > 0,
    ensures
        within(path, base) <==> path[0] == base[0] && within(path.drop_first(), base.drop_first()),
{
    if within(path, base) {
        assert(path.take(base.len() as int)[0] == base[0]);
        assert(path.drop_first().take(base.len() - 1) =~= path.take(base.len() as int).drop_first());
    }
    if path[0] == base[0] && within(path.drop_first(), base.drop_first()) {
        assert(path.take(base.len() as int) =~= seq![path[0]] + path.drop_first().take(
            base.len() - 1,
        ));
        assert(base =~= seq![base[0]] + base.drop_first());
    }
}

/// What lies below a path follows it, and stands together: once a later path
/// no longer lies within `base`, none after it does.
pub proof fn lemma_descendants_stand_together(
    base: Seq<PartView>,
    middle: Seq<PartView>,
    later: Seq<PartView>,
)
    requires
        at_most(base, middle),
        at_most(middle, later),
        within(later, base),
    ensures
        within(middle, base),
    decreases base.len(),
{
    if base.len() == 0 {
        assert(middle.take(0) =~= base);
    } else {
        lemma_within_step(later, base);
        lemma_part_order();
        let le = part_order();
        if middle[0] == base[0] {
            lemma_within_step(middle, base);
            lemma_descendants_stand_together(
                base.drop_first(),
                middle.drop_first(),
                later.drop_first(),
            );
        } else {
            assert(le(base[0], middle[0]));
            assert(le(middle[0], later[0]));
            assert(le(base[0], middle[0]) && le(middle[0], base[0]) ==> base[0] == middle[0]);
        }
    }
}

/// A path comes before everything below it.
pub proof fn lemma_base_comes_first(base: Seq<PartView>, path: Seq<PartView>)
    requires
        within(path, base),
    ensures
        at_most(base, path),
    decreases base.len(),
{
    if base.len() > 0 {
        lemma_within_step(path, base);
        lemma_base_comes_first(base.drop_first(), path.drop_first());
    }
}

/// Normalising a path leaves no `.` and no `..` in it, and a path without them
/// as it is: normalising twice changes nothing.
pub proof fn law_normalizing_is_idempotent(path: Seq<PartView>)
    requires
        is_path(path),
    ensures
        normalized(normalized(path)) == normalized(path),
        forall|i: int|
            0 <= i < normalized(path).len() ==> (#[trigger] normalized(path)[i] is Root
                || normalized(path)[i] is Name),
        is_path(normalized(path)),
{
    lemma_normalized_plain(path);
    lemma_plain_is_normalized(normalized(path));
}

/// Whether a path holds no `.` and no `..`.
pub open spec fn plain(path: Seq<PartView>) -> bool {
    forall|i: int| 0 <= i < path.len() ==> (#[trigger] path[i] is Root || path[i] is Name)
}

proof fn lemma_normalized_plain(path: Seq<PartView>)
    requires
        is_path(path),
    ensures
        plain(normalized(path)),
        is_path(normalized(path)),
        path.len() > 0 ==> (normalized(path).len() > 0 && normalized(path)[0] is Root <==> path[0] is Root),
    decreases path.len(),
{
    if path.len() > 0 {
        let shorter = path.drop_last();
        assert(forall|i: int| 0 <= i < shorter.len() ==> shorter[i] == path[i]);
        lemma_normalized_plain(shorter);
        assert(may_stand(path[path.len() - 1], path.len() - 1));
        let before = normalized(shorter);
        match path.last() {
            PartView::Current => {},
            PartView::Parent => {
                if let Some(rest) = parent(before) {
                    assert(forall|i: int| 0 <= i < rest.len() ==> rest[i] == before[i]);
                    if shorter.len() > 0 && before.len() > 0 && before[0] is Root {
                        assert(before.len() > 1);
                    }
                }
            },
            part => {
                if part is Root {
                    assert(shorter.len() == 0);
                }
            },
        }
    }
}

pub proof fn lemma_plain_is_normalized(path: Seq<PartView>)
    requires
        plain(path),
    ensures
        normalized(path) == path,
    decreases path.len(),
{
    if path.len() > 0 {
        let shorter = path.drop_last();
        assert(forall|i: int| 0 <= i < shorter.len() ==> shorter[i] == path[i]);
        lemma_plain_is_normalized(shorter);
        assert(shorter.push(path.last()) =~= path);
        assert(path[path.len() - 1] is Root || path[path.len() - 1] is Name);
    } else {
        assert(normalized(path) =~= path);
    }
}

pub(crate) proof fn lemma_split_appended(front: Seq<u8>, piece: Seq<u8>)
    requires
        !piece.contains(47u8),
    ensures
        text::split(front + seq![47u8] + piece, 47u8) == text::split(front, 47u8).push(piece),
    decreases piece.len(),
{
    let whole = front + seq![47u8] + piece;
    text::lemma_split_nonempty(front, 47u8);
    if piece.len() == 0 {
        assert(whole.drop_last() =~= front);
        assert(piece =~= Seq::<u8>::empty());
    } else {
        assert(whole.drop_last() =~= front + seq![47u8] + piece.drop_last());
        assert forall|byte: u8| piece.drop_last().contains(byte) implies piece.contains(byte) by {
            let k = choose|k: int|
                0 <= k < piece.drop_last().len() && piece.drop_last()[k] == byte;
            assert(piece[k] == byte);
        }
        lemma_split_appended(front, piece.drop_last());
        assert(piece[piece.len() - 1] == piece.last());
        assert(whole.last() != 47u8);
        let before = text::split(front, 47u8).push(piece.drop_last());
        assert(piece.drop_last().push(piece.last()) =~= piece);
        assert(before.update(before.len() - 1, before.last().push(whole.last())) =~= text::split(
            front,
            47u8,
        ).push(piece));
    }
}

pub(crate) proof fn lemma_split_single(piece: Seq<u8>)
    requires
        !piece.contains(47u8),
    ensures
        text::split(piece, 47u8) == seq![piece],
    decreases piece.len(),
{
    if piece.len() == 0 {
        assert(piece =~= Seq::<u8>::empty());
    } else {
        assert forall|byte: u8| piece.drop_last().contains(byte) implies piece.contains(byte) by {
            let k = choose|k: int|
                0 <= k < piece.drop_last().len() && piece.drop_last()[k] == byte;
            assert(piece[k] == byte);
        }
        lemma_split_single(piece.drop_last());
        assert(piece[piece.len() - 1] == piece.last());
        assert(piece.drop_last().push(piece.last()) =~= piece);
        let before = seq![piece.drop_last()];
        assert(before.update(0, before.last().push(piece.last())) =~= seq![piece]);
    }
}

proof fn lemma_piece_plain(part: PartView, at: int)
    requires
        may_stand(part, at),
        at > 0 || !(part is Root),
    ensures
        !piece_of(part).contains(47u8),
        piece_of(part).len() > 0,
{
}

proof fn lemma_tilde()
    ensures
        components(text::bytes_of("~"@)) == seq![PartView::Name(seq![126u8])],
{
    reveal_strlit("~");
    let bytes = text::bytes_of("~"@);
    vstd::utf8::is_ascii_chars_encode_utf8("~"@);
    assert(bytes =~= seq![126u8]);
    let path = seq![PartView::Name(seq![126u8])];
    assert(!seq![126u8].contains(47u8));
    assert(seq![126u8][0] != seq![46u8][0]);
    assert(seq![126u8].len() != seq![46u8, 46u8].len());
    assert(is_path(path));
    assert(path.drop_last() =~= Seq::<PartView>::empty());
    reveal_with_fuel(written, 2);
    assert(written(path) =~= seq![126u8]);
    law_written_paths_read_back(path);
}

/// Reading back what was written gives the same path.
pub proof fn law_written_paths_read_back(path: Seq<PartView>)
    requires
        is_path(path),
    ensures
        components(written(path)) == path,
    decreases path.len(),
{
    reveal_with_fuel(gathered, 2);
    reveal_with_fuel(text::split, 2);
    if path.len() == 0 {
        assert(text::split(Seq::<u8>::empty(), 47u8) =~= seq![Seq::<u8>::empty()]);
        assert(components(written(path)) =~= path);
    } else if path.len() == 1 {
        assert(may_stand(path[0], 0));
        if path[0] is Root {
            let written = seq![47u8];
            assert(written.drop_last() =~= Seq::<u8>::empty());
            assert(text::split(written, 47u8) =~= seq![Seq::<u8>::empty(), Seq::<u8>::empty()]);
            assert(components(written) =~= path);
        } else {
            lemma_piece_plain(path[0], 0);
            lemma_split_single(piece_of(path[0]));
            lemma_pieces_differ();
            assert(components(written(path)) =~= path);
        }
    } else {
        let shorter = path.drop_last();
        let last = path.last();
        assert(forall|i: int| 0 <= i < shorter.len() ==> shorter[i] == path[i]);
        law_written_paths_read_back(shorter);
        assert(may_stand(path[path.len() - 1], path.len() - 1));
        assert(may_stand(path[path.len() - 2], path.len() - 2));
        lemma_piece_plain(last, path.len() - 1);
        lemma_pieces_differ();
        assert(shorter.push(last) =~= path);
        if shorter.last() is Root {
            assert(shorter.len() == 1);
            assert(shorter =~= seq![PartView::Root]);
            assert(written(path) =~= Seq::<u8>::empty() + seq![47u8] + piece_of(last));
            lemma_split_appended(Seq::empty(), piece_of(last));
            assert(text::split(Seq::<u8>::empty(), 47u8) =~= seq![Seq::<u8>::empty()]);
            let pieces = text::split(written(path), 47u8);
            assert(pieces =~= seq![Seq::<u8>::empty(), piece_of(last)]);
            assert(components(written(path)) =~= path);
        } else {
            lemma_split_appended(written(shorter), piece_of(last));
            let front = text::split(written(shorter), 47u8);
            let pieces = front.push(piece_of(last));
            text::lemma_split_nonempty(written(shorter), 47u8);
            assert(pieces.drop_last() =~= front);
            if front.len() == 1 && front[0].len() == 0 {
                assert(gathered(front) =~= Seq::<PartView>::empty());
            }
            assert(gathered(pieces) == with_piece(gathered(front), piece_of(last), false));
            assert(components(written(path)) =~= path);
        }
    }
}

pub(crate) proof fn lemma_pieces_differ()
    ensures
        seq![46u8, 46u8] != seq![46u8],
        seq![46u8].len() == 1,
        seq![46u8, 46u8].len() == 2,
{
    assert(seq![46u8, 46u8].len() != seq![46u8].len());
}

pub(crate) proof fn lemma_pieces_plain(bytes: Seq<u8>)
    ensures
        forall|i: int|
            0 <= i < text::split(bytes, 47u8).len() ==> !(#[trigger] text::split(
                bytes,
                47u8,
            )[i]).contains(47u8),
    decreases bytes.len(),
{
    let pieces = text::split(bytes, 47u8);
    if bytes.len() > 0 {
        let before = text::split(bytes.drop_last(), 47u8);
        lemma_pieces_plain(bytes.drop_last());
        text::lemma_split_nonempty(bytes.drop_last(), 47u8);
        assert forall|i: int| 0 <= i < pieces.len() implies !(#[trigger] pieces[i]).contains(
            47u8,
        ) by {
            if bytes.last() != 47u8 && i == before.len() - 1 {
                let piece = before.last().push(bytes.last());
                if piece.contains(47u8) {
                    let k = choose|k: int| 0 <= k < piece.len() && piece[k] == 47u8;
                    assert(before.last()[k] == 47u8);
                    assert(before[before.len() - 1].contains(47u8));
                }
            }
        }
    }
}

proof fn lemma_gathered_is_path(pieces: Seq<Seq<u8>>)
    requires
        forall|i: int| 0 <= i < pieces.len() ==> !(#[trigger] pieces[i]).contains(47u8),
    ensures
        is_path(gathered(pieces)),
        pieces.len() != 1 ==> gathered(pieces).len() > 0 || pieces.len() == 0 || pieces[0].len() > 0,
    decreases pieces.len(),
{
    lemma_pieces_differ();
    if pieces.len() > 1 {
        let before = if pieces.len() == 2 && pieces[0].len() == 0 {
            seq![PartView::Root]
        } else {
            gathered(pieces.drop_last())
        };
        lemma_gathered_is_path(pieces.drop_last());
        assert(!pieces[pieces.len() - 1].contains(47u8));
        assert(is_path(before));
        assert(is_path(with_piece(before, pieces.last(), false)));
    }
}

/// What is read as a path is one.
pub proof fn lemma_components_is_path(bytes: Seq<u8>)
    ensures
        is_path(components(bytes)),
{
    lemma_pieces_plain(bytes);
    lemma_gathered_is_path(text::split(bytes, 47u8));
}

fn last_dot(name: &[u8]) -> (result: Option<usize>)
    ensures
        match result {
            Some(at) => stem_length(name@) == Some(at as nat) && 0 < at < name@.len(),
            None => stem_length(name@) is None,
        },
{
    let mut end: usize = name.len();
    assert(name@.take(end as int) =~= name@);
    while end > 1
        invariant
            end <= name.len(),
            stem_length(name@) == stem_length(name@.take(end as int)),
        decreases end,
    {
        assert(name@.take(end as int).drop_last() =~= name@.take(end - 1));
        if name[end - 1] == 46 {
            return Some(end - 1);
        }
        end = end - 1;
    }
    None
}

fn push_piece(parts: &mut Vec<Part>, piece: &Vec<u8>, first: bool)
    ensures
        order::views(final(parts)@) == with_piece(order::views(old(parts)@), piece@, first),
{
    let ghost before = parts@;
    if piece.len() == 0 {
    } else if piece.len() == 1 && piece[0] == 46 {
        assert(piece@ =~= seq![46u8]);
        if first {
            parts.push(Part::Current);
            proof {
                order::lemma_views_push(before, Part::Current);
            }
        }
    } else if piece.len() == 2 && piece[0] == 46 && piece[1] == 46 {
        assert(piece@ =~= seq![46u8, 46u8]);
        proof {
            lemma_pieces_differ();
        }
        parts.push(Part::Parent);
        proof {
            order::lemma_views_push(before, Part::Parent);
        }
    } else {
        proof {
            assert(piece@ == seq![46u8] ==> piece@.len() == 1 && piece@[0] == 46u8);
            assert(piece@ == seq![46u8, 46u8] ==> piece@.len() == 2 && piece@[0] == 46u8
                && piece@[1] == 46u8);
        }
        let name = text::copy_bytes(piece.as_slice());
        let part = Part::Name(name);
        proof {
            order::lemma_views_push(before, part);
        }
        parts.push(part);
    }
}

impl Clone for FilePath {
    fn clone(&self) -> (result: Self)
        ensures
            result@ == self@,
            result.spelling() == self.spelling(),
    {
        proof {
            use_type_invariant(self);
        }
        let parts = self.first_parts(self.parts.len());
        assert(self@.take(self@.len() as int) =~= self@);
        let given = match &self.given {
            Some(bytes) => Some(text::copy_bytes(bytes.as_slice())),
            None => None,
        };
        FilePath { parts, given }
    }
}

fn spell_behind(base: Vec<u8>, relative: Vec<u8>) -> (result: Vec<u8>)
    ensures
        result@ == spelled_behind(base@, relative@),
{
    if base.len() == 0 || (relative.len() > 0 && relative[0] == 47) {
        return relative;
    }
    let mut result = base;
    let mut more = relative;
    if result[result.len() - 1] != 47 {
        result.push(47);
        assert(result@ =~= base@ + seq![47u8]);
    }
    result.append(&mut more);
    result
}

impl FilePath {
    #[verifier::type_invariant]
    spec fn well_formed(self) -> bool {
        &&& is_path(order::views(self.parts@))
        &&& components(self.spelling()) == order::views(self.parts@)
    }

    /// The path of some components, as it is written.
    fn of_parts(parts: Vec<Part>) -> (result: FilePath)
        requires
            is_path(order::views(parts@)),
        ensures
            result@ == order::views(parts@),
            result.spelling() == written(result@),
    {
        proof {
            law_written_paths_read_back(order::views(parts@));
        }
        FilePath { parts, given: None }
    }

    /// How the path is spelled.
    pub closed spec fn spelling(&self) -> Seq<u8> {
        match self.given {
            Some(bytes) => bytes@,
            None => written(self@),
        }
    }

    pub open spec fn as_given(&self) -> GivenView {
        GivenView { path: self@, spelling: self.spelling() }
    }

    /// How the path is spelled.
    pub fn to_bytes(&self) -> (result: Vec<u8>)
        ensures
            result@ == self.spelling(),
            components(result@) == self@,
    {
        proof {
            use_type_invariant(self);
        }
        match &self.given {
            Some(bytes) => text::copy_bytes(bytes.as_slice()),
            None => self.write(),
        }
    }

    /// The path as it is shown.
    pub fn display(&self) -> (result: String)
        ensures
            result@ == spelled(self.spelling()),
    {
        text::decode_lossy(self.to_bytes().as_slice())
    }

    /// The path with no components.
    pub fn empty() -> (result: Self)
        ensures
            result@ == Seq::<PartView>::empty(),
    {
        let parts: Vec<Part> = Vec::new();
        assert(order::views(parts@) =~= Seq::<PartView>::empty());
        FilePath::of_parts(parts)
    }

    /// The path that some bytes spell.
    pub fn from_bytes(bytes: &[u8]) -> (result: Self)
        ensures
            result@ == components(bytes@),
            result.spelling() == bytes@,
            is_path(result@),
    {
        let pieces = text::split_bytes(bytes, 47);
        let ghost all = order::views(pieces@);
        proof {
            text::lemma_split_nonempty(bytes@, 47u8);
            lemma_components_is_path(bytes@);
        }
        let mut parts: Vec<Part> = Vec::new();
        let mut at: usize = 1;
        if pieces.len() > 1 && pieces[0].len() == 0 {
            parts.push(Part::Root);
            assert(order::views(parts@) =~= seq![PartView::Root]);
            push_piece(&mut parts, &pieces[1], false);
            at = 2;
            assert(all.take(2) =~= seq![all[0], all[1]]);
        } else {
            assert(order::views(parts@) =~= Seq::<PartView>::empty());
            push_piece(&mut parts, &pieces[0], true);
            assert(all.take(1) =~= seq![all[0]]);
        }
        while at < pieces.len()
            invariant
                1 <= at <= pieces.len(),
                all == order::views(pieces@),
                all[0].len() == 0 ==> at > 1 || pieces.len() == 1,
                order::views(parts@) == gathered(all.take(at as int)),
            decreases pieces.len() - at,
        {
            assert(all.take(at + 1).drop_last() =~= all.take(at as int));
            push_piece(&mut parts, &pieces[at], false);
            at = at + 1;
        }
        assert(all.take(at as int) =~= all);
        let plain = FilePath::of_parts(parts);
        let normal = plain.write();
        if order::same_bytes(normal.as_slice(), bytes) {
            plain
        } else {
            FilePath { given: Some(text::copy_bytes(bytes)), ..plain }
        }
    }

    /// The path that some text spells.
    pub fn new(text: &str) -> (result: Self)
        ensures
            result@ == components(text::bytes_of(text@)),
            result.spelling() == text::bytes_of(text@),
            is_path(result@),
    {
        FilePath::from_bytes(text.as_bytes())
    }

    fn write(&self) -> (result: Vec<u8>)
        ensures
            result@ == written(self@),
    {
        let mut result: Vec<u8> = Vec::new();
        let mut at: usize = 0;
        let ghost all = self@;
        while at < self.parts.len()
            invariant
                at <= self.parts.len(),
                all == order::views(self.parts@),
                result@ == written(all.take(at as int)),
            decreases self.parts.len() - at,
        {
            let ghost before = all.take(at as int);
            assert(all.take(at + 1).drop_last() =~= before);
            if at > 0 {
                match &self.parts[at - 1] {
                    Part::Root => {},
                    _ => {
                        result.push(47);
                        assert(result@ =~= written(before) + seq![47u8]);
                    },
                }
            }
            let ghost front = result@;
            let mut piece: Vec<u8> = Vec::new();
            match &self.parts[at] {
                Part::Root => {
                    piece.push(47);
                    assert(piece@ =~= seq![47u8]);
                },
                Part::Current => {
                    piece.push(46);
                    assert(piece@ =~= seq![46u8]);
                },
                Part::Parent => {
                    piece.push(46);
                    piece.push(46);
                    assert(piece@ =~= seq![46u8, 46u8]);
                },
                Part::Name(name) => {
                    piece = text::copy_bytes(name.as_slice());
                },
            }
            assert(piece@ == piece_of(all[at as int]));
            result.append(&mut piece);
            proof {
                if at == 0 {
                    assert(result@ =~= piece_of(all[0]));
                }
            }
            at = at + 1;
        }
        assert(all.take(at as int) =~= all);
        result
    }

    /// How many components the path has.
    pub fn len(&self) -> (result: usize)
        ensures
            result == self@.len(),
    {
        self.parts.len()
    }

    fn first_parts(&self, count: usize) -> (result: Vec<Part>)
        requires
            count <= self.parts@.len(),
        ensures
            order::views(result@) == self@.take(count as int),
    {
        let mut result: Vec<Part> = Vec::new();
        let mut at: usize = 0;
        assert(order::views(result@) =~= self@.take(0));
        while at < count
            invariant
                at <= count <= self.parts@.len(),
                order::views(result@) == self@.take(at as int),
            decreases count - at,
        {
            let part = self.parts[at].clone();
            proof {
                order::lemma_views_push(result@, part);
                assert(self@.take(at + 1) =~= self@.take(at as int).push(self@[at as int]));
            }
            result.push(part);
            at = at + 1;
        }
        result
    }

    /// Whether two paths are the same.
    pub fn same(&self, other: &FilePath) -> (result: bool)
        ensures
            result == (self@ == other@),
    {
        assert(self@.len() == self.parts@.len() && other@.len() == other.parts@.len());
        self.parts.len() == other.parts.len() && self.starts_with(other)
    }

    /// Whether the path is `base` or lies below it.
    pub fn starts_with(&self, base: &FilePath) -> (result: bool)
        ensures
            result == within(self@, base@),
            self@.len() == base@.len() ==> result == (self@ == base@),
    {
        proof {
            if self@.len() == base@.len() {
                assert(self@.take(base@.len() as int) =~= self@);
            }
        }
        if base.parts.len() > self.parts.len() {
            return false;
        }
        let mut at: usize = 0;
        while at < base.parts.len()
            invariant
                at <= base.parts.len() <= self.parts.len(),
                forall|i: int| 0 <= i < at ==> self@[i] == base@[i],
            decreases base.parts.len() - at,
        {
            if !same_part(&self.parts[at], &base.parts[at]) {
                proof {
                    assert(self@[at as int] != base@[at as int]);
                    assert(self@.take(base@.len() as int)[at as int] == self@[at as int]);
                }
                return false;
            }
            at = at + 1;
        }
        assert(self@.take(base@.len() as int) =~= base@);
        true
    }

    /// Whether the path lies below `base`.
    pub fn is_below(&self, base: &FilePath) -> (result: bool)
        ensures
            result == below(self@, base@),
    {
        self.parts.len() > base.parts.len() && self.starts_with(base)
    }

    /// Whether the path comes no later than another.
    pub fn not_after(&self, other: &FilePath) -> (result: bool)
        ensures
            result == at_most(self@, other@),
    {
        let ghost le = part_order();
        let mut at: usize = 0;
        proof {
            assert(self@.skip(0) =~= self@);
            assert(other@.skip(0) =~= other@);
        }
        while at < self.parts.len() && at < other.parts.len() && same_part(
            &self.parts[at],
            &other.parts[at],
        )
            invariant
                at <= self.parts.len(),
                at <= other.parts.len(),
                order::lexicographic(self@, other@, le) == order::lexicographic(
                    self@.skip(at as int),
                    other@.skip(at as int),
                    le,
                ),
            decreases self.parts.len() - at,
        {
            assert(self@.skip(at as int).drop_first() =~= self@.skip(at + 1));
            assert(other@.skip(at as int).drop_first() =~= other@.skip(at + 1));
            at = at + 1;
        }
        if at >= self.parts.len() {
            true
        } else if at >= other.parts.len() {
            false
        } else {
            part_not_after(&self.parts[at], &other.parts[at])
        }
    }

    /// The path without its last component.
    pub fn parent(&self) -> (result: Option<FilePath>)
        ensures
            match result {
                Some(shorter) => parent(self@) == Some(shorter@),
                None => parent(self@) is None,
            },
    {
        proof {
            use_type_invariant(self);
        }
        if self.parts.len() == 0 {
            return None;
        }
        match &self.parts[self.parts.len() - 1] {
            Part::Root => None,
            _ => Some(self.prefix(self.parts.len() - 1)),
        }
    }

    /// The first components of the path.
    pub fn prefix(&self, count: usize) -> (result: FilePath)
        requires
            count <= self@.len(),
        ensures
            result@ == self@.take(count as int),
    {
        proof {
            use_type_invariant(self);
        }
        let parts = self.first_parts(count);
        FilePath::of_parts(parts)
    }

    /// The last component, where it is a name.
    pub fn file_name(&self) -> (result: Option<&Vec<u8>>)
        ensures
            match result {
                Some(name) => file_name(self@) == Some(name@),
                None => file_name(self@) is None,
            },
    {
        if self.parts.len() == 0 {
            return None;
        }
        match &self.parts[self.parts.len() - 1] {
            Part::Name(name) => Some(name),
            _ => None,
        }
    }

    /// The file name up to its last dot.
    pub fn file_stem(&self) -> (result: Option<Vec<u8>>)
        ensures
            match result {
                Some(stem) => file_stem(self@) == Some(stem@),
                None => file_stem(self@) is None,
            },
    {
        match self.file_name() {
            Some(name) => Some(stem(name.as_slice())),
            None => None,
        }
    }

    /// What follows the last dot of the file name.
    pub fn extension(&self) -> (result: Option<Vec<u8>>)
        ensures
            match result {
                Some(found) => extension(self@) == Some(found@),
                None => extension(self@) is None,
            },
    {
        match self.file_name() {
            Some(name) => match last_dot(name.as_slice()) {
                Some(at) => {
                    let length: usize = name.len();
                    let found = text::bytes_between(name.as_slice(), at + 1, length);
                    assert(found@ =~= name@.skip(at + 1));
                    Some(found)
                },
                None => None,
            },
            None => None,
        }
    }

    pub fn is_absolute(&self) -> (result: bool)
        ensures
            result == is_absolute(self@),
    {
        self.parts.len() > 0 && matches!(self.parts[0], Part::Root)
    }

    /// `relative` resolved against this path.
    pub fn join(&self, relative: &FilePath) -> (result: FilePath)
        ensures
            result@ == joined(self@, relative@),
            result.spelling() == spelled_behind(self.spelling(), relative.spelling()),
    {
        let given = spell_behind(self.to_bytes(), relative.to_bytes());
        let plain = self.join_parts(relative);
        proof {
            use_type_invariant(self);
            use_type_invariant(relative);
            use_type_invariant(&plain);
            spelling::lemma_behind(self.spelling(), relative.spelling());
        }
        FilePath { given: Some(given), ..plain }
    }

    fn join_parts(&self, relative: &FilePath) -> (result: FilePath)
        ensures
            result@ == joined(self@, relative@),
    {
        proof {
            use_type_invariant(self);
            use_type_invariant(relative);
        }
        if self.parts.len() == 0 || relative.is_absolute() {
            return relative.clone();
        }
        let mut parts = self.first_parts(self.parts.len());
        assert(order::views(parts@) =~= self@);
        let mut at: usize = if relative.parts.len() > 0 && matches!(relative.parts[0], Part::Current) {
            1
        } else {
            0
        };
        let ghost from = at as int;
        assert(order::views(parts@) =~= self@ + relative@.subrange(from, from));
        while at < relative.parts.len()
            invariant
                0 <= from <= at <= relative.parts.len(),
                order::views(parts@) == self@ + relative@.subrange(from, at as int),
            decreases relative.parts.len() - at,
        {
            let part = relative.parts[at].clone();
            proof {
                order::lemma_views_push(parts@, part);
                assert((self@ + relative@.subrange(from, at as int)).push(relative@[at as int])
                    =~= self@ + relative@.subrange(from, at + 1));
            }
            parts.push(part);
            at = at + 1;
        }
        assert(self@ + relative@.subrange(from, at as int) =~= joined(self@, relative@));
        proof {
            let whole = joined(self@, relative@);
            assert forall|i: int| 0 <= i < whole.len() implies may_stand(#[trigger] whole[i], i) by {
                if i < self@.len() {
                    assert(may_stand(self@[i], i));
                } else {
                    assert(may_stand(relative@[i - self@.len() + from], i - self@.len() + from));
                }
            }
        }
        FilePath::of_parts(parts)
    }

    /// A name below this path.
    pub fn child(&self, name: &str) -> (result: FilePath)
        ensures
            result@ == joined(self@, components(text::bytes_of(name@))),
            result.as_given() == resolved(self.as_given(), given_as(text::bytes_of(name@))),
    {
        self.join(&FilePath::new(name))
    }

    /// The components behind `base`.
    pub fn strip_prefix(&self, base: &FilePath) -> (result: Option<Vec<Part>>)
        ensures
            match result {
                Some(rest) => within(self@, base@) && order::views(rest@) == self@.skip(
                    base@.len() as int,
                ),
                None => !within(self@, base@),
            },
    {
        if !self.starts_with(base) {
            return None;
        }
        let from: usize = base.parts.len();
        let mut rest: Vec<Part> = Vec::new();
        let mut at: usize = from;
        assert(order::views(rest@) =~= self@.subrange(from as int, at as int));
        while at < self.parts.len()
            invariant
                from <= at <= self.parts.len(),
                order::views(rest@) == self@.subrange(from as int, at as int),
            decreases self.parts.len() - at,
        {
            let part = self.parts[at].clone();
            proof {
                order::lemma_views_push(rest@, part);
                assert(self@.subrange(from as int, at as int).push(self@[at as int])
                    =~= self@.subrange(from as int, at + 1));
            }
            rest.push(part);
            at = at + 1;
        }
        assert(self@.subrange(from as int, at as int) =~= self@.skip(from as int));
        Some(rest)
    }

    /// The path without its last component, as it is spelled.
    pub fn parent_as_given(&self) -> (result: Option<FilePath>)
        ensures
            match result {
                Some(shorter) => parent(self@) == Some(shorter@) && shorter.spelling()
                    == spelling::front(self.spelling(), (self@.len() - 1) as nat),
                None => parent(self@) is None,
            },
    {
        proof {
            use_type_invariant(self);
        }
        match self.parent() {
            Some(shorter) => Some(
                FilePath::from_bytes(self.front_bytes(&shorter).as_slice()),
            ),
            None => None,
        }
    }

    fn front_bytes(&self, wanted: &FilePath) -> (result: Vec<u8>)
        requires
            wanted@.len() <= self@.len(),
            wanted@ == self@.take(wanted@.len() as int),
        ensures
            result@ == spelling::front(self.spelling(), wanted@.len()),
            components(result@) == wanted@,
    {
        let bytes = self.to_bytes();
        let mut length: usize = 0;
        proof {
            use_type_invariant(self);
            spelling::law_front_spells_the_first_components(bytes@, wanted@.len());
        }
        while length < bytes.len() && !FilePath::from_bytes(
            slice_subrange(bytes.as_slice(), 0, length),
        ).same(wanted)
            invariant
                length <= bytes@.len(),
                spelling::shortest(bytes@, wanted@, 0) == spelling::shortest(
                    bytes@,
                    wanted@,
                    length as nat,
                ),
            ensures
                length <= bytes@.len(),
                spelling::shortest(bytes@, wanted@, 0) == length,
            decreases bytes.len() - length,
        {
            assert(bytes@.subrange(0, length as int) =~= bytes@.take(length as int));
            length = length + 1;
        }
        assert(bytes@.subrange(0, length as int) =~= bytes@.take(length as int));
        text::copy_bytes(slice_subrange(bytes.as_slice(), 0, length))
    }

    fn rest_bytes(&self, base: &FilePath) -> (result: Vec<u8>)
        requires
            below(self@, base@),
        ensures
            result@ == spelling::rest(self.spelling(), base@.len()),
    {
        proof {
            use_type_invariant(self);
        }
        let whole = self.front_bytes_of_all();
        if base.parts.len() == 0 {
            return whole;
        }
        let wanted = self.behind(base);
        let mut at: usize = whole.len();
        while at > 0 && !FilePath::from_bytes(
            slice_subrange(whole.as_slice(), at, whole.len()),
        ).same(&wanted)
            invariant
                at <= whole@.len(),
                spelling::last_start(whole@, wanted@, whole@.len()) == spelling::last_start(
                    whole@,
                    wanted@,
                    at as nat,
                ),
            ensures
                at <= whole@.len(),
                spelling::last_start(whole@, wanted@, whole@.len()) == at,
            decreases at,
        {
            assert(whole@.subrange(at as int, whole@.len() as int) =~= whole@.skip(at as int));
            at = at - 1;
        }
        assert(whole@.subrange(at as int, whole@.len() as int) =~= whole@.skip(at as int));
        text::copy_bytes(slice_subrange(whole.as_slice(), at, whole.len()))
    }

    fn front_bytes_of_all(&self) -> (result: Vec<u8>)
        ensures
            result@ == spelling::front(self.spelling(), self@.len()),
            components(result@) == self@,
    {
        assert(self@.take(self@.len() as int) =~= self@);
        self.front_bytes(self)
    }

    fn behind(&self, base: &FilePath) -> (result: FilePath)
        requires
            below(self@, base@),
        ensures
            result@ == self@.skip(base@.len() as int),
    {
        let parts = match self.strip_prefix(base) {
            Some(parts) => parts,
            None => Vec::new(),
        };
        proof {
            use_type_invariant(self);
            let whole = self@;
            let rest = whole.skip(base@.len() as int);
            assert forall|i: int| 0 <= i < rest.len() implies may_stand(#[trigger] rest[i], i) by {
                assert(may_stand(whole[base@.len() + i], base@.len() + i));
            }
        }
        FilePath::of_parts(parts)
    }

    /// The path as it is shown below a directory, where it lies below it.
    pub fn display_relative(&self, root: &FilePath) -> (result: String)
        ensures
            result@ == relative_shown(root@, self.spelling()),
    {
        proof {
            use_type_invariant(self);
        }
        if !self.is_below(root) {
            return self.display();
        }
        text::decode_lossy(self.rest_bytes(root).as_slice())
    }

    /// The path with the home directory in the place of a leading `~`.
    pub fn expand_home(&self, home: Option<&FilePath>) -> (result: FilePath)
        ensures
            result@ == expanded(
                self@,
                match home {
                    Some(known) => Some(known@),
                    None => None,
                },
            ),
            result.as_given() == expanded_as_given(
                self.as_given(),
                match home {
                    Some(known) => Some(known.as_given()),
                    None => None,
                },
            ),
    {
        let known = match home {
            Some(known) => known,
            None => {
                return self.clone();
            },
        };
        let tilde = FilePath::new("~");
        proof {
            reveal_strlit("~");
            lemma_tilde();
        }
        match self.strip_prefix(&tilde) {
            Some(parts) => {
                proof {
                    use_type_invariant(self);
                    let whole = self@;
                    let rest = whole.skip(1);
                    assert(whole.take(1)[0] == whole[0]);
                    assert(rest =~= whole.drop_first());
                    assert forall|i: int| 0 <= i < rest.len() implies may_stand(
                        #[trigger] rest[i],
                        i,
                    ) by {
                        assert(may_stand(whole[1 + i], 1 + i));
                    }
                }
                if parts.len() == 0 {
                    assert(joined(known@, self@.drop_first()) =~= known@);
                    return known.clone();
                }
                known.join(&FilePath::of_parts(parts))
            },
            None => {
                proof {
                    if self@.len() > 0 && self@[0] == PartView::Name(seq![126u8]) {
                        assert(self@.take(1) =~= tilde@);
                    }
                }
                self.clone()
            },
        }
    }

    /// The path beside this one that has its name with something behind it.
    pub fn sibling(&self, suffix: &str) -> (result: Option<FilePath>)
        ensures
            match result {
                Some(found) => sibling(self@, suffix@) == Some(found@),
                None => sibling(self@, suffix@) is None,
            },
    {
        let base = match self.parent() {
            Some(base) => base,
            None => {
                return None;
            },
        };
        match self.file_name() {
            Some(name) => {
                let mut whole = text::copy_bytes(name.as_slice());
                whole.extend_from_slice(suffix.as_bytes());
                assert(whole@ =~= name@ + text::bytes_of(suffix@));
                Some(base.join(&FilePath::from_bytes(whole.as_slice())))
            },
            None => None,
        }
    }

    /// The last names of the path, at most some of them.
    pub fn last_names(&self, count: usize) -> (result: FilePath)
        ensures
            result@ == last_names(self@, count as nat),
            result.spelling() == written(result@),
    {
        proof {
            use_type_invariant(self);
        }
        let ghost all = self@;
        let ghost wanted = last_names(all, count as nat);
        let mut backwards: Vec<Part> = Vec::new();
        let mut left: usize = self.parts.len();
        let mut missing: usize = count;
        assert(all.take(left as int) =~= all);
        assert(order::views(backwards@).reverse() =~= Seq::<PartView>::empty());
        assert(wanted =~= last_names(all.take(left as int), missing as nat) + order::views(
            backwards@,
        ).reverse());
        while left > 0 && missing > 0
            invariant
                left <= self.parts@.len(),
                all == order::views(self.parts@),
                is_path(all),
                wanted == last_names(all.take(left as int), missing as nat) + order::views(
                    backwards@,
                ).reverse(),
                forall|i: int|
                    0 <= i < backwards@.len() ==> (#[trigger] backwards@[i])@ is Name && is_name(
                        backwards@[i]@->Name_0,
                    ),
            decreases left,
        {
            let ghost before = all.take(left as int);
            let ghost tail = order::views(backwards@).reverse();
            assert(before.drop_last() =~= all.take(left - 1));
            assert(may_stand(all[left - 1], left - 1));
            match &self.parts[left - 1] {
                Part::Name(name) => {
                    let part = Part::Name(text::copy_bytes(name.as_slice()));
                    proof {
                        order::lemma_views_push(backwards@, part);
                        let rest = last_names(all.take(left - 1), (missing - 1) as nat);
                        assert(part@ == before.last());
                        assert(order::views(backwards@).push(part@).reverse() =~= seq![part@] + tail);
                        assert(rest.push(part@) + tail =~= rest + (seq![part@] + tail));
                    }
                    backwards.push(part);
                    missing = missing - 1;
                },
                _ => {},
            }
            left = left - 1;
        }
        assert(last_names(all.take(left as int), missing as nat) =~= Seq::<PartView>::empty());
        let ghost collected = backwards@;
        let parts = order::reversed(backwards);
        proof {
            assert(order::views(parts@) =~= order::views(collected).reverse());
            assert(order::views(parts@) =~= wanted);
            let made = order::views(parts@);
            assert forall|i: int| 0 <= i < made.len() implies may_stand(#[trigger] made[i], i) by {
                assert(made[i] == collected[collected.len() - 1 - i]@);
            }
        }
        FilePath::of_parts(parts)
    }

    /// The path with `.` dropped and `..` resolved.
    pub fn normalize(&self) -> (result: FilePath)
        ensures
            result@ == normalized(self@),
    {
        proof {
            use_type_invariant(self);
            lemma_normalized_plain(self@);
        }
        let mut parts: Vec<Part> = Vec::new();
        let mut at: usize = 0;
        assert(order::views(parts@) =~= Seq::<PartView>::empty());
        while at < self.parts.len()
            invariant
                at <= self.parts.len(),
                order::views(parts@) == normalized(self@.take(at as int)),
            decreases self.parts.len() - at,
        {
            let ghost before = parts@;
            assert(self@.take(at + 1).drop_last() =~= self@.take(at as int));
            match &self.parts[at] {
                Part::Current => {},
                Part::Parent => {
                    if parts.len() > 0 {
                        let keep = matches!(parts[parts.len() - 1], Part::Root);
                        if !keep {
                            let _ = parts.pop();
                            assert(order::views(parts@) =~= order::views(before).drop_last());
                        }
                    }
                },
                part => {
                    let copy = part.clone();
                    proof {
                        order::lemma_views_push(before, copy);
                    }
                    parts.push(copy);
                },
            }
            at = at + 1;
        }
        assert(self@.take(at as int) =~= self@);
        FilePath::of_parts(parts)
    }

    /// The component at a position.
    pub fn part(&self, at: usize) -> (result: &Part)
        requires
            at < self@.len(),
        ensures
            result@ == self@[at as int],
    {
        &self.parts[at]
    }
}

/// A name up to its last dot.
pub fn stem(name: &[u8]) -> (result: Vec<u8>)
    ensures
        result@ == stem_of_name(name@),
{
    match last_dot(name) {
        Some(at) => {
            let result = text::bytes_between(name, 0, at);
            assert(result@ =~= name@.take(at as int));
            result
        },
        None => text::copy_bytes(name),
    }
}

fn same_part(left: &Part, right: &Part) -> (result: bool)
    ensures
        result == (left@ == right@),
{
    match (left, right) {
        (Part::Root, Part::Root) => true,
        (Part::Current, Part::Current) => true,
        (Part::Parent, Part::Parent) => true,
        (Part::Name(a), Part::Name(b)) => order::same_bytes(a.as_slice(), b.as_slice()),
        _ => false,
    }
}

fn part_not_after(left: &Part, right: &Part) -> (result: bool)
    ensures
        result == part_at_most(left@, right@),
{
    match (left, right) {
        (Part::Root, _) => true,
        (Part::Current, Part::Root) => false,
        (Part::Current, _) => true,
        (Part::Parent, Part::Root) => false,
        (Part::Parent, Part::Current) => false,
        (Part::Parent, _) => true,
        (Part::Name(a), Part::Name(b)) => order::bytes_not_after(a.as_slice(), b.as_slice()),
        (Part::Name(_), _) => false,
    }
}

} // verus!
