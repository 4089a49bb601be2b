//! How the spelling of a path goes with its components.

use crate::path;
use crate::path::{components, gathered, joined, with_piece, PartView};
use crate::text;
use vstd::prelude::*;

verus! {

/// The length of the shortest spelling in front, of at least `from` bytes, whose
/// components are the ones wanted.
pub open spec fn shortest(bytes: Seq<u8>, wanted: Seq<PartView>, from: nat) -> nat
    decreases bytes.len() - from,
{
    if from >= bytes.len() || components(bytes.take(from as int)) == wanted {
        from
    } else {
        shortest(bytes, wanted, from + 1)
    }
}

/// The spelling of the first components of a path, without separators or dots
/// behind it.
pub open spec fn front(bytes: Seq<u8>, count: nat) -> Seq<u8> {
    bytes.take(shortest(bytes, components(bytes).take(count as int), 0) as int)
}

/// Where the shortest spelling behind starts, at `at` or before, whose components
/// are the ones wanted.
pub open spec fn last_start(bytes: Seq<u8>, wanted: Seq<PartView>, at: nat) -> nat
    decreases at,
{
    if at == 0 || components(bytes.skip(at as int)) == wanted {
        at
    } else {
        last_start(bytes, wanted, (at - 1) as nat)
    }
}

/// The spelling of what follows the first components of a path, without
/// separators or dots in front of it or behind it.
pub open spec fn rest(bytes: Seq<u8>, count: nat) -> Seq<u8> {
    let whole = front(bytes, components(bytes).len());
    if count == 0 {
        whole
    } else {
        whole.skip(last_start(whole, components(bytes).skip(count as int), whole.len()) as int)
    }
}

/// Whether some bytes are empty or end in a separator.
spec fn is_front(bytes: Seq<u8>) -> bool {
    bytes.len() > 0 ==> bytes.last() == 47u8
}

/// Where the last piece between separators starts.
spec fn piece_start(bytes: Seq<u8>) -> nat
    decreases bytes.len(),
{
    if bytes.len() == 0 || bytes.last() == 47u8 {
        bytes.len()
    } else {
        piece_start(bytes.drop_last())
    }
}

proof fn lemma_piece_start(bytes: Seq<u8>)
    ensures
        piece_start(bytes) <= bytes.len(),
        is_front(bytes.take(piece_start(bytes) as int)),
        !bytes.skip(piece_start(bytes) as int).contains(47u8),
        bytes.take(piece_start(bytes) as int) + bytes.skip(piece_start(bytes) as int) == bytes,
        bytes.len() > 0 && bytes.last() != 47u8 ==> piece_start(bytes) < bytes.len(),
    decreases bytes.len(),
{
    let at = piece_start(bytes) as int;
    if bytes.len() > 0 && bytes.last() != 47u8 {
        lemma_piece_start(bytes.drop_last());
        assert(bytes.take(at) =~= bytes.drop_last().take(at));
        let piece = bytes.skip(at);
        if piece.contains(47u8) {
            let k = choose|k: int| 0 <= k < piece.len() && piece[k] == 47u8;
            assert(bytes[at + k] == 47u8);
            assert(bytes.drop_last().skip(at)[k] == 47u8);
        }
    } else {
        assert(bytes.take(at) =~= bytes);
        assert(bytes.skip(at) =~= Seq::<u8>::empty());
    }
    assert(bytes.take(at) + bytes.skip(at) =~= bytes);
}

/// A piece behind a separator adds to the components in front of it.
pub proof fn lemma_with_piece(before: Seq<u8>, piece: Seq<u8>)
    requires
        before.len() > 0 ==> before.last() == 47u8,
        !piece.contains(47u8),
    ensures
        components(before + piece) == with_piece(components(before), piece, before.len() == 0),
{
    reveal_with_fuel(gathered, 2);
    reveal_with_fuel(text::split, 2);
    if before.len() == 0 {
        assert(before + piece =~= piece);
        path::lemma_split_single(piece);
        assert(text::split(before, 47u8) =~= seq![Seq::<u8>::empty()]);
        assert(components(before) =~= Seq::<PartView>::empty());
    } else {
        let short = before.drop_last();
        let pieces = text::split(short, 47u8);
        text::lemma_split_nonempty(short, 47u8);
        assert(before + piece =~= short + seq![47u8] + piece);
        assert(before =~= short + seq![47u8] + Seq::<u8>::empty());
        path::lemma_split_appended(short, piece);
        path::lemma_split_appended(short, Seq::empty());
        assert(pieces.push(piece).drop_last() =~= pieces);
        assert(pieces.push(Seq::<u8>::empty()).drop_last() =~= pieces);
    }
}

/// A separator behind a path changes nothing, but that nothing becomes the root.
proof fn lemma_with_separator(bytes: Seq<u8>)
    ensures
        components(bytes.push(47u8)) == if bytes.len() == 0 {
            seq![PartView::Root]
        } else {
            components(bytes)
        },
{
    reveal_with_fuel(gathered, 2);
    reveal_with_fuel(text::split, 2);
    let pieces = text::split(bytes, 47u8);
    text::lemma_split_nonempty(bytes, 47u8);
    assert(bytes.push(47u8).drop_last() =~= bytes);
    assert(pieces.push(Seq::<u8>::empty()).drop_last() =~= pieces);
    if bytes.len() > 0 && pieces.len() == 1 {
        let before = text::split(bytes.drop_last(), 47u8);
        text::lemma_split_nonempty(bytes.drop_last(), 47u8);
        assert(bytes.last() != 47u8);
        assert(pieces == before.update(before.len() - 1, before.last().push(bytes.last())));
        assert(pieces[0] == before.last().push(bytes.last()));
    }
}

/// A path has components where it has bytes, and the root where it starts with a
/// separator.
pub proof fn lemma_first_byte(bytes: Seq<u8>)
    ensures
        components(bytes).len() == 0 <==> bytes.len() == 0,
        path::is_absolute(components(bytes)) <==> bytes.len() > 0 && bytes[0] == 47u8,
    decreases bytes.len(),
{
    path::lemma_pieces_differ();
    if bytes.len() == 0 {
        reveal_with_fuel(gathered, 2);
        reveal_with_fuel(text::split, 2);
        assert(text::split(bytes, 47u8) =~= seq![Seq::<u8>::empty()]);
        assert(components(bytes) =~= Seq::<PartView>::empty());
    } else if bytes.last() == 47u8 {
        let short = bytes.drop_last();
        assert(short.push(47u8) =~= bytes);
        lemma_with_separator(short);
        lemma_first_byte(short);
    } else {
        lemma_piece_start(bytes);
        let at = piece_start(bytes) as int;
        let before = bytes.take(at);
        let piece = bytes.skip(at);
        lemma_with_piece(before, piece);
        lemma_first_byte(before);
        if at == 0 {
            if bytes[0] == 47u8 {
                assert(piece[0] == 47u8);
            }
        }
    }
}

/// A path behind a directory has the components of both.
pub proof fn lemma_behind(base: Seq<u8>, relative: Seq<u8>)
    ensures
        components(path::spelled_behind(base, relative)) == joined(
            components(base),
            components(relative),
        ),
{
    lemma_first_byte(base);
    lemma_first_byte(relative);
    if base.len() > 0 && !(relative.len() > 0 && relative[0] == 47u8) {
        if base.last() == 47u8 {
            lemma_in_front(base, relative);
        } else {
            let before = base.push(47u8);
            lemma_with_separator(base);
            lemma_in_front(before, relative);
            assert(base + seq![47u8] + relative =~= before + relative);
        }
    }
}

proof fn lemma_in_front(before: Seq<u8>, relative: Seq<u8>)
    requires
        before.len() > 0,
        before.last() == 47u8,
        relative.len() > 0 ==> relative[0] != 47u8,
    ensures
        components(before + relative) == joined(components(before), components(relative)),
    decreases relative.len(),
{
    let base = components(before);
    lemma_first_byte(before);
    lemma_first_byte(relative);
    path::lemma_pieces_differ();
    if relative.len() == 0 {
        assert(before + relative =~= before);
        assert(joined(base, components(relative)) =~= base);
    } else if relative.last() == 47u8 {
        let short = relative.drop_last();
        assert(short.push(47u8) =~= relative);
        assert((before + short).push(47u8) =~= before + relative);
        assert(short.len() > 0);
        assert(short[0] == relative[0]);
        lemma_with_separator(short);
        lemma_with_separator(before + short);
        lemma_in_front(before, short);
    } else {
        lemma_piece_start(relative);
        let at = piece_start(relative) as int;
        let front = relative.take(at);
        let piece = relative.skip(at);
        lemma_with_piece(front, piece);
        assert(before + relative =~= (before + front) + piece);
        lemma_with_piece(before + front, piece);
        if at > 0 {
            assert(front[0] == relative[0]);
        }
        lemma_in_front(before, front);
        lemma_first_byte(front);
        let middle = components(front);
        assert(with_piece(joined(base, middle), piece, false) =~= joined(
            base,
            with_piece(middle, piece, at == 0),
        ));
    }
}

/// Some spelling in front has the first components of a path.
proof fn lemma_some_front(bytes: Seq<u8>, count: nat)
    requires
        count <= components(bytes).len(),
    ensures
        exists|n: int|
            0 <= n <= bytes.len() && #[trigger] components(bytes.take(n)) == components(bytes).take(
                count as int,
            ),
    decreases bytes.len(),
{
    let all = components(bytes);
    lemma_first_byte(bytes);
    path::lemma_pieces_differ();
    if count == all.len() {
        assert(bytes.take(bytes.len() as int) =~= bytes);
        assert(all.take(count as int) =~= all);
        assert(components(bytes.take(bytes.len() as int)) == all.take(count as int));
    } else if count == 0 {
        lemma_first_byte(bytes.take(0));
        assert(components(bytes.take(0)) =~= all.take(0));
    } else {
        let at = if bytes.last() == 47u8 {
            (bytes.len() - 1) as int
        } else {
            piece_start(bytes) as int
        };
        let short = bytes.take(at);
        if bytes.last() == 47u8 {
            assert(short.push(47u8) =~= bytes);
            lemma_with_separator(short);
        } else {
            lemma_piece_start(bytes);
            lemma_with_piece(short, bytes.skip(at));
        }
        lemma_first_byte(short);
        assert(components(short).take(count as int) =~= all.take(count as int));
        lemma_some_front(short, count);
        let n = choose|n: int|
            0 <= n <= short.len() && #[trigger] components(short.take(n)) == components(short).take(
                count as int,
            );
        assert(short.take(n) =~= bytes.take(n));
        assert(components(bytes.take(n)) == all.take(count as int));
    }
}

proof fn lemma_shortest(bytes: Seq<u8>, wanted: Seq<PartView>, from: nat, found: nat)
    requires
        from <= found <= bytes.len(),
        components(bytes.take(found as int)) == wanted,
    ensures
        shortest(bytes, wanted, from) <= found,
        components(bytes.take(shortest(bytes, wanted, from) as int)) == wanted,
    decreases found - from,
{
    if from < found && components(bytes.take(from as int)) != wanted {
        lemma_shortest(bytes, wanted, from + 1, found);
    }
}

/// The spelling of the first components of a path spells them.
pub proof fn law_front_spells_the_first_components(bytes: Seq<u8>, count: nat)
    requires
        count <= components(bytes).len(),
    ensures
        components(front(bytes, count)) == components(bytes).take(count as int),
        shortest(bytes, components(bytes).take(count as int), 0) <= bytes.len(),
{
    lemma_some_front(bytes, count);
    let wanted = components(bytes).take(count as int);
    let n = choose|n: int| 0 <= n <= bytes.len() && #[trigger] components(bytes.take(n)) == wanted;
    lemma_shortest(bytes, wanted, 0, n as nat);
}

proof fn lemma_rest_grows(short: Seq<u8>, piece: Seq<u8>, count: nat, n: int)
    requires
        is_front(short),
        !piece.contains(47u8),
        0 < count < components(short).len(),
        0 <= n <= short.len(),
        components(short.skip(n)) == components(short).skip(count as int),
    ensures
        components((short + piece).skip(n)) == components(short + piece).skip(count as int),
{
    let tail = short.skip(n);
    let all = components(short);
    lemma_first_byte(short);
    lemma_first_byte(tail);
    assert(tail.len() > 0);
    assert(tail.last() == short.last());
    assert((short + piece).skip(n) =~= tail + piece);
    lemma_with_piece(tail, piece);
    lemma_with_piece(short, piece);
    assert(with_piece(all.skip(count as int), piece, false) =~= with_piece(all, piece, false).skip(
        count as int,
    ));
}

/// Some spelling behind has the components that follow the first ones.
proof fn lemma_some_rest(bytes: Seq<u8>, count: nat)
    requires
        0 < count < components(bytes).len(),
    ensures
        exists|n: int|
            0 <= n <= bytes.len() && #[trigger] components(bytes.skip(n)) == components(bytes).skip(
                count as int,
            ),
    decreases bytes.len(),
{
    lemma_first_byte(bytes);
    if bytes.last() == 47u8 {
        let short = bytes.drop_last();
        assert(short.push(47u8) =~= bytes);
        lemma_with_separator(short);
        lemma_some_rest(short, count);
        let n = choose|n: int|
            0 <= n <= short.len() && #[trigger] components(short.skip(n)) == components(short).skip(
                count as int,
            );
        lemma_first_byte(short.skip(n));
        lemma_with_separator(short.skip(n));
        assert(bytes.skip(n) =~= short.skip(n).push(47u8));
        assert(components(bytes.skip(n)) == components(bytes).skip(count as int));
    } else {
        lemma_piece_start(bytes);
        let at = piece_start(bytes) as int;
        let short = bytes.take(at);
        let piece = bytes.skip(at);
        lemma_with_piece(short, piece);
        if count < components(short).len() {
            lemma_some_rest(short, count);
            let n = choose|n: int|
                0 <= n <= short.len() && #[trigger] components(short.skip(n)) == components(
                    short,
                ).skip(count as int);
            lemma_rest_grows(short, piece, count, n);
            assert(components(bytes.skip(n)) == components(bytes).skip(count as int));
        } else {
            lemma_only_piece(short, piece, count);
            assert(components(bytes.skip(at)) == components(bytes).skip(count as int));
        }
    }
}

proof fn lemma_only_piece(short: Seq<u8>, piece: Seq<u8>, count: nat)
    requires
        is_front(short),
        !piece.contains(47u8),
        components(short).len() <= count < components(short + piece).len(),
        count > 0,
    ensures
        components(piece) == components(short + piece).skip(count as int),
{
    let none = Seq::<u8>::empty();
    path::lemma_pieces_differ();
    lemma_with_piece(short, piece);
    lemma_first_byte(short);
    lemma_with_piece(none, piece);
    lemma_first_byte(none);
    assert(none + piece =~= piece);
    assert(components(piece) =~= components(short + piece).skip(count as int));
}

proof fn lemma_last_start(bytes: Seq<u8>, wanted: Seq<PartView>, at: nat, found: nat)
    requires
        found <= at,
        components(bytes.skip(found as int)) == wanted,
    ensures
        found <= last_start(bytes, wanted, at) <= at,
        components(bytes.skip(last_start(bytes, wanted, at) as int)) == wanted,
    decreases at,
{
    if found < at && components(bytes.skip(at as int)) != wanted {
        lemma_last_start(bytes, wanted, (at - 1) as nat, found);
    }
}

/// The spelling of what follows the first components of a path spells it.
pub proof fn law_rest_spells_the_other_components(bytes: Seq<u8>, count: nat)
    requires
        count < components(bytes).len(),
    ensures
        components(rest(bytes, count)) == components(bytes).skip(count as int),
{
    let all = components(bytes);
    law_front_spells_the_first_components(bytes, all.len());
    let whole = front(bytes, all.len());
    assert(all.take(all.len() as int) =~= all);
    assert(all.skip(0) =~= all);
    if count > 0 {
        lemma_some_rest(whole, count);
        let wanted = all.skip(count as int);
        let n = choose|n: int|
            0 <= n <= whole.len() && #[trigger] components(whole.skip(n)) == wanted;
        lemma_last_start(whole, wanted, whole.len(), n as nat);
    }
}

} // verus!
