//! Orderings and a stable sort.

use vstd::prelude::*;

verus! {

/// The views of the elements of a sequence.
pub open spec fn views<T: View>(items: Seq<T>) -> Seq<T::V> {
    Seq::new(items.len(), |i: int| items[i]@)
}

pub proof fn lemma_views_push<T: View>(items: Seq<T>, last: T)
    ensures
        views(items.push(last)) == views(items).push(last@),
{
    assert(views(items.push(last)) =~= views(items).push(last@));
}

/// Whether `le` is total and transitive, so that it ranks any two values.
pub open spec fn is_ranking<A>(le: spec_fn(A, A) -> bool) -> bool {
    &&& forall|a: A, b: A| #[trigger] le(a, b) || le(b, a)
    &&& forall|a: A, b: A, c: A| #[trigger] le(a, b) && #[trigger] le(b, c) ==> le(a, c)
}

/// Whether every value of `items` ranks no later than those that follow it.
pub open spec fn is_ordered<A>(items: Seq<A>, le: spec_fn(A, A) -> bool) -> bool {
    forall|i: int, j: int| 0 <= i < j < items.len() ==> #[trigger] le(items[i], items[j])
}

/// `items` with `value` placed behind every value that ranks no later.
pub open spec fn inserted<A>(items: Seq<A>, value: A, le: spec_fn(A, A) -> bool) -> Seq<A>
    decreases items.len(),
{
    if items.len() == 0 {
        seq![value]
    } else if le(items.last(), value) {
        items.push(value)
    } else {
        inserted(items.drop_last(), value, le).push(items.last())
    }
}

/// `items` in ascending rank; values of equal rank keep their order.
pub open spec fn sorted<A>(items: Seq<A>, le: spec_fn(A, A) -> bool) -> Seq<A>
    decreases items.len(),
{
    if items.len() == 0 {
        Seq::empty()
    } else {
        inserted(sorted(items.drop_last(), le), items.last(), le)
    }
}

/// Two sequences merged from their ends.
spec fn merged<A>(left: Seq<A>, right: Seq<A>, le: spec_fn(A, A) -> bool) -> Seq<A>
    decreases left.len() + right.len(),
{
    if right.len() == 0 {
        left
    } else if left.len() == 0 {
        right
    } else if le(left.last(), right.last()) {
        merged(left, right.drop_last(), le).push(right.last())
    } else {
        merged(left.drop_last(), right, le).push(left.last())
    }
}

proof fn lemma_merged_insert<A>(left: Seq<A>, right: Seq<A>, value: A, le: spec_fn(A, A) -> bool)
    requires
        is_ranking(le),
    ensures
        merged(left, inserted(right, value, le), le) == inserted(merged(left, right, le), value, le),
    decreases left.len() + right.len(),
{
    if right.len() == 0 {
        assert(inserted(right, value, le) == seq![value]);
        assert(seq![value].drop_last() =~= Seq::<A>::empty());
        if left.len() > 0 {
            if le(left.last(), value) {
                assert(merged(left, seq![value].drop_last(), le) == left);
            } else {
                lemma_merged_insert(left.drop_last(), right, value, le);
                assert(merged(left.drop_last(), right, le) == left.drop_last());
            }
        }
    } else if le(right.last(), value) {
        let grown = right.push(value);
        assert(grown.drop_last() =~= right);
        if left.len() > 0 {
            if le(left.last(), value) {
                let joined = merged(left, right, le);
                assert(joined.last() == left.last() || joined.last() == right.last());
            } else {
                lemma_merged_insert(left.drop_last(), right, value, le);
                let inner = merged(left.drop_last(), right, le);
                assert(inner.push(left.last()).drop_last() =~= inner);
            }
        }
    } else {
        let shorter = right.drop_last();
        let grown = inserted(shorter, value, le).push(right.last());
        assert(grown.drop_last() =~= inserted(shorter, value, le));
        if left.len() > 0 {
            if le(left.last(), right.last()) {
                lemma_merged_insert(left, shorter, value, le);
                let inner = merged(left, shorter, le);
                assert(inner.push(right.last()).drop_last() =~= inner);
            } else {
                lemma_merged_insert(left.drop_last(), right, value, le);
                let inner = merged(left.drop_last(), right, le);
                assert(inner.push(left.last()).drop_last() =~= inner);
                assert(le(right.last(), left.last()));
            }
        }
    }
}

proof fn lemma_sorted_concat<A>(left: Seq<A>, right: Seq<A>, le: spec_fn(A, A) -> bool)
    requires
        is_ranking(le),
    ensures
        sorted(left + right, le) == merged(sorted(left, le), sorted(right, le), le),
    decreases right.len(),
{
    if right.len() == 0 {
        assert(left + right =~= left);
    } else {
        lemma_sorted_concat(left, right.drop_last(), le);
        assert((left + right).drop_last() =~= left + right.drop_last());
        lemma_merged_insert(sorted(left, le), sorted(right.drop_last(), le), right.last(), le);
    }
}

proof fn lemma_inserted_ordered<A>(items: Seq<A>, value: A, le: spec_fn(A, A) -> bool)
    requires
        is_ranking(le),
        is_ordered(items, le),
    ensures
        is_ordered(inserted(items, value, le), le),
        inserted(items, value, le).to_multiset() == items.to_multiset().insert(value),
        inserted(items, value, le).len() == items.len() + 1,
    decreases items.len(),
{
    broadcast use vstd::seq_lib::group_to_multiset_ensures;

    let whole = inserted(items, value, le);
    if items.len() == 0 {
        assert(whole == items.push(value));
    } else if le(items.last(), value) {
        assert forall|i: int, j: int| 0 <= i < j < whole.len() implies #[trigger] le(
            whole[i],
            whole[j],
        ) by {
            if j == whole.len() - 1 && i < items.len() - 1 {
                assert(le(items[i], items[items.len() - 1]));
            }
        }
    } else {
        let rest = items.drop_last();
        assert(is_ordered(rest, le)) by {
            assert forall|i: int, j: int| 0 <= i < j < rest.len() implies #[trigger] le(
                rest[i],
                rest[j],
            ) by {
                assert(le(items[i], items[j]));
            }
        }
        lemma_inserted_ordered(rest, value, le);
        let inner = inserted(rest, value, le);
        assert(rest.push(items.last()) =~= items);
        assert(items.to_multiset() == rest.to_multiset().insert(items.last()));
        assert(whole.to_multiset() == inner.to_multiset().insert(items.last()));
        assert(whole.to_multiset() =~= items.to_multiset().insert(value));
        assert forall|i: int, j: int| 0 <= i < j < whole.len() implies #[trigger] le(
            whole[i],
            whole[j],
        ) by {
            if j == whole.len() - 1 {
                assert(inner.to_multiset().contains(inner[i])) by {
                    assert(inner.contains(inner[i]));
                }
                if inner[i] != value {
                    assert(rest.to_multiset().contains(inner[i]));
                    assert(rest.contains(inner[i]));
                    let k = choose|k: int| 0 <= k < rest.len() && rest[k] == inner[i];
                    assert(le(items[k], items[items.len() - 1]));
                } else {
                    assert(le(value, items.last()));
                }
            } else {
                assert(le(inner[i], inner[j]));
            }
        }
    }
}

/// A sorted sequence is in ascending rank and holds exactly the values it was
/// made from.
pub proof fn law_sorted_is_an_ordered_permutation<A>(items: Seq<A>, le: spec_fn(A, A) -> bool)
    requires
        is_ranking(le),
    ensures
        is_ordered(sorted(items, le), le),
        sorted(items, le).to_multiset() == items.to_multiset(),
        sorted(items, le).len() == items.len(),
    decreases items.len(),
{
    broadcast use vstd::seq_lib::group_to_multiset_ensures;

    if items.len() > 0 {
        law_sorted_is_an_ordered_permutation(items.drop_last(), le);
        lemma_inserted_ordered(sorted(items.drop_last(), le), items.last(), le);
        assert(items.drop_last().push(items.last()) =~= items);
    }
}

/// A sorted sequence contains the same values as the one it was made from.
pub proof fn lemma_sorted_contains<A>(items: Seq<A>, value: A, le: spec_fn(A, A) -> bool)
    requires
        is_ranking(le),
    ensures
        sorted(items, le).contains(value) <==> items.contains(value),
{
    broadcast use vstd::seq_lib::group_to_multiset_ensures;

    law_sorted_is_an_ordered_permutation(items, le);
    assert(sorted(items, le).contains(value) <==> sorted(items, le).to_multiset().contains(value));
    assert(items.contains(value) <==> items.to_multiset().contains(value));
}

proof fn lemma_inserted_len<A>(items: Seq<A>, value: A, le: spec_fn(A, A) -> bool)
    ensures
        inserted(items, value, le).len() == items.len() + 1,
    decreases items.len(),
{
    if items.len() > 0 && !le(items.last(), value) {
        lemma_inserted_len(items.drop_last(), value, le);
    }
}

pub proof fn lemma_sorted_len<A>(items: Seq<A>, le: spec_fn(A, A) -> bool)
    ensures
        sorted(items, le).len() == items.len(),
    decreases items.len(),
{
    if items.len() > 0 {
        lemma_sorted_len(items.drop_last(), le);
        lemma_inserted_len(sorted(items.drop_last(), le), items.last(), le);
    }
}

/// Whether some places are those of `count` values, each once.
pub open spec fn are_places(places: Seq<int>, count: nat) -> bool {
    &&& places.len() == count
    &&& forall|i: int| 0 <= i < count ==> 0 <= #[trigger] places[i] < count
    &&& forall|i: int, j: int|
        0 <= i < j < count ==> #[trigger] places[i] != #[trigger] places[j]
}

/// The values at some places.
pub open spec fn reordered<A>(items: Seq<A>, places: Seq<int>) -> Seq<A> {
    Seq::new(places.len(), |i: int| items[places[i]])
}

/// Values in another order are the same values.
pub proof fn lemma_reordered<A>(items: Seq<A>, places: Seq<int>)
    requires
        are_places(places, items.len()),
    ensures
        reordered(items, places).to_multiset() == items.to_multiset(),
    decreases items.len(),
{
    broadcast use vstd::seq_lib::group_to_multiset_ensures;

    let whole = reordered(items, places);
    if items.len() == 0 {
        assert(whole =~= items);
    } else {
        let place = places.last();
        let rest = items.remove(place);
        let fewer = Seq::new(
            (places.len() - 1) as nat,
            |i: int|
                if places[i] > place {
                    places[i] - 1
                } else {
                    places[i]
                },
        );
        assert forall|i: int| 0 <= i < rest.len() implies 0 <= #[trigger] fewer[i]
            < rest.len() by {
            assert(places[i] != places[places.len() - 1]);
        }
        assert forall|i: int, j: int| 0 <= i < j < rest.len() implies #[trigger] fewer[i]
            != #[trigger] fewer[j] by {
            assert(places[i] != places[j]);
            assert(places[i] != places[places.len() - 1]);
            assert(places[j] != places[places.len() - 1]);
        }
        lemma_reordered(rest, fewer);
        assert(reordered(rest, fewer) =~= whole.drop_last()) by {
            assert forall|i: int| 0 <= i < rest.len() implies rest[#[trigger] fewer[i]]
                == items[places[i]] by {
                assert(places[i] != places[places.len() - 1]);
            }
        }
        assert(whole =~= whole.drop_last().push(items[place]));
        assert(items.to_multiset().contains(items[place])) by {
            assert(items.contains(items[place]));
        }
        assert(items.to_multiset().remove(items[place]).insert(items[place])
            =~= items.to_multiset());
    }
}

/// A ranking of values of type `T` by their views.
pub trait Ranking<T: View> {
    spec fn at_most(&self, left: T::V, right: T::V) -> bool;

    proof fn ranks(&self)
        ensures
            is_ranking(|left: T::V, right: T::V| self.at_most(left, right)),
    ;

    fn not_after(&self, left: &T, right: &T) -> (result: bool)
        ensures
            result == self.at_most(left@, right@),
    ;
}

/// The relation of a ranking as a function on views.
pub open spec fn relation<T: View, R: Ranking<T>>(ranking: R) -> spec_fn(T::V, T::V) -> bool {
    |left: T::V, right: T::V| ranking.at_most(left, right)
}

spec fn lifted<T: View, R: Ranking<T>>(ranking: R) -> spec_fn(T, T) -> bool {
    |left: T, right: T| ranking.at_most(left@, right@)
}

proof fn lemma_lifted<T: View, R: Ranking<T>>(ranking: R)
    ensures
        is_ranking(lifted::<T, R>(ranking)),
        is_ranking(relation::<T, R>(ranking)),
{
    ranking.ranks();
    let plain = |left: T::V, right: T::V| ranking.at_most(left, right);
    let le = lifted::<T, R>(ranking);
    assert forall|a: T, b: T| #[trigger] le(a, b) || le(b, a) by {
        assert(plain(a@, b@) || plain(b@, a@));
    }
    assert forall|a: T, b: T, c: T| #[trigger] le(a, b) && #[trigger] le(b, c) implies le(a, c) by {
        assert(plain(a@, b@) && plain(b@, c@));
        assert(plain(a@, c@));
    }
    let other = relation::<T, R>(ranking);
    assert forall|a: T::V, b: T::V| #[trigger] other(a, b) || other(b, a) by {
        assert(plain(a, b) || plain(b, a));
    }
    assert forall|a: T::V, b: T::V, c: T::V| #[trigger] other(a, b) && #[trigger] other(
        b,
        c,
    ) implies other(a, c) by {
        assert(plain(a, b) && plain(b, c));
        assert(plain(a, c));
    }
}

/// The relation of a ranking is total and transitive.
pub proof fn lemma_relation_ranks<T: View, R: Ranking<T>>(ranking: R)
    ensures
        is_ranking(relation::<T, R>(ranking)),
{
    lemma_lifted::<T, R>(ranking);
}

proof fn lemma_inserted_views<T: View, R: Ranking<T>>(items: Seq<T>, value: T, ranking: R)
    ensures
        views(inserted(items, value, lifted::<T, R>(ranking))) == inserted(
            views(items),
            value@,
            relation::<T, R>(ranking),
        ),
    decreases items.len(),
{
    let le = lifted::<T, R>(ranking);
    if items.len() == 0 {
        assert(views(inserted(items, value, le)) =~= inserted(
            views(items),
            value@,
            relation::<T, R>(ranking),
        ));
    } else {
        assert(views(items).last() == items.last()@);
        assert(views(items).drop_last() =~= views(items.drop_last()));
        if le(items.last(), value) {
            lemma_views_push(items, value);
        } else {
            lemma_inserted_views::<T, R>(items.drop_last(), value, ranking);
            lemma_views_push(inserted(items.drop_last(), value, le), items.last());
        }
    }
}

proof fn lemma_sorted_views<T: View, R: Ranking<T>>(items: Seq<T>, ranking: R)
    ensures
        views(sorted(items, lifted::<T, R>(ranking))) == sorted(
            views(items),
            relation::<T, R>(ranking),
        ),
    decreases items.len(),
{
    if items.len() == 0 {
        assert(views(sorted(items, lifted::<T, R>(ranking))) =~= Seq::<T::V>::empty());
    } else {
        assert(views(items).drop_last() =~= views(items.drop_last()));
        lemma_sorted_views::<T, R>(items.drop_last(), ranking);
        lemma_inserted_views::<T, R>(
            sorted(items.drop_last(), lifted::<T, R>(ranking)),
            items.last(),
            ranking,
        );
    }
}

/// A function applied to every value.
pub open spec fn mapped<A, B>(items: Seq<A>, project: spec_fn(A) -> B) -> Seq<B> {
    Seq::new(items.len(), |i: int| project(items[i]))
}

proof fn lemma_inserted_mapped<A, B>(
    items: Seq<A>,
    value: A,
    project: spec_fn(A) -> B,
    le: spec_fn(A, A) -> bool,
    projected: spec_fn(B, B) -> bool,
)
    requires
        forall|a: A, b: A| #[trigger] le(a, b) == projected(project(a), project(b)),
    ensures
        mapped(inserted(items, value, le), project) == inserted(
            mapped(items, project),
            project(value),
            projected,
        ),
    decreases items.len(),
{
    let whole = mapped(items, project);
    if items.len() == 0 {
        assert(mapped(inserted(items, value, le), project) =~= seq![project(value)]);
    } else {
        assert(whole.last() == project(items.last()));
        assert(whole.drop_last() =~= mapped(items.drop_last(), project));
        assert(le(items.last(), value) == projected(whole.last(), project(value)));
        if le(items.last(), value) {
            assert(mapped(items.push(value), project) =~= whole.push(project(value)));
        } else {
            lemma_inserted_mapped(items.drop_last(), value, project, le, projected);
            let inner = inserted(items.drop_last(), value, le);
            assert(mapped(inner.push(items.last()), project) =~= mapped(inner, project).push(
                project(items.last()),
            ));
        }
    }
}

/// Sorting by what a function makes of the values, and then applying it, is
/// applying it and then sorting.
pub proof fn lemma_sorted_mapped<A, B>(
    items: Seq<A>,
    project: spec_fn(A) -> B,
    le: spec_fn(A, A) -> bool,
    projected: spec_fn(B, B) -> bool,
)
    requires
        forall|a: A, b: A| #[trigger] le(a, b) == projected(project(a), project(b)),
    ensures
        mapped(sorted(items, le), project) == sorted(mapped(items, project), projected),
    decreases items.len(),
{
    if items.len() == 0 {
        assert(mapped(sorted(items, le), project) =~= Seq::<B>::empty());
    } else {
        assert(mapped(items, project).drop_last() =~= mapped(items.drop_last(), project));
        lemma_sorted_mapped(items.drop_last(), project, le, projected);
        lemma_inserted_mapped(
            sorted(items.drop_last(), le),
            items.last(),
            project,
            le,
            projected,
        );
    }
}

/// The items in opposite order.
pub fn reversed<T>(items: Vec<T>) -> (result: Vec<T>)
    ensures
        result@ == items@.reverse(),
{
    let mut items = items;
    let ghost all = items@;
    let mut result: Vec<T> = Vec::new();
    while items.len() > 0
        invariant
            items@ + result@.reverse() == all,
        decreases items.len(),
    {
        let ghost before = items@;
        let ghost done = result@;
        match items.pop() {
            Some(item) => {
                result.push(item);
                assert(items@ + result@.reverse() =~= before + done.reverse());
            },
            None => {},
        }
    }
    assert(result@ =~= all.reverse());
    result
}

fn merge<T: View, R: Ranking<T>>(left: Vec<T>, right: Vec<T>, ranking: &R) -> (result: Vec<T>)
    ensures
        result@ == merged(left@, right@, lifted::<T, R>(*ranking)),
{
    let ghost le = lifted::<T, R>(*ranking);
    let ghost whole = merged(left@, right@, le);
    let mut left = left;
    let mut right = right;
    let mut back: Vec<T> = Vec::new();
    while left.len() > 0 && right.len() > 0
        invariant
            le == lifted::<T, R>(*ranking),
            merged(left@, right@, le) + back@.reverse() == whole,
        decreases left.len() + right.len(),
    {
        let ghost from_left = left@;
        let ghost from_right = right@;
        let ghost done = back@;
        if ranking.not_after(&left[left.len() - 1], &right[right.len() - 1]) {
            match right.pop() {
                Some(item) => {
                    back.push(item);
                },
                None => {},
            }
            assert(merged(left@, right@, le) + back@.reverse() =~= merged(from_left, from_right, le)
                + done.reverse());
        } else {
            match left.pop() {
                Some(item) => {
                    back.push(item);
                },
                None => {},
            }
            assert(merged(left@, right@, le) + back@.reverse() =~= merged(from_left, from_right, le)
                + done.reverse());
        }
    }
    let mut result = if left.len() > 0 {
        left
    } else {
        right
    };
    let mut rest = reversed(back);
    result.append(&mut rest);
    result
}

fn merge_sort<T: View, R: Ranking<T>>(items: Vec<T>, ranking: &R) -> (result: Vec<T>)
    ensures
        result@ == sorted(items@, lifted::<T, R>(*ranking)),
    decreases items.len(),
{
    let mut items = items;
    let ghost all = items@;
    let ghost le = lifted::<T, R>(*ranking);
    if items.len() <= 1 {
        proof {
            if all.len() == 1 {
                assert(all.drop_last() =~= Seq::<T>::empty());
                assert(sorted(all.drop_last(), le) == Seq::<T>::empty());
                assert(inserted(Seq::<T>::empty(), all.last(), le) =~= all);
            } else {
                assert(sorted(all, le) =~= all);
            }
        }
        return items;
    }
    let half: usize = items.len() / 2;
    let right = items.split_off(half);
    proof {
        lemma_lifted::<T, R>(*ranking);
        assert(items@ + right@ =~= all);
        lemma_sorted_concat(items@, right@, le);
    }
    let left = merge_sort(items, ranking);
    let right = merge_sort(right, ranking);
    merge(left, right, ranking)
}

/// Sorts by a ranking; values of equal rank keep their order.
pub fn sort_by_ranking<T: View, R: Ranking<T>>(items: Vec<T>, ranking: &R) -> (result: Vec<T>)
    ensures
        views(result@) == sorted(views(items@), relation::<T, R>(*ranking)),
        result@.len() == items@.len(),
{
    proof {
        lemma_sorted_views::<T, R>(items@, *ranking);
        lemma_sorted_len(items@, lifted::<T, R>(*ranking));
    }
    merge_sort(items, ranking)
}

/// Lexicographic order: the first position at which the two differ decides,
/// and a proper prefix comes first.
pub open spec fn lexicographic<A>(left: Seq<A>, right: Seq<A>, le: spec_fn(A, A) -> bool) -> bool
    decreases left.len(),
{
    if left.len() == 0 {
        true
    } else if right.len() == 0 {
        false
    } else if left[0] == right[0] {
        lexicographic(left.drop_first(), right.drop_first(), le)
    } else {
        le(left[0], right[0])
    }
}

/// Whether `le` ranks all values and no two different ones alike.
pub open spec fn is_total_order<A>(le: spec_fn(A, A) -> bool) -> bool {
    &&& is_ranking(le)
    &&& forall|a: A, b: A| #[trigger] le(a, b) && le(b, a) ==> a == b
}

pub proof fn lemma_lexicographic_total<A>(left: Seq<A>, right: Seq<A>, le: spec_fn(A, A) -> bool)
    requires
        is_total_order(le),
    ensures
        lexicographic(left, right, le) || lexicographic(right, left, le),
        lexicographic(left, right, le) && lexicographic(right, left, le) ==> left == right,
    decreases left.len(),
{
    if left.len() == 0 || right.len() == 0 {
        if left.len() == right.len() {
            assert(left =~= right);
        }
    } else if left[0] == right[0] {
        lemma_lexicographic_total(left.drop_first(), right.drop_first(), le);
        if left.drop_first() == right.drop_first() {
            assert(left =~= seq![left[0]] + left.drop_first());
            assert(right =~= seq![right[0]] + right.drop_first());
        }
    } else {
        assert(le(left[0], right[0]) || le(right[0], left[0]));
    }
}

pub proof fn lemma_lexicographic_transitive<A>(
    first: Seq<A>,
    second: Seq<A>,
    third: Seq<A>,
    le: spec_fn(A, A) -> bool,
)
    requires
        is_total_order(le),
        lexicographic(first, second, le),
        lexicographic(second, third, le),
    ensures
        lexicographic(first, third, le),
    decreases first.len(),
{
    if first.len() > 0 {
        if first[0] == second[0] && second[0] == third[0] {
            lemma_lexicographic_transitive(
                first.drop_first(),
                second.drop_first(),
                third.drop_first(),
                le,
            );
        } else if first[0] == third[0] {
            assert(le(first[0], second[0]) && le(second[0], third[0]));
            assert(first[0] == second[0]);
        } else {
            if first[0] != second[0] && second[0] != third[0] {
                assert(le(first[0], second[0]) && le(second[0], third[0]));
            }
        }
    }
}

/// Bytes compared as numbers.
pub open spec fn byte_order() -> spec_fn(u8, u8) -> bool {
    |left: u8, right: u8| left <= right
}

/// Bytes compared lexicographically.
pub open spec fn bytes_at_most(left: Seq<u8>, right: Seq<u8>) -> bool {
    lexicographic(left, right, byte_order())
}

/// Whether one string of bytes comes no later than another.
pub fn bytes_not_after(left: &[u8], right: &[u8]) -> (result: bool)
    ensures
        result == bytes_at_most(left@, right@),
{
    let ghost le = byte_order();
    let mut at: usize = 0;
    proof {
        assert(left@.skip(0) =~= left@);
        assert(right@.skip(0) =~= right@);
    }
    while at < left.len() && at < right.len() && left[at] == right[at]
        invariant
            at <= left.len(),
            at <= right.len(),
            lexicographic(left@, right@, le) == lexicographic(
                left@.skip(at as int),
                right@.skip(at as int),
                le,
            ),
        decreases left.len() - at,
    {
        assert(left@.skip(at as int).drop_first() =~= left@.skip(at + 1));
        assert(right@.skip(at as int).drop_first() =~= right@.skip(at + 1));
        at = at + 1;
    }
    if at >= left.len() {
        true
    } else if at >= right.len() {
        false
    } else {
        left[at] <= right[at]
    }
}

/// Whether two strings of bytes are the same.
pub fn same_bytes(left: &[u8], right: &[u8]) -> (result: bool)
    ensures
        result == (left@ == right@),
{
    if left.len() != right.len() {
        return false;
    }
    let mut at: usize = 0;
    while at < left.len()
        invariant
            at <= left.len(),
            left@.len() == right@.len(),
            forall|i: int| 0 <= i < at ==> left@[i] == right@[i],
        decreases left.len() - at,
    {
        if left[at] != right[at] {
            return false;
        }
        at = at + 1;
    }
    assert(left@ =~= right@);
    true
}

} // verus!
