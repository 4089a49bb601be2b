//! Finding the items of a directory.

use crate::model::{ItemView, ScannedItem};
use crate::order;
use crate::order::Ranking;
use crate::path;
use crate::path::{FilePath, PartView};
use vstd::prelude::*;

verus! {

/// Whether an item is the first that satisfies a condition.
pub open spec fn is_first(
    items: Seq<ItemView>,
    condition: spec_fn(ItemView) -> bool,
    at: int,
) -> bool {
    &&& 0 <= at < items.len()
    &&& condition(items[at])
    &&& forall|i: int| 0 <= i < at ==> !condition(#[trigger] items[i])
}

/// The first item that satisfies a condition.
pub open spec fn first(items: Seq<ItemView>, condition: spec_fn(ItemView) -> bool) -> Option<
    ItemView,
> {
    if exists|at: int| is_first(items, condition, at) {
        Some(items[choose|at: int| is_first(items, condition, at)])
    } else {
        None
    }
}

/// Whether an item has the first path of those that satisfy a condition; of
/// several with one path it is the first.
pub open spec fn is_least(
    items: Seq<ItemView>,
    condition: spec_fn(ItemView) -> bool,
    at: int,
) -> bool {
    &&& 0 <= at < items.len()
    &&& condition(items[at])
    &&& forall|i: int|
        0 <= i < items.len() && condition(#[trigger] items[i]) ==> path::at_most(
            items[at].path,
            items[i].path,
        ) && (items[i].path == items[at].path ==> at <= i)
}

/// The item with the first path of those that satisfy a condition.
pub open spec fn least(items: Seq<ItemView>, condition: spec_fn(ItemView) -> bool) -> Option<
    ItemView,
> {
    if exists|at: int| is_least(items, condition, at) {
        Some(items[choose|at: int| is_least(items, condition, at)])
    } else {
        None
    }
}

pub proof fn lemma_first(items: Seq<ItemView>, condition: spec_fn(ItemView) -> bool, at: int)
    requires
        is_first(items, condition, at),
    ensures
        first(items, condition) == Some(items[at]),
{
    let other = choose|other: int| is_first(items, condition, other);
    assert(is_first(items, condition, other));
    if other < at {
        assert(!condition(items[other]));
    } else if at < other {
        assert(!condition(items[at]));
    }
}

/// Where any item satisfies a condition, one is the first that does.
pub proof fn lemma_some_first(items: Seq<ItemView>, condition: spec_fn(ItemView) -> bool, at: int)
    requires
        0 <= at < items.len(),
        condition(items[at]),
    ensures
        first(items, condition) is Some,
    decreases at,
{
    if exists|i: int| 0 <= i < at && condition(#[trigger] items[i]) {
        let i = choose|i: int| 0 <= i < at && condition(#[trigger] items[i]);
        lemma_some_first(items, condition, i);
    } else {
        assert(is_first(items, condition, at));
    }
}

pub proof fn lemma_no_first(items: Seq<ItemView>, condition: spec_fn(ItemView) -> bool)
    requires
        forall|i: int| 0 <= i < items.len() ==> !condition(#[trigger] items[i]),
    ensures
        first(items, condition) is None,
        least(items, condition) is None,
{
}

pub proof fn lemma_least(items: Seq<ItemView>, condition: spec_fn(ItemView) -> bool, at: int)
    requires
        is_least(items, condition, at),
    ensures
        least(items, condition) == Some(items[at]),
{
    let other = choose|other: int| is_least(items, condition, other);
    assert(is_least(items, condition, other));
    path::law_paths_are_totally_ordered(items[at].path, items[other].path);
    assert(condition(items[at]) && condition(items[other]));
}

/// Whether an item stands directly in a directory.
pub open spec fn is_child(item: ItemView, directory: Seq<PartView>) -> bool {
    path::parent(item.path) == Some(directory)
}

struct Entry<'a> {
    parent: FilePath,
    item: &'a ScannedItem,
    index: usize,
}

#[verifier::ext_equal]
struct IndexedView {
    parent: Seq<PartView>,
    item: ItemView,
    index: usize,
}

impl<'a> View for Entry<'a> {
    type V = IndexedView;

    closed spec fn view(&self) -> IndexedView {
        IndexedView { parent: self.parent@, item: self.item@, index: self.index }
    }
}

/// Entries by their directory, then by their path, then by their place.
struct EntryOrder;

spec fn entry_at_most(left: IndexedView, right: IndexedView) -> bool {
    if left.parent != right.parent {
        path::at_most(left.parent, right.parent)
    } else if left.item.path != right.item.path {
        path::at_most(left.item.path, right.item.path)
    } else {
        left.index <= right.index
    }
}

impl<'a> Ranking<Entry<'a>> for EntryOrder {
    closed spec fn at_most(&self, left: IndexedView, right: IndexedView) -> bool {
        entry_at_most(left, right)
    }

    proof fn ranks(&self) {
        let le = |left: IndexedView, right: IndexedView| entry_at_most(left, right);
        assert(le =~= |left: IndexedView, right: IndexedView| Ranking::<Entry<'a>>::at_most(self, left, right));
        assert forall|a: IndexedView, b: IndexedView| #[trigger] le(a, b) || le(b, a) by {
            path::law_paths_are_totally_ordered(a.parent, b.parent);
            path::law_paths_are_totally_ordered(a.item.path, b.item.path);
        }
        assert forall|a: IndexedView, b: IndexedView, c: IndexedView| #[trigger] le(a, b)
            && #[trigger] le(b, c) implies le(a, c) by {
            path::law_paths_are_totally_ordered(a.parent, b.parent);
            path::law_paths_are_totally_ordered(b.parent, c.parent);
            path::law_paths_are_totally_ordered(a.parent, c.parent);
            if path::at_most(a.parent, b.parent) && path::at_most(b.parent, c.parent) {
                path::lemma_at_most_transitive(a.parent, b.parent, c.parent);
            }
            path::law_paths_are_totally_ordered(a.item.path, b.item.path);
            path::law_paths_are_totally_ordered(b.item.path, c.item.path);
            path::law_paths_are_totally_ordered(a.item.path, c.item.path);
            if path::at_most(a.item.path, b.item.path) && path::at_most(b.item.path, c.item.path) {
                path::lemma_at_most_transitive(a.item.path, b.item.path, c.item.path);
            }
        }
    }

    fn not_after(&self, left: &Entry<'a>, right: &Entry<'a>) -> (result: bool) {
        if !left.parent.same(&right.parent) {
            left.parent.not_after(&right.parent)
        } else if !left.item.path.same(&right.item.path) {
            left.item.path.not_after(&right.item.path)
        } else {
            left.index <= right.index
        }
    }
}

/// A choice among items.
pub trait Condition {
    spec fn holds(&self, item: ItemView) -> bool;

    fn check(&self, item: &ScannedItem) -> (result: bool)
        ensures
            result == self.holds(item@),
    ;
}

/// The items of a directory that satisfy a condition.
pub open spec fn children_where<C: Condition>(
    directory: Seq<PartView>,
    condition: C,
) -> spec_fn(ItemView) -> bool {
    |item: ItemView| is_child(item, directory) && condition.holds(item)
}

/// The items of a scan by the directory they stand in.
pub struct ItemIndex<'a> {
    entries: Vec<Entry<'a>>,
    items: Ghost<Seq<ItemView>>,
}

spec fn entry_of(items: Seq<ItemView>, at: int) -> IndexedView {
    IndexedView { parent: path::parent(items[at].path)->Some_0, item: items[at], index: at as usize }
}

impl<'a> ItemIndex<'a> {
    /// The items that the index is of.
    pub closed spec fn all(&self) -> Seq<ItemView> {
        self.items@
    }

    #[verifier::type_invariant]
    spec fn well_formed(self) -> bool {
        let views = order::views(self.entries@);
        let items = self.items@;
        &&& forall|i: int, j: int|
            0 <= i < j < views.len() ==> entry_at_most(#[trigger] views[i], #[trigger] views[j])
        &&& forall|k: int|
            0 <= k < views.len() ==> (#[trigger] views[k]).index < items.len() && views[k].item
                == items[views[k].index as int] && path::parent(views[k].item.path) == Some(
                views[k].parent,
            )
        &&& forall|i: int|
            0 <= i < items.len() && path::parent((#[trigger] items[i]).path) is Some
                ==> views.contains(entry_of(items, i))
    }

    pub fn new(source: &'a Vec<ScannedItem>) -> (result: Self)
        ensures
            result.all() == order::views(source@),
    {
        let ghost items = order::views(source@);
        let mut unsorted: Vec<Entry<'a>> = Vec::new();
        let mut at: usize = 0;
        while at < source.len()
            invariant
                at <= source.len(),
                items == order::views(source@),
                forall|k: int|
                    0 <= k < unsorted@.len() ==> (#[trigger] unsorted@[k])@.index < items.len()
                        && unsorted@[k]@.item == items[unsorted@[k]@.index as int] && path::parent(
                        unsorted@[k]@.item.path,
                    ) == Some(unsorted@[k]@.parent),
                forall|i: int|
                    0 <= i < at && path::parent((#[trigger] items[i]).path) is Some
                        ==> order::views(unsorted@).contains(entry_of(items, i)),
            decreases source.len() - at,
        {
            let item = &source[at];
            let ghost before = order::views(unsorted@);
            assert(items[at as int] == item@);
            match item.path.parent() {
                Some(parent) => {
                    let entry = Entry { parent, item, index: at };
                    proof {
                        order::lemma_views_push(unsorted@, entry);
                    }
                    unsorted.push(entry);
                    proof {
                        let after = order::views(unsorted@);
                        assert forall|i: int|
                            0 <= i < at + 1 && path::parent((#[trigger] items[i]).path) is Some implies after.contains(
                            entry_of(items, i),
                        ) by {
                            if i < at {
                                assert(before.contains(entry_of(items, i)));
                                let k = choose|k: int|
                                    0 <= k < before.len() && before[k] == entry_of(items, i);
                                assert(after[k] == entry_of(items, i));
                            } else {
                                assert(after[before.len() as int] == entry_of(items, i));
                            }
                        }
                    }
                },
                None => {},
            }
            at = at + 1;
        }
        let ghost collected = order::views(unsorted@);
        let ghost rank = order::relation::<Entry<'a>, EntryOrder>(EntryOrder);
        let entries = order::sort_by_ranking(unsorted, &EntryOrder);
        proof {
            order::lemma_relation_ranks::<Entry<'a>, EntryOrder>(EntryOrder);
            order::law_sorted_is_an_ordered_permutation(collected, rank);
            let views = order::views(entries@);
            assert forall|i: int, j: int| 0 <= i < j < views.len() implies entry_at_most(
                #[trigger] views[i],
                #[trigger] views[j],
            ) by {
                assert(rank(views[i], views[j]));
            }
            assert forall|k: int| 0 <= k < views.len() implies (#[trigger] views[k]).index
                < items.len() && views[k].item == items[views[k].index as int] && path::parent(
                views[k].item.path,
            ) == Some(views[k].parent) by {
                order::lemma_sorted_contains(collected, views[k], rank);
                assert(views.contains(views[k]));
                let p = choose|p: int| 0 <= p < collected.len() && collected[p] == views[k];
                assert(unsorted@[p]@ == collected[p]);
            }
            assert forall|i: int|
                0 <= i < items.len() && path::parent((#[trigger] items[i]).path) is Some implies views.contains(
                entry_of(items, i),
            ) by {
                order::lemma_sorted_contains(collected, entry_of(items, i), rank);
            }
        }
        ItemIndex { entries, items: Ghost(items) }
    }

    /// The range of entries of a directory.
    fn range(&self, directory: &FilePath) -> (result: (usize, usize))
        ensures
            result.0 <= result.1 <= self.entries@.len(),
            forall|k: int|
                0 <= k < self.entries@.len() ==> (result.0 <= k < result.1 <==> (
                #[trigger] self.entries@[k]).parent@ == directory@),
    {
        proof {
            use_type_invariant(self);
        }
        let ghost views = order::views(self.entries@);
        let mut low: usize = 0;
        let mut high: usize = self.entries.len();
        while low < high
            invariant
                low <= high <= self.entries@.len(),
                views == order::views(self.entries@),
                forall|i: int, j: int|
                    0 <= i < j < views.len() ==> entry_at_most(
                        #[trigger] views[i],
                        #[trigger] views[j],
                    ),
                forall|k: int|
                    0 <= k < low ==> !path::at_most(directory@, (#[trigger] views[k]).parent),
                forall|k: int|
                    high <= k < views.len() ==> path::at_most(
                        directory@,
                        (#[trigger] views[k]).parent,
                    ),
            decreases high - low,
        {
            let middle: usize = low + (high - low) / 2;
            assert(views[middle as int].parent == self.entries@[middle as int].parent@);
            if directory.not_after(&self.entries[middle].parent) {
                proof {
                    assert forall|k: int| middle <= k < views.len() implies path::at_most(
                        directory@,
                        (#[trigger] views[k]).parent,
                    ) by {
                        if middle < k {
                            assert(entry_at_most(views[middle as int], views[k]));
                            if views[middle as int].parent != views[k].parent {
                                path::lemma_at_most_transitive(
                                    directory@,
                                    views[middle as int].parent,
                                    views[k].parent,
                                );
                            }
                        }
                    }
                }
                high = middle;
            } else {
                proof {
                    assert forall|k: int| 0 <= k < middle + 1 implies !path::at_most(
                        directory@,
                        (#[trigger] views[k]).parent,
                    ) by {
                        if k < middle {
                            assert(entry_at_most(views[k], views[middle as int]));
                            if path::at_most(directory@, views[k].parent) && views[k].parent
                                != views[middle as int].parent {
                                path::lemma_at_most_transitive(
                                    directory@,
                                    views[k].parent,
                                    views[middle as int].parent,
                                );
                            }
                        }
                    }
                }
                low = middle + 1;
            }
        }
        let start: usize = low;
        let mut end: usize = start;
        while end < self.entries.len() && self.entries[end].parent.same(directory)
            invariant
                start <= end <= self.entries@.len(),
                views == order::views(self.entries@),
                forall|k: int| start <= k < end ==> (#[trigger] views[k]).parent == directory@,
            decreases self.entries@.len() - end,
        {
            assert(views[end as int].parent == self.entries@[end as int].parent@);
            end = end + 1;
        }
        proof {
            assert forall|k: int| 0 <= k < self.entries@.len() implies (start <= k < end <==> (
            #[trigger] self.entries@[k]).parent@ == directory@) by {
                assert(views[k].parent == self.entries@[k].parent@);
                if k < start {
                    path::law_paths_are_totally_ordered(directory@, views[k].parent);
                } else if k >= end && views[k].parent == directory@ {
                    assert(views[end as int].parent == self.entries@[end as int].parent@);
                    path::law_paths_are_totally_ordered(directory@, views[end as int].parent);
                    if end < k {
                        assert(entry_at_most(views[end as int], views[k]));
                    }
                }
            }
        }
        (start, end)
    }

    /// The item of a directory with the first path of those that satisfy a
    /// condition.
    pub fn first_child<C: Condition>(&self, directory: &FilePath, condition: &C) -> (result: Option<
        &'a ScannedItem,
    >)
        ensures
            match result {
                Some(item) => least(self.all(), children_where(directory@, *condition)) == Some(
                    item@,
                ),
                None => least(self.all(), children_where(directory@, *condition)) is None,
            },
    {
        proof {
            use_type_invariant(self);
        }
        let ghost views = order::views(self.entries@);
        let ghost items = self.all();
        let ghost wanted = children_where(directory@, *condition);
        let (start, end) = self.range(directory);
        let mut at: usize = start;
        while at < end
            invariant
                start <= at <= end <= self.entries@.len(),
                views == order::views(self.entries@),
                items == self.all(),
                self.well_formed(),
                wanted == children_where(directory@, *condition),
                forall|k: int|
                    0 <= k < self.entries@.len() ==> (start <= k < end <==> (
                    #[trigger] self.entries@[k]).parent@ == directory@),
                forall|k: int| start <= k < at ==> !condition.holds((#[trigger] views[k]).item),
            decreases end - at,
        {
            assert(views[at as int] == self.entries@[at as int]@);
            assert(self.entries@[at as int].parent@ == directory@);
            if condition.check(self.entries[at].item) {
                proof {
                    let place = views[at as int].index as int;
                    assert forall|i: int|
                        0 <= i < items.len() && wanted(#[trigger] items[i]) implies path::at_most(
                        items[place].path,
                        items[i].path,
                    ) && (items[i].path == items[place].path ==> place <= i) by {
                        assert(views.contains(entry_of(items, i)));
                        let k = choose|k: int|
                            0 <= k < views.len() && views[k] == entry_of(items, i);
                        assert(views[k] == self.entries@[k]@);
                        assert(self.entries@[k].parent@ == directory@);
                        assert(k >= at);
                        if k > at {
                            assert(entry_at_most(views[at as int], views[k]));
                        }
                        path::law_paths_are_totally_ordered(items[place].path, items[i].path);
                    }
                    assert(is_least(items, wanted, place));
                    lemma_least(items, wanted, place);
                }
                return Some(self.entries[at].item);
            }
            at = at + 1;
        }
        proof {
            assert forall|i: int| 0 <= i < items.len() implies !wanted(#[trigger] items[i]) by {
                if wanted(items[i]) {
                    assert(views.contains(entry_of(items, i)));
                    let k = choose|k: int| 0 <= k < views.len() && views[k] == entry_of(items, i);
                    assert(views[k] == self.entries@[k]@);
                    assert(self.entries@[k].parent@ == directory@);
                }
            }
            lemma_no_first(items, wanted);
        }
        None
    }

    /// The first item of a directory that satisfies a condition.
    pub fn earliest_child<C: Condition>(
        &self,
        directory: &FilePath,
        condition: &C,
    ) -> (result: Option<&'a ScannedItem>)
        ensures
            match result {
                Some(item) => first(self.all(), children_where(directory@, *condition)) == Some(
                    item@,
                ),
                None => first(self.all(), children_where(directory@, *condition)) is None,
            },
    {
        proof {
            use_type_invariant(self);
        }
        let ghost views = order::views(self.entries@);
        let ghost items = self.all();
        let ghost wanted = children_where(directory@, *condition);
        let (start, end) = self.range(directory);
        let mut at: usize = start;
        let mut found: Option<usize> = None;
        while at < end
            invariant
                start <= at <= end <= self.entries@.len(),
                views == order::views(self.entries@),
                items == self.all(),
                self.well_formed(),
                wanted == children_where(directory@, *condition),
                forall|k: int|
                    0 <= k < self.entries@.len() ==> (start <= k < end <==> (
                    #[trigger] self.entries@[k]).parent@ == directory@),
                match found {
                    None => forall|k: int|
                        start <= k < at ==> !condition.holds((#[trigger] views[k]).item),
                    Some(best) => start <= best < at && condition.holds(views[best as int].item)
                        && forall|k: int|
                        start <= k < at && condition.holds((#[trigger] views[k]).item)
                            ==> views[best as int].index <= views[k].index,
                },
            decreases end - at,
        {
            assert(views[at as int] == self.entries@[at as int]@);
            if condition.check(self.entries[at].item) {
                match found {
                    None => {
                        found = Some(at);
                    },
                    Some(best) => {
                        assert(views[best as int] == self.entries@[best as int]@);
                        if self.entries[at].index < self.entries[best].index {
                            found = Some(at);
                        }
                    },
                }
            }
            at = at + 1;
        }
        match found {
            Some(best) => {
                proof {
                    let place = views[best as int].index as int;
                    assert(views[best as int] == self.entries@[best as int]@);
                    assert(self.entries@[best as int].parent@ == directory@);
                    assert forall|i: int| 0 <= i < place implies !wanted(#[trigger] items[i]) by {
                        if wanted(items[i]) {
                            assert(views.contains(entry_of(items, i)));
                            let k = choose|k: int|
                                0 <= k < views.len() && views[k] == entry_of(items, i);
                            assert(views[k] == self.entries@[k]@);
                            assert(self.entries@[k].parent@ == directory@);
                        }
                    }
                    assert(is_first(items, wanted, place));
                    lemma_first(items, wanted, place);
                }
                Some(self.entries[best].item)
            },
            None => {
                proof {
                    assert forall|i: int| 0 <= i < items.len() implies !wanted(
                        #[trigger] items[i],
                    ) by {
                        if wanted(items[i]) {
                            assert(views.contains(entry_of(items, i)));
                            let k = choose|k: int|
                                0 <= k < views.len() && views[k] == entry_of(items, i);
                            assert(views[k] == self.entries@[k]@);
                            assert(self.entries@[k].parent@ == directory@);
                        }
                    }
                    lemma_no_first(items, wanted);
                }
                None
            },
        }
    }
}

/// The last item with a path among the first `count`.
pub open spec fn item_at(items: Seq<ItemView>, given: Seq<PartView>, count: int) -> Option<ItemView>
    decreases count,
{
    if count <= 0 {
        None
    } else if items[count - 1].path == given {
        Some(items[count - 1])
    } else {
        item_at(items, given, count - 1)
    }
}

proof fn lemma_item_at(items: Seq<ItemView>, given: Seq<PartView>, at: int, count: int)
    requires
        0 <= at < count <= items.len(),
        items[at].path == given,
        forall|i: int| at < i < count ==> (#[trigger] items[i]).path != given,
    ensures
        item_at(items, given, count) == Some(items[at]),
    decreases count,
{
    if at < count - 1 {
        assert(items[count - 1].path != given);
        lemma_item_at(items, given, at, count - 1);
    }
}

proof fn lemma_no_item_at(items: Seq<ItemView>, given: Seq<PartView>, count: int)
    requires
        0 <= count <= items.len(),
        forall|i: int| 0 <= i < count ==> (#[trigger] items[i]).path != given,
    ensures
        item_at(items, given, count) is None,
    decreases count,
{
    if count > 0 {
        lemma_no_item_at(items, given, count - 1);
    }
}

struct Place<'a> {
    item: &'a ScannedItem,
    index: usize,
}

#[verifier::ext_equal]
struct PlaceView {
    item: ItemView,
    index: usize,
}

impl<'a> View for Place<'a> {
    type V = PlaceView;

    closed spec fn view(&self) -> PlaceView {
        PlaceView { item: self.item@, index: self.index }
    }
}

/// Items by their path, then by their place.
struct PlaceOrder;

spec fn place_at_most(left: PlaceView, right: PlaceView) -> bool {
    if left.item.path != right.item.path {
        path::at_most(left.item.path, right.item.path)
    } else {
        left.index <= right.index
    }
}

impl<'a> Ranking<Place<'a>> for PlaceOrder {
    closed spec fn at_most(&self, left: PlaceView, right: PlaceView) -> bool {
        place_at_most(left, right)
    }

    proof fn ranks(&self) {
        let le = |left: PlaceView, right: PlaceView| place_at_most(left, right);
        assert(le =~= |left: PlaceView, right: PlaceView| Ranking::<Place<'a>>::at_most(self, left, right));
        assert forall|a: PlaceView, b: PlaceView| #[trigger] le(a, b) || le(b, a) by {
            path::law_paths_are_totally_ordered(a.item.path, b.item.path);
        }
        assert forall|a: PlaceView, b: PlaceView, c: PlaceView| #[trigger] le(a, b) && #[trigger] le(
            b,
            c,
        ) implies le(a, c) by {
            path::law_paths_are_totally_ordered(a.item.path, b.item.path);
            path::law_paths_are_totally_ordered(b.item.path, c.item.path);
            path::law_paths_are_totally_ordered(a.item.path, c.item.path);
            if path::at_most(a.item.path, b.item.path) && path::at_most(b.item.path, c.item.path) {
                path::lemma_at_most_transitive(a.item.path, b.item.path, c.item.path);
            }
        }
    }

    fn not_after(&self, left: &Place<'a>, right: &Place<'a>) -> (result: bool) {
        if !left.item.path.same(&right.item.path) {
            left.item.path.not_after(&right.item.path)
        } else {
            left.index <= right.index
        }
    }
}

/// The items of a scan by their path.
pub struct PathIndex<'a> {
    places: Vec<Place<'a>>,
    items: Ghost<Seq<ItemView>>,
}

impl<'a> PathIndex<'a> {
    /// The items that the index is of.
    pub closed spec fn all(&self) -> Seq<ItemView> {
        self.items@
    }

    #[verifier::type_invariant]
    spec fn well_formed(self) -> bool {
        is_index(order::views(self.places@), self.items@) && self.items@.len() <= usize::MAX
    }

    pub fn new(source: &'a Vec<ScannedItem>) -> (result: Self)
        ensures
            result.all() == order::views(source@),
    {
        let ghost items = order::views(source@);
        let mut unsorted: Vec<Place<'a>> = Vec::new();
        let mut at: usize = 0;
        while at < source.len()
            invariant
                at <= source.len(),
                items == order::views(source@),
                unsorted@.len() == at,
                forall|k: int|
                    0 <= k < at ==> (#[trigger] unsorted@[k])@ == (PlaceView {
                        item: items[k],
                        index: k as usize,
                    }),
            decreases source.len() - at,
        {
            let place = Place { item: &source[at], index: at };
            unsorted.push(place);
            at = at + 1;
        }
        let ghost collected = order::views(unsorted@);
        let ghost rank = order::relation::<Place<'a>, PlaceOrder>(PlaceOrder);
        let places = order::sort_by_ranking(unsorted, &PlaceOrder);
        proof {
            order::lemma_relation_ranks::<Place<'a>, PlaceOrder>(PlaceOrder);
            order::law_sorted_is_an_ordered_permutation(collected, rank);
            let views = order::views(places@);
            assert forall|i: int, j: int| 0 <= i < j < views.len() implies place_at_most(
                #[trigger] views[i],
                #[trigger] views[j],
            ) by {
                assert(rank(views[i], views[j]));
            }
            assert forall|k: int| 0 <= k < views.len() implies (#[trigger] views[k]).index
                < items.len() && views[k].item == items[views[k].index as int] by {
                order::lemma_sorted_contains(collected, views[k], rank);
                assert(views.contains(views[k]));
                let p = choose|p: int| 0 <= p < collected.len() && collected[p] == views[k];
                assert(unsorted@[p]@ == collected[p]);
            }
            assert forall|i: int| 0 <= i < items.len() implies views.contains(
                PlaceView { item: #[trigger] items[i], index: i as usize },
            ) by {
                let wanted = PlaceView { item: items[i], index: i as usize };
                assert(unsorted@[i]@ == wanted);
                assert(collected[i] == wanted);
                order::lemma_sorted_contains(collected, wanted, rank);
            }
        }
        PathIndex { places, items: Ghost(items) }
    }

    /// How many entries have a path that comes no later than another.
    fn entries_up_to(&self, given: &FilePath) -> (result: usize)
        ensures
            result <= self.places@.len(),
            forall|k: int|
                0 <= k < result ==> path::at_most(
                    (#[trigger] order::views(self.places@)[k]).item.path,
                    given@,
                ),
            forall|k: int|
                result <= k < self.places@.len() ==> !path::at_most(
                    (#[trigger] order::views(self.places@)[k]).item.path,
                    given@,
                ),
    {
        proof {
            use_type_invariant(self);
        }
        let ghost views = order::views(self.places@);
        let mut low: usize = 0;
        let mut high: usize = self.places.len();
        while low < high
            invariant
                low <= high <= self.places@.len(),
                views == order::views(self.places@),
                forall|i: int, j: int|
                    0 <= i < j < views.len() ==> place_at_most(
                        #[trigger] views[i],
                        #[trigger] views[j],
                    ),
                forall|k: int|
                    0 <= k < low ==> path::at_most((#[trigger] views[k]).item.path, given@),
                forall|k: int|
                    high <= k < views.len() ==> !path::at_most(
                        (#[trigger] views[k]).item.path,
                        given@,
                    ),
            decreases high - low,
        {
            let middle: usize = low + (high - low) / 2;
            assert(views[middle as int] == self.places@[middle as int]@);
            if self.places[middle].item.path.not_after(given) {
                proof {
                    assert forall|k: int| 0 <= k < middle + 1 implies path::at_most(
                        (#[trigger] views[k]).item.path,
                        given@,
                    ) by {
                        if k < middle {
                            assert(place_at_most(views[k], views[middle as int]));
                            if views[k].item.path != views[middle as int].item.path {
                                path::lemma_at_most_transitive(
                                    views[k].item.path,
                                    views[middle as int].item.path,
                                    given@,
                                );
                            }
                        }
                    }
                }
                low = middle + 1;
            } else {
                proof {
                    assert forall|k: int| middle <= k < views.len() implies !path::at_most(
                        (#[trigger] views[k]).item.path,
                        given@,
                    ) by {
                        if middle < k {
                            assert(place_at_most(views[middle as int], views[k]));
                            if path::at_most(views[k].item.path, given@) && views[k].item.path
                                != views[middle as int].item.path {
                                path::lemma_at_most_transitive(
                                    views[middle as int].item.path,
                                    views[k].item.path,
                                    given@,
                                );
                            }
                        }
                    }
                }
                high = middle;
            }
        }
        low
    }

    /// The last item with a path.
    pub fn find(&self, given: &FilePath) -> (result: Option<&'a ScannedItem>)
        ensures
            match result {
                Some(item) => item_at(self.all(), given@, self.all().len() as int) == Some(item@),
                None => item_at(self.all(), given@, self.all().len() as int) is None,
            },
    {
        proof {
            use_type_invariant(self);
        }
        let ghost views = order::views(self.places@);
        let end = self.entries_up_to(given);
        if end > 0 {
            let last = &self.places[end - 1];
            assert(views[end - 1] == last@);
            if last.item.path.same(given) {
                proof {
                    lemma_found(views, self.all(), given@, end as int);
                }
                return Some(last.item);
            }
        }
        proof {
            lemma_not_found(views, self.all(), given@, end as int);
        }
        None
    }
}

spec fn is_index(views: Seq<PlaceView>, items: Seq<ItemView>) -> bool {
    &&& forall|i: int, j: int|
        0 <= i < j < views.len() ==> place_at_most(#[trigger] views[i], #[trigger] views[j])
    &&& forall|k: int|
        0 <= k < views.len() ==> (#[trigger] views[k]).index < items.len() && views[k].item
            == items[views[k].index as int]
    &&& forall|i: int|
        0 <= i < items.len() ==> views.contains(
            PlaceView { item: #[trigger] items[i], index: i as usize },
        )
}

proof fn lemma_entry_within(
    views: Seq<PlaceView>,
    items: Seq<ItemView>,
    given: Seq<PartView>,
    end: int,
    at: int,
) -> (place: int)
    requires
        is_index(views, items),
        0 <= end <= views.len(),
        0 <= at < items.len() <= usize::MAX,
        items[at].path == given,
        forall|k: int|
            end <= k < views.len() ==> !path::at_most((#[trigger] views[k]).item.path, given),
    ensures
        0 <= place < end,
        views[place] == (PlaceView { item: items[at], index: at as usize }),
{
    let wanted = PlaceView { item: items[at], index: at as usize };
    assert(views.contains(wanted));
    let place = choose|k: int| 0 <= k < views.len() && views[k] == wanted;
    path::law_paths_are_totally_ordered(given, given);
    if place >= end {
        assert(!path::at_most(views[place].item.path, given));
    }
    place
}

proof fn lemma_found(
    views: Seq<PlaceView>,
    items: Seq<ItemView>,
    given: Seq<PartView>,
    end: int,
)
    requires
        is_index(views, items),
        0 < end <= views.len(),
        items.len() <= usize::MAX,
        views[end - 1].item.path == given,
        forall|k: int|
            end <= k < views.len() ==> !path::at_most((#[trigger] views[k]).item.path, given),
    ensures
        item_at(items, given, items.len() as int) == Some(views[end - 1].item),
{
    let at = views[end - 1].index as int;
    assert forall|i: int| at < i < items.len() implies (#[trigger] items[i]).path != given by {
        if items[i].path == given {
            let k = lemma_entry_within(views, items, given, end, i);
            if k < end - 1 {
                assert(place_at_most(views[k], views[end - 1]));
            }
        }
    }
    lemma_item_at(items, given, at, items.len() as int);
}

proof fn lemma_not_found(
    views: Seq<PlaceView>,
    items: Seq<ItemView>,
    given: Seq<PartView>,
    end: int,
)
    requires
        is_index(views, items),
        0 <= end <= views.len(),
        items.len() <= usize::MAX,
        end > 0 ==> views[end - 1].item.path != given,
        forall|k: int| 0 <= k < end ==> path::at_most((#[trigger] views[k]).item.path, given),
        forall|k: int|
            end <= k < views.len() ==> !path::at_most((#[trigger] views[k]).item.path, given),
    ensures
        item_at(items, given, items.len() as int) is None,
{
    assert forall|i: int| 0 <= i < items.len() implies (#[trigger] items[i]).path != given by {
        if items[i].path == given {
            let k = lemma_entry_within(views, items, given, end, i);
            if k < end - 1 {
                assert(place_at_most(views[k], views[end - 1]));
            }
            path::law_paths_are_totally_ordered(given, views[end - 1].item.path);
        }
    }
    lemma_no_item_at(items, given, items.len() as int);
}

} // verus!
